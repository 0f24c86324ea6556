use m3u_relativize::default_depth;
use m3u_relativize::index::{index_files, DirMap};
use m3u_relativize::path::{file_stem, get_last_n_segments, parse_path, Segment};
use m3u_relativize::playlist::{relativize, resolve_trimmed, rewrite_line};

fn strings(v: &[&str]) -> Vec<String> {
    v.iter().map(|s| s.to_string()).collect()
}

fn index(files: &[&str], depth: u8, ignore_ext: bool) -> DirMap {
    index_files(&strings(files), depth, ignore_ext)
}

#[test]
fn default_depth_is_one() {
    assert_eq!(default_depth(), 1);
}

#[test]
fn parse_absolute_path() {
    let p = parse_path("/a//b/./c/");
    assert_eq!(
        p,
        vec![
            Segment::Root,
            Segment::Normal("a".to_string()),
            Segment::Normal("b".to_string()),
            Segment::Normal("c".to_string()),
        ]
    );
}

#[test]
fn parse_relative_paths() {
    assert_eq!(
        parse_path("./a"),
        vec![Segment::Current, Segment::Normal("a".to_string())]
    );
    assert_eq!(
        parse_path("a/../b"),
        vec![
            Segment::Normal("a".to_string()),
            Segment::Parent,
            Segment::Normal("b".to_string()),
        ]
    );
    assert_eq!(parse_path(""), Vec::<Segment>::new());
    assert_eq!(parse_path("a/."), vec![Segment::Normal("a".to_string())]);
}

#[test]
fn stems_of_file_names() {
    assert_eq!(file_stem("song.mp3"), "song");
    assert_eq!(file_stem("a.tar.gz"), "a.tar");
    assert_eq!(file_stem(".hidden"), ".hidden");
    assert_eq!(file_stem("noext"), "noext");
    assert_eq!(file_stem("a."), "a");
    assert_eq!(file_stem(""), "");
}

#[test]
fn keys_take_trailing_segments_in_order() {
    let p = parse_path("music/rock/song.mp3");
    assert_eq!(
        get_last_n_segments(&p, 2, true),
        Some(strings(&["rock", "song"]))
    );
    assert_eq!(
        get_last_n_segments(&p, 2, false),
        Some(strings(&["rock", "song.mp3"]))
    );
    assert_eq!(get_last_n_segments(&p, 0, true), Some(Vec::new()));
    assert_eq!(get_last_n_segments(&p, 4, true), None);
    let up = parse_path("../song.mp3");
    assert_eq!(get_last_n_segments(&up, 2, true), None);
    let rooted = parse_path("/song.mp3");
    assert_eq!(get_last_n_segments(&rooted, 2, true), None);
}

#[test]
fn absolute_reference_resolves_to_relative_path() {
    let map = index(&["music/rock/song.mp3"], 2, true);
    let out = relativize(&map, &strings(&["/absolute/other/root/rock/song.mp3\n"]), 2, true);
    assert_eq!(out, strings(&["music/rock/song.mp3"]));
}

#[test]
fn strict_extension_mismatch_is_dropped() {
    let map = index(&["music/rock/song.mp3"], 2, false);
    let out = relativize(&map, &strings(&["rock/song.flac\n"]), 2, false);
    assert!(out.is_empty());
}

#[test]
fn comment_unmatched_and_matched_keep_order() {
    let map = index(&["music/rock/song.mp3"], 2, true);
    let lines = strings(&["# generator=foo\n", "jazz/tune.mp3\n", "rock/song.mp3\n"]);
    let out = relativize(&map, &lines, 2, true);
    assert_eq!(out, strings(&["# generator=foo", "music/rock/song.mp3"]));
}

#[test]
fn indexed_files_find_themselves() {
    let files = ["music/rock/song.mp3", "music/jazz/tune.ogg", "b.wav", "x/y/z/deep.flac"];
    for depth in 1..=2u8 {
        for ignore in [true, false] {
            let map = index(&files, depth, ignore);
            for f in files {
                let has_key = f.split('/').count() >= depth as usize;
                let expected = if has_key { Some(f.to_string()) } else { None };
                assert_eq!(rewrite_line(&map, f, depth, ignore), expected);
            }
        }
    }
}

#[test]
fn depth_zero_collapses_to_last_file() {
    let map = index(&["a/one.mp3", "b/two.mp3", "c/three.mp3"], 0, true);
    assert_eq!(map.len(), 1);
    assert_eq!(
        rewrite_line(&map, "anything/else.ogg", 0, true),
        Some("c/three.mp3".to_string())
    );
    assert_eq!(
        rewrite_line(&map, "a/one.mp3", 0, true),
        Some("c/three.mp3".to_string())
    );
    assert_eq!(rewrite_line(&map, "   ", 0, true), None);
    let empty = index(&[], 0, true);
    assert_eq!(empty.len(), 0);
    assert_eq!(rewrite_line(&empty, "a/one.mp3", 0, true), None);
}

#[test]
fn extensions_collide_only_when_ignored() {
    let files = ["a/song.mp3", "a/song.flac"];
    let loose = index(&files, 2, true);
    assert_eq!(loose.len(), 1);
    assert_eq!(
        rewrite_line(&loose, "a/song.mp3", 2, true),
        Some("a/song.flac".to_string())
    );
    let strict = index(&files, 2, false);
    assert_eq!(strict.len(), 2);
    assert_eq!(
        rewrite_line(&strict, "a/song.mp3", 2, false),
        Some("a/song.mp3".to_string())
    );
    assert_eq!(
        rewrite_line(&strict, "a/song.flac", 2, false),
        Some("a/song.flac".to_string())
    );
}

#[test]
fn comments_pass_through_trimmed() {
    let map = index(&["music/rock/song.mp3"], 2, true);
    assert_eq!(
        rewrite_line(&map, "  #EXTM3U \r\n", 2, true),
        Some("#EXTM3U".to_string())
    );
    assert_eq!(
        rewrite_line(&map, "#music/rock/song.mp3", 2, true),
        Some("#music/rock/song.mp3".to_string())
    );
    assert_eq!(resolve_trimmed(&map, "#x", 2, true), Some("#x".to_string()));
}

#[test]
fn short_references_are_dropped() {
    let map = index(&["music/rock/song.mp3"], 3, true);
    assert_eq!(rewrite_line(&map, "song.mp3", 3, true), None);
    assert_eq!(rewrite_line(&map, "", 3, true), None);
    assert_eq!(
        rewrite_line(&map, "music/rock/song.mp3", 3, true),
        Some("music/rock/song.mp3".to_string())
    );
}

#[test]
fn surrounding_whitespace_is_trimmed_before_lookup() {
    let map = index(&["music/rock/song.mp3"], 1, true);
    assert_eq!(
        rewrite_line(&map, "   song.ogg\r\n", 1, true),
        Some("music/rock/song.mp3".to_string())
    );
    assert_eq!(resolve_trimmed(&map, "   song.ogg", 1, true), None);
}

#[test]
fn map_insert_replaces_and_get_finds() {
    let mut map = DirMap::new();
    map.insert(strings(&["a"]), "x/a".to_string());
    map.insert(strings(&["b"]), "x/b".to_string());
    map.insert(strings(&["a"]), "y/a".to_string());
    assert_eq!(map.len(), 2);
    assert_eq!(map.get(&strings(&["a"])), Some(&"y/a".to_string()));
    assert_eq!(map.get(&strings(&["c"])), None);
}
