//! Rewriting the lines of a playlist against a directory map.
use vstd::prelude::*;
use vstd::string::StrSliceExecFns;

use crate::index::DirMap;
use crate::index::{index_spec, lemma_depth_zero_collapse};
use crate::path::{components, get_last_n_segments, parse_path, path_key};

verus! {

/// What `str::trim` makes of a line.
pub uninterp spec fn trimmed(s: Seq<char>) -> Seq<char>;

/// Relies on `str::trim`: the line without leading and trailing whitespace,
/// which depends on its characters alone.
#[verifier::external_body]
fn trim_line(s: &str) -> (r: &str)
    ensures
        r@ == trimmed(s@),
{
    s.trim()
}

/// A trimmed line that starts with `#` is a comment.
pub open spec fn is_comment(t: Seq<char>) -> bool {
    t.len() > 0 && t[0] == '#'
}

/// What a trimmed playlist line `t` becomes: a comment stays as it is, a
/// reference becomes the path that the map holds under its key, and an empty
/// line, a reference without a key or one whose key is not in the map is
/// dropped.
pub open spec fn resolve_spec(
    m: Map<Seq<Seq<char>>, Seq<char>>,
    t: Seq<char>,
    n: nat,
    ignore_ext: bool,
) -> Option<Seq<char>> {
    if is_comment(t) {
        Some(t)
    } else if t.len() == 0 {
        None
    } else {
        match path_key(t, n, ignore_ext) {
            Some(k) => if m.contains_key(k) {
                Some(m[k])
            } else {
                None
            },
            None => None,
        }
    }
}

/// The output lines for the input lines `lines`, in their order.
pub open spec fn rewrite_all(
    m: Map<Seq<Seq<char>>, Seq<char>>,
    lines: Seq<Seq<char>>,
    n: nat,
    ignore_ext: bool,
) -> Seq<Seq<char>>
    decreases lines.len(),
{
    if lines.len() == 0 {
        Seq::empty()
    } else {
        rewrite_all(m, lines.drop_last(), n, ignore_ext) + match resolve_spec(
            m,
            trimmed(lines.last()),
            n,
            ignore_ext,
        ) {
            Some(o) => seq![o],
            None => Seq::empty(),
        }
    }
}

pub open spec fn out_view(r: Option<String>) -> Option<Seq<char>> {
    match r {
        Some(s) => Some(s@),
        None => None,
    }
}

/// What the trimmed line `t` becomes (see [`resolve_spec`]).
pub fn resolve_trimmed(map: &DirMap, t: &str, depth: u8, ignore_ext: bool) -> (r: Option<String>)
    requires
        map.wf(),
    ensures
        out_view(r) == resolve_spec(map@, t@, depth as nat, ignore_ext),
{
    let len = t.unicode_len();
    if len > 0 && t.get_char(0) == '#' {
        return Some(t.to_owned());
    }
    if len == 0 {
        return None;
    }
    let segments = parse_path(t);
    match get_last_n_segments(&segments, depth, ignore_ext) {
        Some(key) => match map.get(&key) {
            Some(p) => Some(p.as_str().to_owned()),
            None => None,
        },
        None => None,
    }
}

/// What the playlist line `line` becomes, once trimmed.
pub fn rewrite_line(map: &DirMap, line: &str, depth: u8, ignore_ext: bool) -> (r: Option<String>)
    requires
        map.wf(),
    ensures
        out_view(r) == resolve_spec(map@, trimmed(line@), depth as nat, ignore_ext),
{
    resolve_trimmed(map, trim_line(line), depth, ignore_ext)
}

/// Rewrites the lines of a playlist: comments are kept, references are
/// replaced by the indexed path of the file they name, and the rest is
/// dropped, the order being kept.
pub fn relativize(map: &DirMap, lines: &Vec<String>, depth: u8, ignore_ext: bool) -> (r: Vec<
    String,
>)
    requires
        map.wf(),
    ensures
        r.deep_view() == rewrite_all(map@, lines.deep_view(), depth as nat, ignore_ext),
{
    let ghost ls = lines.deep_view();
    let mut out: Vec<String> = Vec::new();
    let mut i: usize = 0;
    assert(ls.subrange(0, 0) =~= Seq::<Seq<char>>::empty());
    assert(out.deep_view() =~= Seq::<Seq<char>>::empty());
    while i < lines.len()
        invariant
            map.wf(),
            ls == lines.deep_view(),
            i <= lines.len(),
            out.deep_view() == rewrite_all(map@, ls.subrange(0, i as int), depth as nat, ignore_ext),
        decreases lines.len() - i,
    {
        assert(ls.subrange(0, i + 1).drop_last() =~= ls.subrange(0, i as int));
        assert(ls.subrange(0, i + 1).last() == lines[i as int]@);
        let ghost before = out.deep_view();
        match rewrite_line(map, lines[i].as_str(), depth, ignore_ext) {
            Some(o) => {
                let ghost ov = o@;
                out.push(o);
                assert(out.deep_view() =~= before + seq![ov]);
            },
            None => {
                assert(out.deep_view() =~= before + Seq::<Seq<char>>::empty());
            },
        }
        i = i + 1;
    }
    assert(ls.subrange(0, lines.len() as int) =~= ls);
    out
}

/// A comment is written out as it is, whether or not it reads like a path
/// that the map could resolve.
pub proof fn lemma_comment_kept(
    m: Map<Seq<Seq<char>>, Seq<char>>,
    t: Seq<char>,
    n: nat,
    ignore_ext: bool,
)
    requires
        is_comment(t),
    ensures
        resolve_spec(m, t, n, ignore_ext) == Some(t),
{
}

/// A reference to a path of fewer components than the depth is dropped.
pub proof fn lemma_short_reference_dropped(
    m: Map<Seq<Seq<char>>, Seq<char>>,
    t: Seq<char>,
    n: nat,
    ignore_ext: bool,
)
    requires
        !is_comment(t),
        components(t).len() < n,
    ensures
        resolve_spec(m, t, n, ignore_ext) is None,
{
}

/// At depth 0 every reference resolves to the last file indexed.
pub proof fn lemma_depth_zero_resolves_to_last(files: Seq<Seq<char>>, t: Seq<char>, ignore_ext: bool)
    requires
        files.len() > 0,
        !is_comment(t),
        t.len() > 0,
    ensures
        resolve_spec(index_spec(files, 0, ignore_ext), t, 0, ignore_ext) == Some(files.last()),
{
    lemma_depth_zero_collapse(files, ignore_ext, t);
}

/// Each line is rewritten on its own, in order: rewriting two runs of lines
/// one after the other gives the rewrites of each, one after the other.
pub proof fn lemma_rewrite_concat(
    m: Map<Seq<Seq<char>>, Seq<char>>,
    xs: Seq<Seq<char>>,
    ys: Seq<Seq<char>>,
    n: nat,
    ignore_ext: bool,
)
    ensures
        rewrite_all(m, xs + ys, n, ignore_ext) == rewrite_all(m, xs, n, ignore_ext) + rewrite_all(
            m,
            ys,
            n,
            ignore_ext,
        ),
    decreases ys.len(),
{
    if ys.len() == 0 {
        assert(xs + ys =~= xs);
        assert(rewrite_all(m, xs, n, ignore_ext) + rewrite_all(m, ys, n, ignore_ext)
            =~= rewrite_all(m, xs, n, ignore_ext));
    } else {
        assert((xs + ys).drop_last() =~= xs + ys.drop_last());
        assert((xs + ys).last() == ys.last());
        lemma_rewrite_concat(m, xs, ys.drop_last(), n, ignore_ext);
        let tail = match resolve_spec(m, trimmed(ys.last()), n, ignore_ext) {
            Some(o) => seq![o],
            None => Seq::<Seq<char>>::empty(),
        };
        assert(rewrite_all(m, xs + ys, n, ignore_ext) =~= rewrite_all(m, xs, n, ignore_ext)
            + rewrite_all(m, ys.drop_last(), n, ignore_ext) + tail);
    }
}

} // verus!
