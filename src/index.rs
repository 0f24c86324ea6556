//! The directory map: from segment keys to the paths of indexed files.
use vstd::prelude::*;

use crate::path::{
    components, copy_name, get_last_n_segments, parse_path, path_key, stem, strip_extension,
};

verus! {

/// The map built from a list of entries, later entries overriding earlier
/// ones with the same key.
pub open spec fn map_of(keys: Seq<Seq<Seq<char>>>, paths: Seq<Seq<char>>) -> Map<
    Seq<Seq<char>>,
    Seq<char>,
>
    decreases keys.len(),
{
    if keys.len() == 0 || paths.len() == 0 {
        Map::empty()
    } else {
        map_of(keys.drop_last(), paths.drop_last()).insert(keys.last(), paths.last())
    }
}

/// The map that indexing `files` (relative paths, in the order met) at depth
/// `n` gives: each file with a key is entered under it, the last one met
/// winning where keys collide.
pub open spec fn index_spec(files: Seq<Seq<char>>, n: nat, ignore_ext: bool) -> Map<
    Seq<Seq<char>>,
    Seq<char>,
>
    decreases files.len(),
{
    if files.len() == 0 {
        Map::empty()
    } else {
        let m = index_spec(files.drop_last(), n, ignore_ext);
        match path_key(files.last(), n, ignore_ext) {
            Some(k) => m.insert(k, files.last()),
            None => m,
        }
    }
}

pub proof fn lemma_map_of_dom(keys: Seq<Seq<Seq<char>>>, paths: Seq<Seq<char>>)
    requires
        keys.len() == paths.len(),
    ensures
        map_of(keys, paths).dom() == keys.to_set(),
    decreases keys.len(),
{
    if keys.len() > 0 {
        lemma_map_of_dom(keys.drop_last(), paths.drop_last());
        assert(keys =~= keys.drop_last().push(keys.last()));
        keys.drop_last().lemma_push_to_set_commute(keys.last());
        assert(map_of(keys, paths).dom() =~= keys.to_set());
    } else {
        assert(map_of(keys, paths).dom() =~= keys.to_set());
    }
}

pub proof fn lemma_map_of_at(keys: Seq<Seq<Seq<char>>>, paths: Seq<Seq<char>>, i: int)
    requires
        keys.len() == paths.len(),
        keys.no_duplicates(),
        0 <= i < keys.len(),
    ensures
        map_of(keys, paths).contains_key(keys[i]),
        map_of(keys, paths)[keys[i]] == paths[i],
    decreases keys.len(),
{
    if i < keys.len() - 1 {
        lemma_map_of_at(keys.drop_last(), paths.drop_last(), i);
    }
}

pub proof fn lemma_map_of_update(
    keys: Seq<Seq<Seq<char>>>,
    paths: Seq<Seq<char>>,
    i: int,
    p: Seq<char>,
)
    requires
        keys.len() == paths.len(),
        keys.no_duplicates(),
        0 <= i < keys.len(),
    ensures
        map_of(keys, paths.update(i, p)) == map_of(keys, paths).insert(keys[i], p),
    decreases keys.len(),
{
    let ps = paths.update(i, p);
    if i == keys.len() - 1 {
        assert(ps.drop_last() =~= paths.drop_last());
        assert(map_of(keys, ps) =~= map_of(keys, paths).insert(keys[i], p));
    } else {
        assert(ps.drop_last() =~= paths.drop_last().update(i, p));
        lemma_map_of_update(keys.drop_last(), paths.drop_last(), i, p);
        assert(keys.last() != keys[i]);
        assert(map_of(keys, ps) =~= map_of(keys, paths).insert(keys[i], p));
    }
}

/// Finite map from segment keys to relative file paths, held as two
/// parallel vectors with distinct keys.
pub struct DirMap {
    keys: Vec<Vec<String>>,
    paths: Vec<String>,
}

impl View for DirMap {
    type V = Map<Seq<Seq<char>>, Seq<char>>;

    closed spec fn view(&self) -> Map<Seq<Seq<char>>, Seq<char>> {
        map_of(self.keys.deep_view(), self.paths.deep_view())
    }
}

impl DirMap {
    pub closed spec fn wf(&self) -> bool {
        &&& self.keys.len() == self.paths.len()
        &&& self.keys.deep_view().no_duplicates()
    }

    /// The empty map.
    pub fn new() -> (r: DirMap)
        ensures
            r.wf(),
            r@ == Map::<Seq<Seq<char>>, Seq<char>>::empty(),
    {
        let r = DirMap { keys: Vec::new(), paths: Vec::new() };
        assert(r.keys.deep_view().no_duplicates());
        r
    }

    /// Number of keys in the map.
    pub fn len(&self) -> (r: usize)
        requires
            self.wf(),
        ensures
            self@.dom().finite(),
            r == self@.dom().len(),
    {
        proof {
            lemma_map_of_dom(self.keys.deep_view(), self.paths.deep_view());
            self.keys.deep_view().unique_seq_to_set();
        }
        self.keys.len()
    }

    fn find(&self, key: &Vec<String>) -> (r: Option<usize>)
        requires
            self.wf(),
        ensures
            match r {
                Some(i) => i < self.keys.len() && self.keys.deep_view()[i as int] == key.deep_view(),
                None => !self.keys.deep_view().contains(key.deep_view()),
            },
    {
        let mut i: usize = 0;
        while i < self.keys.len()
            invariant
                self.wf(),
                i <= self.keys.len(),
                forall|j: int| 0 <= j < i ==> self.keys.deep_view()[j] != key.deep_view(),
            decreases self.keys.len() - i,
        {
            if keys_equal(&self.keys[i], key) {
                return Some(i);
            }
            i = i + 1;
        }
        None
    }

    /// Enters `path` under `key`, replacing what was there.
    pub fn insert(&mut self, key: Vec<String>, path: String)
        requires
            old(self).wf(),
        ensures
            final(self).wf(),
            final(self)@ == old(self)@.insert(key.deep_view(), path@),
    {
        let ghost ks = self.keys.deep_view();
        let ghost ps = self.paths.deep_view();
        match self.find(&key) {
            Some(i) => {
                self.paths.set(i, path);
                proof {
                    assert(self.paths.deep_view() =~= ps.update(i as int, path@));
                    lemma_map_of_update(ks, ps, i as int, path@);
                }
            },
            None => {
                self.keys.push(key);
                self.paths.push(path);
                proof {
                    assert(self.keys.deep_view() =~= ks.push(key.deep_view()));
                    assert(self.paths.deep_view() =~= ps.push(path@));
                    assert(self.keys.deep_view().drop_last() =~= ks);
                    assert(self.paths.deep_view().drop_last() =~= ps);
                    assert forall|a: int, b: int|
                        0 <= a < b < self.keys.deep_view().len() implies self.keys.deep_view()[a]
                        != self.keys.deep_view()[b] by {
                        if b == ks.len() {
                            assert(ks[a] == self.keys.deep_view()[a]);
                        }
                    }
                }
            },
        }
    }

    /// The path entered under `key`, if any.
    pub fn get(&self, key: &Vec<String>) -> (r: Option<&String>)
        requires
            self.wf(),
        ensures
            match r {
                Some(p) => self@.contains_key(key.deep_view()) && self@[key.deep_view()]
                    == p@,
                None => !self@.contains_key(key.deep_view()),
            },
    {
        proof {
            lemma_map_of_dom(self.keys.deep_view(), self.paths.deep_view());
        }
        match self.find(key) {
            Some(i) => {
                proof {
                    lemma_map_of_at(self.keys.deep_view(), self.paths.deep_view(), i as int);
                }
                Some(&self.paths[i])
            },
            None => None,
        }
    }
}

fn keys_equal(a: &Vec<String>, b: &Vec<String>) -> (r: bool)
    ensures
        r == (a.deep_view() == b.deep_view()),
{
    if a.len() != b.len() {
        assert(a.deep_view().len() != b.deep_view().len());
        return false;
    }
    let mut i: usize = 0;
    while i < a.len()
        invariant
            a.len() == b.len(),
            i <= a.len(),
            forall|j: int| 0 <= j < i ==> a.deep_view()[j] == b.deep_view()[j],
        decreases a.len() - i,
    {
        if a[i] != b[i] {
            assert(a.deep_view()[i as int] != b.deep_view()[i as int]);
            return false;
        }
        i = i + 1;
    }
    assert(a.deep_view() =~= b.deep_view());
    true
}

/// Builds the directory map of `files`, the paths of the regular files under
/// a root relative to it, in the order in which the walk met them.
pub fn index_files(files: &Vec<String>, depth: u8, ignore_ext: bool) -> (r: DirMap)
    ensures
        r.wf(),
        r@ == index_spec(files.deep_view(), depth as nat, ignore_ext),
{
    let ghost fs = files.deep_view();
    let mut map = DirMap::new();
    let mut i: usize = 0;
    assert(fs.subrange(0, 0) =~= Seq::<Seq<char>>::empty());
    while i < files.len()
        invariant
            fs == files.deep_view(),
            i <= files.len(),
            map.wf(),
            map@ == index_spec(fs.subrange(0, i as int), depth as nat, ignore_ext),
        decreases files.len() - i,
    {
        let f = &files[i];
        assert(fs.subrange(0, i + 1).drop_last() =~= fs.subrange(0, i as int));
        assert(fs.subrange(0, i + 1).last() == f@);
        let segments = parse_path(f.as_str());
        match get_last_n_segments(&segments, depth, ignore_ext) {
            Some(key) => {
                map.insert(key, copy_name(f));
            },
            None => {},
        }
        i = i + 1;
    }
    assert(fs.subrange(0, files.len() as int) =~= fs);
    map
}

/// Indexing and lookup derive keys alike: the key of an indexed file is in
/// the map, under a file with that same key; and it is that very file where
/// no file met after it shares its key.
pub proof fn lemma_index_round_trip(files: Seq<Seq<char>>, i: int, n: nat, ignore_ext: bool)
    requires
        0 <= i < files.len(),
        path_key(files[i], n, ignore_ext) is Some,
    ensures
        ({
            let k = path_key(files[i], n, ignore_ext)->0;
            let m = index_spec(files, n, ignore_ext);
            &&& m.contains_key(k)
            &&& path_key(m[k], n, ignore_ext) == Some(k)
            &&& (forall|j: int|
                i < j < files.len() ==> #[trigger] path_key(files[j], n, ignore_ext) != Some(k))
                ==> m[k] == files[i]
        }),
    decreases files.len(),
{
    let k = path_key(files[i], n, ignore_ext)->0;
    let rest = files.drop_last();
    if i < files.len() - 1 {
        lemma_index_round_trip(rest, i, n, ignore_ext);
        assert(rest[i] == files[i]);
        if forall|j: int|
            i < j < files.len() ==> #[trigger] path_key(files[j], n, ignore_ext) != Some(k) {
            assert forall|j: int| i < j < rest.len() implies #[trigger] path_key(
                rest[j],
                n,
                ignore_ext,
            ) != Some(k) by {
                assert(rest[j] == files[j]);
                assert(path_key(files[j], n, ignore_ext) != Some(k));
            }
            assert(path_key(files[files.len() - 1], n, ignore_ext) != Some(k));
        }
    }
}

/// The index holds one key at most when every path has the same key, and
/// then the last file with a key wins.
proof fn lemma_single_key_index(files: Seq<Seq<char>>, n: nat, ignore_ext: bool, k: Seq<Seq<char>>)
    requires
        forall|j: int| 0 <= j < files.len() ==> #[trigger] path_key(files[j], n, ignore_ext) == Some(
            k,
        ),
    ensures
        index_spec(files, n, ignore_ext).dom() == (if files.len() == 0 {
            Set::<Seq<Seq<char>>>::empty()
        } else {
            set![k]
        }),
        files.len() > 0 ==> index_spec(files, n, ignore_ext)[k] == files.last(),
    decreases files.len(),
{
    if files.len() > 0 {
        let rest = files.drop_last();
        assert forall|j: int| 0 <= j < rest.len() implies #[trigger] path_key(
            rest[j],
            n,
            ignore_ext,
        ) == Some(k) by {
            assert(rest[j] == files[j]);
        }
        assert(path_key(files[files.len() - 1], n, ignore_ext) == Some(k));
        lemma_single_key_index(rest, n, ignore_ext, k);
        assert(index_spec(files, n, ignore_ext).dom() =~= set![k]);
    } else {
        assert(index_spec(files, n, ignore_ext).dom() =~= Set::<Seq<Seq<char>>>::empty());
    }
}

/// At depth 0 every path has the empty key: the index holds at most one
/// entry, and that entry is the last file met.
pub proof fn lemma_depth_zero_collapse(files: Seq<Seq<char>>, ignore_ext: bool, p: Seq<char>)
    ensures
        path_key(p, 0, ignore_ext) == Some(Seq::<Seq<char>>::empty()),
        index_spec(files, 0, ignore_ext).dom().finite(),
        index_spec(files, 0, ignore_ext).dom().len() <= 1,
        files.len() > 0 ==> index_spec(files, 0, ignore_ext).contains_key(Seq::empty())
            && index_spec(files, 0, ignore_ext)[Seq::empty()] == files.last(),
{
    assert forall|q: Seq<char>| #[trigger] path_key(q, 0, ignore_ext) == Some(
        Seq::<Seq<char>>::empty(),
    ) by {
        assert(path_key(q, 0, ignore_ext)->0 =~= Seq::<Seq<char>>::empty());
    }
    lemma_single_key_index(files, 0, ignore_ext, Seq::empty());
    if files.len() > 0 {
        assert(set![Seq::<Seq<char>>::empty()].len() == 1);
    }
}

/// Two paths alike but for the extension of their final name, say
/// `a/song.mp3` and `a/song.flac`: with extensions ignored they share a key
/// and the later one indexed shadows the other; with extensions kept their
/// keys differ and both are indexed.
pub proof fn lemma_extension_collision(a: Seq<char>, b: Seq<char>, n: nat)
    requires
        components(a).len() == components(b).len(),
        components(a).len() > 0,
        forall|i: int| 0 <= i < components(a).len() - 1 ==> components(a)[i] == components(b)[i],
        components(a).last() is Normal,
        components(b).last() is Normal,
        components(a).last()->Normal_0 != components(b).last()->Normal_0,
        stem(components(a).last()->Normal_0) == stem(components(b).last()->Normal_0),
        1 <= n,
        path_key(a, n, true) is Some,
    ensures
        path_key(a, n, true) == path_key(b, n, true),
        index_spec(seq![a, b], n, true) == map![path_key(a, n, true)->0 => b],
        path_key(a, n, false) is Some,
        path_key(b, n, false) is Some,
        path_key(a, n, false) != path_key(b, n, false),
        index_spec(seq![a, b], n, false) == map![
            path_key(a, n, false)->0 => a,
            path_key(b, n, false)->0 => b,
        ],
{
    let ca = components(a);
    let cb = components(b);
    let len = ca.len();
    let sa = strip_extension(ca, true);
    let sb = strip_extension(cb, true);
    assert(sa =~= sb) by {
        assert forall|i: int| 0 <= i < len implies sa[i] == sb[i] by {
            if i < len - 1 {
                assert(ca[i] == cb[i]);
            }
        }
    }
    assert(n <= len);
    assert forall|i: int| len - n <= i < len implies (#[trigger] ca[i]) is Normal by {
        assert(sa[i] is Normal);
    }
    assert forall|i: int| len - n <= i < len implies (#[trigger] cb[i]) is Normal by {
        assert(sb[i] is Normal);
    }
    let ka = path_key(a, n, false)->0;
    let kb = path_key(b, n, false)->0;
    assert(ka[n - 1] == ca.last()->Normal_0);
    assert(kb[n - 1] == cb.last()->Normal_0);
    assert(ka != kb);
    let two = seq![a, b];
    assert(two.drop_last() =~= seq![a]);
    assert(seq![a].drop_last() =~= Seq::<Seq<char>>::empty());
    assert(two.last() == b);
    assert(seq![a].last() == a);
    let kt = path_key(a, n, true)->0;
    let none = Map::<Seq<Seq<char>>, Seq<char>>::empty();
    assert(index_spec(Seq::<Seq<char>>::empty(), n, true) == none);
    assert(index_spec(Seq::<Seq<char>>::empty(), n, false) == none);
    assert(index_spec(seq![a].drop_last(), n, true) == none);
    assert(index_spec(seq![a].drop_last(), n, false) == none);
    assert(path_key(b, n, true) == Some(kt));
    assert(index_spec(seq![a], n, true) == none.insert(kt, a));
    assert(index_spec(seq![a], n, false) == none.insert(ka, a));
    assert(index_spec(two, n, true) =~= map![path_key(a, n, true)->0 => b]);
    assert(index_spec(two, n, false) =~= map![ka => a, kb => b]);
}

} // verus!
