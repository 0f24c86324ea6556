//! Paths as sequences of components, and the segment keys derived from them.
use vstd::prelude::*;
use vstd::string::StrSliceExecFns;

verus! {

/// One component of a Unix path, as the path's text splits into them.
#[derive(Debug, PartialEq, Eq)]
pub enum Segment {
    /// The leading `/` of an absolute path.
    Root,
    /// A leading `.` of a relative path.
    Current,
    /// A `..`.
    Parent,
    /// Any other name between separators.
    Normal(String),
}

/// The mathematical model of a [`Segment`].
pub enum SegmentView {
    Root,
    Current,
    Parent,
    Normal(Seq<char>),
}

impl DeepView for Segment {
    type V = SegmentView;

    open spec fn deep_view(&self) -> SegmentView {
        match self {
            Segment::Root => SegmentView::Root,
            Segment::Current => SegmentView::Current,
            Segment::Parent => SegmentView::Parent,
            Segment::Normal(name) => SegmentView::Normal(name@),
        }
    }
}

/// Scans `s` from the left: the pieces closed by a `/` so far, and the open piece.
pub open spec fn scan(s: Seq<char>) -> (Seq<Seq<char>>, Seq<char>)
    decreases s.len(),
{
    if s.len() == 0 {
        (Seq::empty(), Seq::empty())
    } else {
        let (done, open) = scan(s.drop_last());
        if s.last() == '/' {
            (done.push(open), Seq::empty())
        } else {
            (done, open.push(s.last()))
        }
    }
}

/// The texts between the `/` separators of `s`, empty ones included.
pub open spec fn pieces(s: Seq<char>) -> Seq<Seq<char>> {
    scan(s).0.push(scan(s).1)
}

/// What one piece contributes: empty pieces and `.` vanish (but for a leading
/// `.`), `..` is the parent, anything else a name.
pub open spec fn piece_components(p: Seq<char>, first: bool) -> Seq<SegmentView> {
    if p.len() == 0 {
        Seq::empty()
    } else if p == seq!['.'] {
        if first {
            seq![SegmentView::Current]
        } else {
            Seq::empty()
        }
    } else if p == seq!['.', '.'] {
        seq![SegmentView::Parent]
    } else {
        seq![SegmentView::Normal(p)]
    }
}

pub open spec fn classify(ps: Seq<Seq<char>>) -> Seq<SegmentView>
    decreases ps.len(),
{
    if ps.len() == 0 {
        Seq::empty()
    } else {
        classify(ps.drop_last()) + piece_components(ps.last(), ps.len() == 1)
    }
}

pub open spec fn is_rooted(s: Seq<char>) -> bool {
    s.len() > 0 && s[0] == '/'
}

/// The components of the Unix path written `s`.
pub open spec fn components(s: Seq<char>) -> Seq<SegmentView> {
    let root = if is_rooted(s) {
        seq![SegmentView::Root]
    } else {
        Seq::empty()
    };
    root + classify(pieces(s))
}

/// Position of the last `.` in `n`, or -1.
pub open spec fn last_dot(n: Seq<char>) -> int
    decreases n.len(),
{
    if n.len() == 0 {
        -1
    } else if n.last() == '.' {
        n.len() - 1
    } else {
        last_dot(n.drop_last())
    }
}

/// A file name without its extension: the part before the last `.`, unless
/// that `.` opens the name.
pub open spec fn stem(n: Seq<char>) -> Seq<char> {
    if last_dot(n) > 0 {
        n.subrange(0, last_dot(n))
    } else {
        n
    }
}

/// The components with the extension taken off the final one, if asked for
/// and if that one is a name.
pub open spec fn strip_extension(c: Seq<SegmentView>, ignore_ext: bool) -> Seq<SegmentView> {
    if ignore_ext && c.len() > 0 && c.last() is Normal {
        c.update(c.len() - 1, SegmentView::Normal(stem(c.last()->Normal_0)))
    } else {
        c
    }
}

/// The key of a path at depth `n`: the names of its last `n` components, in
/// path order, or nothing where there are fewer than `n` of them or one of
/// them is not a name.
pub open spec fn key_of(c: Seq<SegmentView>, n: nat, ignore_ext: bool) -> Option<Seq<Seq<char>>> {
    let p = strip_extension(c, ignore_ext);
    if n <= p.len() && forall|i: int| p.len() - n <= i < p.len() ==> (#[trigger] p[i]) is Normal {
        Some(Seq::new(n, |j: int| p[p.len() - n + j]->Normal_0))
    } else {
        None
    }
}

/// The key of the path written `s`.
pub open spec fn path_key(s: Seq<char>, n: nat, ignore_ext: bool) -> Option<Seq<Seq<char>>> {
    key_of(components(s), n, ignore_ext)
}

pub open spec fn key_view(k: Option<Vec<String>>) -> Option<Seq<Seq<char>>> {
    match k {
        Some(v) => Some(v.deep_view()),
        None => None,
    }
}

fn is_dot(p: &str) -> (r: bool)
    ensures
        r == (p@ == seq!['.']),
{
    if p.unicode_len() == 1 {
        let c = p.get_char(0);
        if c == '.' {
            assert(p@ =~= seq!['.']);
        }
        c == '.'
    } else {
        false
    }
}

fn is_dot_dot(p: &str) -> (r: bool)
    ensures
        r == (p@ == seq!['.', '.']),
{
    if p.unicode_len() == 2 {
        let c0 = p.get_char(0);
        let c1 = p.get_char(1);
        if c0 == '.' && c1 == '.' {
            assert(p@ =~= seq!['.', '.']);
        }
        c0 == '.' && c1 == '.'
    } else {
        false
    }
}

fn push_piece(out: &mut Vec<Segment>, p: &str, first: bool)
    ensures
        final(out).deep_view() == old(out).deep_view() + piece_components(p@, first),
{
    let ghost before = out.deep_view();
    if p.unicode_len() == 0 {
    } else if is_dot(p) {
        if first {
            out.push(Segment::Current);
        }
    } else if is_dot_dot(p) {
        out.push(Segment::Parent);
    } else {
        out.push(Segment::Normal(p.to_owned()));
    }
    assert(out.deep_view() =~= before + piece_components(p@, first));
}

/// Splits the text of a Unix path into its components: a leading `/` gives
/// [`Segment::Root`], repeated separators and `.` are dropped (but for a
/// leading `.`), `..` gives [`Segment::Parent`].
pub fn parse_path(s: &str) -> (r: Vec<Segment>)
    ensures
        r.deep_view() == components(s@),
{
    let n = s.unicode_len();
    let mut out: Vec<Segment> = Vec::new();
    if n > 0 && s.get_char(0) == '/' {
        out.push(Segment::Root);
    }
    let ghost root = out.deep_view();
    assert(root =~= if is_rooted(s@) { seq![SegmentView::Root] } else { Seq::empty() });
    let mut start: usize = 0;
    let mut i: usize = 0;
    let mut count: usize = 0;
    assert(s@.subrange(0, 0) =~= Seq::<char>::empty());
    while i < n
        invariant
            n == s@.len(),
            start <= i <= n,
            count <= i,
            count == scan(s@.subrange(0, i as int)).0.len(),
            out.deep_view() == root + classify(scan(s@.subrange(0, i as int)).0),
            scan(s@.subrange(0, i as int)).1 == s@.subrange(start as int, i as int),
        decreases n - i,
    {
        let c = s.get_char(i);
        let ghost prev = s@.subrange(0, i as int);
        let ghost next = s@.subrange(0, i + 1);
        assert(next.drop_last() =~= prev);
        assert(next.last() == c);
        if c == '/' {
            let p = s.substring_char(start, i);
            let ghost ps = scan(prev).0.push(scan(prev).1);
            assert(ps.drop_last() =~= scan(prev).0);
            push_piece(&mut out, p, count == 0);
            assert(out.deep_view() =~= root + classify(ps));
            count = count + 1;
            start = i + 1;
            assert(scan(next).1 =~= s@.subrange(start as int, i + 1));
        } else {
            assert(scan(next).1 =~= s@.subrange(start as int, i + 1));
        }
        i = i + 1;
    }
    assert(s@.subrange(0, n as int) =~= s@);
    let p = s.substring_char(start, n);
    let ghost ps = pieces(s@);
    assert(ps.drop_last() =~= scan(s@).0);
    push_piece(&mut out, p, count == 0);
    assert(out.deep_view() =~= root + classify(ps));
    out
}

/// The file name `name` without its extension.
pub fn file_stem(name: &str) -> (r: String)
    ensures
        r@ == stem(name@),
{
    let len = name.unicode_len();
    let mut i: usize = len;
    assert(name@.subrange(0, len as int) =~= name@);
    while i > 0 && name.get_char(i - 1) != '.'
        invariant
            i <= len == name@.len(),
            last_dot(name@) == last_dot(name@.subrange(0, i as int)),
        decreases i,
    {
        assert(name@.subrange(0, i as int).drop_last() =~= name@.subrange(0, i - 1));
        i = i - 1;
    }
    if i > 0 {
        assert(name@.subrange(0, i as int).last() == '.');
    }
    if i > 1 {
        name.substring_char(0, i - 1).to_owned()
    } else {
        name.to_owned()
    }
}

/// A copy of `s`.
pub(crate) fn copy_name(s: &String) -> (r: String)
    ensures
        r@ == s@,
{
    s.as_str().to_owned()
}

/// The key of `path` at depth `n` (see [`key_of`]).
pub fn get_last_n_segments(path: &Vec<Segment>, n: u8, ignore_ext: bool) -> (r: Option<Vec<String>>)
    ensures
        key_view(r) == key_of(path.deep_view(), n as nat, ignore_ext),
{
    let ghost c = path.deep_view();
    let ghost p = strip_extension(c, ignore_ext);
    let len = path.len();
    if (n as usize) > len {
        return None;
    }
    let first = len - n as usize;
    let mut key: Vec<String> = Vec::new();
    let mut j: usize = first;
    while j < len
        invariant
            c == path.deep_view(),
            p == strip_extension(c, ignore_ext),
            len == path.len() == p.len(),
            first <= j <= len,
            first == len - n,
            forall|i: int| first <= i < j ==> (#[trigger] p[i]) is Normal,
            key.deep_view() =~= Seq::new((j - first) as nat, |k: int| p[first + k]->Normal_0),
        decreases len - j,
    {
        match &path[j] {
            Segment::Normal(name) => {
                let part = if ignore_ext && j == len - 1 {
                    assert(p[j as int] == SegmentView::Normal(stem(name@)));
                    file_stem(name.as_str())
                } else {
                    assert(p[j as int] == c[j as int]);
                    copy_name(name)
                };
                let ghost before = key.deep_view();
                key.push(part);
                assert(key.deep_view() =~= before.push(p[j as int]->Normal_0));
            },
            _ => {
                assert(!(p[j as int] is Normal));
                return None;
            },
        }
        j = j + 1;
    }
    Some(key)
}

} // verus!
