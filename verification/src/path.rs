//! POSIX paths as byte strings, with the lexical operations on them.
//!
//! A path is read as a sequence of components. Runs of slashes count as one,
//! a trailing slash does not count, and a `.` counts only where it opens a
//! relative path. Two paths are the same path when their components are equal,
//! so `a//b/` and `a/./b` are one path spelled twice.

use crate::text::{read_lossy, read_strict, text_bytes, utf8_lossy};
use vstd::prelude::*;
use vstd::utf8::*;

verus! {

/// The byte that separates the pieces of a path.
pub const SLASH: u8 = 0x2f;

/// The byte of the `.` piece.
pub const DOT: u8 = 0x2e;

/// A path that starts at the root.
pub open spec fn is_absolute(p: Seq<u8>) -> bool {
    p.len() > 0 && p[0] == SLASH
}

/// A relative path whose first piece is `.`.
pub open spec fn opens_with_dot(p: Seq<u8>) -> bool {
    p.len() > 0 && p[0] == DOT && (p.len() == 1 || p[1] == SLASH)
}

/// A piece that names something: neither empty nor `.`.
pub open spec fn is_name(piece: Seq<u8>) -> bool {
    piece.len() > 0 && piece != seq![DOT]
}

/// The position of the last slash of `p`, or -1.
pub open spec fn last_slash(p: Seq<u8>) -> int
    decreases p.len(),
{
    if p.len() == 0 {
        -1
    } else if p.last() == SLASH {
        p.len() - 1
    } else {
        last_slash(p.drop_last())
    }
}

/// Where the names of `p` stand: the start and the end of each piece between
/// slashes that is a name.
pub open spec fn name_spans(p: Seq<u8>) -> Seq<(int, int)>
    decreases p.len(),
{
    if p.len() == 0 {
        Seq::empty()
    } else {
        let k = last_slash(p);
        let before = if 0 <= k < p.len() {
            name_spans(p.take(k))
        } else {
            Seq::empty()
        };
        if is_name(p.skip(k + 1)) {
            before.push((k + 1, p.len() as int))
        } else {
            before
        }
    }
}

/// Where the component before the names stands: the root of an absolute path,
/// or the `.` that opens a relative one.
pub open spec fn lead_spans(p: Seq<u8>) -> Seq<(int, int)> {
    if is_absolute(p) || opens_with_dot(p) {
        seq![(0int, 1int)]
    } else {
        Seq::empty()
    }
}

/// Where the components of `p` stand.
pub open spec fn spans(p: Seq<u8>) -> Seq<(int, int)> {
    lead_spans(p) + name_spans(p)
}

/// The texts of `p` at the given places.
pub open spec fn texts(p: Seq<u8>, s: Seq<(int, int)>) -> Seq<Seq<u8>> {
    Seq::new(s.len(), |i: int| p.subrange(s[i].0, s[i].1))
}

/// The components of `p`. The root is the component `/`.
pub open spec fn components(p: Seq<u8>) -> Seq<Seq<u8>> {
    texts(p, spans(p))
}

/// The names of `p`: its components without the root or the opening `.`.
pub open spec fn names(p: Seq<u8>) -> Seq<Seq<u8>> {
    texts(p, name_spans(p))
}

/// Two spellings of one path.
pub open spec fn same_path(p: Seq<u8>, q: Seq<u8>) -> bool {
    components(p) == components(q)
}

/// `p` is `base` or lies below it.
pub open spec fn inside(base: Seq<u8>, p: Seq<u8>) -> bool {
    components(base).is_prefix_of(components(p))
}

/// `rel` as seen from `base`: `rel` itself where it is absolute, otherwise
/// `base` and `rel` with one slash between them.
pub open spec fn join(base: Seq<u8>, rel: Seq<u8>) -> Seq<u8> {
    if is_absolute(rel) || base.len() == 0 {
        rel
    } else if base.last() == SLASH {
        base + rel
    } else {
        base.push(SLASH) + rel
    }
}

/// `p` without its last component and what follows it, or nothing where `p`
/// is empty or ends in the root.
pub open spec fn parent(p: Seq<u8>) -> Option<Seq<u8>> {
    let s = spans(p);
    if s.len() == 0 || (is_absolute(p) && s.len() == 1) {
        None
    } else if s.len() == 1 {
        Some(Seq::empty())
    } else {
        Some(p.take(s[s.len() - 2].1))
    }
}

/// What is left of `p` behind the components of `base`, from the first
/// component that is left to the last, or nothing where `p` does not start
/// with the components of `base`.
pub open spec fn strip_prefix(p: Seq<u8>, base: Seq<u8>) -> Option<Seq<u8>> {
    let s = spans(p);
    let n = components(base).len();
    if !inside(base, p) {
        None
    } else if n == s.len() {
        Some(Seq::empty())
    } else {
        Some(p.subrange(s[n as int].0, s.last().1))
    }
}

// ---------------------------------------------------------------------------
// Facts about slashes and spans
// ---------------------------------------------------------------------------

/// `last_slash` is the last position that holds a slash.
proof fn lemma_last_slash(p: Seq<u8>)
    ensures
        -1 <= last_slash(p) < p.len(),
        last_slash(p) >= 0 ==> p[last_slash(p)] == SLASH,
        forall|j: int| last_slash(p) < j < p.len() ==> p[j] != SLASH,
    decreases p.len(),
{
    if p.len() > 0 && p.last() != SLASH {
        let q = p.drop_last();
        lemma_last_slash(q);
        assert forall|j: int| last_slash(p) < j < p.len() implies p[j] != SLASH by {
            if j < p.len() - 1 {
                assert(q[j] == p[j]);
            }
        }
    }
}

/// A position that holds a slash and has none behind it is `last_slash`.
proof fn lemma_last_slash_is(p: Seq<u8>, k: int)
    requires
        -1 <= k < p.len(),
        k >= 0 ==> p[k] == SLASH,
        forall|j: int| k < j < p.len() ==> p[j] != SLASH,
    ensures
        last_slash(p) == k,
{
    lemma_last_slash(p);
}

/// The names of a prefix that ends in the piece from `start` to `i`.
proof fn lemma_name_spans_step(p: Seq<u8>, start: int, i: int)
    requires
        0 <= start <= i <= p.len(),
        start > 0 ==> p[start - 1] == SLASH,
        forall|j: int| start <= j < i ==> p[j] != SLASH,
    ensures
        name_spans(p.take(i)) == {
            let before = if start == 0 {
                Seq::empty()
            } else {
                name_spans(p.take(start - 1))
            };
            if is_name(p.subrange(start, i)) {
                before.push((start, i))
            } else {
                before
            }
        },
{
    let q = p.take(i);
    if i > 0 {
        lemma_last_slash_is(q, start - 1);
        assert(q.skip(start) == p.subrange(start, i));
        if start > 0 {
            assert(q.take(start - 1) == p.take(start - 1));
        }
    } else {
        assert(p.subrange(start, i).len() == 0);
    }
}

/// Each name span holds a name, and slashes or the ends of the path stand on
/// both sides of it. The spans come in order.
proof fn lemma_name_spans(p: Seq<u8>)
    ensures
        forall|i: int|
            #![trigger name_spans(p)[i]]
            0 <= i < name_spans(p).len() ==> {
                let s = name_spans(p)[i];
                &&& 0 <= s.0 < s.1 <= p.len()
                &&& is_name(p.subrange(s.0, s.1))
                &&& s.0 == 0 || p[s.0 - 1] == SLASH
                &&& s.1 == p.len() || p[s.1] == SLASH
                &&& forall|j: int| s.0 <= j < s.1 ==> p[j] != SLASH
            },
        forall|i: int, j: int|
            #![trigger name_spans(p)[i], name_spans(p)[j]]
            0 <= i < j < name_spans(p).len() ==> name_spans(p)[i].1 < name_spans(p)[j].0,
    decreases p.len(),
{
    if p.len() > 0 {
        lemma_last_slash(p);
        let k = last_slash(p);
        assert(p.skip(k + 1) == p.subrange(k + 1, p.len() as int));
        if k >= 0 {
            let q = p.take(k);
            lemma_name_spans(q);
            assert forall|i: int| 0 <= i < name_spans(q).len() implies {
                let s = #[trigger] name_spans(q)[i];
                &&& 0 <= s.0 < s.1 <= k
                &&& is_name(p.subrange(s.0, s.1))
                &&& s.0 == 0 || p[s.0 - 1] == SLASH
                &&& p[s.1] == SLASH
                &&& forall|j: int| s.0 <= j < s.1 ==> p[j] != SLASH
            } by {
                let s = name_spans(q)[i];
                assert(q.subrange(s.0, s.1) == p.subrange(s.0, s.1));
                assert forall|j: int| s.0 <= j < s.1 implies p[j] != SLASH by {
                    assert(q[j] == p[j]);
                }
            }
        }
    }
}

/// The spans of all components lie inside the path, in order.
proof fn lemma_spans(p: Seq<u8>)
    ensures
        forall|i: int|
            #![trigger spans(p)[i]]
            0 <= i < spans(p).len() ==> 0 <= spans(p)[i].0 < spans(p)[i].1 <= p.len(),
        forall|i: int, j: int|
            #![trigger spans(p)[i], spans(p)[j]]
            0 <= i < j < spans(p).len() ==> spans(p)[i].1 <= spans(p)[j].0,
        lead_spans(p).len() > 0 ==> forall|i: int|
            0 <= i < name_spans(p).len() ==> 1 <= #[trigger] name_spans(p)[i].0,
{
    lemma_name_spans(p);
    if lead_spans(p).len() > 0 {
        assert forall|i: int| 0 <= i < name_spans(p).len() implies 1
            <= #[trigger] name_spans(p)[i].0 by {
            let s = name_spans(p)[i];
            if s.0 == 0 {
                assert(p[0] == DOT);
                if s.1 > 1 {
                    assert(p[1] != SLASH);
                }
                assert(p.subrange(0, 1) == seq![DOT]);
            }
        }
    }
}

/// The piece that leads to the folder above.
pub open spec fn dot_dot() -> Seq<u8> {
    seq![DOT, DOT]
}

/// The names that are left of the components of a relative path once each `..`
/// has taken back the name before it, or nothing where one leads above the
/// start.
pub open spec fn resolve(c: Seq<Seq<u8>>) -> Option<Seq<Seq<u8>>>
    decreases c.len(),
{
    if c.len() == 0 {
        Some(Seq::empty())
    } else {
        match resolve(c.drop_last()) {
            None => None,
            Some(before) => if c.last() == dot_dot() {
                if before.len() == 0 {
                    None
                } else {
                    Some(before.drop_last())
                }
            } else if c.last() == seq![DOT] {
                Some(before)
            } else {
                Some(before.push(c.last()))
            },
        }
    }
}

/// The folder that is reached from `base` by entering each of `names`.
pub open spec fn descend(base: Seq<u8>, names: Seq<Seq<u8>>) -> Seq<u8>
    decreases names.len(),
{
    if names.len() == 0 {
        base
    } else {
        join(descend(base, names.drop_last()), names.last())
    }
}

// ---------------------------------------------------------------------------
// The path type
// ---------------------------------------------------------------------------

/// The span values of an executable list of spans.
pub open spec fn as_ints(v: Seq<(usize, usize)>) -> Seq<(int, int)> {
    Seq::new(v.len(), |i: int| (v[i].0 as int, v[i].1 as int))
}

/// The bytes of `p` from `start` to `end`.
fn bytes_between(p: &[u8], start: usize, end: usize) -> (r: Vec<u8>)
    requires
        start <= end <= p@.len(),
    ensures
        r@ == p@.subrange(start as int, end as int),
{
    let mut r: Vec<u8> = Vec::new();
    let mut i: usize = start;
    while i < end
        invariant
            start <= i <= end <= p@.len(),
            r@ == p@.subrange(start as int, i as int),
        decreases end - i,
    {
        r.push(p[i]);
        i = i + 1;
        assert(r@ == p@.subrange(start as int, i as int));
    }
    r
}

/// Whether two stretches of bytes are equal.
fn equal_between(p: &[u8], s: (usize, usize), q: &[u8], t: (usize, usize)) -> (r: bool)
    requires
        s.0 <= s.1 <= p@.len(),
        t.0 <= t.1 <= q@.len(),
    ensures
        r == (p@.subrange(s.0 as int, s.1 as int) == q@.subrange(t.0 as int, t.1 as int)),
{
    let ghost a = p@.subrange(s.0 as int, s.1 as int);
    let ghost b = q@.subrange(t.0 as int, t.1 as int);
    if s.1 - s.0 != t.1 - t.0 {
        assert(a.len() != b.len());
        return false;
    }
    let n: usize = s.1 - s.0;
    let mut i: usize = 0;
    while i < n
        invariant
            i <= n,
            n == s.1 - s.0,
            n == t.1 - t.0,
            s.0 <= s.1 <= p@.len(),
            t.0 <= t.1 <= q@.len(),
            a == p@.subrange(s.0 as int, s.1 as int),
            b == q@.subrange(t.0 as int, t.1 as int),
            forall|j: int| 0 <= j < i ==> a[j] == b[j],
        decreases n - i,
    {
        if p[s.0 + i] != q[t.0 + i] {
            assert(a[i as int] != b[i as int]);
            return false;
        }
        i = i + 1;
    }
    assert(a == b);
    true
}

/// The places of the components of `p`.
fn find_spans(p: &[u8]) -> (r: Vec<(usize, usize)>)
    ensures
        as_ints(r@) == spans(p@),
{
    let n: usize = p.len();
    let mut out: Vec<(usize, usize)> = Vec::new();
    if n > 0 && (p[0] == SLASH || (p[0] == DOT && (n == 1 || p[1] == SLASH))) {
        out.push((0, 1));
    }
    assert(as_ints(out@) == lead_spans(p@));
    let mut start: usize = 0;
    let mut i: usize = 0;
    while i < n
        invariant
            n == p@.len(),
            start <= i <= n,
            start > 0 ==> p@[start - 1] == SLASH,
            forall|j: int| start <= j < i ==> p@[j] != SLASH,
            as_ints(out@) == lead_spans(p@) + (if start == 0 {
                Seq::empty()
            } else {
                name_spans(p@.take(start - 1))
            }),
        decreases n - i,
    {
        if p[i] == SLASH {
            let ghost before = out@;
            proof {
                lemma_name_spans_step(p@, start as int, i as int);
                assert(p@.take((i + 1) - 1) == p@.take(i as int));
            }
            if piece_is_name(p, start, i) {
                out.push((start, i));
                assert(as_ints(out@) == as_ints(before).push((start as int, i as int)));
            }
            start = i + 1;
        }
        i = i + 1;
    }
    let ghost before = out@;
    proof {
        lemma_name_spans_step(p@, start as int, n as int);
        assert(p@.take(n as int) == p@);
    }
    if piece_is_name(p, start, n) {
        out.push((start, n));
        assert(as_ints(out@) == as_ints(before).push((start as int, n as int)));
    }
    assert(as_ints(out@) == spans(p@));
    out
}

/// Whether the piece of `p` from `start` to `end` is a name.
fn piece_is_name(p: &[u8], start: usize, end: usize) -> (r: bool)
    requires
        start <= end <= p@.len(),
    ensures
        r == is_name(p@.subrange(start as int, end as int)),
{
    let ghost piece = p@.subrange(start as int, end as int);
    if start == end {
        return false;
    }
    if end - start == 1 && p[start] == DOT {
        assert(piece == seq![DOT]);
        return false;
    }
    proof {
        if piece == seq![DOT] {
            assert(piece.len() == 1 && piece[0] == DOT);
        }
    }
    true
}

/// A path.
#[derive(Debug)]
pub struct FilePath {
    bytes: Vec<u8>,
}

impl View for FilePath {
    type V = Seq<u8>;

    closed spec fn view(&self) -> Seq<u8> {
        self.bytes@
    }
}

impl Clone for FilePath {
    fn clone(&self) -> (r: Self)
        ensures
            r@ == self@,
    {
        FilePath { bytes: bytes_between(self.bytes.as_slice(), 0, self.bytes.len()) }
    }
}

impl FilePath {
    /// The path that is spelled by `bytes`.
    pub fn from_bytes(bytes: Vec<u8>) -> (r: FilePath)
        ensures
            r@ == bytes@,
    {
        FilePath { bytes }
    }

    /// The path that is spelled by a text.
    pub fn from_text(text: &str) -> (r: FilePath)
        ensures
            r@ == encode_utf8(text@),
    {
        FilePath { bytes: text_bytes(text) }
    }

    /// The spelling of the path.
    pub fn as_bytes(&self) -> (r: &[u8])
        ensures
            r@ == self@,
    {
        self.bytes.as_slice()
    }

    /// The spelling of the path as a text, where it is one.
    pub fn to_text(&self) -> (r: Option<String>)
        ensures
            r is Some <==> valid_utf8(self@),
            r matches Some(s) ==> s@ == decode_utf8(self@),
            r matches Some(s) ==> encode_utf8(s@) == self@,
    {
        proof {
            if valid_utf8(self@) {
                decode_utf8_encode_utf8(self@);
            }
        }
        read_strict(self.bytes.as_slice())
    }

    /// The path as it is shown to the user.
    pub fn display(&self) -> (r: String)
        ensures
            r@ == utf8_lossy(self@),
            valid_utf8(self@) ==> encode_utf8(r@) == self@,
    {
        proof {
            if valid_utf8(self@) {
                decode_utf8_encode_utf8(self@);
            }
        }
        read_lossy(self.bytes.as_slice())
    }

    /// Whether nothing is spelled.
    pub fn is_empty(&self) -> (r: bool)
        ensures
            r == (self@.len() == 0),
    {
        self.bytes.len() == 0
    }

    /// Whether the path starts at the root.
    pub fn is_absolute(&self) -> (r: bool)
        ensures
            r == is_absolute(self@),
    {
        self.bytes.len() > 0 && self.bytes[0] == SLASH
    }

    /// `rel` as seen from this path.
    pub fn join(&self, rel: &FilePath) -> (r: FilePath)
        ensures
            r@ == join(self@, rel@),
    {
        if rel.is_absolute() {
            return rel.clone();
        }
        let n: usize = self.bytes.len();
        let mut bytes = bytes_between(self.bytes.as_slice(), 0, n);
        if n > 0 && self.bytes[n - 1] != SLASH {
            bytes.push(SLASH);
        }
        let mut tail = bytes_between(rel.bytes.as_slice(), 0, rel.bytes.len());
        bytes.append(&mut tail);
        let r = FilePath { bytes };
        assert(r@ == join(self@, rel@));
        r
    }

    /// The path without its last component.
    pub fn parent(&self) -> (r: Option<FilePath>)
        ensures
            r is Some <==> parent(self@) is Some,
            r matches Some(p) ==> Some(p@) == parent(self@),
    {
        let s = find_spans(self.bytes.as_slice());
        proof {
            lemma_spans(self@);
            assert(as_ints(s@).len() == s@.len());
        }
        let n: usize = s.len();
        if n == 0 || (n == 1 && self.is_absolute()) {
            None
        } else if n == 1 {
            let r = FilePath { bytes: Vec::new() };
            assert(r@ == Seq::<u8>::empty());
            Some(r)
        } else {
            let end: usize = s[n - 2].1;
            assert(as_ints(s@)[n - 2].1 == end);
            Some(FilePath { bytes: bytes_between(self.bytes.as_slice(), 0, end) })
        }
    }

    /// Whether two paths have the same components.
    pub fn same_path(&self, other: &FilePath) -> (r: bool)
        ensures
            r == same_path(self@, other@),
    {
        let s = find_spans(self.bytes.as_slice());
        let t = find_spans(other.bytes.as_slice());
        starts_with_spans(self.bytes.as_slice(), &s, other.bytes.as_slice(), &t) && s.len()
            == t.len()
    }

    /// Whether this path is `base` or lies below it.
    pub fn is_inside(&self, base: &FilePath) -> (r: bool)
        ensures
            r == inside(base@, self@),
    {
        let s = find_spans(self.bytes.as_slice());
        let t = find_spans(base.bytes.as_slice());
        starts_with_spans(self.bytes.as_slice(), &s, base.bytes.as_slice(), &t)
    }

    /// The names that are left of the components once each `..` has taken back
    /// the name before it.
    pub fn resolved(&self) -> (r: Option<Vec<FilePath>>)
        ensures
            match r {
                Some(names) => resolve(components(self@)) == Some(path_views(names@)),
                None => resolve(components(self@)) is None,
            },
    {
        let s = find_spans(self.bytes.as_slice());
        let ghost all = components(self@);
        proof {
            lemma_spans(self@);
            assert(as_ints(s@).len() == s@.len());
            assert forall|k: int| #![trigger s@[k]] 0 <= k < s@.len() implies s@[k].0 <= s@[k].1
                <= self.bytes@.len() by {
                assert(as_ints(s@)[k] == spans(self@)[k]);
            }
        }
        let mut names: Vec<FilePath> = Vec::new();
        let mut i: usize = 0;
        assert(path_views(names@) == Seq::<Seq<u8>>::empty());
        while i < s.len()
            invariant
                all == components(self@),
                as_ints(s@) == spans(self@),
                s@.len() == all.len(),
                forall|k: int|
                    #![trigger s@[k]]
                    0 <= k < s@.len() ==> s@[k].0 <= s@[k].1 <= self.bytes@.len(),
                i <= s@.len(),
                resolve(all.take(i as int)) == Some(path_views(names@)),
            decreases s@.len() - i,
        {
            let piece = bytes_between(self.bytes.as_slice(), s[i].0, s[i].1);
            let ghost before = names@;
            proof {
                assert(as_ints(s@)[i as int] == (s@[i as int].0 as int, s@[i as int].1 as int));
                assert(piece@ == all[i as int]);
                assert(all.take(i + 1).drop_last() == all.take(i as int));
                assert(all.take(i + 1).last() == piece@);
            }
            if piece.len() == 2 && piece[0] == DOT && piece[1] == DOT {
                assert(piece@ == dot_dot());
                if names.len() == 0 {
                    proof {
                        lemma_resolve_fails(all, i + 1);
                    }
                    return None;
                }
                names.pop();
                assert(path_views(names@) == path_views(before).drop_last());
            } else if piece.len() == 1 && piece[0] == DOT {
                assert(piece@ == seq![DOT]);
            } else {
                let name = FilePath { bytes: piece };
                names.push(name);
                assert(path_views(names@) == path_views(before).push(name@));
                assert(name@ != dot_dot() && name@ != seq![DOT]);
            }
            i = i + 1;
        }
        assert(all.take(i as int) == all);
        Some(names)
    }

    /// The folder that is reached from this one by entering each of `names`.
    pub fn descend(&self, names: &Vec<FilePath>) -> (r: FilePath)
        ensures
            r@ == descend(self@, path_views(names@)),
    {
        let ghost all = path_views(names@);
        let mut at = self.clone();
        let mut i: usize = 0;
        assert(all.take(0) == Seq::<Seq<u8>>::empty());
        while i < names.len()
            invariant
                all == path_views(names@),
                i <= names@.len(),
                at@ == descend(self@, all.take(i as int)),
            decreases names@.len() - i,
        {
            proof {
                assert(all.take(i + 1).drop_last() == all.take(i as int));
                assert(all.take(i + 1).last() == names@[i as int]@);
            }
            at = at.join(&names[i]);
            i = i + 1;
        }
        assert(all.take(i as int) == all);
        at
    }

    /// What is left of this path behind the components of `base`.
    pub fn strip_prefix(&self, base: &FilePath) -> (r: Option<FilePath>)
        ensures
            r is Some <==> strip_prefix(self@, base@) is Some,
            r matches Some(p) ==> Some(p@) == strip_prefix(self@, base@),
    {
        let s = find_spans(self.bytes.as_slice());
        let t = find_spans(base.bytes.as_slice());
        proof {
            lemma_spans(self@);
            assert(as_ints(s@).len() == s@.len());
            assert(as_ints(t@).len() == t@.len());
        }
        if !starts_with_spans(self.bytes.as_slice(), &s, base.bytes.as_slice(), &t) {
            None
        } else if t.len() == s.len() {
            let r = FilePath { bytes: Vec::new() };
            assert(r@ == Seq::<u8>::empty());
            Some(r)
        } else {
            let start: usize = s[t.len()].0;
            let end: usize = s[s.len() - 1].1;
            assert(as_ints(s@)[t@.len() as int].0 == start);
            assert(as_ints(s@)[s@.len() - 1].1 == end);
            Some(FilePath { bytes: bytes_between(self.bytes.as_slice(), start, end) })
        }
    }
}

/// The spellings of a list of paths.
pub open spec fn path_views(v: Seq<FilePath>) -> Seq<Seq<u8>> {
    Seq::new(v.len(), |i: int| v[i]@)
}

/// Whether the components of `p` start with those of `q`.
fn starts_with_spans(
    p: &[u8],
    s: &Vec<(usize, usize)>,
    q: &[u8],
    t: &Vec<(usize, usize)>,
) -> (r: bool)
    requires
        as_ints(s@) == spans(p@),
        as_ints(t@) == spans(q@),
    ensures
        r == components(q@).is_prefix_of(components(p@)),
        r && s@.len() == t@.len() ==> components(p@) == components(q@),
        components(p@) == components(q@) ==> r && s@.len() == t@.len(),
{
    proof {
        lemma_spans(p@);
        lemma_spans(q@);
        assert(components(p@).len() == as_ints(s@).len());
        assert(components(q@).len() == as_ints(t@).len());
        assert(s@.len() == as_ints(s@).len() && t@.len() == as_ints(t@).len());
    }
    if t.len() > s.len() {
        return false;
    }
    let mut i: usize = 0;
    while i < t.len()
        invariant
            i <= t@.len() <= s@.len(),
            as_ints(s@) == spans(p@),
            as_ints(t@) == spans(q@),
            components(p@).len() == s@.len(),
            components(q@).len() == t@.len(),
            forall|j: int|
                0 <= j < spans(p@).len() ==> 0 <= (#[trigger] spans(p@)[j]).0 < spans(p@)[j].1
                    <= p@.len(),
            forall|j: int|
                0 <= j < spans(q@).len() ==> 0 <= (#[trigger] spans(q@)[j]).0 < spans(q@)[j].1
                    <= q@.len(),
            forall|j: int| 0 <= j < i ==> components(q@)[j] == components(p@)[j],
        decreases t@.len() - i,
    {
        assert(as_ints(s@)[i as int] == spans(p@)[i as int]);
        assert(as_ints(t@)[i as int] == spans(q@)[i as int]);
        if !equal_between(p, s[i], q, t[i]) {
            assert(components(q@)[i as int] != components(p@)[i as int]);
            return false;
        }
        assert(components(q@)[i as int] == components(p@)[i as int]);
        i = i + 1;
    }
    assert(components(q@).is_prefix_of(components(p@)));
    proof {
        if s@.len() == t@.len() {
            assert(components(p@) == components(q@));
        }
    }
    true
}

// ---------------------------------------------------------------------------
// Laws
// ---------------------------------------------------------------------------

/// Spans moved to the right by `by`.
pub open spec fn shifted(s: Seq<(int, int)>, by: int) -> Seq<(int, int)> {
    Seq::new(s.len(), |i: int| (s[i].0 + by, s[i].1 + by))
}

/// The names on both sides of a slash.
proof fn lemma_name_spans_concat(a: Seq<u8>, r: Seq<u8>)
    ensures
        name_spans(a.push(SLASH) + r) == name_spans(a) + shifted(
            name_spans(r),
            a.len() as int + 1,
        ),
    decreases r.len(),
{
    let p = a.push(SLASH) + r;
    let n = a.len() as int;
    lemma_last_slash(r);
    let k = last_slash(r);
    assert forall|j: int| n + 1 + k < j < p.len() implies p[j] != SLASH by {
        assert(p[j] == r[j - n - 1]);
    }
    if k >= 0 {
        assert(p[n + 1 + k] == r[k]);
    } else {
        assert(p[n] == SLASH);
    }
    lemma_last_slash_is(p, n + 1 + k);
    assert(p.skip(n + 1 + k + 1) == r.skip(k + 1));
    if k >= 0 {
        lemma_name_spans_concat(a, r.take(k));
        assert(p.take(n + 1 + k) == a.push(SLASH) + r.take(k));
    } else {
        assert(p.take(n) == a);
    }
    assert(name_spans(p) == name_spans(a) + shifted(name_spans(r), n + 1));
}

/// The same for the texts of the names.
proof fn lemma_names_concat(a: Seq<u8>, r: Seq<u8>)
    ensures
        names(a.push(SLASH) + r) == names(a) + names(r),
{
    let p = a.push(SLASH) + r;
    lemma_name_spans_concat(a, r);
    lemma_name_spans(a);
    lemma_name_spans(r);
    assert forall|i: int| 0 <= i < names(p).len() implies names(p)[i] == (names(a) + names(r))[i] by {
        if i < names(a).len() {
            let s = name_spans(a)[i];
            assert(p.subrange(s.0, s.1) == a.subrange(s.0, s.1));
        } else {
            let s = name_spans(r)[i - names(a).len()];
            assert(p.subrange(s.0 + a.len() + 1, s.1 + a.len() + 1) == r.subrange(s.0, s.1));
        }
    }
}

/// Cut behind a name, a path has the names up to that one; cut before the
/// slash in front of it, the names before it.
proof fn lemma_name_spans_prefix(p: Seq<u8>, i: int)
    requires
        0 <= i < name_spans(p).len(),
    ensures
        name_spans(p.take(name_spans(p)[i].1)) == name_spans(p).take(i + 1),
        name_spans(p)[i].0 > 0 ==> name_spans(p.take(name_spans(p)[i].0 - 1)) == name_spans(
            p,
        ).take(i),
        name_spans(p)[i].0 == 0 ==> i == 0,
    decreases p.len(),
{
    lemma_name_spans(p);
    lemma_last_slash(p);
    let k = last_slash(p);
    let s = name_spans(p);
    if s[i].1 == p.len() {
        assert(p.take(p.len() as int) == p);
        assert(s[i].0 == k + 1) by {
            if k >= 0 {
                lemma_name_spans(p.take(k));
            }
        }
        assert(i == s.len() - 1) by {
            if i < s.len() - 1 {
                assert(s[i].1 < s[s.len() - 1].0);
            }
        }
        assert(s.take(i + 1) == s);
        if k >= 0 {
            assert(name_spans(p.take(k)) == s.take(i));
        }
    } else {
        assert(k >= 0);
        let q = p.take(k);
        lemma_name_spans(q);
        assert(i < name_spans(q).len());
        assert(name_spans(q)[i] == s[i]);
        lemma_name_spans_prefix(q, i);
        assert(q.take(s[i].1) == p.take(s[i].1));
        assert(name_spans(q).take(i + 1) == s.take(i + 1));
        assert(name_spans(q).take(i) == s.take(i));
        if s[i].0 > 0 {
            assert(q.take(s[i].0 - 1) == p.take(s[i].0 - 1));
        }
    }
}

/// Cut behind a component, a path has the components up to that one.
proof fn lemma_components_prefix(p: Seq<u8>, m: int)
    requires
        0 <= m < spans(p).len(),
    ensures
        components(p.take(spans(p)[m].1)) == components(p).take(m + 1),
        spans(p.take(spans(p)[m].1)) == spans(p).take(m + 1),
{
    lemma_spans(p);
    lemma_name_spans(p);
    let lead = lead_spans(p).len() as int;
    let q = p.take(spans(p)[m].1);
    if m < lead {
        assert(q.len() == 1);
        lemma_last_slash(q);
        assert(name_spans(q).len() == 0) by {
            if q[0] == SLASH {
                lemma_last_slash_is(q, 0);
                assert(q.skip(1).len() == 0);
                assert(name_spans(q.take(0)).len() == 0);
            } else {
                lemma_last_slash_is(q, -1);
                assert(q.skip(0) == seq![DOT]);
            }
        }
        assert(spans(q) == spans(p).take(1));
    } else {
        let i = m - lead;
        let s = name_spans(p)[i];
        assert(spans(p)[m] == s);
        lemma_name_spans_prefix(p, i);
        assert(lead_spans(q) == lead_spans(p)) by {
            if q.len() == 1 {
                assert(s.0 == 0);
                assert(p.subrange(0, 1) == seq![p[0]]);
            }
        }
        assert(spans(q) == spans(p).take(m + 1));
    }
    assert(components(q) == components(p).take(m + 1)) by {
        assert forall|j: int| 0 <= j <= m implies components(q)[j] == components(p)[j] by {
            let t = spans(p)[j];
            assert(spans(q)[j] == t);
            assert(t.1 <= q.len()) by {
                if j < m {
                    assert(t.1 <= spans(p)[m].0);
                }
            }
            assert(q.subrange(t.0, t.1) == p.subrange(t.0, t.1));
        }
    }
}

/// The parent of a path has all of its components but the last.
pub proof fn law_parent_drops_last(p: Seq<u8>)
    requires
        parent(p) is Some,
    ensures
        components(parent(p)->0) == components(p).drop_last(),
{
    let s = spans(p);
    if s.len() == 1 {
        assert(components(p).drop_last() == Seq::<Seq<u8>>::empty());
        assert(components(Seq::<u8>::empty()) == Seq::<Seq<u8>>::empty());
    } else {
        lemma_components_prefix(p, s.len() - 2);
        assert(components(p).take(s.len() - 1) == components(p).drop_last());
    }
}

/// A path has a parent unless it is empty or spells the root.
pub proof fn law_parent_exists(p: Seq<u8>)
    ensures
        parent(p) is Some <==> (p.len() > 0 && components(p) != seq![seq![SLASH]]),
{
    lemma_spans(p);
    if p.len() > 0 {
        assert(components(p).len() > 0) by {
            lemma_nonempty(p);
        }
        if components(p).len() == 1 {
            if is_absolute(p) {
                assert(spans(p)[0] == (0int, 1int));
                assert(p.subrange(0, 1) == seq![SLASH]);
                assert(components(p) == seq![seq![SLASH]]);
            } else {
                let s = spans(p)[0];
                if components(p) == seq![seq![SLASH]] {
                    assert(components(p)[0] == seq![SLASH]);
                    assert(p.subrange(s.0, s.1)[0] == SLASH);
                    lemma_name_spans(p);
                    assert(p[s.0] == SLASH);
                }
            }
        } else if components(p) == seq![seq![SLASH]] {
            assert(components(p).len() == 1);
        }
    }
}

/// A path that is spelled at all has a component, and starts with it.
proof fn lemma_nonempty(p: Seq<u8>)
    requires
        p.len() > 0,
    ensures
        spans(p).len() > 0,
        spans(p)[0].0 == 0,
    decreases p.len(),
{
    lemma_last_slash(p);
    let k = last_slash(p);
    if lead_spans(p).len() == 0 {
        if k > 0 {
            let q = p.take(k);
            assert(lead_spans(q).len() == 0) by {
                if q.len() == 1 && q[0] == DOT {
                    assert(p[1] == SLASH);
                }
            }
            lemma_nonempty(q);
            assert(spans(q)[0] == name_spans(q)[0]);
            assert(name_spans(p)[0] == name_spans(q)[0]);
        } else {
            assert(k == -1);
            assert(p.skip(0) == p);
            if p.len() == 1 && p[0] == DOT {
                assert(opens_with_dot(p));
            }
            if p == seq![DOT] {
                assert(p.len() == 1 && p[0] == DOT);
            }
        }
    }
}

/// A relative path joined to a base adds its names to the components of the
/// base.
pub proof fn law_join_adds_names(base: Seq<u8>, rel: Seq<u8>)
    requires
        base.len() > 0,
        !is_absolute(rel),
    ensures
        components(join(base, rel)) == components(base) + names(rel),
{
    let a = if base.last() == SLASH {
        base.drop_last()
    } else {
        base
    };
    let p = join(base, rel);
    assert(p == a.push(SLASH) + rel);
    lemma_names_concat(a, rel);
    lemma_components_split(p);
    lemma_components_split(base);
    if base.last() == SLASH {
        assert(base == a.push(SLASH) + Seq::<u8>::empty());
        lemma_names_concat(a, Seq::empty());
        assert(names(Seq::<u8>::empty()) == Seq::<Seq<u8>>::empty());
    }
    assert(names(base) == names(a));
    assert(lead_spans(p) == lead_spans(base)) by {
        assert(p[0] == base[0]);
        if base.len() == 1 {
            if base[0] != SLASH {
                assert(p[1] == SLASH);
            }
        } else {
            assert(p[1] == base[1]);
        }
    }
    assert(texts(p, lead_spans(p)) == texts(base, lead_spans(base))) by {
        if lead_spans(p).len() > 0 {
            assert(p.subrange(0, 1) == base.subrange(0, 1));
        }
    }
}

/// The components are those before the names, then the names.
proof fn lemma_components_split(p: Seq<u8>)
    ensures
        components(p) == texts(p, lead_spans(p)) + names(p),
{
}

/// A relative path joined to a base lies inside it, and is absolute where the
/// base is.
pub proof fn law_join_stays_inside(base: Seq<u8>, rel: Seq<u8>)
    requires
        !is_absolute(rel),
    ensures
        inside(base, join(base, rel)),
        is_absolute(base) ==> is_absolute(join(base, rel)),
{
    let p = join(base, rel);
    if base.len() > 0 {
        law_join_adds_names(base, rel);
    } else {
        assert(spans(base).len() == 0);
    }
    assert(components(base) == components(p).subrange(0, components(base).len() as int));
}

/// What lies inside a folder inside another lies inside the other.
pub proof fn law_inside_transitive(a: Seq<u8>, b: Seq<u8>, c: Seq<u8>)
    requires
        inside(a, b),
        inside(b, c),
    ensures
        inside(a, c),
{
    let n = components(a).len() as int;
    assert(components(a) == components(c).subrange(0, n)) by {
        assert forall|i: int| 0 <= i < n implies components(a)[i] == components(c)[i] by {
            assert(components(b)[i] == components(c)[i]);
        }
    }
}

/// The name of a folder entry: one name, without slashes.
pub open spec fn is_entry_name(name: Seq<u8>) -> bool {
    is_name(name) && forall|i: int| 0 <= i < name.len() ==> name[i] != SLASH
}

/// Entering a folder entry adds its name to the components.
pub proof fn law_join_entry(base: Seq<u8>, name: Seq<u8>)
    requires
        is_entry_name(name),
    ensures
        components(join(base, name)) == components(base).push(name),
{
    lemma_last_slash_is(name, -1);
    assert(name.skip(0) == name);
    assert(name_spans(name) == seq![(0int, name.len() as int)]);
    assert(name.subrange(0, name.len() as int) == name);
    assert(names(name) == seq![name]);
    if base.len() > 0 {
        law_join_adds_names(base, name);
    } else {
        if opens_with_dot(name) {
            assert(name == seq![DOT]);
        }
        lemma_components_split(name);
        assert(texts(name, lead_spans(name)) == Seq::<Seq<u8>>::empty());
        assert(components(base) == Seq::<Seq<u8>>::empty());
    }
    assert(components(join(base, name)) == components(base).push(name));
}

/// A relative path that was joined to a base is got back, up to its spelling,
/// behind the components of the base.
pub proof fn law_join_then_strip(base: Seq<u8>, rel: Seq<u8>)
    requires
        base.len() > 0,
        !is_absolute(rel),
    ensures
        strip_prefix(join(base, rel), base) is Some,
        components(strip_prefix(join(base, rel), base)->0) == names(rel),
{
    let p = join(base, rel);
    law_join_stays_inside(base, rel);
    law_join_adds_names(base, rel);
    law_strip_then_join(p, base);
    let r = strip_prefix(p, base)->0;
    assert(components(r) == (components(base) + components(r)).skip(components(base).len() as int));
    assert(names(rel) == (components(base) + names(rel)).skip(components(base).len() as int));
}

/// What is left behind the components of a base, joined to the base again, is
/// the path that it was taken from.
pub proof fn law_strip_then_join(p: Seq<u8>, base: Seq<u8>)
    requires
        strip_prefix(p, base) is Some,
    ensures
        same_path(join(base, strip_prefix(p, base)->0), p),
        components(base) + components(strip_prefix(p, base)->0) == components(p),
{
    let r = strip_prefix(p, base)->0;
    let n = components(base).len() as int;
    let s = spans(p);
    let none = Seq::<u8>::empty();
    assert(components(base) == components(p).take(n));
    if n == s.len() {
        assert(components(none) == Seq::<Seq<u8>>::empty());
        assert(components(base) == components(p));
        assert(names(none) == Seq::<Seq<u8>>::empty());
        if base.len() > 0 {
            law_join_adds_names(base, r);
        } else {
            assert(base == none);
        }
    } else if n == 0 {
        if base.len() > 0 {
            lemma_nonempty(base);
        }
        if p.len() == 0 {
            assert(spans(p).len() == 0);
        }
        lemma_nonempty(p);
        lemma_components_prefix(p, s.len() - 1);
        assert(p.take(s.last().1) == r);
        assert(components(p).take(s.len() as int) == components(p));
    } else {
        lemma_strip_rest(p, n);
        if base.len() == 0 {
            assert(spans(base).len() == 0);
        }
        law_join_adds_names(base, r);
        assert(components(p).take(n) + components(p).skip(n) == components(p));
    }
}

/// A component behind the first one is a name with a slash before it.
proof fn lemma_later_span(p: Seq<u8>, n: int)
    requires
        1 <= n < spans(p).len(),
    ensures
        spans(p)[n] == name_spans(p)[n - lead_spans(p).len()],
        1 <= spans(p)[n].0 < spans(p)[n].1 <= spans(p).last().1 <= p.len(),
        p[spans(p)[n].0 - 1] == SLASH,
        p[spans(p)[n].0] != SLASH,
        is_name(p.subrange(spans(p)[n].0, spans(p)[n].1)),
        spans(p)[n].1 == p.len() || p[spans(p)[n].1] == SLASH,
{
    lemma_spans(p);
    lemma_name_spans(p);
    assert(spans(p)[0].1 <= spans(p)[n].0);
    if n < spans(p).len() - 1 {
        assert(spans(p)[n].1 <= spans(p)[spans(p).len() - 1].0);
    }
}

/// The stretch from a component behind the first to the last one has the
/// components from there on, all of them names.
proof fn lemma_strip_rest(p: Seq<u8>, n: int)
    requires
        1 <= n < spans(p).len(),
    ensures
        ({
            let r = p.subrange(spans(p)[n].0, spans(p).last().1);
            &&& !is_absolute(r)
            &&& components(r) == components(p).skip(n)
            &&& names(r) == components(p).skip(n)
        }),
{
    let lead = lead_spans(p).len() as int;
    let i = n - lead;
    let a = spans(p)[n].0;
    let b = spans(p)[n].1;
    let e = spans(p).last().1;
    lemma_later_span(p, n);
    let r = p.subrange(a, e);
    let q = p.take(e);
    let h = p.take(a - 1);
    assert(q == h.push(SLASH) + r);
    lemma_names_concat(h, r);
    assert(names(h).len() == i) by {
        lemma_name_spans_prefix(p, i);
    }
    assert(components(q) == components(p)) by {
        lemma_components_prefix(p, spans(p).len() - 1);
        assert(components(p).take(spans(p).len() as int) == components(p));
    }
    assert(lead_spans(q).len() == lead) by {
        assert(q[0] == p[0]);
        assert(q.len() >= 2);
        assert(q[1] == p[1]);
    }
    assert(names(r) == components(p).skip(n)) by {
        lemma_components_split(q);
        assert forall|j: int| 0 <= j < names(r).len() implies names(r)[j] == components(p)[n + j] by {
            assert(names(r)[j] == names(q)[i + j]);
        }
        assert(names(r).len() == components(p).len() - n);
    }
    assert(r[0] == p[a]);
    assert(!opens_with_dot(r)) by {
        if opens_with_dot(r) {
            if r.len() > 1 {
                assert(r[1] == p[a + 1]);
            }
            assert(b == a + 1) by {
                if b > a + 1 {
                    lemma_name_spans(p);
                    assert(p[a + 1] != SLASH);
                }
            }
            assert(p.subrange(a, b) == seq![DOT]);
        }
    }
    assert(components(r) == names(r)) by {
        lemma_components_split(r);
        assert(texts(r, lead_spans(r)) == Seq::<Seq<u8>>::empty());
    }
}

/// Components that lead above the start do so whatever comes behind them.
proof fn lemma_resolve_fails(c: Seq<Seq<u8>>, n: int)
    requires
        0 <= n <= c.len(),
        resolve(c.take(n)) is None,
    ensures
        resolve(c) is None,
    decreases c.len() - n,
{
    if n == c.len() {
        assert(c.take(n) == c);
    } else {
        assert(c.take(n + 1).drop_last() == c.take(n));
        lemma_resolve_fails(c, n + 1);
    }
}

/// Entering a folder and leaving it again is no part of a resolved path.
pub proof fn law_detour_is_dropped(c: Seq<Seq<u8>>, name: Seq<u8>)
    requires
        name != seq![DOT],
        name != dot_dot(),
    ensures
        resolve(c.push(name).push(dot_dot())) == resolve(c),
{
    let there = c.push(name);
    assert(there.push(dot_dot()).drop_last() == there);
    assert(there.drop_last() == c);
    if let Some(names) = resolve(c) {
        assert(resolve(there) == Some(names.push(name)));
        assert(names.push(name).drop_last() == names);
    }
}

/// A path whose first component is a name is relative, and starts with that
/// name.
pub proof fn law_first_component(p: Seq<u8>)
    requires
        components(p).len() > 0,
        is_entry_name(components(p)[0]),
    ensures
        !is_absolute(p),
        p[0] == components(p)[0][0],
{
    let first = components(p)[0];
    if p.len() == 0 {
        assert(spans(p).len() == 0);
    }
    lemma_spans(p);
    lemma_nonempty(p);
    let s = spans(p)[0];
    assert(first == p.subrange(s.0, s.1));
    assert(first[0] == p[0]);
}

/// The components of a relative path are names, or the `.` that opens it.
proof fn lemma_relative_components(p: Seq<u8>)
    requires
        !is_absolute(p),
    ensures
        forall|i: int|
            0 <= i < components(p).len() ==> #[trigger] components(p)[i] == seq![DOT]
                || is_entry_name(components(p)[i]),
{
    lemma_name_spans(p);
    let lead = lead_spans(p).len() as int;
    assert forall|i: int| 0 <= i < components(p).len() implies #[trigger] components(p)[i] == seq![
        DOT,
    ] || is_entry_name(components(p)[i]) by {
        if i < lead {
            assert(components(p)[i] == p.subrange(0, 1));
            assert(p.subrange(0, 1) == seq![DOT]);
        } else {
            let span = name_spans(p)[i - lead];
            let piece = p.subrange(span.0, span.1);
            assert(components(p)[i] == piece);
            assert forall|j: int| 0 <= j < piece.len() implies piece[j] != SLASH by {
                assert(piece[j] == p[span.0 + j]);
            }
        }
    }
}

/// What is left of a relative path are names of entries that lead down, and
/// each is one of its components.
pub proof fn law_resolved_names_lead_down(p: Seq<u8>)
    requires
        !is_absolute(p),
    ensures
        resolve(components(p)) matches Some(names) ==> forall|i: int|
            0 <= i < names.len() ==> is_entry_name(#[trigger] names[i]) && names[i] != dot_dot()
                && components(p).contains(names[i]),
{
    lemma_relative_components(p);
    lemma_resolved_names(components(p));
}

proof fn lemma_resolved_names(c: Seq<Seq<u8>>)
    requires
        forall|i: int| 0 <= i < c.len() ==> #[trigger] c[i] == seq![DOT] || is_entry_name(c[i]),
    ensures
        resolve(c) matches Some(names) ==> forall|i: int|
            0 <= i < names.len() ==> is_entry_name(#[trigger] names[i]) && names[i] != dot_dot()
                && c.contains(names[i]),
    decreases c.len(),
{
    if c.len() > 0 {
        let fewer = c.drop_last();
        assert forall|i: int| 0 <= i < fewer.len() implies #[trigger] fewer[i] == seq![DOT]
            || is_entry_name(fewer[i]) by {
            assert(fewer[i] == c[i]);
        }
        lemma_resolved_names(fewer);
        if let Some(names) = resolve(c) {
            let before = resolve(fewer)->0;
            assert forall|i: int| 0 <= i < names.len() implies is_entry_name(#[trigger] names[i])
                && names[i] != dot_dot() && c.contains(names[i]) by {
                if i < before.len() {
                    assert(names[i] == before[i]);
                    let k = choose|k: int| 0 <= k < fewer.len() && fewer[k] == before[i];
                    assert(c[k] == before[i]);
                } else {
                    assert(c[c.len() - 1] == names[i]);
                }
            }
        }
    }
}

/// Names that lead down are left as they are.
pub proof fn law_names_resolve_to_themselves(names: Seq<Seq<u8>>)
    requires
        forall|i: int|
            0 <= i < names.len() ==> is_entry_name(#[trigger] names[i]) && names[i] != dot_dot(),
    ensures
        resolve(names) == Some(names),
    decreases names.len(),
{
    if names.len() > 0 {
        let fewer = names.drop_last();
        assert forall|i: int| 0 <= i < fewer.len() implies is_entry_name(#[trigger] fewer[i])
            && fewer[i] != dot_dot() by {
            assert(fewer[i] == names[i]);
        }
        law_names_resolve_to_themselves(fewer);
        assert(is_entry_name(names[names.len() - 1]));
        assert(fewer.push(names.last()) == names);
    } else {
        assert(names == Seq::<Seq<u8>>::empty());
    }
}

/// Entering names adds them to the components.
pub proof fn law_descend_adds_names(base: Seq<u8>, names: Seq<Seq<u8>>)
    requires
        forall|i: int| 0 <= i < names.len() ==> is_entry_name(#[trigger] names[i]),
    ensures
        components(descend(base, names)) == components(base) + names,
        inside(base, descend(base, names)),
    decreases names.len(),
{
    let own = components(base);
    if names.len() == 0 {
        assert(own + names == own);
    } else {
        let fewer = names.drop_last();
        assert forall|i: int| 0 <= i < fewer.len() implies is_entry_name(#[trigger] fewer[i]) by {
            assert(fewer[i] == names[i]);
        }
        law_descend_adds_names(base, fewer);
        assert(is_entry_name(names[names.len() - 1]));
        law_join_entry(descend(base, fewer), names.last());
        assert((own + fewer).push(names.last()) == own + names);
    }
    assert(own == (own + names).subrange(0, own.len() as int));
}

// ---------------------------------------------------------------------------
// How paths are spelled
// ---------------------------------------------------------------------------

/// The model of a list of paths has each of them, in order.
pub proof fn law_path_views(v: Seq<FilePath>)
    ensures
        path_views(v).len() == v.len(),
        forall|i: int| 0 <= i < v.len() ==> #[trigger] path_views(v)[i] == v[i]@,
{
}

/// A path is absolute exactly if a slash is its first byte.
pub proof fn law_absolute_paths_open_with_slash(p: Seq<u8>)
    ensures
        is_absolute(p) <==> seq![0x2fu8].is_prefix_of(p),
{
    let root = seq![0x2fu8];
    if is_absolute(p) {
        assert(root == p.subrange(0, 1));
    }
    if root.is_prefix_of(p) {
        assert(root[0] == p[0]);
    }
}

/// The components of a path are read piece by piece: behind a path and a slash,
/// an empty piece or a `.` adds nothing, and any other piece adds itself.
pub proof fn law_piece_behind_path(p: Seq<u8>, piece: Seq<u8>)
    requires
        p.len() > 0,
        forall|i: int| 0 <= i < piece.len() ==> piece[i] != 0x2f,
    ensures
        components(p.push(0x2f) + piece) == if piece.len() == 0 || piece == seq![0x2eu8] {
            components(p)
        } else {
            components(p).push(piece)
        },
{
    let whole = p.push(SLASH) + piece;
    let k = p.len() as int;
    lemma_last_slash_is(whole, k);
    assert(whole.take(k) == p);
    assert(whole.skip(k + 1) == piece);
    assert(whole[0] == p[0]);
    if k > 1 {
        assert(whole[1] == p[1]);
    }
    assert(lead_spans(whole) == lead_spans(p));
    lemma_spans(p);
    assert forall|i: int| 0 <= i < spans(p).len() implies #[trigger] components(whole)[i]
        == components(p)[i] by {
        assert(spans(whole)[i] == spans(p)[i]);
        let span = spans(p)[i];
        assert(whole.subrange(span.0, span.1) == p.subrange(span.0, span.1));
    }
    if is_name(piece) {
        let n = spans(p).len() as int;
        assert(spans(whole) == spans(p).push((k + 1, whole.len() as int)));
        assert(whole.subrange(k + 1, whole.len() as int) == piece);
        assert(components(whole) == components(p).push(piece));
    } else {
        assert(spans(whole) == spans(p));
        assert(components(whole) == components(p));
    }
}

/// The components of an absolute path of one piece: the root, and the piece
/// unless it is empty or a `.`.
pub proof fn law_piece_behind_root(piece: Seq<u8>)
    requires
        forall|i: int| 0 <= i < piece.len() ==> piece[i] != 0x2f,
    ensures
        components(seq![0x2fu8] + piece) == if piece.len() == 0 || piece == seq![0x2eu8] {
            seq![seq![0x2fu8]]
        } else {
            seq![seq![0x2fu8], piece]
        },
{
    let whole = seq![SLASH] + piece;
    lemma_last_slash_is(whole, 0);
    let none = Seq::<u8>::empty();
    assert(whole.take(0) == none);
    assert(name_spans(none) == Seq::<(int, int)>::empty());
    assert(whole.skip(1) == piece);
    assert(whole[0] == SLASH);
    assert(lead_spans(whole) == seq![(0int, 1int)]);
    assert(whole.subrange(0, 1) == seq![SLASH]);
    assert(whole.subrange(1, whole.len() as int) == piece);
    if is_name(piece) {
        assert(spans(whole) == seq![(0int, 1int), (1int, whole.len() as int)]);
        assert(components(whole) == seq![seq![SLASH], piece]);
    } else {
        assert(spans(whole) == seq![(0int, 1int)]);
        assert(components(whole) == seq![seq![SLASH]]);
    }
}

/// A piece on its own is one component, and the empty path has none.
pub proof fn law_piece_alone(piece: Seq<u8>)
    requires
        forall|i: int| 0 <= i < piece.len() ==> piece[i] != 0x2f,
    ensures
        components(piece) == if piece.len() == 0 {
            Seq::<Seq<u8>>::empty()
        } else {
            seq![piece]
        },
{
    if piece.len() > 0 {
        let n = piece.len() as int;
        lemma_last_slash_is(piece, -1);
        assert(piece.skip(0) == piece);
        assert(piece.subrange(0, n) == piece);
        if piece == seq![DOT] {
            assert(spans(piece) == seq![(0int, 1int)]);
        } else {
            if opens_with_dot(piece) {
                assert(piece == seq![DOT]);
            }
            assert(spans(piece) == seq![(0int, n)]);
        }
        assert(components(piece) == seq![piece]);
    } else {
        assert(components(piece) == Seq::<Seq<u8>>::empty());
    }
}

/// Two paths are the same exactly if each lies inside the other, and one lies
/// inside another exactly if it goes on with more components.
pub proof fn law_inside_is_to_go_on(base: Seq<u8>, p: Seq<u8>)
    ensures
        inside(base, p) <==> exists|rest: Seq<Seq<u8>>|
            components(p) == #[trigger] (components(base) + rest),
        same_path(base, p) <==> inside(base, p) && inside(p, base),
        same_path(base, p) <==> components(base).len() == components(p).len() && forall|i: int|
            0 <= i < components(p).len() ==> #[trigger] components(p)[i] == components(base)[i],
{
    let a = components(base);
    let b = components(p);
    let n = a.len() as int;
    if inside(base, p) {
        assert(b == a + b.skip(n));
    }
    if exists|rest: Seq<Seq<u8>>| b == #[trigger] (a + rest) {
        let rest = choose|rest: Seq<Seq<u8>>| b == #[trigger] (a + rest);
        assert(a == b.subrange(0, n));
    }
    if a == b {
        assert(a == b.subrange(0, n));
    }
    if inside(base, p) && inside(p, base) {
        assert(a == b);
    }
    if a.len() == b.len() && (forall|i: int| 0 <= i < b.len() ==> #[trigger] b[i] == a[i]) {
        assert(a == b);
    }
}

/// An absolute path, joined to anything, is itself, as any path is that is
/// joined to the empty one. A relative path is joined with exactly one slash
/// between: the result starts with the base, ends with the path, and has one
/// byte more, a slash, where the base does not end in one.
pub proof fn law_join_spelling(base: Seq<u8>, rel: Seq<u8>)
    ensures
        seq![0x2fu8].is_prefix_of(rel) || base.len() == 0 ==> join(base, rel) == rel,
        !seq![0x2fu8].is_prefix_of(rel) && base.len() > 0 ==> {
            let r = join(base, rel);
            &&& base.is_prefix_of(r)
            &&& rel.is_suffix_of(r)
            &&& base.last() == 0x2f ==> r.len() == base.len() + rel.len()
            &&& base.last() != 0x2f ==> r.len() == base.len() + 1 + rel.len() && r[base.len() as int]
                == 0x2f
        },
{
    law_absolute_paths_open_with_slash(rel);
    if !is_absolute(rel) && base.len() > 0 {
        let r = join(base, rel);
        assert(base == r.subrange(0, base.len() as int));
        assert(rel == r.subrange(r.len() - rel.len(), r.len() as int));
    }
}

/// The parent of a path is spelled as the path is, up to the end of the last
/// component that is left.
pub proof fn law_parent_spelling(p: Seq<u8>)
    requires
        parent(p) is Some,
    ensures
        (parent(p)->0).is_prefix_of(p),
        components(parent(p)->0).len() == 0 ==> (parent(p)->0).len() == 0,
        components(parent(p)->0).len() > 0 ==> components(parent(p)->0).last().is_suffix_of(
            parent(p)->0,
        ),
{
    let q = parent(p)->0;
    let s = spans(p);
    law_parent_drops_last(p);
    lemma_spans(p);
    if s.len() == 1 {
        assert(q == p.subrange(0, 0));
    } else {
        let span = s[s.len() - 2];
        let last = components(p)[s.len() - 2];
        assert(components(q).last() == last);
        assert(q == p.subrange(0, span.1));
        assert(last == p.subrange(span.0, span.1));
        assert(last == q.subrange(q.len() - last.len(), q.len() as int));
    }
}

/// What is left behind a base exists exactly inside the base. It has the
/// components that the base lacks, and is spelled as the path is, from the
/// first of them to the end of the last.
pub proof fn law_strip_spelling(p: Seq<u8>, base: Seq<u8>)
    ensures
        strip_prefix(p, base) is Some <==> inside(base, p),
        strip_prefix(p, base) matches Some(r) ==> {
            let rest = components(p).skip(components(base).len() as int);
            &&& components(r) == rest
            &&& exists|i: int, j: int|
                0 <= i <= j <= p.len() && r == #[trigger] p.subrange(i, j)
            &&& rest.len() == 0 ==> r.len() == 0
            &&& rest.len() > 0 ==> rest.first().is_prefix_of(r) && rest.last().is_suffix_of(r)
        },
{
    if let Some(r) = strip_prefix(p, base) {
        let n = components(base).len() as int;
        let s = spans(p);
        let rest = components(p).skip(n);
        law_strip_then_join(p, base);
        assert(components(r) == (components(base) + components(r)).skip(n));
        lemma_spans(p);
        if n == s.len() {
            assert(r == p.subrange(0, 0));
        } else {
            let first = s[n];
            let last = s.last();
            assert(last == s[s.len() - 1]);
            assert(r == p.subrange(first.0, last.1));
            assert(rest.first() == p.subrange(first.0, first.1));
            assert(rest.last() == p.subrange(last.0, last.1));
            if n < s.len() - 1 {
                assert(first.1 <= last.0);
            }
            assert(rest.first() == r.subrange(0, rest.first().len() as int));
            assert(rest.last() == r.subrange(r.len() - rest.last().len(), r.len() as int));
        }
    }
}

/// Components are resolved one by one: a name is entered, a `.` stays, a `..`
/// leaves the name entered last, and nothing comes back from above the start.
pub proof fn law_resolve_goes_on(c: Seq<Seq<u8>>, piece: Seq<u8>)
    ensures
        resolve(Seq::empty()) == Some(Seq::<Seq<u8>>::empty()),
        resolve(c) is None ==> resolve(c.push(piece)) is None,
        resolve(c) matches Some(names) ==> {
            &&& piece == seq![0x2eu8] ==> resolve(c.push(piece)) == Some(names)
            &&& piece == seq![0x2eu8, 0x2eu8] && names.len() > 0 ==> resolve(c.push(piece)) == Some(
                names.drop_last(),
            )
            &&& piece == seq![0x2eu8, 0x2eu8] && names.len() == 0 ==> resolve(c.push(piece)) is None
            &&& piece != seq![0x2eu8] && piece != seq![0x2eu8, 0x2eu8] ==> resolve(c.push(piece))
                == Some(names.push(piece))
        },
{
    assert(c.push(piece).drop_last() == c);
    assert(seq![DOT].len() != seq![DOT, DOT].len());
}

/// Names are entered one by one.
pub proof fn law_descend_goes_on(base: Seq<u8>, names: Seq<Seq<u8>>, name: Seq<u8>)
    ensures
        descend(base, Seq::empty()) == base,
        descend(base, names.push(name)) == join(descend(base, names), name),
{
    assert(names.push(name).drop_last() == names);
}

} // verus!
