//! Text and its bytes: UTF-8 in both directions, lines, and the order of names.

use vstd::prelude::*;
use vstd::relations::*;
use vstd::seq_lib::*;
use vstd::string::*;
use vstd::utf8::*;

verus! {

/// The text that a lossy reading gives for bytes that are not valid UTF-8.
pub uninterp spec fn repaired_utf8(bytes: Seq<u8>) -> Seq<char>;

/// The text that a lossy reading of `bytes` gives: what they encode, where
/// they are valid UTF-8.
pub open spec fn utf8_lossy(bytes: Seq<u8>) -> Seq<char> {
    if valid_utf8(bytes) {
        decode_utf8(bytes)
    } else {
        repaired_utf8(bytes)
    }
}

/// The character that stands for a stretch of bytes that is not valid UTF-8.
pub const REPLACEMENT: char = '\u{fffd}';

/// A text in place of bytes that are not valid UTF-8: it holds the replacement
/// character, and its ASCII characters come from the bytes.
pub open spec fn is_repair(bytes: Seq<u8>, text: Seq<char>) -> bool {
    &&& text.contains(REPLACEMENT)
    &&& forall|i: int|
        0 <= i < text.len() && (#[trigger] text[i]) as u32 <= 0x7f ==> exists|j: int|
            0 <= j < bytes.len() && #[trigger] bytes[j] as u32 == text[i] as u32
}

/// `String::from_utf8_lossy`. On valid UTF-8 it gives the text that the bytes
/// encode. On other bytes it puts the replacement character in place of what is
/// invalid and keeps the rest: its result depends on the bytes alone and is
/// named by `repaired_utf8`, it holds a replacement character, and each ASCII
/// character in it is one of the bytes. Which stretches are replaced is left to
/// the name.
#[verifier::external_body]
pub(crate) fn read_lossy(bytes: &[u8]) -> (r: String)
    ensures
        valid_utf8(bytes@) ==> r@ == decode_utf8(bytes@),
        !valid_utf8(bytes@) ==> r@ == repaired_utf8(bytes@) && is_repair(bytes@, r@),
{
    String::from_utf8_lossy(bytes).into_owned()
}

/// `std::str::from_utf8`. It succeeds exactly on valid UTF-8, and then gives
/// the text that the bytes encode.
#[verifier::external_body]
pub(crate) fn read_strict(bytes: &[u8]) -> (r: Option<String>)
    ensures
        r is Some <==> valid_utf8(bytes@),
        r matches Some(s) ==> s@ == decode_utf8(bytes@),
{
    match std::str::from_utf8(bytes) {
        Ok(s) => Some(s.to_owned()),
        Err(_) => None,
    }
}

/// The bytes of a text.
pub(crate) fn text_bytes(s: &str) -> (r: Vec<u8>)
    ensures
        r@ == encode_utf8(s@),
{
    let b = s.as_bytes();
    let mut r: Vec<u8> = Vec::new();
    let mut i: usize = 0;
    while i < b.len()
        invariant
            i <= b@.len(),
            r@ == b@.take(i as int),
        decreases b@.len() - i,
    {
        r.push(b[i]);
        i = i + 1;
        assert(r@ == b@.take(i as int));
    }
    assert(b@.take(b@.len() as int) == b@);
    r
}

/// Two texts, one behind the other.
pub(crate) fn concat(a: &str, b: &str) -> (r: String)
    ensures
        r@ == a@ + b@,
{
    let mut r: String = a.to_owned();
    r.append(b);
    r
}

/// The texts of a list of strings.
pub open spec fn string_views(v: Seq<String>) -> Seq<Seq<char>> {
    Seq::new(v.len(), |i: int| v[i]@)
}

/// The contents of a list of byte strings.
pub open spec fn byte_views(v: Seq<Vec<u8>>) -> Seq<Seq<u8>> {
    Seq::new(v.len(), |i: int| v[i]@)
}

// ---------------------------------------------------------------------------
// Lines
// ---------------------------------------------------------------------------

/// The byte that ends a line.
pub const NEWLINE: u8 = 0x0a;

/// The byte that may stand before the end of a line.
pub const RETURN: u8 = 0x0d;

/// The position of the first newline of `t`, or its length.
pub open spec fn first_newline(t: Seq<u8>) -> int
    decreases t.len(),
{
    if t.len() == 0 || t[0] == NEWLINE {
        0
    } else {
        1 + first_newline(t.drop_first())
    }
}

/// A line without the carriage return that belongs to its ending.
pub open spec fn without_return(line: Seq<u8>) -> Seq<u8> {
    if line.len() > 0 && line.last() == RETURN {
        line.drop_last()
    } else {
        line
    }
}

/// The lines of `t`. Each ends in a newline, with or without a carriage return
/// before it; neither belongs to the line. The ending of the last line may be
/// missing, and its carriage return then belongs to it.
pub open spec fn lines(t: Seq<u8>) -> Seq<Seq<u8>>
    decreases t.len(),
{
    let k = first_newline(t);
    if t.len() == 0 {
        Seq::empty()
    } else if 0 <= k < t.len() {
        seq![without_return(t.take(k))] + lines(t.skip(k + 1))
    } else {
        seq![t]
    }
}

/// `k` is the first newline when it is one and none stands before it.
proof fn lemma_first_newline_is(t: Seq<u8>, k: int)
    requires
        0 <= k <= t.len(),
        k < t.len() ==> t[k] == NEWLINE,
        forall|j: int| 0 <= j < k ==> t[j] != NEWLINE,
    ensures
        first_newline(t) == k,
    decreases t.len(),
{
    if k > 0 {
        assert(t[0] != NEWLINE);
        let u = t.drop_first();
        assert forall|j: int| 0 <= j < k - 1 implies u[j] != NEWLINE by {
            assert(u[j] == t[j + 1]);
        }
        lemma_first_newline_is(u, k - 1);
    }
}

/// The lines of `t`.
pub(crate) fn split_lines(t: &[u8]) -> (r: Vec<Vec<u8>>)
    ensures
        byte_views(r@) == lines(t@),
{
    let n: usize = t.len();
    let mut out: Vec<Vec<u8>> = Vec::new();
    let mut line: Vec<u8> = Vec::new();
    let ghost mut start: int = 0;
    let mut i: usize = 0;
    assert(t@.skip(0) == t@);
    while i < n
        invariant
            n == t@.len(),
            0 <= start <= i <= n,
            line@ == t@.subrange(start, i as int),
            forall|j: int| start <= j < i ==> t@[j] != NEWLINE,
            byte_views(out@) + lines(t@.skip(start)) == lines(t@),
        decreases n - i,
    {
        if t[i] == NEWLINE {
            let ghost rest = t@.skip(start);
            let ghost done = out@;
            proof {
                assert forall|j: int| 0 <= j < i - start implies rest[j] != NEWLINE by {
                    assert(rest[j] == t@[start + j]);
                }
                lemma_first_newline_is(rest, i - start);
                assert(rest.take(i - start) == line@);
                assert(rest.skip(i - start + 1) == t@.skip(i + 1));
            }
            if line.len() > 0 && line[line.len() - 1] == RETURN {
                let _ = line.pop();
            }
            assert(line@ == without_return(rest.take(i - start)));
            out.push(line);
            proof {
                assert(byte_views(out@) == byte_views(done).push(without_return(rest.take(i - start))));
                assert(byte_views(out@) + lines(t@.skip(i + 1)) == byte_views(done) + lines(rest));
                start = i + 1;
            }
            line = Vec::new();
        } else {
            line.push(t[i]);
        }
        i = i + 1;
        assert(line@ == t@.subrange(start, i as int));
    }
    let ghost rest = t@.skip(start);
    let ghost done = out@;
    assert(line@ == rest);
    if line.len() > 0 {
        proof {
            assert forall|j: int| 0 <= j < rest.len() implies rest[j] != NEWLINE by {
                assert(rest[j] == t@[start + j]);
            }
            lemma_first_newline_is(rest, rest.len() as int);
        }
        out.push(line);
        assert(byte_views(out@) == byte_views(done).push(rest));
        assert(byte_views(out@) == byte_views(done) + lines(rest));
    } else {
        assert(byte_views(out@) == byte_views(done) + lines(rest));
    }
    out
}

/// The text that holds each of `names` on a line of its own.
pub open spec fn listing(names: Seq<Seq<u8>>) -> Seq<u8>
    decreases names.len(),
{
    if names.len() == 0 {
        Seq::empty()
    } else {
        names[0].push(NEWLINE) + listing(names.drop_first())
    }
}

/// Names that are written one to a line are read back as they were, as long
/// as none of them holds a newline or ends in a carriage return.
pub proof fn law_lines_of_listing(names: Seq<Seq<u8>>)
    requires
        forall|i: int, j: int|
            0 <= i < names.len() && 0 <= j < names[i].len() ==> #[trigger] names[i][j] != NEWLINE,
        forall|i: int|
            0 <= i < names.len() && names[i].len() > 0 ==> (#[trigger] names[i]).last() != RETURN,
    ensures
        lines(listing(names)) == names,
    decreases names.len(),
{
    if names.len() > 0 {
        let t = listing(names);
        let first = names[0];
        let rest = names.drop_first();
        assert forall|i: int, j: int| 0 <= i < rest.len() && 0 <= j < rest[i].len() implies
            #[trigger] rest[i][j] != NEWLINE by {
            assert(rest[i] == names[i + 1]);
            assert(names[i + 1][j] != NEWLINE);
        }
        law_lines_of_listing(rest);
        assert forall|j: int| 0 <= j < first.len() implies t[j] != NEWLINE by {
            assert(t[j] == names[0][j]);
        }
        lemma_first_newline_is(t, first.len() as int);
        assert(t.take(first.len() as int) == first);
        assert(t.skip(first.len() as int + 1) == listing(rest));
        assert(seq![first] + rest == names);
    }
}

/// A lossy reading differs from what the bytes encode only where they are not
/// valid UTF-8, and is then the repaired text.
pub proof fn law_lossy_repairs_only_invalid(bytes: Seq<u8>)
    ensures
        valid_utf8(bytes) ==> utf8_lossy(bytes) == decode_utf8(bytes),
        !valid_utf8(bytes) ==> utf8_lossy(bytes) == repaired_utf8(bytes),
{
}

/// Valid UTF-8 is read without loss.
pub proof fn law_lossy_keeps_valid(bytes: Seq<u8>)
    requires
        valid_utf8(bytes),
    ensures
        encode_utf8(utf8_lossy(bytes)) == bytes,
{
    decode_utf8_encode_utf8(bytes);
}

// ---------------------------------------------------------------------------
// The order of names
// ---------------------------------------------------------------------------

/// The lexicographic order of byte strings.
pub open spec fn bytes_le(a: Seq<u8>, b: Seq<u8>) -> bool
    decreases a.len(),
{
    if a.len() == 0 {
        true
    } else if b.len() == 0 {
        false
    } else if a[0] != b[0] {
        a[0] < b[0]
    } else {
        bytes_le(a.drop_first(), b.drop_first())
    }
}

/// The order of texts: that of their bytes.
pub open spec fn text_order() -> spec_fn(Seq<char>, Seq<char>) -> bool {
    |a: Seq<char>, b: Seq<char>| bytes_le(encode_utf8(a), encode_utf8(b))
}

proof fn lemma_bytes_le_reflexive(a: Seq<u8>)
    ensures
        bytes_le(a, a),
    decreases a.len(),
{
    if a.len() > 0 {
        lemma_bytes_le_reflexive(a.drop_first());
    }
}

proof fn lemma_bytes_le_antisymmetric(a: Seq<u8>, b: Seq<u8>)
    requires
        bytes_le(a, b),
        bytes_le(b, a),
    ensures
        a == b,
    decreases a.len(),
{
    if a.len() > 0 {
        lemma_bytes_le_antisymmetric(a.drop_first(), b.drop_first());
        assert(a == seq![a[0]] + a.drop_first());
        assert(b == seq![b[0]] + b.drop_first());
    }
}

proof fn lemma_bytes_le_transitive(a: Seq<u8>, b: Seq<u8>, c: Seq<u8>)
    requires
        bytes_le(a, b),
        bytes_le(b, c),
    ensures
        bytes_le(a, c),
    decreases a.len(),
{
    if a.len() > 0 && a[0] == b[0] && b[0] == c[0] {
        lemma_bytes_le_transitive(a.drop_first(), b.drop_first(), c.drop_first());
    }
}

proof fn lemma_bytes_le_total(a: Seq<u8>, b: Seq<u8>)
    ensures
        bytes_le(a, b) || bytes_le(b, a),
    decreases a.len(),
{
    if a.len() > 0 && b.len() > 0 && a[0] == b[0] {
        lemma_bytes_le_total(a.drop_first(), b.drop_first());
    }
}

/// The order of texts is a total order: sorting has one outcome.
pub proof fn law_text_order_total()
    ensures
        total_ordering(text_order()),
{
    let le = text_order();
    assert forall|a: Seq<char>| #[trigger] le(a, a) by {
        lemma_bytes_le_reflexive(encode_utf8(a));
    }
    assert forall|a: Seq<char>, b: Seq<char>| #[trigger] le(a, b) && #[trigger] le(b, a) implies a == b by {
        lemma_bytes_le_antisymmetric(encode_utf8(a), encode_utf8(b));
        encode_utf8_decode_utf8(a);
        encode_utf8_decode_utf8(b);
    }
    assert forall|a: Seq<char>, b: Seq<char>, c: Seq<char>|
        #[trigger] le(a, b) && #[trigger] le(b, c) implies le(a, c) by {
        lemma_bytes_le_transitive(encode_utf8(a), encode_utf8(b), encode_utf8(c));
    }
    assert forall|a: Seq<char>, b: Seq<char>| #[trigger] le(a, b) || #[trigger] le(b, a) by {
        lemma_bytes_le_total(encode_utf8(a), encode_utf8(b));
    }
}

/// Whether `a` comes before `b` or is equal to it.
fn text_le(a: &String, b: &String) -> (r: bool)
    ensures
        r == text_order()(a@, b@),
{
    let x = a.as_str().as_bytes();
    let y = b.as_str().as_bytes();
    let mut i: usize = 0;
    assert(x@.skip(0) == x@ && y@.skip(0) == y@);
    while i < x.len() && i < y.len()
        invariant
            x@ == encode_utf8(a@),
            y@ == encode_utf8(b@),
            i <= x@.len(),
            i <= y@.len(),
            bytes_le(x@, y@) == bytes_le(x@.skip(i as int), y@.skip(i as int)),
        decreases x@.len() - i,
    {
        assert(x@.skip(i as int)[0] == x@[i as int] && y@.skip(i as int)[0] == y@[i as int]);
        if x[i] != y[i] {
            return x[i] < y[i];
        }
        assert(x@.skip(i as int).drop_first() == x@.skip(i + 1));
        assert(y@.skip(i as int).drop_first() == y@.skip(i + 1));
        i = i + 1;
    }
    i == x.len()
}

/// The names in order.
pub fn sort_names(names: Vec<String>) -> (r: Vec<String>)
    ensures
        string_views(r@) == string_views(names@).sort_by(text_order()),
{
    let ghost le = text_order();
    let ghost given = string_views(names@);
    let mut out: Vec<String> = Vec::new();
    let mut i: usize = 0;
    proof {
        law_text_order_total();
        assert(given.take(0) == string_views(out@));
    }
    while i < names.len()
        invariant
            i <= names@.len(),
            le == text_order(),
            total_ordering(le),
            given == string_views(names@),
            sorted_by(string_views(out@), le),
            string_views(out@).to_multiset() == given.take(i as int).to_multiset(),
        decreases names@.len() - i,
    {
        let name = names[i].clone();
        let mut at: usize = 0;
        while at < out.len() && text_le(&out[at], &name)
            invariant
                at <= out@.len(),
                le == text_order(),
                forall|j: int| 0 <= j < at ==> le(#[trigger] out@[j]@, name@),
            decreases out@.len() - at,
        {
            at = at + 1;
        }
        let ghost before = string_views(out@);
        proof {
            assert forall|j: int| 0 <= j < at implies le(#[trigger] before[j], name@) by {
                assert(before[j] == out@[j]@);
            }
            if at < before.len() {
                assert(!le(before[at as int], name@));
                assert(le(name@, before[at as int]));
                assert forall|j: int| at <= j < before.len() implies le(name@, #[trigger] before[j]) by {
                    if j > at {
                        assert(le(before[at as int], before[j]));
                    }
                }
            }
        }
        let ghost key = name@;
        out.insert(at, name);
        proof {
            let after = string_views(out@);
            assert(after == before.insert(at as int, key));
            to_multiset_insert(before, at as int, key);
            to_multiset_build(given.take(i as int), key);
            assert(given.take(i + 1) == given.take(i as int).push(key));
            assert(sorted_by(after, le)) by {
                assert forall|a: int, b: int| 0 <= a < b < after.len() implies #[trigger] le(after[a], after[b]) by {
                    if a < at && b > at {
                        assert(after[a] == before[a] && after[b] == before[b - 1]);
                        assert(le(before[a], before[b - 1]));
                    } else if b < at {
                        assert(le(before[a], before[b]));
                    } else if a > at {
                        assert(le(before[a - 1], before[b - 1]));
                    } else if a == at {
                        assert(after[b] == before[b - 1]);
                    } else {
                        assert(after[a] == before[a]);
                    }
                }
            }
        }
        i = i + 1;
    }
    proof {
        assert(given.take(i as int) == given);
        given.lemma_sort_by_ensures(le);
        lemma_sorted_unique(string_views(out@), given.sort_by(le), le);
    }
    out
}

/// A byte below the non-ASCII ones, in the bytes of a text, is a character of
/// the text.
pub proof fn law_ascii_byte_is_character(text: Seq<char>, j: int)
    requires
        0 <= j < encode_utf8(text).len(),
        encode_utf8(text)[j] <= 0x7f,
    ensures
        exists|i: int|
            0 <= i < text.len() && #[trigger] text[i] as u32 == encode_utf8(text)[j] as u32,
{
    let b = encode_utf8(text);
    let rest = b.subrange(j, b.len() as int);
    encode_utf8_valid_utf8(text);
    encode_utf8_decode_utf8(text);
    is_char_boundary_iff_not_is_continuation_byte(b, j);
    valid_utf8_split(b, j);
    decode_utf8_split(b, j);
    let byte = b[j];
    assert(rest[0] == byte);
    assert((byte & 0x7f) as u32 == byte as u32) by (bit_vector)
        requires
            byte <= 0x7f,
    ;
    assert(decode_utf8(rest)[0] as u32 == byte as u32);
    let before = decode_utf8(b.subrange(0, j));
    assert(text[before.len() as int] == decode_utf8(rest)[0]);
}

/// The model of a list of strings has each of them, in order.
pub proof fn law_string_views(v: Seq<String>)
    ensures
        string_views(v).len() == v.len(),
        forall|i: int| 0 <= i < v.len() ==> #[trigger] string_views(v)[i] == v[i]@,
{
}

/// The model of a list of byte strings has each of them, in order.
pub proof fn law_byte_views(v: Seq<Vec<u8>>)
    ensures
        byte_views(v).len() == v.len(),
        forall|i: int| 0 <= i < v.len() ==> #[trigger] byte_views(v)[i] == v[i]@,
{
}

proof fn lemma_bytes_le_at(a: Seq<u8>, b: Seq<u8>, k: int)
    requires
        0 <= k <= a.len(),
        k <= b.len(),
        a.take(k) == b.take(k),
    ensures
        k == a.len() ==> bytes_le(a, b),
        k == b.len() && k < a.len() ==> !bytes_le(a, b),
        k < a.len() && k < b.len() && a[k] < b[k] ==> bytes_le(a, b) && !bytes_le(b, a),
    decreases k,
{
    if k > 0 {
        assert(a.take(k)[0] == a[0] && b.take(k)[0] == b[0]);
        let x = a.drop_first();
        let y = b.drop_first();
        assert(x.take(k - 1) == a.take(k).drop_first());
        assert(y.take(k - 1) == b.take(k).drop_first());
        lemma_bytes_le_at(x, y, k - 1);
    }
}

/// Names come in the order of their bytes: of two that agree in their first `k`
/// bytes, the one that ends there comes first, and otherwise the one whose next
/// byte is smaller, and only that one.
pub proof fn law_names_come_in_byte_order(a: Seq<char>, b: Seq<char>, k: int)
    requires
        0 <= k <= encode_utf8(a).len(),
        k <= encode_utf8(b).len(),
        encode_utf8(a).take(k) == encode_utf8(b).take(k),
    ensures
        k == encode_utf8(a).len() ==> text_order()(a, b),
        k == encode_utf8(b).len() && k < encode_utf8(a).len() ==> !text_order()(a, b),
        k < encode_utf8(a).len() && k < encode_utf8(b).len() && encode_utf8(a)[k] < encode_utf8(
            b,
        )[k] ==> text_order()(a, b) && !text_order()(b, a),
{
    lemma_bytes_le_at(encode_utf8(a), encode_utf8(b), k);
}

/// Each of the lines with its ending behind it.
pub open spec fn woven(ls: Seq<Seq<u8>>, ends: Seq<Seq<u8>>) -> Seq<u8>
    decreases ls.len(),
{
    if ls.len() == 0 || ends.len() == 0 {
        Seq::empty()
    } else {
        ls[0] + ends[0] + woven(ls.drop_first(), ends.drop_first())
    }
}

/// The line at `i` ends as a line can: in a newline that no carriage return
/// stands before, in a carriage return and a newline, or, where it is the last
/// one and not empty, in nothing.
pub open spec fn ends_well(ls: Seq<Seq<u8>>, ends: Seq<Seq<u8>>, i: int) -> bool {
    &&& forall|j: int| 0 <= j < ls[i].len() ==> #[trigger] ls[i][j] != 0x0a
    &&& {
        ||| ends[i] == seq![0x0au8] && (ls[i].len() > 0 ==> ls[i].last() != 0x0d)
        ||| ends[i] == seq![0x0du8, 0x0au8]
        ||| ends[i] == Seq::<u8>::empty() && ls[i].len() > 0 && i == ls.len() - 1
    }
}

/// Each of the lines ends as a line can.
pub open spec fn end_well(ls: Seq<Seq<u8>>, ends: Seq<Seq<u8>>) -> bool {
    &&& ls.len() == ends.len()
    &&& forall|i: int| 0 <= i < ls.len() ==> #[trigger] ends_well(ls, ends, i)
}

/// Lines are read back as they were written, whatever their number and however
/// each of them ends.
pub proof fn law_lines_are_read_back(ls: Seq<Seq<u8>>, ends: Seq<Seq<u8>>)
    requires
        end_well(ls, ends),
    ensures
        lines(woven(ls, ends)) == ls,
    decreases ls.len(),
{
    let t = woven(ls, ends);
    if ls.len() > 0 {
        let line = ls[0];
        let end = ends[0];
        let more = ls.drop_first();
        let more_ends = ends.drop_first();
        let rest = woven(more, more_ends);
        assert(ends_well(ls, ends, 0));
        assert forall|i: int| 0 <= i < more.len() implies #[trigger] ends_well(
            more,
            more_ends,
            i,
        ) by {
            assert(ends_well(ls, ends, i + 1));
            assert forall|j: int| 0 <= j < more[i].len() implies #[trigger] more[i][j] != 0x0a by {
                assert(ls[i + 1][j] != 0x0a);
            }
        }
        law_lines_are_read_back(more, more_ends);
        assert(t == line + end + rest);
        assert(seq![line] + more == ls);
        if end.len() == 0 {
            assert(more.len() == 0);
            assert(t == line);
            assert forall|j: int| 0 <= j < t.len() implies t[j] != NEWLINE by {
                assert(ls[0][j] != 0x0a);
            }
            lemma_first_newline_is(t, t.len() as int);
        } else {
            let k = line.len() + end.len() - 1;
            assert(t[k] == end[end.len() - 1]);
            assert forall|j: int| 0 <= j < k implies t[j] != NEWLINE by {
                if j < line.len() {
                    assert(t[j] == ls[0][j]);
                    assert(ls[0][j] != 0x0a);
                } else {
                    assert(t[j] == end[0]);
                }
            }
            lemma_first_newline_is(t, k);
            assert(t.skip(k + 1) == rest);
            if end.len() == 1 {
                assert(t.take(k) == line);
            } else {
                assert(t.take(k) == line.push(RETURN));
                assert(line.push(RETURN).drop_last() == line);
            }
            assert(without_return(t.take(k)) == line);
        }
    }
}

/// Nothing of a text is lost in its lines: with an ending behind each of them
/// they are the text again.
pub proof fn law_lines_make_up_the_text(t: Seq<u8>)
    ensures
        exists|ends: Seq<Seq<u8>>| #[trigger]
            end_well(lines(t), ends) && woven(lines(t), ends) == t,
    decreases t.len(),
{
    let ls = lines(t);
    let k = first_newline(t);
    lemma_first_newline(t);
    if t.len() == 0 {
        let ends = Seq::<Seq<u8>>::empty();
        assert(end_well(ls, ends));
        assert(woven(ls, ends) == t);
    } else if k < t.len() {
        let rest = t.skip(k + 1);
        law_lines_make_up_the_text(rest);
        let more = lines(rest);
        let more_ends = choose|ends: Seq<Seq<u8>>| #[trigger]
            end_well(more, ends) && woven(more, ends) == rest;
        let line = without_return(t.take(k));
        let end = if line == t.take(k) {
            seq![0x0au8]
        } else {
            seq![0x0du8, 0x0au8]
        };
        let ends = seq![end] + more_ends;
        assert(ls == seq![line] + more);
        assert(ls.drop_first() == more);
        assert(ends.drop_first() == more_ends);
        assert(t == line + end + rest) by {
            assert(t == t.take(k).push(NEWLINE) + rest);
            if line != t.take(k) {
                assert(t.take(k) == line.push(RETURN));
            }
        }
        assert forall|i: int| 0 <= i < ls.len() implies #[trigger] ends_well(ls, ends, i) by {
            if i == 0 {
                assert forall|j: int| 0 <= j < ls[0].len() implies #[trigger] ls[0][j] != 0x0a by {
                    assert(ls[0][j] == t[j]);
                }
            } else {
                assert(ends_well(more, more_ends, i - 1));
                assert(ls[i] == more[i - 1] && ends[i] == more_ends[i - 1]);
                assert forall|j: int| 0 <= j < ls[i].len() implies #[trigger] ls[i][j] != 0x0a by {
                    assert(more[i - 1][j] != 0x0a);
                }
            }
        }
        assert(end_well(ls, ends));
        assert(woven(ls, ends) == t);
    } else {
        let ends = seq![Seq::<u8>::empty()];
        assert(ls == seq![t]);
        assert forall|i: int| 0 <= i < ls.len() implies #[trigger] ends_well(ls, ends, i) by {
            assert forall|j: int| 0 <= j < ls[i].len() implies #[trigger] ls[i][j] != 0x0a by {
                assert(ls[i][j] == t[j]);
            }
        }
        assert(end_well(ls, ends));
        assert(woven(ls.drop_first(), ends.drop_first()) == Seq::<u8>::empty());
        assert(woven(ls, ends) == t);
    }
}

/// Where the first newline stands, and that none stands before it.
proof fn lemma_first_newline(t: Seq<u8>)
    ensures
        0 <= first_newline(t) <= t.len(),
        first_newline(t) < t.len() ==> t[first_newline(t)] == NEWLINE,
        forall|j: int| 0 <= j < first_newline(t) ==> t[j] != NEWLINE,
    decreases t.len(),
{
    if t.len() > 0 && t[0] != NEWLINE {
        let u = t.drop_first();
        lemma_first_newline(u);
        assert forall|j: int| 0 <= j < first_newline(t) implies t[j] != NEWLINE by {
            if j > 0 {
                assert(t[j] == u[j - 1]);
            }
        }
    }
}

} // verus!
