//! Sequences of bytes and characters: splitting at a separator, prefixes, UTF-8 text and
//! substring search.

use vstd::prelude::*;
use vstd::string::StringSliceAdditionalSpecFns;
use vstd::utf8::{decode_utf8, encode_utf8_decode_utf8, valid_utf8};

verus! {

/// The pieces of `bytes` that lie between the occurrences of `sep`, in order.
///
/// Reading `bytes` from the left, a separator closes the current piece and opens an empty one,
/// and any other byte extends the current piece. There is always at least one piece.
pub open spec fn split(bytes: Seq<u8>, sep: u8) -> Seq<Seq<u8>>
    decreases bytes.len(),
{
    if bytes.len() == 0 {
        seq![Seq::empty()]
    } else {
        let before = split(bytes.drop_last(), sep);
        if bytes.last() == sep {
            before.push(Seq::empty())
        } else {
            before.drop_last().push(before.last().push(bytes.last()))
        }
    }
}

/// `split` always yields a piece.
pub proof fn split_is_nonempty(bytes: Seq<u8>, sep: u8)
    ensures
        split(bytes, sep).len() >= 1,
    decreases bytes.len(),
{
    if bytes.len() > 0 {
        split_is_nonempty(bytes.drop_last(), sep);
    }
}

/// The pieces of `pieces` in a row, with `sep` between each two of them.
pub open spec fn join(pieces: Seq<Seq<u8>>, sep: u8) -> Seq<u8>
    decreases pieces.len(),
{
    if pieces.len() == 0 {
        Seq::empty()
    } else if pieces.len() == 1 {
        pieces[0]
    } else {
        join(pieces.drop_last(), sep).push(sep) + pieces.last()
    }
}

/// No piece holds the separator.
pub proof fn split_pieces_hold_no_separator(bytes: Seq<u8>, sep: u8)
    ensures
        forall|i: int, j: int|
            0 <= i < split(bytes, sep).len() && 0 <= j < split(bytes, sep)[i].len() ==> (
            #[trigger] split(bytes, sep)[i][j]) != sep,
    decreases bytes.len(),
{
    if bytes.len() > 0 {
        split_pieces_hold_no_separator(bytes.drop_last(), sep);
        split_is_nonempty(bytes.drop_last(), sep);
        let before = split(bytes.drop_last(), sep);
        let pieces = split(bytes, sep);
        assert forall|i: int, j: int| 0 <= i < pieces.len() && 0 <= j < pieces[i].len() implies (
        #[trigger] pieces[i][j]) != sep by {
            if i < before.len() - 1 {
                assert(pieces[i] == before[i]);
                assert(before[i][j] != sep);
            } else if bytes.last() != sep && j < before.last().len() {
                assert(pieces[i][j] == before[before.len() - 1][j]);
            }
        }
    }
}

/// The pieces, joined by the separator, are the bytes that were split.
pub proof fn split_joins_back(bytes: Seq<u8>, sep: u8)
    ensures
        join(split(bytes, sep), sep) == bytes,
    decreases bytes.len(),
{
    if bytes.len() > 0 {
        let rest = bytes.drop_last();
        let before = split(rest, sep);
        let pieces = split(bytes, sep);
        split_joins_back(rest, sep);
        split_is_nonempty(rest, sep);
        if bytes.last() == sep {
            assert(pieces.drop_last() == before);
            assert(join(before, sep).push(sep) + Seq::<u8>::empty() == bytes);
        } else if before.len() == 1 {
            assert(pieces[0] == before[0].push(bytes.last()));
            assert(rest.push(bytes.last()) == bytes);
        } else {
            assert(pieces.drop_last() == before.drop_last());
            assert(join(before.drop_last(), sep).push(sep) + before.last().push(bytes.last())
                == (join(before.drop_last(), sep).push(sep) + before.last()).push(bytes.last()));
            assert(rest.push(bytes.last()) == bytes);
        }
    }
}

/// What stands before a separator and what stands after it are split each for itself.
pub proof fn split_at_separator(a: Seq<u8>, b: Seq<u8>, sep: u8)
    ensures
        split(a.push(sep) + b, sep) == split(a, sep) + split(b, sep),
    decreases b.len(),
{
    let whole = a.push(sep) + b;
    if b.len() == 0 {
        assert(whole.drop_last() == a);
        assert(split(a, sep).push(Seq::<u8>::empty()) == split(a, sep) + split(b, sep));
    } else {
        let rest = b.drop_last();
        split_at_separator(a, rest, sep);
        split_is_nonempty(rest, sep);
        assert(whole.drop_last() == a.push(sep) + rest);
        let front = split(a, sep);
        let back = split(rest, sep);
        if b.last() == sep {
            assert((front + back).push(Seq::<u8>::empty()) == front + back.push(Seq::<u8>::empty()));
        } else {
            assert((front + back).drop_last().push((front + back).last().push(b.last())) == front
                + back.drop_last().push(back.last().push(b.last())));
        }
    }
}

/// Splits `bytes` at every occurrence of `sep`.
pub fn split_on<'a>(bytes: &'a [u8], sep: u8) -> (pieces: Vec<&'a [u8]>)
    ensures
        pieces.deep_view() == split(bytes@, sep),
{
    let mut pieces: Vec<&'a [u8]> = Vec::new();
    let mut start: usize = 0;
    let mut i: usize = 0;
    assert(split(bytes@.take(0), sep) == pieces.deep_view().push(bytes@.subrange(0, 0))) by {
        assert(bytes@.take(0).len() == 0);
        assert(bytes@.subrange(0, 0) == Seq::<u8>::empty());
        assert(pieces.deep_view().push(bytes@.subrange(0, 0)) == seq![Seq::<u8>::empty()]);
    }
    while i < bytes.len()
        invariant
            start <= i <= bytes.len(),
            split(bytes@.take(i as int), sep) == pieces.deep_view().push(
                bytes@.subrange(start as int, i as int),
            ),
        decreases bytes.len() - i,
    {
        let ghost seen = bytes@.take(i as int);
        let ghost next = bytes@.take(i + 1);
        assert(next.drop_last() == seen);
        assert(next.last() == bytes@[i as int]);
        if bytes[i] == sep {
            let piece = vstd::slice::slice_subrange(bytes, start, i);
            let ghost before = pieces.deep_view();
            pieces.push(piece);
            assert(piece.deep_view() == piece@);
            assert(pieces.deep_view() == before.push(piece@));
            start = i + 1;
            assert(bytes@.subrange(start as int, i + 1) == Seq::<u8>::empty());
        } else {
            assert(bytes@.subrange(start as int, i + 1) == bytes@.subrange(
                start as int,
                i as int,
            ).push(bytes@[i as int]));
            assert(pieces.deep_view().push(bytes@.subrange(start as int, i as int)).drop_last()
                == pieces.deep_view());
        }
        i += 1;
    }
    assert(bytes@.take(i as int) == bytes@);
    let piece = vstd::slice::slice_subrange(bytes, start, i);
    let ghost before = pieces.deep_view();
    pieces.push(piece);
    assert(piece.deep_view() == piece@);
    assert(pieces.deep_view() == before.push(piece@));
    pieces
}

/// What is left of `bytes` after `prefix`, if `bytes` starts with it.
pub fn strip_prefix<'a>(bytes: &'a [u8], prefix: &[u8]) -> (rest: Option<&'a [u8]>)
    ensures
        rest is Some <==> prefix@.is_prefix_of(bytes@),
        rest matches Some(r) ==> r@ == bytes@.skip(prefix@.len() as int),
{
    if prefix.len() > bytes.len() {
        return None;
    }
    let mut i: usize = 0;
    while i < prefix.len()
        invariant
            i <= prefix.len() <= bytes.len(),
            forall|j: int| 0 <= j < i ==> prefix@[j] == bytes@[j],
        decreases prefix.len() - i,
    {
        if prefix[i] != bytes[i] {
            assert(bytes@.subrange(0, prefix@.len() as int)[i as int] != prefix@[i as int]);
            return None;
        }
        i += 1;
    }
    assert(prefix@ =~= bytes@.subrange(0, prefix@.len() as int));
    Some(vstd::slice::slice_subrange(bytes, prefix.len(), bytes.len()))
}

/// Calls `core::str::from_utf8`: the result is a string exactly when `bytes` is well-formed
/// UTF-8, and that string is made of the same bytes.
#[verifier::external_body]
fn utf8_str(bytes: &[u8]) -> (text: Option<&str>)
    ensures
        text is Some <==> valid_utf8(bytes@),
        text matches Some(s) ==> s.spec_bytes() == bytes@,
{
    match core::str::from_utf8(bytes) {
        Ok(s) => Some(s),
        Err(_) => None,
    }
}

/// The text that `bytes` encodes in UTF-8, if it encodes any.
pub open spec fn text(bytes: Seq<u8>) -> Option<Seq<char>> {
    if valid_utf8(bytes) {
        Some(decode_utf8(bytes))
    } else {
        None
    }
}

/// Reads `bytes` as UTF-8 text.
pub fn text_of(bytes: &[u8]) -> (r: Option<&str>)
    ensures
        match r {
            Some(s) => text(bytes@) == Some(s@),
            None => text(bytes@) is None,
        },
{
    let r = utf8_str(bytes);
    proof {
        if let Some(s) = r {
            encode_utf8_decode_utf8(s@);
        }
    }
    r
}

/// The characters of `s`.
pub fn chars_of(s: &str) -> (chars: Vec<char>)
    ensures
        chars@ == s@,
{
    let mut chars: Vec<char> = Vec::new();
    for c in it: s.chars()
        invariant
            chars@ == it.seq().take(it.index() as int),
            it.seq() == s@,
    {
        chars.push(c);
    }
    chars
}

/// Whether two byte slices hold the same bytes.
pub fn same_bytes(a: &[u8], b: &[u8]) -> (r: bool)
    ensures
        r == (a@ == b@),
{
    if a.len() != b.len() {
        return false;
    }
    let mut i: usize = 0;
    while i < a.len()
        invariant
            i <= a.len() == b.len(),
            forall|j: int| 0 <= j < i ==> a@[j] == b@[j],
        decreases a.len() - i,
    {
        if a[i] != b[i] {
            return false;
        }
        i += 1;
    }
    assert(a@ =~= b@);
    true
}

/// Whether two strings hold the same text.
pub fn same_text(a: &str, b: &str) -> (r: bool)
    ensures
        r == (a@ == b@),
{
    proof {
        encode_utf8_decode_utf8(a@);
        encode_utf8_decode_utf8(b@);
    }
    same_bytes(a.as_bytes(), b.as_bytes())
}

/// Whether `needle` stands in `hay` at the place `at`.
pub open spec fn occurs_at(needle: Seq<char>, hay: Seq<char>, at: int) -> bool {
    0 <= at && at + needle.len() <= hay.len() && hay.subrange(at, at + needle.len()) == needle
}

/// Whether `needle` is a substring of `hay`.
pub open spec fn occurs_in(needle: Seq<char>, hay: Seq<char>) -> bool {
    exists|at: int| occurs_at(needle, hay, at)
}

/// Whether `needle` stands in `hay` at the place `at`.
fn stands_at(hay: &[char], needle: &[char], at: usize) -> (r: bool)
    requires
        at + needle.len() <= hay.len(),
    ensures
        r == occurs_at(needle@, hay@, at as int),
{
    let mut i: usize = 0;
    while i < needle.len()
        invariant
            i <= needle.len(),
            at + needle.len() <= hay.len(),
            forall|j: int| 0 <= j < i ==> hay@[at + j] == needle@[j],
        decreases needle.len() - i,
    {
        if hay[at + i] != needle[i] {
            assert(hay@.subrange(at as int, at + needle.len())[i as int] != needle@[i as int]);
            return false;
        }
        i += 1;
    }
    assert(hay@.subrange(at as int, at + needle.len()) =~= needle@);
    true
}

/// Whether `needle` is a substring of `hay`.
pub fn contains(hay: &[char], needle: &[char]) -> (r: bool)
    ensures
        r == occurs_in(needle@, hay@),
{
    if needle.len() > hay.len() {
        return false;
    }
    let last: usize = hay.len() - needle.len();
    let mut at: usize = 0;
    loop
        invariant
            at <= last,
            last == hay.len() - needle.len(),
            forall|k: int| 0 <= k < at ==> !occurs_at(needle@, hay@, k),
        decreases last - at,
    {
        if stands_at(hay, needle, at) {
            return true;
        }
        if at == last {
            return false;
        }
        at += 1;
    }
}

/// Whether the text `needle` is a substring of the text `hay`.
pub fn text_contains(hay: &str, needle: &[char]) -> (r: bool)
    ensures
        r == occurs_in(needle@, hay@),
{
    let hay = chars_of(hay);
    contains(hay.as_slice(), needle)
}

} // verus!
