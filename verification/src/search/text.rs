//! Text at the searcher's edge: word segmentation and UTF-8 decoding.

use unicode_segmentation::UnicodeSegmentation;
use crate::encoding::lemma_encode_concat;
use vstd::prelude::*;
use vstd::string::StringSliceAdditionalSpecFns;
use vstd::utf8::{
    encode_utf8, is_char_boundary, length_of_first_scalar, pop_first_scalar, valid_first_scalar,
    valid_utf8,
};

verus! {

/// The pieces into which the Unicode word-boundary rules cut a text.
pub uninterp spec fn word_bounds(text: Seq<char>) -> Seq<Seq<char>>;

/// The texts of string slices.
pub open spec fn pieces(parts: Seq<&str>) -> Seq<Seq<char>> {
    Seq::new(parts.len(), |i: int| parts[i]@)
}

/// The pieces one after the other.
pub open spec fn join(parts: Seq<Seq<char>>) -> Seq<char>
    decreases parts.len(),
{
    if parts.len() == 0 {
        Seq::empty()
    } else {
        join(parts.drop_last()) + parts.last()
    }
}

/// `UnicodeSegmentation::split_word_bounds`, collected: the substrings of
/// the text between its word boundaries. Joined they give the text again, and
/// none of them is empty.
#[verifier::external_body]
pub(crate) fn split_word_bounds<'a>(text: &'a str) -> (r: Vec<&'a str>)
    ensures
        pieces(r@) == word_bounds(text@),
        join(pieces(r@)) == text@,
        forall|i: int| 0 <= i < r@.len() ==> (#[trigger] r@[i])@.len() > 0,
{
    text.split_word_bounds().collect()
}

/// What `core::str::from_utf8` reports on bytes that are not UTF-8.
#[derive(Debug, Clone, Copy, PartialEq, Eq)]
pub struct Utf8Fault {
    /// The length of the longest prefix that is valid.
    pub valid_up_to: usize,
    /// The length of the invalid sequence after it; `None` where the input
    /// ended in the middle of a character.
    pub error_len: Option<usize>,
}

/// The fault that `core::str::from_utf8` reports on `bytes`, if any.
pub uninterp spec fn utf8_fault(bytes: Seq<u8>) -> Option<Utf8Fault>;

/// `core::str::from_utf8`: the text where the bytes are valid UTF-8, else
/// the fault. The fault's prefix is valid; where it has no error length, one
/// to three bytes follow the prefix.
#[verifier::external_body]
pub(crate) fn from_utf8<'a>(bytes: &'a [u8]) -> (r: Result<&'a str, Utf8Fault>)
    ensures
        r is Ok == valid_utf8(bytes@),
        match r {
            Ok(text) => text.spec_bytes() == bytes@ && utf8_fault(bytes@) is None,
            Err(fault) => {
                &&& utf8_fault(bytes@) == Some(fault)
                &&& fault.valid_up_to <= bytes@.len()
                &&& valid_utf8(bytes@.take(fault.valid_up_to as int))
                &&& fault.error_len is None ==> 1 <= bytes@.len() - fault.valid_up_to <= 3
            },
        },
{
    match core::str::from_utf8(bytes) {
        Ok(text) => Ok(text),
        Err(e) => Err(Utf8Fault { valid_up_to: e.valid_up_to(), error_len: e.error_len() }),
    }
}

/// `str::get` on a byte range: the substring, where both ends lie on
/// character boundaries and in order.
#[verifier::external_body]
pub(crate) fn substring<'a>(text: &'a str, from: usize, to: usize) -> (r: Option<&'a str>)
    ensures
        r is Some == (from <= to <= text.spec_bytes().len() && is_char_boundary(
            text.spec_bytes(),
            from as int,
        ) && is_char_boundary(text.spec_bytes(), to as int)),
        r is Some ==> r->0.spec_bytes() == text.spec_bytes().subrange(from as int, to as int),
{
    text.get(from..to)
}

/// The encodings of the pieces of a text.
pub open spec fn encodings(parts: Seq<Seq<char>>) -> Seq<Seq<u8>> {
    Seq::new(parts.len(), |i: int| encode_utf8(parts[i]))
}

/// The segments of a text as the searcher consumes them: the UTF-8 bytes of
/// each piece between word boundaries.
pub open spec fn segments(text: Seq<char>) -> Seq<Seq<u8>> {
    encodings(word_bounds(text))
}

/// The number of bytes in all segments together.
pub open spec fn total_len(segs: Seq<Seq<u8>>) -> nat
    decreases segs.len(),
{
    if segs.len() == 0 {
        0
    } else {
        total_len(segs.drop_last()) + segs.last().len()
    }
}

/// The encodings of the pieces of a text are as long together as the
/// encoding of the text.
pub proof fn lemma_pieces_total(parts: Seq<Seq<char>>)
    ensures
        total_len(encodings(parts)) == encode_utf8(join(parts)).len(),
    decreases parts.len(),
{
    let segs = encodings(parts);
    if parts.len() == 0 {
        assert(encode_utf8(join(parts)) =~= Seq::<u8>::empty());
    } else {
        let front = parts.drop_last();
        lemma_pieces_total(front);
        assert(segs.drop_last() =~= encodings(front));
        lemma_encode_concat(join(front), parts.last());
    }
}

/// Two streams of segments have together as many bytes as each has.
pub proof fn lemma_total_concat(a: Seq<Seq<u8>>, b: Seq<Seq<u8>>)
    ensures
        total_len(a + b) == total_len(a) + total_len(b),
    decreases b.len(),
{
    if b.len() == 0 {
        assert(a + b =~= a);
    } else {
        lemma_total_concat(a, b.drop_last());
        assert((a + b).drop_last() =~= a + b.drop_last());
        assert((a + b).last() == b.last());
    }
}

/// A prefix of the segments has no more bytes than all of them.
pub proof fn lemma_total_prefix(segs: Seq<Seq<u8>>, n: int)
    requires
        0 <= n <= segs.len(),
    ensures
        total_len(segs.take(n)) <= total_len(segs),
    decreases segs.len() - n,
{
    if n < segs.len() {
        lemma_total_prefix(segs, n + 1);
        assert(segs.take(n + 1).drop_last() =~= segs.take(n));
    } else {
        assert(segs.take(n) =~= segs);
    }
}

/// The bytes of all segments, one after the other.
pub open spec fn bytes_of(segs: Seq<Seq<u8>>) -> Seq<u8>
    decreases segs.len(),
{
    if segs.len() == 0 {
        Seq::empty()
    } else {
        bytes_of(segs.drop_last()) + segs.last()
    }
}

/// The segments together have as many bytes as `total_len` counts.
pub proof fn lemma_bytes_len(segs: Seq<Seq<u8>>)
    ensures
        bytes_of(segs).len() == total_len(segs),
    decreases segs.len(),
{
    if segs.len() > 0 {
        lemma_bytes_len(segs.drop_last());
    }
}

/// The encodings of the pieces of a text are, one after the other, the
/// encoding of the text.
pub proof fn lemma_bytes_of_pieces(parts: Seq<Seq<char>>)
    ensures
        bytes_of(encodings(parts)) == encode_utf8(join(parts)),
    decreases parts.len(),
{
    if parts.len() == 0 {
        assert(encode_utf8(join(parts)) =~= Seq::<u8>::empty());
    } else {
        let front = parts.drop_last();
        lemma_bytes_of_pieces(front);
        assert(encodings(parts).drop_last() =~= encodings(front));
        lemma_encode_concat(join(front), parts.last());
    }
}

/// Segments that are UTF-8 are UTF-8 together.
pub proof fn lemma_bytes_valid(segs: Seq<Seq<u8>>)
    requires
        forall|k: int| 0 <= k < segs.len() ==> valid_utf8(#[trigger] segs[k]),
    ensures
        valid_utf8(bytes_of(segs)),
    decreases segs.len(),
{
    if segs.len() > 0 {
        let front = segs.drop_last();
        assert forall|k: int| 0 <= k < front.len() implies valid_utf8(#[trigger] front[k]) by {
            assert(front[k] == segs[k]);
        }
        lemma_bytes_valid(front);
        assert(segs.last() == segs[segs.len() - 1]);
        vstd::utf8::valid_utf8_concat(bytes_of(front), segs.last());
    }
}

/// The bytes between the starts of two segments are the bytes of the
/// segments between them.
pub proof fn lemma_bytes_between(segs: Seq<Seq<u8>>, i: int, j: int)
    requires
        0 <= i <= j <= segs.len(),
    ensures
        total_len(segs.take(i)) <= total_len(segs.take(j)) <= bytes_of(segs).len(),
        bytes_of(segs).subrange(total_len(segs.take(i)) as int, total_len(segs.take(j)) as int)
            == bytes_of(segs.subrange(i, j)),
    decreases segs.len() - i + (j - i),
{
    lemma_bytes_len(segs);
    lemma_total_prefix(segs, j);
    if i == j {
        assert(segs.subrange(i, j) =~= Seq::<Seq<u8>>::empty());
        assert(bytes_of(segs).subrange(
            total_len(segs.take(i)) as int,
            total_len(segs.take(j)) as int,
        ) =~= Seq::<u8>::empty());
    } else {
        lemma_bytes_between(segs, i, j - 1);
        lemma_bytes_prefix(segs, j);
        lemma_bytes_prefix(segs, j - 1);
        lemma_bytes_len(segs.take(j));
        lemma_bytes_len(segs.take(j - 1));
        assert(segs.take(j).drop_last() =~= segs.take(j - 1));
        assert(segs.take(j).last() == segs[j - 1]);
        assert(segs.subrange(i, j).drop_last() =~= segs.subrange(i, j - 1));
        assert(segs.subrange(i, j).last() == segs[j - 1]);
        let a = total_len(segs.take(i)) as int;
        let b = total_len(segs.take(j - 1)) as int;
        let c = total_len(segs.take(j)) as int;
        let all = bytes_of(segs);
        assert(all.subrange(a, c) =~= all.subrange(a, b) + all.subrange(b, c));
        assert(all.subrange(0, c) =~= all.subrange(0, b) + all.subrange(b, c));
        assert(bytes_of(segs.take(j)) =~= bytes_of(segs.take(j - 1)) + segs[j - 1]);
        assert(all.subrange(b, c) =~= segs[j - 1]) by {
            assert(all.subrange(0, c) == bytes_of(segs.take(j)));
            assert(all.subrange(0, b) == bytes_of(segs.take(j - 1)));
            assert forall|k: int| 0 <= k < c - b implies all.subrange(b, c)[k] == segs[j - 1][k] by {
                assert(all.subrange(0, c)[b + k] == (bytes_of(segs.take(j - 1)) + segs[j - 1])[b
                    + k]);
            }
        }
    }
}

/// The bytes of the first `j` segments are a prefix of the bytes of all.
pub proof fn lemma_bytes_prefix(segs: Seq<Seq<u8>>, j: int)
    requires
        0 <= j <= segs.len(),
    ensures
        total_len(segs.take(j)) <= bytes_of(segs).len(),
        bytes_of(segs).subrange(0, total_len(segs.take(j)) as int) == bytes_of(segs.take(j)),
    decreases segs.len() - j,
{
    lemma_bytes_len(segs);
    lemma_bytes_len(segs.take(j));
    lemma_total_prefix(segs, j);
    if j == segs.len() {
        assert(segs.take(j) =~= segs);
        assert(bytes_of(segs).subrange(0, bytes_of(segs).len() as int) =~= bytes_of(segs));
    } else {
        lemma_bytes_prefix(segs, j + 1);
        lemma_bytes_len(segs.take(j + 1));
        assert(segs.take(j + 1).drop_last() =~= segs.take(j));
        let longer = bytes_of(segs.take(j + 1));
        assert(longer =~= bytes_of(segs.take(j)) + segs[j]);
        assert(bytes_of(segs).subrange(0, total_len(segs.take(j)) as int) =~= longer.subrange(
            0,
            total_len(segs.take(j)) as int,
        ));
        assert(longer.subrange(0, total_len(segs.take(j)) as int) =~= bytes_of(segs.take(j)));
    }
}

/// Byte-accurate spans, for the text: the bytes of a text between the starts
/// of two of its pieces are valid UTF-8.
pub proof fn law_span_is_text(parts: Seq<Seq<char>>, i: int, j: int)
    requires
        0 <= i <= j <= parts.len(),
    ensures
        total_len(encodings(parts).take(i)) <= total_len(encodings(parts).take(j))
            <= encode_utf8(join(parts)).len(),
        valid_utf8(
            encode_utf8(join(parts)).subrange(
                total_len(encodings(parts).take(i)) as int,
                total_len(encodings(parts).take(j)) as int,
            ),
        ),
{
    let segs = encodings(parts);
    lemma_bytes_of_pieces(parts);
    lemma_bytes_between(segs, i, j);
    let between = segs.subrange(i, j);
    assert forall|k: int| 0 <= k < between.len() implies valid_utf8(#[trigger] between[k]) by {
        vstd::utf8::encode_utf8_valid_utf8(parts[i + k]);
    }
    lemma_bytes_valid(between);
}

/// Where a valid prefix of valid bytes ends, a character begins.
pub proof fn lemma_boundary(a: Seq<u8>, b: Seq<u8>)
    requires
        valid_utf8(a),
        valid_utf8(a + b),
    ensures
        is_char_boundary(a + b, a.len() as int),
    decreases a.len(),
{
    if a.len() > 0 {
        let rest = pop_first_scalar(a);
        assert(valid_first_scalar(a));
        assert(length_of_first_scalar(a) <= a.len());
        assert(pop_first_scalar(a + b) =~= rest + b);
        assert(length_of_first_scalar(a + b) == length_of_first_scalar(a));
        lemma_boundary(rest, b);
    }
}

/// Every piece of a text starts at a character boundary of its encoding.
pub proof fn lemma_piece_boundary(parts: Seq<Seq<char>>, i: int)
    requires
        0 <= i <= parts.len(),
    ensures
        total_len(encodings(parts).take(i)) <= encode_utf8(join(parts)).len(),
        is_char_boundary(encode_utf8(join(parts)), total_len(encodings(parts).take(i)) as int),
{
    let segs = encodings(parts);
    let all = encode_utf8(join(parts));
    lemma_bytes_of_pieces(parts);
    lemma_bytes_prefix(segs, i);
    let cut = total_len(segs.take(i)) as int;
    let head = all.subrange(0, cut);
    let tail = all.subrange(cut, all.len() as int);
    assert(head + tail =~= all);
    assert forall|k: int| 0 <= k < segs.take(i).len() implies valid_utf8(
        #[trigger] segs.take(i)[k],
    ) by {
        vstd::utf8::encode_utf8_valid_utf8(parts[k]);
    }
    lemma_bytes_valid(segs.take(i));
    vstd::utf8::encode_utf8_valid_utf8(join(parts));
    lemma_boundary(head, tail);
}

} // verus!
