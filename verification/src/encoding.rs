//! The lengths of UTF-8 encodings.

use vstd::prelude::*;
use vstd::utf8::{encode_scalar, encode_utf8};

verus! {

/// `char::len_utf8` gives the number of bytes of the character's UTF-8 encoding.
pub assume_specification[ std::primitive::char::len_utf8 ](c: std::primitive::char) -> (n: usize)
    ensures
        n == encode_scalar(c as u32).len(),
;

/// The UTF-8 encoding of one character has one to four bytes.
pub proof fn lemma_scalar_len(c: char)
    ensures
        1 <= encode_scalar(c as u32).len() <= 4,
{
}

/// Encoding a sequence and one more character appends that character's bytes.
pub proof fn lemma_encode_push(chars: Seq<char>, c: char)
    ensures
        encode_utf8(chars.push(c)) == encode_utf8(chars) + encode_scalar(c as u32),
    decreases chars.len(),
{
    if chars.len() == 0 {
        assert(chars.push(c).drop_first() =~= chars);
        assert(encode_utf8(chars.push(c)) =~= encode_scalar(c as u32) + encode_utf8(chars));
        assert(encode_utf8(chars) =~= Seq::<u8>::empty());
        assert(encode_utf8(chars.push(c)) =~= encode_utf8(chars) + encode_scalar(c as u32));
    } else {
        lemma_encode_push(chars.drop_first(), c);
        assert(chars.push(c).drop_first() =~= chars.drop_first().push(c));
        assert(chars.push(c)[0] == chars[0]);
        assert(encode_utf8(chars.push(c)) =~= encode_utf8(chars) + encode_scalar(c as u32));
    }
}

/// One character encodes to its own bytes.
pub proof fn lemma_encode_one(c: char)
    ensures
        encode_utf8(seq![c]) == encode_scalar(c as u32),
{
    lemma_encode_push(Seq::<char>::empty(), c);
    assert(Seq::<char>::empty().push(c) =~= seq![c]);
    assert(encode_utf8(Seq::<char>::empty()) =~= Seq::<u8>::empty());
    assert(Seq::<u8>::empty() + encode_scalar(c as u32) =~= encode_scalar(c as u32));
}

/// The encoding of a prefix is no longer than the encoding of the whole.
pub proof fn lemma_encode_prefix(chars: Seq<char>, n: int)
    requires
        0 <= n <= chars.len(),
    ensures
        encode_utf8(chars.take(n)).len() <= encode_utf8(chars).len(),
    decreases chars.len() - n,
{
    if n < chars.len() {
        lemma_encode_prefix(chars, n + 1);
        assert(chars.take(n + 1) =~= chars.take(n).push(chars[n]));
        lemma_encode_push(chars.take(n), chars[n]);
    } else {
        assert(chars.take(n) =~= chars);
    }
}

/// Encoding distributes over concatenation.
pub proof fn lemma_encode_concat(a: Seq<char>, b: Seq<char>)
    ensures
        encode_utf8(a + b) == encode_utf8(a) + encode_utf8(b),
    decreases b.len(),
{
    if b.len() == 0 {
        assert(a + b =~= a);
        assert(encode_utf8(b) =~= Seq::<u8>::empty());
        assert(encode_utf8(a) + encode_utf8(b) =~= encode_utf8(a));
    } else {
        let front = b.drop_last();
        lemma_encode_concat(a, front);
        lemma_encode_push(a + front, b.last());
        lemma_encode_push(front, b.last());
        assert((a + front).push(b.last()) =~= a + b);
        assert(front.push(b.last()) =~= b);
        assert(encode_utf8(a + b) =~= encode_utf8(a) + encode_utf8(b));
    }
}

/// A text that is not empty has an encoding that is not empty.
pub proof fn lemma_encode_nonempty(a: Seq<char>)
    requires
        a.len() > 0,
    ensures
        encode_utf8(a).len() > 0,
{
    lemma_scalar_len(a[0]);
}

} // verus!
