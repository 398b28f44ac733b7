//! How the contracts speak of what a decoder makes of a byte sequence.

use crate::error::LoadError;
use vstd::prelude::*;

verus! {

/// What decoding makes of a byte sequence: the decoded value together with
/// the number of bytes that it took up, or the reason for which decoding
/// fails.
pub type Decoded<T> = Result<(T, nat), LoadError>;

/// The outcome of decoding `head` from `used` bytes and then going on as
/// `rest` says: `rest`'s failure, or both parts joined.
pub open spec fn prepend<T>(head: Seq<T>, used: nat, rest: Decoded<Seq<T>>) -> Decoded<Seq<T>> {
    match rest {
        Ok((tail, more)) => Ok((head + tail, used + more)),
        Err(e) => Err(e),
    }
}

/// The outcome of taking `used` bytes and then going on as `rest` says:
/// `rest`'s outcome, with `used` more bytes taken.
pub open spec fn after<T>(used: nat, rest: Decoded<T>) -> Decoded<T> {
    match rest {
        Ok((value, more)) => Ok((value, used + more)),
        Err(e) => Err(e),
    }
}

/// `outcome` fails, if at all, because the stream ended early or because a
/// run or a literal does not fit its scanline.
pub open spec fn fails_in_encoding<T>(outcome: Decoded<T>) -> bool {
    outcome matches Err(e) ==> e == LoadError::Eof || e == LoadError::Rle
}

/// `left` is what is left of `before` once some bytes were taken from its
/// front.
pub open spec fn advanced(before: Seq<u8>, left: Seq<u8>) -> bool {
    &&& left.len() <= before.len()
    &&& left =~= before.skip(before.len() - left.len())
}

/// Prepending twice prepends the two heads joined.
pub proof fn lemma_prepend_twice<T>(
    a: Seq<T>,
    used_a: nat,
    b: Seq<T>,
    used_b: nat,
    rest: Decoded<Seq<T>>,
)
    ensures
        prepend(a, used_a, prepend(b, used_b, rest)) == prepend(a + b, used_a + used_b, rest),
{
    if let Ok((tail, more)) = rest {
        assert(a + (b + tail) =~= (a + b) + tail);
    }
}

/// Skipping in two steps skips the sum.
pub proof fn lemma_skip_skip(s: Seq<u8>, a: nat, b: nat)
    requires
        a + b <= s.len(),
    ensures
        s.skip(a as int).skip(b as int) == s.skip((a + b) as int),
{
    assert(s.skip(a as int).skip(b as int) =~= s.skip((a + b) as int));
}

} // verus!
