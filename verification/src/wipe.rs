//! Overwriting buffers with zeros in a way that the compiler may not drop.
use vstd::prelude::*;

verus! {

/// `zeroize::Zeroize::zeroize` on a slice of words: every entry becomes zero,
/// by volatile writes; the length stays.
#[verifier::external_body]
pub(crate) fn wipe_words(a: &mut [u64])
    ensures
        final(a)@.len() == old(a)@.len(),
        forall|i: int| 0 <= i < final(a)@.len() ==> (#[trigger] final(a)@[i]) == 0,
{
    zeroize::Zeroize::zeroize(a)
}

/// `zeroize::Zeroize::zeroize` on a slice of signed words: every entry becomes
/// zero, by volatile writes; the length stays.
#[verifier::external_body]
pub(crate) fn wipe_signed(a: &mut [i64])
    ensures
        final(a)@.len() == old(a)@.len(),
        forall|i: int| 0 <= i < final(a)@.len() ==> (#[trigger] final(a)@[i]) == 0,
{
    zeroize::Zeroize::zeroize(a)
}

} // verus!
