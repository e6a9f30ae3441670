//! The two places where the renderer's discrete rules draw on chance.

use vstd::prelude::*;

verus! {

/// Draws the axis along which a hierarchy node orders its entities.
///
/// Calls `fastrand::u8` on the inclusive range `0..=2`. That function answers
/// with a value of the range it was given, so the axis is 0, 1 or 2; which of
/// the three depends on the state of the thread's generator.
#[verifier::external_body]
pub(crate) fn random_axis() -> (axis: u8)
    ensures
        axis <= 2,
{
    fastrand::u8(0..=2)
}

/// Reorders `items` at random through `fastrand::shuffle`.
///
/// That function walks the slice once and does nothing to it but swap pairs of
/// its elements, so the same values are there afterwards, each as often as
/// before. The order they end up in depends on the thread's generator.
#[verifier::external_body]
pub(crate) fn shuffle(items: &mut Vec<usize>)
    ensures
        final(items)@.to_multiset() == old(items)@.to_multiset(),
{
    fastrand::shuffle(items.as_mut_slice());
}

} // verus!
