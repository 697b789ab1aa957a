//! Discrete wavelet transform of a one-dimensional signal, forward and
//! inverse, with periodic extension at the block edges.
//!
//! Samples and filter taps are `i64` values under wrapping arithmetic, that
//! is exact arithmetic in the integers modulo 2^64 (see [`arith`]): each
//! result is stated as the exact integer sum taken back into that range.
use vstd::prelude::*;
use crate::transform::{pow2, level_len, forward_levels, inverse_levels};
use crate::wavelet::Wavelet;

pub mod arith;
pub mod wavelet;
pub mod transform;

verus! {

/// A transform operation.
#[derive(Clone, Copy, Debug, PartialEq, Eq, Structural)]
pub enum Operation {
    /// The forward transform.
    Forward,
    /// The inverse transform.
    Inverse,
}

/// Performs `level` levels of the transform of `data` with `wavelet`, in
/// place: a shortcut for [`Wavelet::transform`].
pub fn transform(data: &mut [i64], operation: Operation, wavelet: &Wavelet, level: usize)
    requires
        wavelet.wf(),
        old(data)@.len() % pow2(level as nat) == 0,
        level > 0 ==> wavelet.len() * level_len(old(data)@.len(), (level - 1) as nat)
            >= wavelet.offset,
    ensures
        level == 0 ==> final(data)@ == old(data)@,
        operation == Operation::Forward ==> final(data)@ == forward_levels(
            wavelet,
            old(data)@,
            level as nat,
        ),
        operation == Operation::Inverse ==> final(data)@ == inverse_levels(
            wavelet,
            old(data)@,
            level as nat,
            level as nat,
        ),
{
    wavelet.transform(data, operation, level);
}

} // verus!
