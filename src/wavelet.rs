//! Wavelets: four filters and an offset.
use vstd::prelude::*;
use crate::arith::{wrap, lemma_wrapping_sub};

verus! {

/// A wavelet: a filter bank of four filters of one length, and an offset.
pub struct Wavelet {
    /// The offset of the coefficients.
    pub offset: usize,
    /// The coefficients of the decomposition low-pass filter.
    pub dec_lo: Vec<i64>,
    /// The coefficients of the decomposition high-pass filter.
    pub dec_hi: Vec<i64>,
    /// The coefficients of the reconstruction low-pass filter.
    pub rec_lo: Vec<i64>,
    /// The coefficients of the reconstruction high-pass filter.
    pub rec_hi: Vec<i64>,
}

impl Wavelet {
    /// The number of coefficients of each filter.
    pub open spec fn len(&self) -> nat {
        self.dec_lo@.len()
    }

    /// The four filters have one length, and it is positive.
    pub open spec fn wf(&self) -> bool {
        &&& self.dec_lo@.len() > 0
        &&& self.dec_hi@.len() == self.dec_lo@.len()
        &&& self.rec_lo@.len() == self.dec_lo@.len()
        &&& self.rec_hi@.len() == self.dec_lo@.len()
    }

    /// The filters of an orthogonal wavelet follow from its decomposition
    /// low-pass filter `lo`: the reconstruction low-pass filter is `lo`
    /// reversed, the reconstruction high-pass filter is `lo` with the sign of
    /// every odd tap flipped, and the decomposition high-pass filter is that
    /// one reversed.
    pub open spec fn derived_from(&self, lo: Seq<i64>, offset: nat) -> bool {
        let l = lo.len();
        &&& self.offset == offset
        &&& self.dec_lo@ =~= lo
        &&& self.rec_lo@ =~= Seq::new(l, |i: int| lo[l - 1 - i])
        &&& self.rec_hi@ =~= Seq::new(l, |i: int| alternate(lo, i))
        &&& self.dec_hi@ =~= Seq::new(l, |i: int| alternate(lo, l - 1 - i))
    }

    /// Create an orthogonal wavelet from its decomposition low-pass filter.
    pub fn new_orthogonal(declo: &[i64], offset: usize) -> (w: Self)
        requires
            declo@.len() > 0,
        ensures
            w.wf(),
            w.len() == declo@.len(),
            w.derived_from(declo@, offset as nat),
    {
        let l = declo.len();
        let mut dec_lo: Vec<i64> = Vec::with_capacity(l);
        let mut rec_lo: Vec<i64> = Vec::with_capacity(l);
        let mut rec_hi: Vec<i64> = Vec::with_capacity(l);
        let mut dec_hi: Vec<i64> = Vec::with_capacity(l);
        let mut i: usize = 0;
        while i < l
            invariant
                l == declo@.len(),
                i <= l,
                dec_lo@.len() == i,
                rec_lo@.len() == i,
                rec_hi@.len() == i,
                dec_hi@.len() == i,
                forall|k: int| 0 <= k < i ==> dec_lo@[k] == declo@[k],
                forall|k: int| 0 <= k < i ==> rec_lo@[k] == declo@[l - 1 - k],
                forall|k: int| 0 <= k < i ==> rec_hi@[k] == alternate(declo@, k),
                forall|k: int| 0 <= k < i ==> dec_hi@[k] == alternate(declo@, l - 1 - k),
            decreases l - i,
        {
            dec_lo.push(declo[i]);
            rec_lo.push(declo[l - 1 - i]);
            rec_hi.push(alternate_at(declo, i));
            dec_hi.push(alternate_at(declo, l - 1 - i));
            i = i + 1;
        }
        Wavelet { offset, dec_lo, dec_hi, rec_lo, rec_hi }
    }
}

/// Tap `i` of `lo` with its sign flipped where `i` is odd.
pub open spec fn alternate(lo: Seq<i64>, i: int) -> i64 {
    if i % 2 == 0 {
        lo[i]
    } else {
        wrap(-lo[i])
    }
}

fn alternate_at(lo: &[i64], i: usize) -> (r: i64)
    requires
        i < lo@.len(),
    ensures
        r == alternate(lo@, i as int),
{
    let c = lo[i];
    if i % 2 == 0 {
        c
    } else {
        proof {
            lemma_wrapping_sub(0, c);
        }
        0i64.wrapping_sub(c)
    }
}

} // verus!
