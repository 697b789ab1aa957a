//! The transform engine: one level forward or inverse, and the multi-level
//! driver.
use vstd::prelude::*;
use vstd::arithmetic::div_mod::{
    lemma_fundamental_div_mod, lemma_mod_multiples_vanish, lemma_small_mod, lemma_mod_self_0,
    lemma_add_mod_noop, lemma_mod_bound, lemma_div_denominator, lemma_div_is_ordered_by_denominator,
    lemma_div_by_multiple,
};
use crate::Operation;
use crate::arith::{wrap, lemma_wrapping_add, lemma_wrap_add, lemma_wrap_small};
use crate::wavelet::Wavelet;

verus! {

/// The position in a block of `n` samples that tap `j` of output `i` reads
/// (forward) or feeds (inverse): the signal is extended periodically.
pub open spec fn tap_index(w: &Wavelet, n: nat, i: int, j: int) -> int {
    (2 * i + (w.len() * n - w.offset) + j) % (n as int)
}

/// The first `j` taps of `filter` applied at output `i` of a block of `n`
/// samples of `data`, as an exact integer.
pub open spec fn filter_sum(w: &Wavelet, filter: Seq<i64>, data: Seq<i64>, n: nat, i: int, j: nat) -> int
    decreases j,
{
    if j == 0 {
        0
    } else {
        filter_sum(w, filter, data, n, i, (j - 1) as nat) + filter[j - 1] * data[tap_index(
            w,
            n,
            i,
            j - 1,
        )]
    }
}

/// The approximation coefficients of one forward level over the first `n`
/// samples of `data`.
pub open spec fn approx_of(w: &Wavelet, data: Seq<i64>, n: nat) -> Seq<i64> {
    Seq::new(n / 2, |i: int| wrap(filter_sum(w, w.dec_lo@, data, n, i, w.len())))
}

/// The detail coefficients of one forward level over the first `n` samples of
/// `data`.
pub open spec fn detail_of(w: &Wavelet, data: Seq<i64>, n: nat) -> Seq<i64> {
    Seq::new(n / 2, |i: int| wrap(filter_sum(w, w.dec_hi@, data, n, i, w.len())))
}

/// `s` with its first `p.len()` elements replaced by `p`.
pub open spec fn overwrite_prefix(s: Seq<i64>, p: Seq<i64>) -> Seq<i64> {
    p + s.subrange(p.len() as int, s.len() as int)
}

/// What tap `j` of input pair `i` adds to position `m` of a block of `n`.
pub open spec fn tap_term(
    w: &Wavelet,
    approx: Seq<i64>,
    detail: Seq<i64>,
    n: nat,
    i: int,
    j: int,
    m: int,
) -> int {
    if tap_index(w, n, i, j) == m {
        w.rec_lo@[j] * approx[i] + w.rec_hi@[j] * detail[i]
    } else {
        0
    }
}

/// What the first `j` taps of input pair `i` add to position `m`.
pub open spec fn row_sum(
    w: &Wavelet,
    approx: Seq<i64>,
    detail: Seq<i64>,
    n: nat,
    i: int,
    m: int,
    j: nat,
) -> int
    decreases j,
{
    if j == 0 {
        0
    } else {
        row_sum(w, approx, detail, n, i, m, (j - 1) as nat) + tap_term(
            w,
            approx,
            detail,
            n,
            i,
            j - 1,
            m,
        )
    }
}

/// What the first `i` input pairs add to position `m`, as an exact integer.
pub open spec fn synth_sum(
    w: &Wavelet,
    approx: Seq<i64>,
    detail: Seq<i64>,
    n: nat,
    m: int,
    i: nat,
) -> int
    decreases i,
{
    if i == 0 {
        0
    } else {
        synth_sum(w, approx, detail, n, m, (i - 1) as nat) + row_sum(
            w,
            approx,
            detail,
            n,
            i - 1,
            m,
            w.len(),
        )
    }
}

/// The block of `n` samples that one inverse level rebuilds from `n / 2`
/// approximation and `n / 2` detail coefficients.
pub open spec fn synthesis(w: &Wavelet, approx: Seq<i64>, detail: Seq<i64>, n: nat) -> Seq<i64> {
    Seq::new(n, |m: int| wrap(synth_sum(w, approx, detail, n, m, n / 2)))
}

/// `2^k`.
pub open spec fn pow2(k: nat) -> nat
    decreases k,
{
    if k == 0 {
        1
    } else {
        2 * pow2((k - 1) as nat)
    }
}

/// The size of the block that level `i` works on, for a signal of `len`
/// samples (level 0 is the finest).
pub open spec fn level_len(len: nat, i: nat) -> nat {
    len / pow2(i)
}

/// The signal after one forward level over its first `n` samples: the
/// approximation coefficients, then the detail coefficients, then the samples
/// that the level does not touch.
pub open spec fn forward_level(w: &Wavelet, data: Seq<i64>, n: nat) -> Seq<i64> {
    overwrite_prefix(data, approx_of(w, data, n) + detail_of(w, data, n))
}

/// The signal after the first `k` forward levels.
pub open spec fn forward_levels(w: &Wavelet, data: Seq<i64>, k: nat) -> Seq<i64>
    decreases k,
{
    if k == 0 {
        data
    } else {
        let prev = (k - 1) as nat;
        forward_level(w, forward_levels(w, data, prev), level_len(data.len(), prev))
    }
}

/// The signal after one inverse level over its first `n` samples, which hold
/// `n / 2` approximation coefficients and then `n / 2` detail coefficients.
pub open spec fn inverse_level(w: &Wavelet, data: Seq<i64>, n: nat) -> Seq<i64> {
    overwrite_prefix(
        data,
        synthesis(w, data.subrange(0, (n / 2) as int), data.subrange((n / 2) as int, n as int), n),
    )
}

/// The signal after the first `k` levels of an inverse transform of `level`
/// levels, coarsest first.
pub open spec fn inverse_levels(w: &Wavelet, data: Seq<i64>, level: nat, k: nat) -> Seq<i64>
    decreases k,
{
    if k == 0 {
        data
    } else {
        inverse_level(
            w,
            inverse_levels(w, data, level, (k - 1) as nat),
            level_len(data.len(), (level - k) as nat),
        )
    }
}

/// The transform is a function of its inputs: equal signals give equal
/// results, level for level, in both directions.
pub proof fn lemma_transform_deterministic(w: &Wavelet, a: Seq<i64>, b: Seq<i64>, level: nat)
    requires
        a == b,
    ensures
        forward_levels(w, a, level) == forward_levels(w, b, level),
        inverse_levels(w, a, level, level) == inverse_levels(w, b, level, level),
{
}

proof fn lemma_pow2_pos(k: nat)
    ensures
        pow2(k) > 0,
    decreases k,
{
    if k > 0 {
        lemma_pow2_pos((k - 1) as nat);
    }
}

proof fn lemma_pow2_adds(a: nat, b: nat)
    ensures
        pow2(a + b) == pow2(a) * pow2(b),
    decreases b,
{
    if b > 0 {
        let b1 = (b - 1) as nat;
        let s1 = (a + b1) as nat;
        lemma_pow2_adds(a, b1);
        assert(s1 + 1 == a + b);
        assert(pow2(a + b) == 2 * pow2(s1));
        assert(pow2(b) == 2 * pow2(b1));
        assert(pow2(a) * (2 * pow2(b1)) == 2 * (pow2(a) * pow2(b1))) by (nonlinear_arith);
    } else {
        assert(a + b == a);
        assert(pow2(0) == 1);
        assert(pow2(a) * 1 == pow2(a));
    }
}

/// Each level works on half the block of the level before.
proof fn lemma_level_halves(len: nat, i: nat)
    ensures
        level_len(len, i + 1) == level_len(len, i) / 2,
{
    lemma_pow2_pos(i);
    lemma_div_denominator(len as int, pow2(i) as int, 2);
    assert(pow2(i + 1) == pow2(i) * 2);
}

/// Blocks shrink from level to level.
proof fn lemma_level_shrinks(len: nat, i: nat, j: nat)
    requires
        i <= j,
    ensures
        level_len(len, i) >= level_len(len, j),
{
    lemma_pow2_pos(i);
    lemma_pow2_adds(i, (j - i) as nat);
    lemma_pow2_pos((j - i) as nat);
    assert(pow2(i) <= pow2(i) * pow2((j - i) as nat)) by (nonlinear_arith)
        requires
            pow2((j - i) as nat) > 0,
    ;
    lemma_div_is_ordered_by_denominator(len as int, pow2(i) as int, pow2(j) as int);
}

/// Where the signal length is a multiple of `2^level`, each block above the
/// coarsest is twice the next.
proof fn lemma_level_doubles(len: nat, level: nat, i: nat)
    requires
        len % pow2(level) == 0,
        i < level,
    ensures
        level_len(len, i) == 2 * level_len(len, i + 1),
{
    lemma_pow2_pos(level);
    lemma_pow2_pos(i);
    lemma_fundamental_div_mod(len as int, pow2(level) as int);
    let q = len / pow2(level);
    let rest = pow2((level - i - 1) as nat);
    lemma_pow2_adds(i + 1, (level - i - 1) as nat);
    let c = q * rest;
    assert(len == c * pow2(i + 1)) by (nonlinear_arith)
        requires
            len == pow2(level) * q,
            pow2(level) == pow2(i + 1) * rest,
            c == q * rest,
    ;
    assert(len == (2 * c) * pow2(i)) by (nonlinear_arith)
        requires
            len == c * pow2(i + 1),
            pow2(i + 1) == 2 * pow2(i),
    ;
    lemma_div_by_multiple(c as int, pow2(i + 1) as int);
    lemma_div_by_multiple(2 * c as int, pow2(i) as int);
}

/// Copies the first `count` elements of `src` over those of `dst`.
fn copy_prefix(src: &[i64], dst: &mut [i64], count: usize)
    requires
        count <= src@.len(),
        count <= old(dst)@.len(),
    ensures
        final(dst)@ == overwrite_prefix(old(dst)@, src@.subrange(0, count as int)),
{
    let mut m: usize = 0;
    while m < count
        invariant
            count <= src@.len(),
            count <= old(dst)@.len(),
            dst@.len() == old(dst)@.len(),
            m <= count,
            forall|k: int| 0 <= k < m ==> dst@[k] == src@[k],
            forall|k: int| m <= k < dst@.len() ==> dst@[k] == old(dst)@[k],
        decreases count - m,
    {
        dst[m] = src[m];
        m = m + 1;
    }
    assert(dst@ =~= overwrite_prefix(old(dst)@, src@.subrange(0, count as int)));
}

proof fn lemma_mod_succ(a: int, n: int)
    requires
        n > 0,
    ensures
        0 <= a % n < n,
        (a + 1) % n == if a % n + 1 == n { 0 } else { a % n + 1 },
{
    lemma_mod_bound(a, n);
    lemma_add_mod_noop(a, 1, n);
    if n == 1 {
        lemma_mod_bound(1, n);
        lemma_mod_bound(a % n + 1int % n, n);
    } else {
        lemma_small_mod(1, n as nat);
        if a % n + 1 < n {
            lemma_small_mod((a % n + 1) as nat, n as nat);
        } else {
            lemma_mod_self_0(n);
        }
    }
}

/// The first tap of output 0 lies `shift` positions into the block.
proof fn lemma_first_tap(w: &Wavelet, n: nat, shift: int)
    requires
        n > 0,
        w.len() * n >= w.offset,
        shift == if (w.offset as int) % (n as int) == 0 { 0 } else { n - (w.offset as int) % (n as int) },
    ensures
        tap_index(w, n, 0, 0) == shift,
{
    let off = w.offset as int;
    let l = w.len() as int;
    let ni = n as int;
    lemma_fundamental_div_mod(off, ni);
    let q = off / ni;
    let r = off % ni;
    lemma_mod_bound(off, ni);
    assert(l * ni - off == ni * (l - q) - r) by (nonlinear_arith)
        requires
            off == ni * q + r,
    ;
    if r == 0 {
        lemma_mod_multiples_vanish(l - q, 0, ni);
        lemma_small_mod(0, n);
    } else {
        assert(l * ni - off == ni * (l - q - 1) + (ni - r)) by (nonlinear_arith)
            requires
                l * ni - off == ni * (l - q) - r,
        ;
        lemma_mod_multiples_vanish(l - q - 1, ni - r, ni);
        lemma_small_mod((ni - r) as nat, n);
    }
}

/// The next position of a block of `n`, wrapping round at the end.
fn next_pos(k: usize, n: usize) -> (r: usize)
    requires
        k < n,
    ensures
        r == if k + 1 == n { 0 } else { k + 1 },
{
    if k + 1 == n {
        0
    } else {
        k + 1
    }
}

/// Where the taps of output 0 start in a block of `n`.
fn first_tap(w: &Wavelet, n: usize) -> (r: usize)
    requires
        n > 0,
        w.len() * n >= w.offset,
    ensures
        r == tap_index(w, n as nat, 0, 0),
        r < n,
{
    let rem = w.offset % n;
    let shift = if rem == 0 { 0 } else { n - rem };
    proof {
        lemma_first_tap(w, n as nat, shift as int);
    }
    shift
}

impl Wavelet {
    /// One forward level over the first `n` samples of `data`: the
    /// approximation coefficients go to the first `n / 2` elements of
    /// `approx`, the detail coefficients to those of `detail`.
    pub fn forward_step(&self, data: &[i64], n: usize, approx: &mut [i64], detail: &mut [i64])
        requires
            self.wf(),
            n <= data@.len(),
            n / 2 <= old(approx)@.len(),
            n / 2 <= old(detail)@.len(),
            self.len() * n >= self.offset,
        ensures
            final(approx)@ == overwrite_prefix(old(approx)@, approx_of(self, data@, n as nat)),
            final(detail)@ == overwrite_prefix(old(detail)@, detail_of(self, data@, n as nat)),
    {
        let nh = n / 2;
        let l = self.dec_lo.len();
        if nh == 0 {
            assert(approx@ =~= overwrite_prefix(old(approx)@, approx_of(self, data@, n as nat)));
            assert(detail@ =~= overwrite_prefix(old(detail)@, detail_of(self, data@, n as nat)));
            return;
        }
        let mut base = first_tap(self, n);
        let mut i: usize = 0;
        while i < nh
            invariant
                self.wf(),
                l == self.len(),
                nh == n / 2,
                0 < n <= data@.len(),
                i <= nh,
                base < n,
                base == tap_index(self, n as nat, i as int, 0),
                approx@.len() == old(approx)@.len(),
                detail@.len() == old(detail)@.len(),
                nh <= approx@.len(),
                nh <= detail@.len(),
                forall|k: int| 0 <= k < i ==> approx@[k] == approx_of(self, data@, n as nat)[k],
                forall|k: int| 0 <= k < i ==> detail@[k] == detail_of(self, data@, n as nat)[k],
                forall|k: int| i <= k < approx@.len() ==> approx@[k] == old(approx)@[k],
                forall|k: int| i <= k < detail@.len() ==> detail@[k] == old(detail)@[k],
            decreases nh - i,
        {
            let mut h: i64 = 0;
            let mut g: i64 = 0;
            let mut k = base;
            let mut j: usize = 0;
            proof {
                lemma_wrap_small(0);
            }
            while j < l
                invariant
                    self.wf(),
                    l == self.len(),
                    0 < n <= data@.len(),
                    i < nh,
                    nh == n / 2,
                    j <= l,
                    k < n,
                    k == tap_index(self, n as nat, i as int, j as int),
                    h == wrap(filter_sum(self, self.dec_lo@, data@, n as nat, i as int, j as nat)),
                    g == wrap(filter_sum(self, self.dec_hi@, data@, n as nat, i as int, j as nat)),
                decreases l - j,
            {
                let x = data[k];
                let lo = self.dec_lo[j];
                let hi = self.dec_hi[j];
                proof {
                    let ph = filter_sum(self, self.dec_lo@, data@, n as nat, i as int, j as nat);
                    let pg = filter_sum(self, self.dec_hi@, data@, n as nat, i as int, j as nat);
                    lemma_wrapping_add(h, lo.wrapping_mul(x));
                    lemma_wrapping_add(g, hi.wrapping_mul(x));
                    lemma_wrap_add(ph, lo * x);
                    lemma_wrap_add(pg, hi * x);
                    lemma_mod_succ(2 * i + (self.len() * n - self.offset) + j, n as int);
                }
                h = h.wrapping_add(lo.wrapping_mul(x));
                g = g.wrapping_add(hi.wrapping_mul(x));
                k = next_pos(k, n);
                j = j + 1;
            }
            approx[i] = h;
            detail[i] = g;
            proof {
                lemma_mod_succ(2 * i + (self.len() * n - self.offset), n as int);
                lemma_mod_succ(2 * i + (self.len() * n - self.offset) + 1, n as int);
            }
            let b1 = next_pos(base, n);
            base = next_pos(b1, n);
            i = i + 1;
        }
        assert(approx@ =~= overwrite_prefix(old(approx)@, approx_of(self, data@, n as nat)));
        assert(detail@ =~= overwrite_prefix(old(detail)@, detail_of(self, data@, n as nat)));
    }

    /// One inverse level: rebuilds the first `n` elements of `work` from
    /// `n / 2` approximation and `n / 2` detail coefficients, and sets the
    /// rest of `work` to zero.
    pub fn inverse_step(&self, approx: &[i64], detail: &[i64], n: usize, work: &mut [i64])
        requires
            self.wf(),
            n / 2 <= approx@.len(),
            n / 2 <= detail@.len(),
            n <= old(work)@.len(),
            self.len() * n >= self.offset,
        ensures
            final(work)@ == overwrite_prefix(
                Seq::new(old(work)@.len(), |m: int| 0i64),
                synthesis(self, approx@, detail@, n as nat),
            ),
    {
        let len = work.len();
        let mut m: usize = 0;
        while m < len
            invariant
                len == work@.len(),
                len == old(work)@.len(),
                m <= len,
                forall|k: int| 0 <= k < m ==> work@[k] == 0,
            decreases len - m,
        {
            work[m] = 0;
            m = m + 1;
        }
        proof {
            lemma_wrap_small(0);
        }
        let nh = n / 2;
        let l = self.rec_lo.len();
        if nh == 0 {
            assert(work@ =~= overwrite_prefix(
                Seq::new(old(work)@.len(), |m: int| 0i64),
                synthesis(self, approx@, detail@, n as nat),
            ));
            return;
        }
        let mut base = first_tap(self, n);
        let mut i: usize = 0;
        while i < nh
            invariant
                self.wf(),
                l == self.len(),
                nh == n / 2,
                0 < n <= work@.len(),
                len == work@.len(),
                nh <= approx@.len(),
                nh <= detail@.len(),
                i <= nh,
                base < n,
                base == tap_index(self, n as nat, i as int, 0),
                forall|p: int|
                    0 <= p < n ==> work@[p] == wrap(
                        synth_sum(self, approx@, detail@, n as nat, p, i as nat),
                    ),
                forall|p: int| n <= p < len ==> work@[p] == 0,
            decreases nh - i,
        {
            let h = approx[i];
            let g = detail[i];
            let mut k = base;
            let mut j: usize = 0;
            while j < l
                invariant
                    self.wf(),
                    l == self.len(),
                    0 < n <= work@.len(),
                    len == work@.len(),
                    nh <= approx@.len(),
                    nh <= detail@.len(),
                    i < nh,
                    nh == n / 2,
                    h == approx@[i as int],
                    g == detail@[i as int],
                    j <= l,
                    k < n,
                    k == tap_index(self, n as nat, i as int, j as int),
                    forall|p: int|
                        0 <= p < n ==> work@[p] == wrap(
                            synth_sum(self, approx@, detail@, n as nat, p, i as nat) + row_sum(
                                self,
                                approx@,
                                detail@,
                                n as nat,
                                i as int,
                                p,
                                j as nat,
                            ),
                        ),
                    forall|p: int| n <= p < len ==> work@[p] == 0,
                decreases l - j,
            {
                let lo = self.rec_lo[j];
                let hi = self.rec_hi[j];
                let t = lo.wrapping_mul(h).wrapping_add(hi.wrapping_mul(g));
                let old_work = Ghost(work@);
                let cur = work[k];
                work[k] = cur.wrapping_add(t);
                proof {
                    lemma_wrapping_add(lo.wrapping_mul(h), hi.wrapping_mul(g));
                    lemma_wrap_add(lo * h, hi * g);
                    lemma_mod_succ(2 * i + (self.len() * n - self.offset) + j, n as int);
                    assert forall|p: int| 0 <= p < n implies work@[p] == wrap(
                        synth_sum(self, approx@, detail@, n as nat, p, i as nat) + row_sum(
                            self,
                            approx@,
                            detail@,
                            n as nat,
                            i as int,
                            p,
                            (j + 1) as nat,
                        ),
                    ) by {
                        let prev = synth_sum(self, approx@, detail@, n as nat, p, i as nat)
                            + row_sum(self, approx@, detail@, n as nat, i as int, p, j as nat);
                        if p == k {
                            lemma_wrapping_add(cur, t);
                            lemma_wrap_add(prev, lo * h + hi * g);
                        }
                    }
                }
                k = next_pos(k, n);
                j = j + 1;
            }
            proof {
                lemma_mod_succ(2 * i + (self.len() * n - self.offset), n as int);
                lemma_mod_succ(2 * i + (self.len() * n - self.offset) + 1, n as int);
            }
            let b1 = next_pos(base, n);
            base = next_pos(b1, n);
            i = i + 1;
        }
        assert(work@ =~= overwrite_prefix(
            Seq::new(old(work)@.len(), |m: int| 0i64),
            synthesis(self, approx@, detail@, n as nat),
        ));
    }

    /// Performs `level` levels of the transform on `data`, in place.
    ///
    /// Forward: each level replaces the first `n` samples by `n / 2`
    /// approximation coefficients followed by `n / 2` detail coefficients,
    /// and the next level works on the approximation coefficients. Inverse:
    /// the levels are undone from the coarsest to the finest. The length of
    /// `data` must be a multiple of `2^level`.
    pub fn transform(&self, data: &mut [i64], operation: Operation, level: usize)
        requires
            self.wf(),
            old(data)@.len() % pow2(level as nat) == 0,
            level > 0 ==> self.len() * level_len(old(data)@.len(), (level - 1) as nat)
                >= self.offset,
        ensures
            level == 0 ==> final(data)@ == old(data)@,
            operation == Operation::Forward ==> final(data)@ == forward_levels(
                self,
                old(data)@,
                level as nat,
            ),
            operation == Operation::Inverse ==> final(data)@ == inverse_levels(
                self,
                old(data)@,
                level as nat,
                level as nat,
            ),
    {
        if level == 0 {
            return;
        }
        let len = data.len();
        let mut work: Vec<i64> = vec![0i64; len];
        match operation {
            Operation::Forward => {
                let mut n = len;
                let mut i: usize = 0;
                proof {
                    lemma_pow2_pos(0);
                }
                while i < level
                    invariant
                        self.wf(),
                        len == data@.len(),
                        len == old(data)@.len(),
                        len == work@.len(),
                        i <= level,
                        n == level_len(len as nat, i as nat),
                        n <= len,
                        self.len() * level_len(len as nat, (level - 1) as nat) >= self.offset,
                        data@ == forward_levels(self, old(data)@, i as nat),
                    decreases level - i,
                {
                    let nh = n / 2;
                    proof {
                        lemma_level_shrinks(len as nat, i as nat, (level - 1) as nat);
                        assert(self.len() * n >= self.len() * level_len(len as nat, (level - 1) as nat))
                            by (nonlinear_arith)
                            requires
                                n >= level_len(len as nat, (level - 1) as nat),
                        ;
                        lemma_level_halves(len as nat, i as nat);
                    }
                    let ghost prev = data@;
                    {
                        let (approx, detail) = work.as_mut_slice().split_at_mut(nh);
                        self.forward_step(data, n, approx, detail);
                    }
                    copy_prefix(work.as_slice(), data, 2 * nh);
                    assert(data@ =~= forward_level(self, prev, n as nat));
                    n = nh;
                    i = i + 1;
                }
            },
            Operation::Inverse => {
                let mut n = len;
                let mut t: usize = 0;
                proof {
                    lemma_pow2_pos(0);
                }
                while t + 1 < level
                    invariant
                        0 < level,
                        t < level,
                        n == level_len(len as nat, t as nat),
                    decreases level - t,
                {
                    proof {
                        lemma_level_halves(len as nat, t as nat);
                    }
                    n = n / 2;
                    t = t + 1;
                }
                let mut i: usize = 0;
                while i < level
                    invariant
                        self.wf(),
                        len == data@.len(),
                        len == old(data)@.len(),
                        len == work@.len(),
                        (len as nat) % pow2(level as nat) == 0,
                        i <= level,
                        i < level ==> n == level_len(len as nat, (level - 1 - i) as nat),
                        self.len() * level_len(len as nat, (level - 1) as nat) >= self.offset,
                        data@ == inverse_levels(self, old(data)@, level as nat, i as nat),
                    decreases level - i,
                {
                    proof {
                        lemma_pow2_pos(0);
                        lemma_level_shrinks(len as nat, 0, (level - 1 - i) as nat);
                        lemma_level_shrinks(len as nat, (level - 1 - i) as nat, (level - 1) as nat);
                        assert(self.len() * n >= self.len() * level_len(len as nat, (level - 1) as nat))
                            by (nonlinear_arith)
                            requires
                                n >= level_len(len as nat, (level - 1) as nat),
                        ;
                    }
                    let nh = n / 2;
                    let ghost prev = data@;
                    {
                        let block: &[i64] = data;
                        let (approx, rest) = block.split_at(nh);
                        let (detail, _) = rest.split_at(n - nh);
                        assert(detail@ =~= prev.subrange(nh as int, n as int));
                        self.inverse_step(approx, detail, n, work.as_mut_slice());
                    }
                    copy_prefix(work.as_slice(), data, n);
                    assert(data@ =~= inverse_level(self, prev, n as nat));
                    if i + 1 < level {
                        proof {
                            lemma_level_doubles(len as nat, level as nat, (level - 2 - i) as nat);
                        }
                        n = 2 * n;
                    }
                    i = i + 1;
                }
            },
        }
    }
}

} // verus!
