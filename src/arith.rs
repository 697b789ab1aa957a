//! Samples and coefficients are `i64` values with wrapping arithmetic: the
//! ring of integers modulo 2^64, each class written by its member in the
//! range of `i64`.
use vstd::prelude::*;
use vstd::arithmetic::div_mod::{
    lemma_fundamental_div_mod, lemma_mod_multiples_vanish, lemma_small_mod,
};

verus! {

/// The number of classes of the ring.
pub open spec fn modulus() -> int {
    0x1_0000_0000_0000_0000
}

/// The member of the class of `x` that lies in the range of `i64`.
pub open spec fn wrap(x: int) -> i64 {
    vstd::wrapping::i64_specs::signed_crop(x)
}

/// `wrap` keeps the class of its argument.
pub proof fn lemma_wrap_congruent(x: int)
    ensures
        (wrap(x) - x) % modulus() == 0,
{
    lemma_fundamental_div_mod(x, modulus());
    let q = x / modulus();
    let r = x % modulus();
    if r > i64::MAX {
        assert(wrap(x) - x == modulus() * (-q - 1));
        lemma_mod_multiples_vanish(-q - 1, 0, modulus());
    } else {
        assert(wrap(x) - x == modulus() * (-q));
        lemma_mod_multiples_vanish(-q, 0, modulus());
    }
    lemma_small_mod(0, modulus() as nat);
}

/// Two integers of one class have one representative.
pub proof fn lemma_wrap_same_class(x: int, y: int)
    requires
        (x - y) % modulus() == 0,
    ensures
        wrap(x) == wrap(y),
{
    lemma_fundamental_div_mod(x - y, modulus());
    let k = (x - y) / modulus();
    assert(x == modulus() * k + y);
    lemma_mod_multiples_vanish(k, y, modulus());
}

/// A value in the range of `i64` is its own representative.
pub proof fn lemma_wrap_small(x: int)
    requires
        i64::MIN <= x <= i64::MAX,
    ensures
        wrap(x) == x,
{
    if x >= 0 {
        lemma_small_mod(x as nat, modulus() as nat);
    } else {
        lemma_mod_multiples_vanish(-1, x + modulus(), modulus());
        lemma_small_mod((x + modulus()) as nat, modulus() as nat);
        assert(x % modulus() == x + modulus());
    }
}

/// Adding representatives adds classes.
pub proof fn lemma_wrap_add(x: int, y: int)
    ensures
        wrap(wrap(x) + wrap(y)) == wrap(x + y),
{
    lemma_wrap_congruent(x);
    lemma_wrap_congruent(y);
    lemma_wrap_same_class(wrap(x) + wrap(y), x + y);
}

/// `wrapping_add` on `i64` is addition in the ring.
pub proof fn lemma_wrapping_add(a: i64, b: i64)
    ensures
        a.wrapping_add(b) == wrap(a + b),
{
    let s = a + b;
    if s > i64::MAX {
        lemma_wrap_small(s - modulus());
        lemma_mod_multiples_vanish(-1, 0, modulus());
        lemma_small_mod(0, modulus() as nat);
        lemma_wrap_same_class(s - modulus(), s);
    } else if s < i64::MIN {
        lemma_wrap_small(s + modulus());
        lemma_mod_multiples_vanish(1, 0, modulus());
        lemma_small_mod(0, modulus() as nat);
        lemma_wrap_same_class(s + modulus(), s);
    } else {
        lemma_wrap_small(s);
    }
}

/// `wrapping_sub` on `i64` is subtraction in the ring.
pub proof fn lemma_wrapping_sub(a: i64, b: i64)
    ensures
        a.wrapping_sub(b) == wrap(a - b),
{
    let s = a - b;
    if s > i64::MAX {
        lemma_wrap_small(s - modulus());
        lemma_mod_multiples_vanish(-1, 0, modulus());
        lemma_small_mod(0, modulus() as nat);
        lemma_wrap_same_class(s - modulus(), s);
    } else if s < i64::MIN {
        lemma_wrap_small(s + modulus());
        lemma_mod_multiples_vanish(1, 0, modulus());
        lemma_small_mod(0, modulus() as nat);
        lemma_wrap_same_class(s + modulus(), s);
    } else {
        lemma_wrap_small(s);
    }
}

} // verus!
