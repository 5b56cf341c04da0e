use vstd::prelude::*;
use vstd::arithmetic::power::{lemma_pow_mod_noop, lemma_pow_multiplies, pow};
use vstd::arithmetic::div_mod::{
    lemma_add_mod_noop_right, lemma_fundamental_div_mod, lemma_mod_multiples_vanish,
    lemma_mul_mod_noop,
};
use vstd::arithmetic::mul::lemma_mul_is_associative;

verus! {

/// One step of square-and-multiply keeps `acc * base^e mod m` unchanged.
pub proof fn lemma_square_step(acc: int, b: int, e: nat, m: int)
    requires
        m > 0,
    ensures
        e % 2 == 1 ==> ((acc * b) % m) * pow((b * b) % m, e / 2) % m == acc * pow(b, e) % m,
        e % 2 == 0 ==> acc * pow((b * b) % m, e / 2) % m == acc * pow(b, e) % m,
{
    let h = e / 2;
    reveal(pow);
    assert(pow(b, 2) == b * b) by {
        assert(pow(b, 1) == b * pow(b, 0));
    }
    lemma_pow_multiplies(b, 2, h);
    assert(pow(b, 2 * h) == pow(b * b, h));
    lemma_pow_mod_noop(b * b, h, m);
    let q = pow(b * b, h);
    let q2 = pow((b * b) % m, h);
    if e % 2 == 1 {
        assert(pow(b, e) == b * pow(b, 2 * h));
        lemma_mul_mod_noop(acc * b, q, m);
        lemma_mul_mod_noop((acc * b) % m, q2, m);
        lemma_mul_mod_noop((acc * b) % m, q, m);
        vstd::arithmetic::div_mod::lemma_mod_twice(acc * b, m);
        lemma_mul_is_associative(acc, b, q);
    } else {
        assert(e == 2 * h);
        lemma_mul_mod_noop(acc, q, m);
        lemma_mul_mod_noop(acc, q2, m);
    }
}

/// Reducing a factor modulo `m` before it is weighted leaves the running
/// sum's residue unchanged.
pub proof fn lemma_sum_step(sum: int, ov: int, t: int, w: int, m: int)
    requires
        m > 0,
    ensures
        (((sum + (ov % m) * t) % m) + w) % m == (sum + ov * t + w) % m,
{
    let a = sum + (ov % m) * t;
    lemma_add_mod_noop_right(w, a, m);
    assert(((a % m) + w) % m == (a + w) % m);
    lemma_fundamental_div_mod(ov, m);
    assert(ov * t == m * ((ov / m) * t) + (ov % m) * t) by (nonlinear_arith)
        requires
            ov == m * (ov / m) + (ov % m),
    ;
    lemma_mod_multiples_vanish((ov / m) * t, a + w, m);
    assert(sum + ov * t + w == m * ((ov / m) * t) + (a + w));
}

} // verus!
