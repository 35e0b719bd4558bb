//! How tall a balanced tree can be for the number of its entries.

use vstd::prelude::*;

verus! {

/// The least number of entries that a balanced tree of `h` levels can have.
pub open spec fn min_size(h: nat) -> nat
    decreases h,
{
    if h == 0 {
        0
    } else if h == 1 {
        1
    } else {
        min_size((h - 1) as nat) + min_size((h - 2) as nat) + 1
    }
}

/// `b` to the power of `e`.
pub open spec fn power(b: nat, e: nat) -> nat
    decreases e,
{
    if e == 0 {
        1
    } else {
        b * power(b, (e - 1) as nat)
    }
}

/// A taller balanced tree needs more entries.
pub proof fn lemma_min_size_grows(a: nat, b: nat)
    requires
        a <= b,
    ensures
        min_size(a) <= min_size(b),
    decreases b,
{
    if a < b {
        if b >= 2 {
            lemma_min_size_grows(a, (b - 1) as nat);
        } else {
            assert(a == 0 && b == 1);
        }
    }
}

/// The least size grows by the golden ratio with each level, and 809/500
/// is a little less than that ratio: with `n` the least size for `h` levels,
/// `(809/500)^h <= n + 1`.
pub proof fn lemma_min_size_power(h: nat)
    ensures
        power(809, h) <= power(500, h) * (min_size(h) + 1),
    decreases h,
{
    if h == 0 {
        assert(power(809, 0) == 1 && power(500, 0) == 1 && min_size(0) == 0);
        assert(power(500, 0) * (min_size(0) + 1) == 1);
    } else if h == 1 {
        assert(power(809, 0) == 1 && power(500, 0) == 1);
        assert(power(809, 1) == 809 && power(500, 1) == 500 && min_size(1) == 1);
        assert(power(500, 1) * (min_size(1) + 1) == 1000);
    } else {
        let a = (h - 1) as nat;
        let b = (h - 2) as nat;
        lemma_min_size_power(a);
        lemma_min_size_power(b);
        let p = power(809, b);
        let q = power(500, b);
        let fa = min_size(a) + 1;
        let fb = min_size(b) + 1;
        let pa = power(809, a);
        let qa = power(500, a);
        let ph = power(809, h);
        let qh = power(500, h);
        let fh = min_size(h) + 1;
        assert(pa == 809 * p);
        assert(qa == 500 * q);
        assert(ph == 809 * pa);
        assert(qh == 500 * qa);
        assert(fh == fa + fb);
        assert(pa <= qa * fa);
        assert(p <= q * fb);
        assert(ph <= qh * fh) by (nonlinear_arith)
            requires
                pa == 809 * p,
                qa == 500 * q,
                ph == 809 * pa,
                qh == 500 * qa,
                fh == fa + fb,
                pa <= qa * fa,
                p <= q * fb,
                0 <= p,
                0 <= q,
                0 <= fa,
                0 <= fb,
        ;
    }
}

} // verus!
