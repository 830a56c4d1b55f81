use vstd::prelude::*;

verus! {

/// `a / b` rounded to the nearest integer, halves away from zero (`a >= 0`, `b > 0`).
pub open spec fn round_div(a: int, b: int) -> int {
    (2 * a + b) / (2 * b)
}

proof fn lemma_round_div_bound(a: int, b: int)
    requires
        a >= 0,
        b >= 1,
    ensures
        0 <= round_div(a, b) <= a,
{
    assert(0 <= (2 * a + b) / (2 * b)) by (nonlinear_arith)
        requires
            a >= 0,
            b >= 1,
    ;
    assert((2 * a + b) / (2 * b) <= a) by (nonlinear_arith)
        requires
            a >= 0,
            b >= 1,
    {
        if a == 0 {
            assert(b / (2 * b) == 0);
        } else {
            assert(2 * a + b < 2 * b * (a + 1));
        }
    }
}

/// `a / b` rounded to the nearest integer, halves away from zero.
pub fn round_div_u64(a: u64, b: u64) -> (r: u64)
    requires
        b > 0,
    ensures
        r == round_div(a as int, b as int),
        r <= a,
{
    proof {
        lemma_round_div_bound(a as int, b as int);
    }
    let n: u128 = 2 * (a as u128) + (b as u128);
    let d: u128 = 2 * (b as u128);
    (n / d) as u64
}

pub proof fn lemma_round_div_qr(a: int, b: int)
    requires
        a >= 0,
        b > 0,
    ensures
        round_div(a, b) == a / b + if 2 * (a % b) >= b {
            1int
        } else {
            0int
        },
{
    let q = a / b;
    let r = a % b;
    assert(a == q * b + r && 0 <= r < b) by (nonlinear_arith)
        requires
            b > 0,
            q == a / b,
            r == a % b,
    ;
    let t: int = if 2 * r >= b {
        1
    } else {
        0
    };
    assert((2 * a + b) / (2 * b) == q + t) by (nonlinear_arith)
        requires
            b > 0,
            a == q * b + r,
            0 <= r < b,
            t == (if 2 * r >= b {
                1int
            } else {
                0int
            }),
    {
        assert(2 * b * (q + t) <= 2 * a + b);
        assert(2 * a + b < 2 * b * (q + t + 1));
    }
}

pub proof fn lemma_round_div_small(a: int, b: int, m: int)
    requires
        a >= 0,
        b > 0,
        m >= 0,
        a <= b * m,
    ensures
        round_div(a, b) <= m,
{
    assert((2 * a + b) / (2 * b) <= m) by (nonlinear_arith)
        requires
            a >= 0,
            b > 0,
            m >= 0,
            a <= b * m,
    {
        assert(2 * a + b < 2 * b * (m + 1));
    }
}

/// `a / b` rounded to the nearest integer, halves away from zero, on wide numbers.
pub fn round_div_u128(a: u128, b: u128) -> (r: u128)
    requires
        b > 0,
    ensures
        r == round_div(a as int, b as int),
{
    proof {
        lemma_round_div_qr(a as int, b as int);
    }
    let q = a / b;
    let rem = a % b;
    if rem >= b - rem {
        assert(q < 0xffff_ffff_ffff_ffff_ffff_ffff_ffff_ffffu128) by (nonlinear_arith)
            requires
                b >= 2,
                q == a / b,
                a <= 0xffff_ffff_ffff_ffff_ffff_ffff_ffff_ffffu128,
        {
            assert(q * b <= a);
        }
        q + 1
    } else {
        q
    }
}

} // verus!
