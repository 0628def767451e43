//! Exact pro-rata arithmetic on 128-bit quantities.

use vstd::prelude::*;
use vstd::arithmetic::div_mod::lemma_fundamental_div_mod_converse;
use vstd::arithmetic::div_mod::lemma_div_multiples_vanish;

verus! {

/// The part of `quantity` that `shares` out of `supply` stand for, rounded
/// down once, at the end. With no supply there is nothing to share out.
pub open spec fn pro_rata(quantity: nat, shares: nat, supply: nat) -> nat {
    if supply == 0 {
        0
    } else {
        ((quantity * shares) / supply) as nat
    }
}

/// A quotient of `a * b` by `c` never exceeds `a` when `b` is at most `c`.
proof fn lemma_quotient_bounded(a: int, b: int, c: int, q: int, r: int)
    by (nonlinear_arith)
    requires
        0 <= a,
        0 <= b <= c,
        0 < c,
        0 <= r,
        q * c + r == a * b,
    ensures
        q <= a,
{
    if q > a {
        assert(q * c >= (a + 1) * c);
        assert((a + 1) * c == a * c + c);
        assert(a * b <= a * c);
    }
}

/// Doubling a product doubles quotient and remainder.
proof fn lemma_double(a: int, h: int, c: int, q: int, r: int)
    by (nonlinear_arith)
    requires
        q * c + r == a * h,
    ensures
        (2 * q) * c + 2 * r == a * (2 * h),
        (2 * q + 1) * c + (2 * r - c) == a * (2 * h),
{
}

/// Adding `a` once more to a product adds its own quotient and remainder.
proof fn lemma_add_once(a: int, b: int, c: int, q: int, r: int, qa: int, ra: int)
    by (nonlinear_arith)
    requires
        q * c + r == a * b,
        qa * c + ra == a,
    ensures
        (q + qa) * c + (r + ra) == a * (b + 1),
        (q + qa + 1) * c + (r + ra - c) == a * (b + 1),
{
}

/// Quotient and remainder of `a * b` by `c`, without ever forming the
/// product: `b` is taken apart bit by bit, and the remainder is kept below
/// `c` at every step.
fn mul_div_rem(a: u128, b: u128, c: u128) -> (res: (u128, u128))
    requires
        0 < c,
        b <= c,
    ensures
        res.0 * c + res.1 == a * b,
        res.1 < c,
        res.0 <= a,
    decreases b,
{
    if b == 0 {
        assert(0 * c + 0 == a * b) by (nonlinear_arith)
            requires
                b == 0,
        ;
        return (0, 0);
    }
    let half: u128 = b / 2;
    let (q, r) = mul_div_rem(a, half, c);
    proof {
        lemma_double(a as int, half as int, c as int, q as int, r as int);
    }
    let (q2, r2): (u128, u128) = if r >= c - r {
        proof {
            lemma_quotient_bounded(a as int, 2 * half, c as int, 2 * q + 1, 2 * r - c);
        }
        (2 * q + 1, r - (c - r))
    } else {
        proof {
            lemma_quotient_bounded(a as int, 2 * half, c as int, 2 * q, 2 * r);
        }
        (2 * q, 2 * r)
    };
    assert(q2 * c + r2 == a * (2 * half));
    if b % 2 == 1 {
        let qa: u128 = a / c;
        let ra: u128 = a % c;
        proof {
            assert(qa * c + ra == a) by (nonlinear_arith)
                requires
                    qa == a / c,
                    ra == a % c,
                    c > 0,
            ;
            lemma_add_once(a as int, 2 * half, c as int, q2 as int, r2 as int, qa as int, ra as int);
        }
        if r2 >= c - ra {
            proof {
                lemma_quotient_bounded(a as int, b as int, c as int, q2 + qa + 1, r2 + ra - c);
            }
            (q2 + qa + 1, r2 - (c - ra))
        } else {
            proof {
                lemma_quotient_bounded(a as int, b as int, c as int, q2 + qa, r2 + ra);
            }
            (q2 + qa, r2 + ra)
        }
    } else {
        (q2, r2)
    }
}

/// `a * b / c` rounded down, exact for every `a` even where the product
/// would not fit in 128 bits.
pub fn mul_div_floor(a: u128, b: u128, c: u128) -> (q: u128)
    requires
        0 < c,
        b <= c,
    ensures
        q == (a * b) / (c as int),
        q <= a,
{
    let (q, r) = mul_div_rem(a, b, c);
    proof {
        lemma_fundamental_div_mod_converse(a * b, c as int, q as int, r as int);
    }
    q
}

/// The executable form of [`pro_rata`].
pub fn share_of(quantity: u128, shares: u128, supply: u128) -> (amount: u128)
    requires
        shares <= supply,
    ensures
        amount == pro_rata(quantity as nat, shares as nat, supply as nat),
        amount <= quantity,
{
    if supply == 0 {
        0
    } else {
        mul_div_floor(quantity, shares, supply)
    }
}

/// Redeeming every share takes the whole quantity: nothing is lost to
/// rounding.
pub proof fn lemma_pro_rata_whole(quantity: nat, supply: nat)
    requires
        supply > 0,
    ensures
        pro_rata(quantity, supply, supply) == quantity,
{
    lemma_div_multiples_vanish(quantity as int, supply as int);
    assert(quantity * supply == supply * quantity) by (nonlinear_arith);
}

/// A pro-rata part is rounded down once: it never exceeds the quantity it
/// is taken from, and it falls short of the exact part by less than one
/// unit.
pub proof fn lemma_pro_rata_rounds_down_once(quantity: nat, shares: nat, supply: nat)
    requires
        0 < supply,
        shares <= supply,
    ensures
        pro_rata(quantity, shares, supply) <= quantity,
        pro_rata(quantity, shares, supply) * supply <= quantity * shares,
        quantity * shares < (pro_rata(quantity, shares, supply) + 1) * supply,
{
    let q = (quantity * shares) / supply;
    let r = (quantity * shares) % supply;
    assert(q * supply + r == quantity * shares && 0 <= r < supply) by (nonlinear_arith)
        requires
            q == (quantity * shares) / supply,
            r == (quantity * shares) % supply,
            supply > 0,
    ;
    assert(0 <= quantity * shares) by (nonlinear_arith);
    lemma_quotient_bounded(quantity as int, shares as int, supply as int, q as int, r as int);
    assert((q + 1) * supply == q * supply + supply) by (nonlinear_arith);
}

} // verus!
