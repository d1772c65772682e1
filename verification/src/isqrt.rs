//! The integer square root oracle.
//!
//! Given a non-negative integer, report its exact square root if the input is
//! a perfect square, and report absence otherwise. Two interchangeable
//! algorithms are provided: a Newton iteration seeded from the bit length of
//! the input, and a binary search over the root. Both satisfy the same
//! contract, [`isqrt_post`], so they agree on every input.

use vstd::arithmetic::div_mod::{lemma_fundamental_div_mod, lemma_mod_bound};
use vstd::prelude::*;

verus! {

/// The square of `k`.
pub open spec fn sq(k: int) -> int {
    k * k
}

/// `v` is a perfect square: some non-negative integer squares to it.
pub open spec fn is_square(v: int) -> bool {
    exists|k: int| 0 <= k && sq(k) == v
}

/// The contract shared by both square root algorithms: a returned root
/// squares back exactly to the input, and absence is reported precisely when
/// the input is not a perfect square.
pub open spec fn isqrt_post(a: int, r: Option<u32>) -> bool {
    match r {
        Some(k) => sq(k as int) == a,
        None => !is_square(a),
    }
}

/// Law: the two square-root algorithms agree. Any two results that meet the
/// oracle contract for one input are equal; in particular absence is returned
/// by one exactly when it is returned by the other.
pub proof fn lemma_isqrt_oracles_agree(a: int, r1: Option<u32>, r2: Option<u32>)
    requires
        0 <= a,
        isqrt_post(a, r1),
        isqrt_post(a, r2),
    ensures
        r1 == r2,
{
    match (r1, r2) {
        (Some(k1), Some(k2)) => {
            assert(k1 as int == k2 as int) by (nonlinear_arith)
                requires
                    0 <= k1 as int,
                    0 <= k2 as int,
                    (k1 as int) * (k1 as int) == (k2 as int) * (k2 as int);
        },
        (Some(k1), None) => {
            assert(sq(k1 as int) == a);
        },
        (None, Some(k2)) => {
            assert(sq(k2 as int) == a);
        },
        (None, None) => {},
    }
}

/// `n / d` is at least `q` whenever `n` is at least `q` times `d`.
proof fn lemma_div_at_least(n: int, d: int, q: int)
    requires
        d > 0,
        n >= d * q,
    ensures
        n / d >= q,
{
    lemma_fundamental_div_mod(n, d);
    lemma_mod_bound(n, d);
    let qq = n / d;
    let r = n % d;
    assert(qq >= q) by (nonlinear_arith)
        requires
            n == d * qq + r,
            0 <= r < d,
            n >= d * q,
            d > 0;
}

/// The quotient times the divisor never exceeds the dividend.
proof fn lemma_div_at_most(n: int, d: int)
    requires
        d > 0,
        n >= 0,
    ensures
        d * (n / d) <= n,
        n / d >= 0,
{
    lemma_fundamental_div_mod(n, d);
    lemma_mod_bound(n, d);
    lemma_div_at_least(n, d, 0);
}

/// One Newton step from any point lands at or above every integer root
/// candidate: `(x*x + a) / (2*x) >= w` whenever `w*w <= a`.
proof fn lemma_newton_lower(a: int, x: int, w: int)
    requires
        1 <= x,
        0 <= w,
        0 <= a,
        w * w <= a,
    ensures
        (x * x + a) / (2 * x) >= w,
{
    assert(x * x + a >= (2 * x) * w) by (nonlinear_arith)
        requires
            w * w <= a;
    lemma_div_at_least(x * x + a, 2 * x, w);
}

/// A Newton step overshoots its start by more than one only when the start
/// lies strictly below the root; above the root the step cannot grow.
proof fn lemma_newton_upper(a: int, x: int, x1: int)
    requires
        1 <= x,
        0 <= a,
        a < (x + 1) * (x + 1),
        x1 == (x * x + a) / (2 * x),
    ensures
        x1 <= x + 1,
        x1 == x + 1 ==> a == x * x + 2 * x,
{
    lemma_div_at_most(x * x + a, 2 * x);
    if x1 >= x + 1 {
        assert((2 * x) * x1 >= (2 * x) * (x + 1)) by (nonlinear_arith)
            requires
                x1 >= x + 1,
                x >= 1;
        assert(a >= x * x + 2 * x) by (nonlinear_arith)
            requires
                (2 * x) * x1 >= (2 * x) * (x + 1),
                (2 * x) * x1 <= x * x + a;
        assert(a == x * x + 2 * x) by (nonlinear_arith)
            requires
                a >= x * x + 2 * x,
                a < (x + 1) * (x + 1);
        lemma_div_at_least(x * x + a, 2 * x, x + 1);
        assert((2 * x) * (x1 - 1) <= x * x + a - 2 * x) by (nonlinear_arith)
            requires
                (2 * x) * x1 <= x * x + a;
        assert(x1 <= x + 1) by (nonlinear_arith)
            requires
                (2 * x) * (x1 - 1) <= x * x + a - 2 * x,
                a == x * x + 2 * x,
                x >= 1;
    }
}

/// If a Newton step from `x` moves by at most one yet does not hit an exact
/// square, the input has no integer root at all.
proof fn lemma_newton_no_root(a: int, x: int, x1: int)
    requires
        1 <= a,
        1 <= x,
        x1 == (x * x + a) / (2 * x),
        x1 * x1 != a,
        x - 1 <= x1 <= x + 1,
    ensures
        !is_square(a),
{
    if is_square(a) {
        let s = choose|s: int| 0 <= s && #[trigger] sq(s) == a;
        assert(s * s == a);
        assert(1 <= s) by (nonlinear_arith)
            requires
                s * s == a,
                1 <= a,
                0 <= s;
        lemma_newton_lower(a, x, s);
        assert(x1 >= s);
        assert(x1 != s) by (nonlinear_arith)
            requires
                x1 * x1 != a,
                s * s == a;
        assert(x1 >= s + 1);
        lemma_div_at_most(x * x + a, 2 * x);
        if x1 >= x {
            // the step did not move down, so the start was at or below the root
            assert((2 * x) * x1 >= (2 * x) * x) by (nonlinear_arith)
                requires
                    x1 >= x,
                    x >= 1;
            assert(a >= x * x) by (nonlinear_arith)
                requires
                    (2 * x) * x <= (2 * x) * x1,
                    (2 * x) * x1 <= x * x + a;
            assert(x <= s) by (nonlinear_arith)
                requires
                    a >= x * x,
                    s * s == a,
                    0 <= s,
                    0 <= x;
            // then x == s, and the step from the root returns the root itself,
            // contradicting x1 == s + 1
            assert(x == s && x1 == s + 1);
            assert(x * x + a == (2 * x) * x) by (nonlinear_arith)
                requires
                    x == s,
                    s * s == a;
            vstd::arithmetic::div_mod::lemma_div_multiples_vanish(x, 2 * x);
            assert(x1 == x);
        } else {
            // the step moved down by exactly one from strictly above the root,
            // which forces the root to be 0; impossible for a >= 1
            assert(x1 == x - 1);
            assert(x >= s + 2);
            lemma_div_at_least(x * x + a, 2 * x, x - 1);
            assert(a >= x * x - 2 * x) by (nonlinear_arith)
                requires
                    (2 * x) * (x - 1) <= x * x + a;
            assert(s < 1) by (nonlinear_arith)
                requires
                    a >= x * x - 2 * x,
                    x >= s + 2,
                    s * s == a;
        }
    }
}

/// The number of bits needed to write `a` in binary, capped at 32.
fn bit_length(a: u32) -> (b: u32)
    ensures
        b <= 32,
        (b == 0) == (a == 0),
{
    let mut b: u32 = 0;
    let mut x: u32 = a;
    while x > 0 && b < 32
        invariant
            b <= 32,
            (b == 0) ==> (x == a),
            (a == 0) ==> (b == 0 && x == 0),
        decreases 32 - b,
    {
        x = x / 2;
        b = b + 1;
    }
    b
}

/// Square root by Newton iteration, seeded from the bit length of the input.
///
/// Starting from roughly `2^(bitlen/2)`, repeat `x <- (x*x + a) / (2*x)`;
/// return the root as soon as an iterate squares back to `a` exactly, and
/// report absence once an iterate moves by at most one without doing so.
pub fn isqrt_newton(a: u32) -> (r: Option<u32>)
    ensures
        isqrt_post(a as int, r),
{
    let a64 = a as u64;
    let b = bit_length(a);
    let half = b / 2;
    let g: u64 = 1u64 << half;
    proof {
        assert(1 <= (1u64 << half) <= 0x1_0000) by (bit_vector)
            requires
                half <= 16u32;
        assert(half == 0u32 ==> (1u64 << half) == 1) by (bit_vector);
        assert((g as int) * (g as int) <= 0x1_0000_0000) by (nonlinear_arith)
            requires
                1 <= g as int <= 0x1_0000;
    }
    let gg = g * g;
    let x1 = (gg + a64) / (2 * g);
    proof {
        lemma_div_at_most(gg + a64, 2 * g as int);
        assert(x1 <= 0x8000_0000) by (nonlinear_arith)
            requires
                1 <= g as int <= 0x1_0000,
                a64 < 0x1_0000_0000,
                gg == (g as int) * (g as int),
                (2 * g as int) * (x1 as int) <= gg + a64;
        assert((x1 as int) * (x1 as int) <= 0x4000_0000_0000_0000) by (nonlinear_arith)
            requires
                0 <= x1 as int <= 0x8000_0000;
    }
    let x1s = x1 * x1;
    if x1s == a64 {
        proof {
            assert(x1 as int <= 0xffff) by (nonlinear_arith)
                requires
                    0 <= x1 as int,
                    (x1 as int) * (x1 as int) == a64,
                    a64 < 0x1_0000_0000;
            assert(sq(x1 as int) == a as int);
        }
        return Some(x1 as u32);
    }
    proof {
        // a == 0 is impossible here: the seed would be 1 and the first step
        // would have hit 0 * 0 == 0 and returned above
        assert(a64 != 0) by {
            if a64 == 0 {
                assert(g == 1);
                assert(gg == 1);
                assert(x1 == 0);
                assert((x1 as int) * (x1 as int) == 0) by (nonlinear_arith)
                    requires
                        x1 as int == 0;
                assert(x1s == 0);
            }
        }
    }
    let diff_small = if x1 >= g {
        x1 - g <= 1
    } else {
        g - x1 <= 1
    };
    if diff_small {
        proof {
            lemma_newton_no_root(a as int, g as int, x1 as int);
        }
        return None;
    }
    proof {
        assert forall|w: int| 0 <= w && #[trigger] sq(w) <= a64 implies w <= x1 by {
            lemma_newton_lower(a64 as int, g as int, w);
        }
        assert(sq(1) <= a64);
        assert(1 <= x1);
    }
    let mut x = x1;
    loop
        invariant
            1 <= a64 < 0x1_0000_0000,
            a64 == a,
            1 <= x <= 0x8000_0000,
            forall|w: int| 0 <= w && #[trigger] sq(w) <= a64 ==> w <= x,
        decreases x,
    {
        proof {
            assert((x as int) * (x as int) <= 0x4000_0000_0000_0000) by (nonlinear_arith)
                requires
                    0 <= x as int <= 0x8000_0000;
        }
        let xsq = x * x;
        let xn = (xsq + a64) / (2 * x);
        proof {
            assert(sq(x as int + 1) > a64) by {
                if sq(x as int + 1) <= a64 {
                    assert(x as int + 1 <= x as int);
                }
            }
            lemma_newton_upper(a64 as int, x as int, xn as int);
            assert(xn <= x + 1);
            assert((xn as int) * (xn as int) < 0x8000_0000_0000_0000) by (nonlinear_arith)
                requires
                    0 <= xn as int <= 0x8000_0001;
        }
        let xns = xn * xn;
        if xns == a64 {
            proof {
                assert(xn as int <= 0xffff) by (nonlinear_arith)
                    requires
                        0 <= xn as int,
                        (xn as int) * (xn as int) == a64,
                        a64 < 0x1_0000_0000;
                assert(sq(xn as int) == a as int);
            }
            return Some(xn as u32);
        }
        let diff_le_1 = if xn >= x {
            xn - x <= 1
        } else {
            x - xn <= 1
        };
        if diff_le_1 {
            proof {
                lemma_newton_no_root(a as int, x as int, xn as int);
            }
            return None;
        }
        proof {
            assert(xn <= x - 2);
            assert forall|w: int| 0 <= w && #[trigger] sq(w) <= a64 implies w <= xn by {
                lemma_newton_lower(a64 as int, x as int, w);
            }
            assert(sq(1) <= a64);
            assert(1 <= xn);
        }
        x = xn;
    }
}

/// Square root by binary search; the correctness reference among the two
/// algorithms.
///
/// Keep an interval `[bottom, top)` with `bottom*bottom <= a < top*top`,
/// bisect until its width reaches one, and report absence if no midpoint ever
/// squared back to `a` exactly and the final `bottom` does not either.
pub fn isqrt_binary(a: u32) -> (r: Option<u32>)
    ensures
        isqrt_post(a as int, r),
{
    let a64 = a as u64;
    let mut bottom: u64 = 0;
    let mut top: u64 = a64 + 1;
    proof {
        assert(a64 < (top as int) * (top as int)) by (nonlinear_arith)
            requires
                top == a64 + 1,
                a64 >= 0;
    }
    while top - bottom > 1
        invariant
            a64 == a,
            (bottom as int) * (bottom as int) <= a64,
            a64 < (top as int) * (top as int),
            bottom < top <= a64 + 1,
        decreases top - bottom,
    {
        let guess = bottom + (top - bottom) / 2;
        assert(bottom < guess < top);
        proof {
            assert((guess as int) * (guess as int) < 0x1_0000_0000_0000_0000) by (nonlinear_arith)
                requires
                    0 <= guess as int <= 0xffff_ffff;
        }
        let gg = guess * guess;
        if gg == a64 {
            proof {
                assert(guess as int <= 0xffff) by (nonlinear_arith)
                    requires
                        0 <= guess as int,
                        (guess as int) * (guess as int) == a64,
                        a64 < 0x1_0000_0000;
                assert(sq(guess as int) == a as int);
            }
            return Some(guess as u32);
        } else if gg < a64 {
            bottom = guess;
        } else {
            top = guess;
        }
    }
    proof {
        assert((bottom as int) * (bottom as int) < 0x1_0000_0000_0000_0000) by (nonlinear_arith)
            requires
                0 <= bottom as int <= 0xffff_ffff;
    }
    if bottom * bottom == a64 {
        proof {
            assert(bottom as int <= 0xffff) by (nonlinear_arith)
                requires
                    0 <= bottom as int,
                    (bottom as int) * (bottom as int) == a64,
                    a64 < 0x1_0000_0000;
            assert(sq(bottom as int) == a as int);
        }
        Some(bottom as u32)
    } else {
        proof {
            if is_square(a as int) {
                let s = choose|s: int| 0 <= s && #[trigger] sq(s) == a as int;
                assert(s >= bottom) by (nonlinear_arith)
                    requires
                        s * s == a64,
                        (bottom as int) * (bottom as int) <= a64,
                        0 <= s,
                        0 <= bottom as int;
                assert(s != bottom);
                assert(s * s >= (top as int) * (top as int)) by (nonlinear_arith)
                    requires
                        s >= top as int,
                        top as int >= 1;
            }
        }
        None
    }
}

} // verus!
