//! The subarray square counter.
//!
//! Count the contiguous subarrays of a sequence whose sum is a perfect
//! square. A single left-to-right scan maintains the running partial sum and
//! an offset-indexed frequency table of the partial sums seen so far; at each
//! position the ascending square table is scanned, with an early exit as soon
//! as a candidate falls below every partial sum that could have been
//! registered.

use crate::isqrt::{is_square, sq};
use crate::partial_sums::{
    lemma_prefix_count_le, lemma_prefix_in_range, max_prefix0, min_prefix0, prefix_count,
    prefix_sum, prefix_sums_fit, PartialSums,
};
use vstd::prelude::*;

verus! {

/// Sum of the subarray of `xs` from `i` up to (but excluding) `j`.
pub open spec fn subarray_sum(xs: Seq<i32>, i: int, j: int) -> int {
    prefix_sum(xs, j) - prefix_sum(xs, i)
}

/// Number of start positions `u` below `ub` for which the subarray from `u`
/// up to (but excluding) `t` sums to a perfect square.
pub open spec fn matches_ending_at(xs: Seq<i32>, t: int, ub: int) -> nat
    decreases ub,
{
    if ub <= 0 {
        0
    } else {
        matches_ending_at(xs, t, ub - 1) + if is_square(subarray_sum(xs, ub - 1, t)) {
            1nat
        } else {
            0nat
        }
    }
}

/// Number of index pairs `u < t' <= t` for which the subarray from `u` up to
/// `t'` sums to a perfect square. With `t` the length of `xs`, this is the
/// count the subarray square counter computes.
pub open spec fn square_subarray_count(xs: Seq<i32>, t: int) -> nat
    decreases t,
{
    if t <= 0 {
        0
    } else {
        square_subarray_count(xs, t - 1) + matches_ending_at(xs, t, t)
    }
}

/// `v` is the square of some root strictly below `kb`.
pub open spec fn root_below(v: int, kb: int) -> bool {
    exists|k: int| 0 <= k < kb && sq(k) == v
}

/// What one full scan of the square table tallies: for each square index
/// `k < kb`, one when the square equals `p`, plus the registered count of
/// `p` minus the square.
pub open spec fn table_scan_count(p: int, c: PartialSums, kb: int) -> nat
    decreases kb,
{
    if kb <= 0 {
        0
    } else {
        table_scan_count(p, c, kb - 1) + (if p == sq(kb - 1) {
            1nat
        } else {
            0nat
        }) + c.count_of(p - sq(kb - 1))
    }
}

/// Number of non-empty prefixes among the first `t` whose sum differs from
/// `p` by a square with root below `kb`.
pub open spec fn matches_from1(xs: Seq<i32>, p: int, t: int, kb: int) -> nat
    decreases t,
{
    if t <= 0 {
        0
    } else {
        matches_from1(xs, p, t - 1, kb) + if root_below(p - prefix_sum(xs, t), kb) {
            1nat
        } else {
            0nat
        }
    }
}

/// Below a bound that exceeds `v`, having a bounded root is the same as
/// being a perfect square.
proof fn lemma_root_below_is_square(v: int, kb: int)
    requires
        0 <= kb,
        v < sq(kb),
    ensures
        root_below(v, kb) == is_square(v),
{
    if root_below(v, kb) {
        let k = choose|k: int| 0 <= k < kb && #[trigger] sq(k) == v;
        assert(sq(k) == v);
        assert(is_square(v));
    }
    if is_square(v) {
        let k = choose|k: int| 0 <= k && #[trigger] sq(k) == v;
        assert(k < kb) by (nonlinear_arith)
            requires
                0 <= k,
                0 <= kb,
                k * k == v,
                v < kb * kb;
        assert(root_below(v, kb));
    }
}

/// Once a candidate falls below every index the counter can hold, the rest
/// of the (ascending) square table contributes nothing.
proof fn lemma_table_scan_tail_zero(p: int, c: PartialSums, k0: int, kb: int)
    requires
        0 <= k0 <= kb,
        p - sq(k0) + c.offset < 0,
    ensures
        table_scan_count(p, c, kb) == table_scan_count(p, c, k0),
    decreases kb,
{
    if kb > k0 {
        lemma_table_scan_tail_zero(p, c, k0, kb - 1);
        assert(sq(kb - 1) >= sq(k0)) by (nonlinear_arith)
            requires
                0 <= k0 <= kb - 1;
        assert(c.count_of(p - sq(kb - 1)) == 0);
        assert(p != sq(kb - 1));
    }
}

/// A table scan over an all-zero counter tallies exactly one when `p` itself
/// is a square with root below the bound.
proof fn lemma_table_scan_empty(p: int, c: PartialSums, kb: int)
    requires
        0 <= kb,
        forall|v: int| c.count_of(v) == 0,
    ensures
        table_scan_count(p, c, kb) == if root_below(p, kb) {
            1nat
        } else {
            0nat
        },
    decreases kb,
{
    if kb > 0 {
        lemma_table_scan_empty(p, c, kb - 1);
        if p == sq(kb - 1) {
            assert(root_below(p, kb));
            if root_below(p, kb - 1) {
                let k = choose|k: int| 0 <= k < kb - 1 && #[trigger] sq(k) == p;
                assert(k == kb - 1) by (nonlinear_arith)
                    requires
                        0 <= k,
                        0 <= kb - 1,
                        k * k == (kb - 1) * (kb - 1);
            }
        } else {
            if root_below(p, kb) {
                let k = choose|k: int| 0 <= k < kb && #[trigger] sq(k) == p;
                assert(k < kb - 1);
                assert(root_below(p, kb - 1));
            }
            if root_below(p, kb - 1) {
                assert(root_below(p, kb));
            }
        }
    }
}

/// Registering one more occurrence of `w` raises the table-scan tally for
/// `p` by one exactly when `p - w` is a square with root below the bound.
proof fn lemma_table_scan_bump(p: int, c1: PartialSums, c2: PartialSums, w: int, kb: int)
    requires
        0 <= kb,
        c2.count_of(w) == c1.count_of(w) + 1,
        forall|v: int| v != w ==> c2.count_of(v) == c1.count_of(v),
    ensures
        table_scan_count(p, c2, kb) == table_scan_count(p, c1, kb) + if root_below(
            p - w,
            kb,
        ) {
            1nat
        } else {
            0nat
        },
    decreases kb,
{
    if kb > 0 {
        lemma_table_scan_bump(p, c1, c2, w, kb - 1);
        if p - sq(kb - 1) == w {
            assert(sq(kb - 1) == p - w);
            assert(root_below(p - w, kb));
            if root_below(p - w, kb - 1) {
                let k = choose|k: int| 0 <= k < kb - 1 && #[trigger] sq(k) == p - w;
                assert(k == kb - 1) by (nonlinear_arith)
                    requires
                        0 <= k,
                        0 <= kb - 1,
                        k * k == (kb - 1) * (kb - 1);
            }
        } else {
            assert(c2.count_of(p - sq(kb - 1)) == c1.count_of(p - sq(kb - 1)));
            if root_below(p - w, kb) {
                let k = choose|k: int| 0 <= k < kb && #[trigger] sq(k) == p - w;
                assert(k < kb - 1);
                assert(root_below(p - w, kb - 1));
            }
            if root_below(p - w, kb - 1) {
                assert(root_below(p - w, kb));
            }
        }
    }
}

/// When the square table reaches past every candidate difference, the
/// bounded tally for position `t` is exactly the number of square-sum
/// subarrays ending there.
proof fn lemma_bounded_matches_exact(xs: Seq<i32>, t: int, ub: int, kb: int)
    requires
        0 <= ub,
        0 <= kb,
        forall|u: int|
            0 <= u <= ub ==> prefix_sum(xs, t) - #[trigger] prefix_sum(xs, u) < sq(kb),
    ensures
        (if root_below(prefix_sum(xs, t), kb) {
            1nat
        } else {
            0nat
        }) + matches_from1(xs, prefix_sum(xs, t), ub, kb) == matches_ending_at(xs, t, ub + 1),
    decreases ub,
{
    let p = prefix_sum(xs, t);
    if ub == 0 {
        assert(prefix_sum(xs, 0) == 0);
        assert(matches_ending_at(xs, t, 0) == 0);
        assert(matches_from1(xs, p, 0, kb) == 0);
        assert(matches_ending_at(xs, t, 1) == if is_square(p) {
            1nat
        } else {
            0nat
        });
        lemma_root_below_is_square(p, kb);
    } else {
        lemma_bounded_matches_exact(xs, t, ub - 1, kb);
        lemma_root_below_is_square(p - prefix_sum(xs, ub), kb);
    }
}

/// No more subarrays can end at a position than there are start positions.
proof fn lemma_matches_ending_le(xs: Seq<i32>, t: int, ub: int)
    requires
        0 <= ub,
    ensures
        matches_ending_at(xs, t, ub) <= ub,
    decreases ub,
{
    if ub > 0 {
        lemma_matches_ending_le(xs, t, ub - 1);
    }
}

/// The total count is at most the square of the number of positions.
proof fn lemma_square_subarray_count_le(xs: Seq<i32>, t: int)
    requires
        0 <= t,
    ensures
        square_subarray_count(xs, t) <= t * t,
    decreases t,
{
    if t > 0 {
        lemma_square_subarray_count_le(xs, t - 1);
        lemma_matches_ending_le(xs, t, t);
        assert((t - 1) * (t - 1) + t <= t * t) by (nonlinear_arith)
            requires
                t >= 1;
    }
}

/// Every prefix of an all-zero sequence sums to zero.
proof fn lemma_all_zeros_prefix(xs: Seq<i32>, u: int)
    requires
        0 <= u <= xs.len(),
        forall|i: int| 0 <= i < xs.len() ==> xs[i] == 0,
    ensures
        prefix_sum(xs, u) == 0,
    decreases u,
{
    if u > 0 {
        lemma_all_zeros_prefix(xs, u - 1);
    }
}

/// In an all-zero sequence, every subarray ending at a position counts.
proof fn lemma_all_zeros_matches(xs: Seq<i32>, t: int, ub: int)
    requires
        0 <= ub <= t <= xs.len(),
        forall|i: int| 0 <= i < xs.len() ==> xs[i] == 0,
    ensures
        matches_ending_at(xs, t, ub) == ub,
    decreases ub,
{
    if ub > 0 {
        lemma_all_zeros_matches(xs, t, ub - 1);
        lemma_all_zeros_prefix(xs, t);
        lemma_all_zeros_prefix(xs, ub - 1);
        assert(sq(0) == 0);
        assert(is_square(subarray_sum(xs, ub - 1, t)));
    }
}

/// Twice the count over an all-zero prefix is `t * (t + 1)`.
proof fn lemma_all_zeros_count_upto(xs: Seq<i32>, t: int)
    requires
        0 <= t <= xs.len(),
        forall|i: int| 0 <= i < xs.len() ==> xs[i] == 0,
    ensures
        2 * square_subarray_count(xs, t) == t * (t + 1),
    decreases t,
{
    if t > 0 {
        lemma_all_zeros_count_upto(xs, t - 1);
        lemma_all_zeros_matches(xs, t, t);
        assert(square_subarray_count(xs, t) == square_subarray_count(xs, t - 1)
            + matches_ending_at(xs, t, t));
        assert(2 * square_subarray_count(xs, t) == t * (t + 1)) by (nonlinear_arith)
            requires
                2 * square_subarray_count(xs, t - 1) == (t - 1) * ((t - 1) + 1),
                square_subarray_count(xs, t) == square_subarray_count(xs, t - 1)
                    + matches_ending_at(xs, t, t),
                matches_ending_at(xs, t, t) == t,
                t >= 1;
    } else {
        assert(square_subarray_count(xs, 0) == 0);
    }
}

/// Law: an all-zero array of length `n` has `n * (n + 1) / 2` square-sum
/// subarrays, since every one of its subarrays sums to 0, a perfect square.
pub proof fn lemma_all_zeros_count(xs: Seq<i32>)
    requires
        forall|i: int| 0 <= i < xs.len() ==> xs[i] == 0,
    ensures
        square_subarray_count(xs, xs.len() as int) == xs.len() * (xs.len() + 1) / 2,
{
    let n = xs.len() as int;
    let c = square_subarray_count(xs, n) as int;
    lemma_all_zeros_count_upto(xs, n);
    vstd::arithmetic::div_mod::lemma_div_multiples_vanish(c, 2);
    assert(n * (n + 1) / 2 == (2 * c) / 2);
}

/// Law: the subarray square counter is deterministic. Two results computed
/// for the same input sequence are equal, since each equals the one count
/// that the specification assigns to that sequence.
pub proof fn lemma_counter_deterministic(xs: Seq<i32>, r1: u64, r2: u64)
    requires
        r1 == square_subarray_count(xs, xs.len() as int),
        r2 == square_subarray_count(xs, xs.len() as int),
    ensures
        r1 == r2,
{
}

/// Tally, for one position with running partial sum `partial_sum`, the
/// subarrays ending there whose sum is a square: scan the ascending square
/// table, counting one for the prefix itself when the candidate difference
/// is zero and otherwise adding the registered count of the candidate, and
/// stop as soon as the candidate falls below every registrable value.
pub fn count_squares(partial_sum: i32, squares: &Vec<i32>, partial_sums: &PartialSums) -> (result:
    u64)
    requires
        partial_sums.wf(),
        forall|k: int| 0 <= k < squares@.len() ==> squares@[k] == sq(k),
        squares@.len() >= 1,
    ensures
        result == table_scan_count(partial_sum as int, *partial_sums, squares@.len() as int),
{
    let n = squares.len();
    proof {
        assert(squares@[n - 1] == sq(n - 1));
        assert(n - 1 <= 46340) by (nonlinear_arith)
            requires
                0 <= n - 1,
                (n - 1) * (n - 1) <= 0x7fff_ffff;
    }
    let p = partial_sum;
    let mut result: u64 = 0;
    let mut k: usize = 0;
    while k < n
        invariant_except_break
            n == squares@.len(),
            1 <= n <= 46341,
            0 <= k <= n,
            p == partial_sum,
            partial_sums.wf(),
            forall|j: int| 0 <= j < squares@.len() ==> squares@[j] == sq(j),
            result == table_scan_count(p as int, *partial_sums, k as int),
            result <= k * 0x1_0000_0000,
        ensures
            result == table_scan_count(p as int, *partial_sums, n as int),
        decreases n - k,
    {
        let s = squares[k];
        let cand: i64 = p as i64 - s as i64;
        proof {
            assert(cand == p - sq(k as int));
        }
        if cand == 0 {
            result = result + 1;
        }
        if cand + (partial_sums.offset as i64) < 0 {
            proof {
                assert(result == table_scan_count(p as int, *partial_sums, k as int));
                lemma_table_scan_tail_zero(
                    p as int,
                    *partial_sums,
                    k as int,
                    n as int,
                );
            }
            break;
        }
        let count = partial_sums.read(cand as i32);
        result = result + count as u64;
        proof {
            assert(count as nat == partial_sums.count_of(p - sq(k as int)));
            assert(result == table_scan_count(p as int, *partial_sums, k as int + 1));
        }
        k = k + 1;
    }
    result
}

/// Count the contiguous subarrays of `xs` whose sum is a perfect square,
/// zero included. `squares` must be the exact ascending square table and
/// reach beyond the widest possible difference of prefix sums of `xs`.
pub fn count_squares_in_subarrays(xs: &Vec<i32>, squares: &Vec<i32>) -> (result: u64)
    requires
        prefix_sums_fit(xs@),
        xs@.len() < 0x1_0000_0000,
        forall|k: int| 0 <= k < squares@.len() ==> squares@[k] == sq(k),
        squares@.len() >= 1,
        sq(squares@.len() as int) > max_prefix0(xs@, xs@.len() as int) - min_prefix0(
            xs@,
            xs@.len() as int,
        ),
    ensures
        result == square_subarray_count(xs@, xs@.len() as int),
{
    let n = xs.len();
    let ghost kk: int = squares@.len() as int;
    proof {
        assert(squares@[kk - 1] == sq(kk - 1));
        assert(kk <= 46341) by (nonlinear_arith)
            requires
                1 <= kk,
                (kk - 1) * (kk - 1) <= 0x7fff_ffff;
        assert(sq(kk) <= 46341 * 46341) by (nonlinear_arith)
            requires
                1 <= kk <= 46341;
    }
    let mut counter = PartialSums::new(xs);
    proof {
        assert forall|p: int|
            table_scan_count(p, counter, kk) == (if root_below(p, kk) {
                1nat
            } else {
                0nat
            }) + matches_from1(xs@, p, 0, kk) by {
            lemma_table_scan_empty(p, counter, kk);
        }
    }
    let mut result: u64 = 0;
    let mut partial_sum: i32 = 0;
    let mut i: usize = 0;
    while i < n
        invariant
            n == xs@.len(),
            n < 0x1_0000_0000,
            0 <= i <= n,
            kk == squares@.len() as int,
            1 <= kk <= 46341,
            prefix_sums_fit(xs@),
            forall|k: int| 0 <= k < squares@.len() ==> squares@[k] == sq(k),
            sq(kk) > max_prefix0(xs@, n as int) - min_prefix0(xs@, n as int),
            partial_sum == prefix_sum(xs@, i as int),
            counter.wf(),
            counter.offset == -min_prefix0(xs@, n as int),
            forall|v: int| counter.count_of(v) == prefix_count(xs@, i as int, v),
            forall|p: int|
                table_scan_count(p, counter, kk) == (if root_below(p, kk) {
                    1nat
                } else {
                    0nat
                }) + matches_from1(xs@, p, i as int, kk),
            result == square_subarray_count(xs@, i as int),
        decreases n - i,
    {
        let ghost t: int = i as int + 1;
        proof {
            assert(i32::MIN <= prefix_sum(xs@, t) <= i32::MAX);
        }
        partial_sum = partial_sum + xs[i];
        let add = count_squares(partial_sum, squares, &counter);
        proof {
            let p = prefix_sum(xs@, t);
            assert forall|u: int| 0 <= u <= i as int implies p - #[trigger] prefix_sum(
                xs@,
                u,
            ) < sq(kk) by {
                lemma_prefix_in_range(xs@, n as int, u);
                lemma_prefix_in_range(xs@, n as int, t);
            }
            lemma_bounded_matches_exact(xs@, t, i as int, kk);
            assert(add == matches_ending_at(xs@, t, t));
            lemma_matches_ending_le(xs@, t, t);
            lemma_square_subarray_count_le(xs@, i as int);
            assert((i as int) * (i as int) <= 0xffff_ffff * 0xffff_ffff)
                by (nonlinear_arith)
                requires
                    0 <= i as int <= 0xffff_ffff;
        }
        result = result + add;
        proof {
            lemma_prefix_in_range(xs@, n as int, t);
            lemma_prefix_count_le(xs@, i as int, prefix_sum(xs@, t));
        }
        let ghost old_counter = counter;
        counter.increment(partial_sum);
        proof {
            assert forall|v: int|
                counter.count_of(v) == prefix_count(xs@, t, v) by {
                if v != prefix_sum(xs@, t) {
                    assert(counter.count_of(v) == old_counter.count_of(v));
                }
            }
            assert forall|p: int|
                table_scan_count(p, counter, kk) == (if root_below(p, kk) {
                    1nat
                } else {
                    0nat
                }) + matches_from1(xs@, p, t, kk) by {
                lemma_table_scan_bump(p, old_counter, counter, prefix_sum(xs@, t), kk);
            }
        }
        i = i + 1;
    }
    result
}

} // verus!
