//! The arithmetic-run finder.
//!
//! Scan a sequence once and report the length of its longest contiguous
//! arithmetic run, that is, the longest window whose consecutive differences
//! are all equal. Any two neighbouring elements form a run, so the answer is
//! never reported below 2, not even for sequences shorter than that.

use vstd::prelude::*;

verus! {

/// The window `xs[i .. j)` is an arithmetic run: all consecutive
/// differences inside it are equal.
pub open spec fn is_arith(xs: Seq<i32>, i: int, j: int) -> bool {
    forall|t: int| i + 2 <= t < j ==> #[trigger] xs[t] - xs[t - 1] == xs[t - 1] - xs[t - 2]
}

/// Length of the longest arithmetic window of `xs`, floored at 2.
///
/// The result is at least 2; for sequences of two or more elements it is
/// the exact maximum window length: some window of that length is an
/// arithmetic run, and no longer window is.
pub fn longest_arithmetic_run(xs: &Vec<i32>) -> (m: u64)
    ensures
        m >= 2,
        xs@.len() >= 2 ==> m <= xs@.len(),
        xs@.len() < 2 ==> m == 2,
        xs@.len() >= 2 ==> exists|i: int|
            0 <= i && i + m <= xs@.len() && #[trigger] is_arith(xs@, i, i + m as int),
        forall|i: int, j: int|
            0 <= i && i + 2 <= j <= xs@.len() && is_arith(xs@, i, j) ==> j - i <= m,
{
    let n = xs.len();
    if n < 2 {
        return 2;
    }
    let mut cur: u64 = 2;
    let mut m: u64 = 2;
    let ghost mut best_start: int = 0;
    let mut i: usize = 2;
    while i < n
        invariant
            n == xs@.len(),
            2 <= n,
            2 <= i <= n,
            2 <= cur <= i,
            2 <= m <= i,
            is_arith(xs@, i - cur, i as int),
            forall|s: int|
                0 <= s && s + 2 <= i && is_arith(xs@, s, i as int) ==> i - s <= cur,
            0 <= best_start && best_start + m <= i,
            is_arith(xs@, best_start, best_start + m as int),
            forall|s: int, j: int|
                0 <= s && s + 2 <= j <= i && is_arith(xs@, s, j) ==> j - s <= m,
        decreases n - i,
    {
        let jump = xs[i] as i64 - xs[i - 1] as i64;
        let jump_prev = xs[i - 1] as i64 - xs[i - 2] as i64;
        if jump == jump_prev {
            cur = cur + 1;
            proof {
                let s0 = i as int + 1 - cur as int;
                assert forall|t: int|
                    s0 + 2 <= t < i as int + 1 implies #[trigger] xs@[t] - xs@[t - 1] == xs@[t
                    - 1] - xs@[t - 2] by {
                    if t < i as int {
                        assert(is_arith(xs@, s0 + 1, i as int));
                    }
                }
                assert(is_arith(xs@, s0, i as int + 1));
                assert forall|s: int|
                    0 <= s && s + 2 <= i as int + 1 && #[trigger] is_arith(xs@, s, i as int + 1)
                        implies i as int + 1 - s <= cur by {
                    if s + 2 <= i as int {
                        assert(is_arith(xs@, s, i as int));
                    }
                }
            }
            if cur > m {
                m = cur;
                proof {
                    best_start = i as int + 1 - cur as int;
                }
            }
        } else {
            proof {
                assert forall|s: int|
                    0 <= s && s + 2 <= i as int + 1 && #[trigger] is_arith(xs@, s, i as int + 1)
                        implies i as int + 1 - s <= 2 by {
                    if s + 2 <= i as int {
                        assert(xs@[i as int] - xs@[i as int - 1] == xs@[i as int - 1]
                            - xs@[i as int - 2]);
                    }
                }
            }
            cur = 2;
        }
        proof {
            assert(is_arith(xs@, i as int + 1 - cur as int, i as int + 1));
            assert forall|s: int, j: int|
                0 <= s && s + 2 <= j <= i as int + 1 && #[trigger] is_arith(xs@, s, j) implies j
                - s <= m by {
                if j == i as int + 1 {
                    assert(j - s <= cur);
                }
            }
        }
        i = i + 1;
    }
    proof {
        assert(is_arith(xs@, best_start, best_start + m as int));
    }
    m
}

} // verus!
