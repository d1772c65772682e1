//! The countdown-sequence counter.
//!
//! Count how many times the full countdown `k, k-1, ..., 1` occurs as a
//! contiguous run of a sequence. A single scan keeps track of whether the
//! elements seen so far end in a partial countdown, and tallies each time
//! such a run reaches 1.

use vstd::prelude::*;

verus! {

/// The countdown pattern `k, k-1, ..., 1` occupies positions `j .. j + k`.
pub open spec fn countdown_at(xs: Seq<i32>, j: int, k: int) -> bool {
    &&& 0 <= j
    &&& j + k <= xs.len()
    &&& forall|t: int| 0 <= t < k ==> #[trigger] xs[j + t] == k - t
}

/// Number of positions `e` below `e_bound` at which a countdown pattern
/// ends, its final 1 standing at index `e`.
pub open spec fn countdown_ends_before(xs: Seq<i32>, k: int, e_bound: int) -> nat
    decreases e_bound,
{
    if e_bound <= 0 {
        0
    } else {
        countdown_ends_before(xs, k, e_bound - 1) + if countdown_at(xs, e_bound - k, k) {
            1nat
        } else {
            0nat
        }
    }
}

/// Number of occurrences of the countdown pattern for `k` in `xs`.
pub open spec fn countdown_count(xs: Seq<i32>, k: int) -> nat {
    countdown_ends_before(xs, k, xs.len() as int)
}

/// The first `i` elements end in a partial countdown from `k` down to
/// `prev`, the element at `i - 1`.
spec fn in_run(xs: Seq<i32>, k: int, i: int, prev: int) -> bool {
    &&& prev <= k
    &&& (k >= 2 ==> prev >= 2)
    &&& k - prev <= i - 1
    &&& forall|t: int| 0 <= t <= k - prev ==> #[trigger] xs[i - 1 - t] == prev + t
}

/// A completed countdown ends at position `i` exactly when the scan state
/// says so: the run was live, the previous element was 2, and this one is 1.
proof fn lemma_count_step(xs: Seq<i32>, k: int, i: int, prev: int, a: int, eff: bool)
    requires
        k >= 2,
        1 <= i < xs.len(),
        prev == xs[i - 1],
        a == xs[i],
        eff == in_run(xs, k, i, prev),
    ensures
        countdown_at(xs, i + 1 - k, k) == (eff && prev == 2 && a == 1),
{
    if eff && prev == 2 && a == 1 {
        assert forall|t: int| 0 <= t < k implies #[trigger] xs[i + 1 - k + t] == k - t by {
            if t == k - 1 {
                assert(xs[i] == 1);
            } else {
                let u = k - 2 - t;
                assert(xs[i - 1 - u] == prev + u);
            }
        }
        assert(countdown_at(xs, i + 1 - k, k));
    }
    if countdown_at(xs, i + 1 - k, k) {
        assert(xs[(i + 1 - k) + (k - 1)] == 1);
        assert(xs[(i + 1 - k) + (k - 2)] == 2);
        assert(a == 1);
        assert(prev == 2);
        assert forall|t: int| 0 <= t <= k - 2 implies #[trigger] xs[i - 1 - t] == 2 + t by {
            assert(xs[(i + 1 - k) + (k - 2 - t)] == k - (k - 2 - t));
        }
        assert(in_run(xs, k, i, 2));
    }
}

/// After consuming one element the live-run state is again characterised by
/// `in_run`: the run continues when it steps down without reaching 1, and
/// restarts whenever the new element is `k` itself.
proof fn lemma_run_step(xs: Seq<i32>, k: int, i: int, prev: int, a: int, eff: bool)
    requires
        1 <= i < xs.len(),
        prev == xs[i - 1],
        a == xs[i],
        eff == in_run(xs, k, i, prev),
    ensures
        in_run(xs, k, i + 1, a) == ((eff && a == prev - 1 && a != 1) || a == k),
{
    if a == k {
        assert forall|t: int| 0 <= t <= k - a implies #[trigger] xs[i + 1 - 1 - t] == a + t by {
            assert(t == 0);
        }
        assert(in_run(xs, k, i + 1, a));
    } else {
        if eff && a == prev - 1 && a != 1 {
            if k >= 2 {
                assert(a >= 2);
            }
            assert forall|t: int| 0 <= t <= k - a implies #[trigger] xs[i - t] == a + t by {
                if t == 0 {
                } else {
                    assert(xs[i - 1 - (t - 1)] == prev + (t - 1));
                }
            }
            assert(in_run(xs, k, i + 1, a));
        }
        if in_run(xs, k, i + 1, a) {
            assert(a < k);
            assert(xs[i - 1] == a + 1);
            assert(a == prev - 1);
            assert forall|t: int| 0 <= t <= k - prev implies #[trigger] xs[i - 1 - t] == prev + t by {
                assert(xs[i - (t + 1)] == a + (t + 1));
            }
            assert(in_run(xs, k, i, prev));
            if k >= 2 {
                assert(a >= 2);
            } else {
                assert(a <= k - 1);
            }
            assert(a != 1);
        }
    }
}

/// Count the occurrences of the full countdown `k, k-1, ..., 1` in `xs`.
/// No countdown shorter than two steps is ever counted: for `k` below 2 the
/// count is 0.
pub fn count_countdowns(xs: &Vec<i32>, k: i32) -> (count: u64)
    requires
        forall|j: int| 0 <= j < xs@.len() ==> #[trigger] xs@[j] > i32::MIN,
    ensures
        count == if k >= 2 {
            countdown_count(xs@, k as int)
        } else {
            0nat
        },
{
    let n = xs.len();
    if n == 0 {
        return 0;
    }
    let mut prev = xs[0];
    let mut count: u64 = 0;
    let mut in_cd = false;
    let mut i: usize = 1;
    proof {
        assert(countdown_ends_before(xs@, k as int, 1) == countdown_ends_before(
            xs@,
            k as int,
            0,
        ) + if countdown_at(xs@, 1 - k as int, k as int) {
            1nat
        } else {
            0nat
        });
    }
    while i < n
        invariant
            n == xs@.len(),
            1 <= i <= n,
            forall|j: int| 0 <= j < xs@.len() ==> #[trigger] xs@[j] > i32::MIN,
            prev == xs@[i - 1],
            (in_cd || prev == k) == in_run(xs@, k as int, i as int, prev as int),
            k >= 2 ==> count == countdown_ends_before(xs@, k as int, i as int),
            k < 2 ==> count == 0,
            count <= i,
        decreases n - i,
    {
        let ghost eff: bool = in_cd || prev == k;
        let a = xs[i];
        proof {
            lemma_run_step(xs@, k as int, i as int, prev as int, a as int, eff);
            if k >= 2 {
                lemma_count_step(xs@, k as int, i as int, prev as int, a as int, eff);
            }
        }
        if prev == k {
            in_cd = true;
        }
        if in_cd {
            if a == prev - 1 {
                if a == 1 {
                    count = count + 1;
                    in_cd = false;
                }
            } else {
                in_cd = false;
            }
        }
        proof {
            if k < 2 && eff {
                // a live run for k < 2 sits at or below k, so it can never
                // step onto 1 and be counted
                assert(prev <= 1);
            }
        }
        prev = a;
        i = i + 1;
    }
    count
}

} // verus!
