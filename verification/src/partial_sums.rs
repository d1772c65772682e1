//! The offset-indexed partial-sum counter.
//!
//! A frequency table keyed by signed partial-sum values. The key range is
//! shifted by an offset chosen from a pre-scan of the array, so that every
//! partial sum that is actually registered maps to a non-negative index of
//! the backing storage.

use vstd::prelude::*;

verus! {

/// Sum of the first `t` elements of `xs`; `t == 0` is the empty prefix, 0.
pub open spec fn prefix_sum(xs: Seq<i32>, t: int) -> int
    decreases t,
{
    if t <= 0 {
        0
    } else {
        prefix_sum(xs, t - 1) + xs[t - 1]
    }
}

/// Every prefix sum of `xs`, the empty prefix included, fits in `i32`.
pub open spec fn prefix_sums_fit(xs: Seq<i32>) -> bool {
    forall|t: int| 0 <= t <= xs.len() ==> i32::MIN <= #[trigger] prefix_sum(xs, t) <= i32::MAX
}

/// Minimum of the non-empty prefix sums `P(1), ..., P(t)`.
pub open spec fn min_prefix(xs: Seq<i32>, t: int) -> int
    decreases t,
{
    if t <= 1 {
        prefix_sum(xs, 1)
    } else if prefix_sum(xs, t) <= min_prefix(xs, t - 1) {
        prefix_sum(xs, t)
    } else {
        min_prefix(xs, t - 1)
    }
}

/// Maximum of the non-empty prefix sums `P(1), ..., P(t)`.
pub open spec fn max_prefix(xs: Seq<i32>, t: int) -> int
    decreases t,
{
    if t <= 1 {
        prefix_sum(xs, 1)
    } else if prefix_sum(xs, t) >= max_prefix(xs, t - 1) {
        prefix_sum(xs, t)
    } else {
        max_prefix(xs, t - 1)
    }
}

/// Minimum of all prefix sums `P(0), ..., P(t)`; at most 0.
pub open spec fn min_prefix0(xs: Seq<i32>, t: int) -> int
    decreases t,
{
    if t <= 0 {
        0
    } else if prefix_sum(xs, t) <= min_prefix0(xs, t - 1) {
        prefix_sum(xs, t)
    } else {
        min_prefix0(xs, t - 1)
    }
}

/// Maximum of all prefix sums `P(0), ..., P(t)`; at least 0.
pub open spec fn max_prefix0(xs: Seq<i32>, t: int) -> int
    decreases t,
{
    if t <= 0 {
        0
    } else if prefix_sum(xs, t) >= max_prefix0(xs, t - 1) {
        prefix_sum(xs, t)
    } else {
        max_prefix0(xs, t - 1)
    }
}

/// Number of non-empty prefixes among the first `t` whose sum is `v`.
pub open spec fn prefix_count(xs: Seq<i32>, t: int, v: int) -> nat
    decreases t,
{
    if t <= 0 {
        0
    } else {
        prefix_count(xs, t - 1, v) + if prefix_sum(xs, t) == v {
            1nat
        } else {
            0nat
        }
    }
}

/// Every prefix sum up to `t` lies between the scanned minimum and maximum.
pub proof fn lemma_prefix_in_range(xs: Seq<i32>, t: int, u: int)
    requires
        0 <= u <= t,
    ensures
        min_prefix0(xs, t) <= prefix_sum(xs, u) <= max_prefix0(xs, t),
    decreases t,
{
    if t > 0 {
        if u < t {
            lemma_prefix_in_range(xs, t - 1, u);
        }
    }
}

/// The minimum and maximum over all prefixes are the scanned non-empty
/// extremes clamped against the empty prefix, 0.
pub proof fn lemma_prefix0_rel(xs: Seq<i32>, t: int)
    requires
        t >= 1,
    ensures
        min_prefix0(xs, t) == if min_prefix(xs, t) < 0 {
            min_prefix(xs, t)
        } else {
            0
        },
        max_prefix0(xs, t) == if max_prefix(xs, t) > 0 {
            max_prefix(xs, t)
        } else {
            0
        },
    decreases t,
{
    if t > 1 {
        lemma_prefix0_rel(xs, t - 1);
    } else {
        assert(min_prefix0(xs, 0) == 0);
        assert(max_prefix0(xs, 0) == 0);
    }
}

/// No value can occur more often than there are prefixes.
pub proof fn lemma_prefix_count_le(xs: Seq<i32>, t: int, v: int)
    requires
        t >= 0,
    ensures
        prefix_count(xs, t, v) <= t,
    decreases t,
{
    if t > 0 {
        lemma_prefix_count_le(xs, t - 1, v);
    }
}

/// Frequency table of partial sums, addressed by `value + offset`.
pub struct PartialSums {
    /// Occurrence counts; index `i` counts the value `i - offset`.
    pub data: Vec<u32>,
    /// The shift that maps registered values to non-negative indices.
    pub offset: usize,
}

impl PartialSums {
    /// How many times `v` has been registered; 0 for any value outside the
    /// backing storage.
    pub open spec fn count_of(self, v: int) -> nat {
        if 0 <= v + self.offset < self.data@.len() {
            self.data@[v + self.offset] as nat
        } else {
            0
        }
    }

    /// Machine-width bounds under which the counter operates.
    pub open spec fn wf(self) -> bool {
        self.offset <= 0x8000_0000 && self.data@.len() <= 0x1_0000_0000
    }

    /// One linear pass over `xs` yielding the minimum and maximum of the
    /// running cumulative sum over all non-empty prefixes.
    pub fn get_min_max_partial_sum(xs: &Vec<i32>) -> (r: (i32, i32))
        requires
            xs@.len() >= 1,
            prefix_sums_fit(xs@),
        ensures
            r.0 == min_prefix(xs@, xs@.len() as int),
            r.1 == max_prefix(xs@, xs@.len() as int),
    {
        let mut mn = xs[0];
        let mut mx = xs[0];
        let mut partial_sum: i32 = 0;
        let n = xs.len();
        let mut i: usize = 0;
        while i < n
            invariant
                n == xs@.len(),
                1 <= n,
                0 <= i <= n,
                prefix_sums_fit(xs@),
                partial_sum == prefix_sum(xs@, i as int),
                mn == min_prefix(xs@, if i == 0 { 1int } else { i as int }),
                mx == max_prefix(xs@, if i == 0 { 1int } else { i as int }),
            decreases n - i,
        {
            proof {
                assert(i32::MIN <= prefix_sum(xs@, i as int + 1) <= i32::MAX);
            }
            partial_sum = partial_sum + xs[i];
            if partial_sum < mn {
                mn = partial_sum;
            }
            if partial_sum > mx {
                mx = partial_sum;
            }
            i = i + 1;
        }
        (mn, mx)
    }

    /// A fresh counter for `xs`: all counts zero, the offset the negation of
    /// the minimum prefix sum when that is negative, and the backing storage
    /// sized to span the scanned range of prefix sums.
    pub fn new(xs: &Vec<i32>) -> (s: Self)
        requires
            prefix_sums_fit(xs@),
            max_prefix0(xs@, xs@.len() as int) - min_prefix0(xs@, xs@.len() as int) + 1
                <= usize::MAX,
        ensures
            s.wf(),
            s.offset == -min_prefix0(xs@, xs@.len() as int),
            s.data@.len() == max_prefix0(xs@, xs@.len() as int) - min_prefix0(
                xs@,
                xs@.len() as int,
            ) + 1,
            forall|v: int| s.count_of(v) == 0,
    {
        let n = xs.len();
        let (mn, mx): (i32, i32) = if n == 0 {
            (0, 0)
        } else {
            Self::get_min_max_partial_sum(xs)
        };
        proof {
            if n >= 1 {
                lemma_prefix0_rel(xs@, n as int);
            }
        }
        let mn0: i64 = if mn < 0 {
            mn as i64
        } else {
            0
        };
        let mx0: i64 = if mx > 0 {
            mx as i64
        } else {
            0
        };
        let offset = (-mn0) as usize;
        let size = (mx0 - mn0 + 1) as usize;
        let mut data: Vec<u32> = Vec::new();
        while data.len() < size
            invariant
                data@.len() <= size,
                forall|j: int| 0 <= j < data@.len() ==> data@[j] == 0u32,
            decreases size - data@.len(),
        {
            data.push(0);
        }
        Self { data, offset }
    }

    /// The storage index for `index`: the value shifted by the offset.
    pub fn real_index(&self, index: i32) -> (r: usize)
        requires
            self.wf(),
            0 <= index + self.offset,
        ensures
            r == index + self.offset,
    {
        (index as i64 + self.offset as i64) as usize
    }

    /// Current occurrence count for `value`; 0 for any never-written index.
    pub fn read(&self, value: i32) -> (count: u32)
        requires
            self.wf(),
        ensures
            count as nat == self.count_of(value as int),
    {
        let idx = value as i64 + self.offset as i64;
        if 0 <= idx && idx < self.data.len() as i64 {
            self.data[idx as usize]
        } else {
            0
        }
    }

    /// Raise the occurrence count for `value` by one, extending the backing
    /// storage when the mapped index lies beyond its current extent.
    pub fn increment(&mut self, value: i32)
        requires
            old(self).wf(),
            0 <= value + old(self).offset,
            old(self).count_of(value as int) < u32::MAX,
        ensures
            final(self).wf(),
            final(self).offset == old(self).offset,
            final(self).count_of(value as int) == old(self).count_of(value as int) + 1,
            forall|v: int| v != value ==> final(self).count_of(v) == old(self).count_of(v),
            final(self).data@.len() >= old(self).data@.len(),
    {
        let idx = self.real_index(value);
        while self.data.len() <= idx
            invariant
                idx == value + old(self).offset,
                idx <= 0xffff_ffff,
                self.offset == old(self).offset,
                old(self).data@.len() <= self.data@.len(),
                self.data@.len() <= idx + 1 || self.data@.len() == old(self).data@.len(),
                forall|j: int|
                    0 <= j < self.data@.len() ==> self.data@[j] == (if j < old(
                        self,
                    ).data@.len() {
                        old(self).data@[j]
                    } else {
                        0u32
                    }),
            decreases idx + 1 - self.data@.len(),
        {
            self.data.push(0);
        }
        let c = self.data[idx];
        proof {
            assert(c as nat == old(self).count_of(value as int));
        }
        self.data[idx] = c + 1;
        proof {
            assert(self.count_of(value as int) == old(self).count_of(value as int) + 1);
            assert forall|v: int| v != value implies self.count_of(v) == old(self).count_of(
                v,
            ) by {
                let j = v + self.offset;
                if 0 <= j < self.data@.len() {
                    assert(self.data@[j] == (if j < old(self).data@.len() {
                        old(self).data@[j]
                    } else {
                        0u32
                    }));
                }
            }
        }
    }
}

} // verus!
