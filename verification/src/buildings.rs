//! The building visibility puzzle.
//!
//! Construct a row of `n` building heights so that `a_desired` buildings are
//! visible from the left, `b_desired` from the right, and `c` of those are
//! visible from both sides. The construction places the tallest buildings in
//! a middle block of `c`, flanks them with near-tallest buildings to reach
//! the desired one-sided counts, and hides any remaining buildings behind
//! the flank with more near-tallest neighbours.

use vstd::prelude::*;

verus! {

/// The bounds under which the puzzle arithmetic stays in machine range.
pub open spec fn sizes_fit(n: int, a: int, b: int, c: int) -> bool {
    0 <= n <= 0x4000_0000 && 0 <= a <= 0x4000_0000 && 0 <= b <= 0x4000_0000 && 0 <= c
        <= 0x4000_0000
}

/// The height the construction assigns to position `i`.
pub open spec fn calc_val(n: int, a: int, b: int, c: int, i: int) -> int {
    let h = n + c - a - b;
    let a_add = a - c;
    let b_add = b - c;
    if a_add >= b_add {
        if i < a_add {
            n - 1
        } else if i < a_add + h {
            1
        } else if i < a_add + h + c {
            n
        } else {
            n - 1
        }
    } else {
        if i < a_add {
            n - 1
        } else if i < a_add + c {
            n
        } else if i < a_add + c + h {
            1
        } else {
            n - 1
        }
    }
}

/// How many buildings are hidden, seen from neither side: `n + c` minus the
/// two desired counts. Absent when that would be negative.
pub fn hidden(n: usize, a_desired: usize, b_desired: usize, c: usize) -> (h: Option<usize>)
    requires
        sizes_fit(n as int, a_desired as int, b_desired as int, c as int),
    ensures
        (h is Some) == (a_desired + b_desired <= n + c),
        h matches Some(v) ==> v == n + c - a_desired - b_desired,
{
    let s = (n as i64) - (a_desired as i64) - (b_desired as i64) + (c as i64);
    if s < 0 {
        None
    } else {
        Some(s as usize)
    }
}

/// Overwrite `count` entries of `xs` starting at `start` with `value`.
fn fill(xs: &mut Vec<u32>, start: usize, count: usize, value: u32)
    requires
        start + count <= old(xs)@.len(),
    ensures
        final(xs)@.len() == old(xs)@.len(),
        forall|j: int| 0 <= j < start ==> final(xs)@[j] == old(xs)@[j],
        forall|j: int| start <= j < start + count ==> final(xs)@[j] == value,
        forall|j: int|
            start + count <= j < final(xs)@.len() ==> final(xs)@[j] == old(xs)@[j],
{
    // brings the machine-width bound on the vector length into scope
    let _len = xs.len();
    let end = start + count;
    let mut i = start;
    while i < end
        invariant
            end == start + count,
            start <= i <= start + count,
            start + count <= xs@.len(),
            xs@.len() == old(xs)@.len(),
            forall|j: int| 0 <= j < start ==> xs@[j] == old(xs)@[j],
            forall|j: int| start <= j < i ==> xs@[j] == value,
            forall|j: int| i <= j < xs@.len() ==> xs@[j] == old(xs)@[j],
        decreases start + count - i,
    {
        xs.set(i, value);
        i = i + 1;
    }
}

/// Build the row of heights, or report that no row exists: the desired
/// counts must leave a non-negative number of hidden buildings, and a
/// positive number of hidden buildings needs at least one near-tallest
/// building to hide behind.
pub fn calc(n: usize, a_desired: usize, b_desired: usize, c: usize) -> (r: Option<Vec<u32>>)
    requires
        sizes_fit(n as int, a_desired as int, b_desired as int, c as int),
        c <= a_desired,
        c <= b_desired,
    ensures
        (r is Some) == (a_desired + b_desired <= n + c && !(a_desired == c && b_desired == c
            && n + c > a_desired + b_desired)),
        r matches Some(xs) ==> xs@.len() == n && forall|i: int|
            0 <= i < n ==> xs@[i] == calc_val(
                n as int,
                a_desired as int,
                b_desired as int,
                c as int,
                i,
            ),
{
    let h = match hidden(n, a_desired, b_desired, c) {
        None => {
            return None;
        },
        Some(h) => h,
    };
    let a_add = a_desired - c;
    let b_add = b_desired - c;
    proof {
        assert(a_desired <= n);
        assert(b_desired <= n);
        assert(a_add + h + c + b_add == n);
    }
    let bookends = a_add + b_add;
    if bookends == 0 && h > 0 {
        return None;
    }
    let mut xs: Vec<u32> = Vec::new();
    while xs.len() < n
        invariant
            xs@.len() <= n,
            forall|j: int| 0 <= j < xs@.len() ==> xs@[j] == 1u32,
        decreases n - xs@.len(),
    {
        xs.push(1);
    }
    // the written segments cover the whole row, so this value is only used
    // when n >= 1
    let near_tallest: u32 = if n == 0 {
        0
    } else {
        (n as u32) - 1
    };
    let hide_on_a = a_add >= b_add;
    if hide_on_a {
        fill(&mut xs, 0, a_add, near_tallest);
        fill(&mut xs, a_add, h, 1);
        fill(&mut xs, a_add + h, c, n as u32);
        fill(&mut xs, a_add + h + c, b_add, near_tallest);
    } else {
        fill(&mut xs, 0, a_add, near_tallest);
        fill(&mut xs, a_add, c, n as u32);
        fill(&mut xs, a_add + c, h, 1);
        fill(&mut xs, a_add + c + h, b_add, near_tallest);
    }
    proof {
        assert forall|i: int|
            0 <= i < n implies xs@[i] == calc_val(
            n as int,
            a_desired as int,
            b_desired as int,
            c as int,
            i,
        ) by {
            if i < a_add + h + c + b_add {
                assert(n >= 1);
            }
        }
    }
    Some(xs)
}

/// Judge an answer to the puzzle: a missing answer is right exactly when the
/// desired counts are impossible, either because they leave a negative
/// number of hidden buildings or because hidden buildings exist with no
/// near-tallest building to hide behind; any produced row is accepted.
pub fn check(n: usize, a_desired: usize, b_desired: usize, c: usize, xs: Option<Vec<u32>>) -> (ok:
    bool)
    requires
        sizes_fit(n as int, a_desired as int, b_desired as int, c as int),
    ensures
        ok == (xs is Some || n + c < a_desired + b_desired || (a_desired == c && b_desired == c
            && n + c > a_desired + b_desired)),
{
    match xs {
        None => {
            let s = (n as i64) - (a_desired as i64) - (b_desired as i64) + (c as i64);
            s < 0 || (a_desired == c && b_desired == c && s > 0)
        },
        Some(_) => true,
    }
}

} // verus!
