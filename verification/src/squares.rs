//! The square table: the ascending list of perfect squares up to a bound.

use vstd::prelude::*;

verus! {

/// Build the ascending table of perfect squares `0, 1, 4, 9, ...` containing
/// exactly the squares that do not exceed `max_square`.
///
/// The table is immutable once built and is shared, read only, by every
/// invocation of the subarray square counter.
pub fn generate_squares(max_square: i32) -> (squares: Vec<i32>)
    requires
        max_square >= 0,
    ensures
        squares@.len() >= 1,
        forall|k: int| 0 <= k < squares@.len() ==> squares@[k] == k * k,
        (squares@.len() - 1) * (squares@.len() - 1) <= max_square,
        squares@.len() * squares@.len() > max_square,
{
    let bound = max_square as i64;
    let mut result: Vec<i32> = Vec::new();
    let mut k: i64 = 0;
    while k * k <= bound
        invariant
            0 <= k <= bound + 1,
            k * k <= 0x4000_0000_0000_0000,
            bound == max_square,
            max_square >= 0,
            result@.len() == k,
            forall|j: int| 0 <= j < result@.len() ==> result@[j] == j * j,
            k >= 1 ==> (k - 1) * (k - 1) <= max_square,
        decreases bound + 1 - k,
    {
        let sq = k * k;
        result.push(sq as i32);
        proof {
            assert(k <= bound) by (nonlinear_arith)
                requires
                    0 <= k,
                    k * k <= bound,
                    bound >= 0;
        }
        k = k + 1;
        proof {
            assert(k * k <= 0x4000_0000_0000_0000) by (nonlinear_arith)
                requires
                    0 <= k <= 0x8000_0000;
        }
    }
    result
}

} // verus!
