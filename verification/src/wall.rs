//! The wall-stability puzzle.
//!
//! A wall is a grid of byte-labelled polyomino cells, one row per line, the
//! first row on top. A polyomino is supported when every cell of it sits on
//! a cell of the same polyomino or of one already placed. Placing supported
//! polyominos one at a time until none is left yields a build order; if the
//! wall deadlocks first, no order exists.

use vstd::prelude::*;

verus! {

/// Number of `true` entries of `s`.
pub open spec fn count_true(s: Seq<bool>) -> nat
    decreases s.len(),
{
    if s.len() == 0 {
        0
    } else {
        count_true(s.drop_last()) + if s.last() {
            1nat
        } else {
            0nat
        }
    }
}

/// Clearing a set marker strictly lowers the count of set markers.
proof fn lemma_count_true_clear(s: Seq<bool>, i: int)
    requires
        0 <= i < s.len(),
        s[i],
    ensures
        count_true(s.update(i, false)) < count_true(s),
    decreases s.len(),
{
    let su = s.update(i, false);
    if i == s.len() - 1 {
        assert(su.drop_last() =~= s.drop_last());
    } else {
        assert(su.drop_last() =~= s.drop_last().update(i, false));
        lemma_count_true_clear(s.drop_last(), i);
    }
}

/// Polyomino `p` is supported at row `r`: every cell of `p` there rests on
/// a cell of `p` itself or of an already placed polyomino.
pub open spec fn supported_at_row(data: Seq<Vec<u8>>, placed: Seq<bool>, p: u8, r: int) -> bool {
    forall|c: int|
        0 <= c < data[r]@.len() ==> ((#[trigger] data[r]@[c]) == p ==> data[r + 1]@[c] == p
            || placed[data[r + 1]@[c] as int])
}

/// Polyomino `p` is supported throughout the wall.
pub open spec fn supported(data: Seq<Vec<u8>>, placed: Seq<bool>, p: u8) -> bool {
    forall|r: int| 0 <= r < data.len() - 1 ==> #[trigger] supported_at_row(data, placed, p, r)
}

/// The placement markers after the first `idx` entries of `order` have been
/// placed.
pub open spec fn placed_prefix(order: Seq<u8>, idx: int) -> Seq<bool> {
    Seq::new(256, |x: int| exists|j: int| 0 <= j < idx && (#[trigger] order[j]) as int == x)
}

/// Support survives placing more polyominos: growing the placed set never
/// takes support away.
proof fn lemma_supported_monotone(data: Seq<Vec<u8>>, placed1: Seq<bool>, placed2: Seq<bool>, p: u8)
    requires
        placed1.len() == 256,
        placed2.len() == 256,
        forall|x: int| 0 <= x < 256 && placed1[x] ==> placed2[x],
        supported(data, placed1, p),
    ensures
        supported(data, placed2, p),
{
    assert forall|r: int|
        0 <= r < data.len() - 1 implies #[trigger] supported_at_row(data, placed2, p, r) by {
        assert(supported_at_row(data, placed1, p, r));
        assert forall|c: int|
            0 <= c < data[r]@.len() && (#[trigger] data[r]@[c]) == p implies data[r + 1]@[c]
            == p || placed2[data[r + 1]@[c] as int] by {
            assert(data[r]@[c] == p ==> data[r + 1]@[c] == p || placed1[data[r + 1]@[c] as int]);
        }
    }
}

/// Walking a valid order from the front: every polyomino it places is
/// already marked placed in a deadlocked state, because the state's placed
/// set dominates each placement prefix and deadlock rules out placing
/// anything still unplaced.
proof fn lemma_order_is_placed(
    data: Seq<Vec<u8>>,
    placed: Seq<bool>,
    unplaced: Seq<bool>,
    order: Seq<u8>,
    idx: int,
)
    requires
        placed.len() == 256,
        unplaced.len() == 256,
        forall|j: int| 0 <= j < idx ==> placed[(#[trigger] order[j]) as int],
        forall|i: int|
            0 <= i < order.len() ==> #[trigger] supported(data, placed_prefix(order, i), order[i]),
        forall|p: u8| unplaced[p as int] ==> !#[trigger] supported(data, placed, p),
        forall|j: int|
            0 <= j < order.len() ==> (unplaced[(#[trigger] order[j]) as int]
                || placed[order[j] as int]),
        0 <= idx <= order.len(),
    ensures
        forall|j: int| 0 <= j < order.len() ==> placed[(#[trigger] order[j]) as int],
    decreases order.len() - idx,
{
    if idx < order.len() {
        let p = order[idx];
        assert(supported(data, placed_prefix(order, idx), p));
        assert forall|x: int|
            0 <= x < 256 && placed_prefix(order, idx)[x] implies placed[x] by {
            let j = choose|j: int| 0 <= j < idx && ((#[trigger] order[j]) as int) == x;
            assert(placed[order[j] as int]);
        }
        lemma_supported_monotone(data, placed_prefix(order, idx), placed, p);
        assert(!unplaced[p as int]);
        assert(placed[p as int]);
        lemma_order_is_placed(data, placed, unplaced, order, idx + 1);
    }
}

/// Law: a deadlocked wall admits no placement order at all. If a state
/// partitions the wall's polyominos into placed and unplaced ones such that
/// no unplaced polyomino is supported, then any order that lists every
/// polyomino of the wall and supports each entry on the ones before it
/// forces the unplaced set to be empty.
pub proof fn lemma_deadlocked_wall_has_no_order(
    data: Seq<Vec<u8>>,
    polyominos: Seq<bool>,
    placed: Seq<bool>,
    unplaced: Seq<bool>,
    order: Seq<u8>,
)
    requires
        polyominos.len() == 256,
        placed.len() == 256,
        unplaced.len() == 256,
        forall|x: int| 0 <= x < 256 ==> (unplaced[x] || placed[x]) == polyominos[x],
        forall|x: int| 0 <= x < 256 ==> !(unplaced[x] && placed[x]),
        forall|p: u8| unplaced[p as int] ==> !#[trigger] supported(data, placed, p),
        forall|x: int| 0 <= x < 256 ==> polyominos[x] == order.contains(x as u8),
        forall|i: int|
            0 <= i < order.len() ==> #[trigger] supported(data, placed_prefix(order, i), order[i]),
    ensures
        !(exists|x: int| 0 <= x < 256 && unplaced[x]),
{
    if exists|x: int| 0 <= x < 256 && unplaced[x] {
        let x = choose|x: int| 0 <= x < 256 && unplaced[x];
        assert(polyominos[x]);
        assert(order.contains(x as u8));
        let j = choose|j: int| 0 <= j < order.len() && order[j] == x as u8;
        assert forall|i: int|
            0 <= i < order.len() implies (unplaced[(#[trigger] order[i]) as int]
            || placed[order[i] as int]) by {
            assert(order.contains(order[i]));
            assert(polyominos[order[i] as int]);
        }
        lemma_order_is_placed(data, placed, unplaced, order, 0);
        assert(placed[order[j] as int]);
        assert(placed[x] && unplaced[x]);
    }
}

/// A marker vector spanning all byte values, all clear.
fn false_markers() -> (v: Vec<bool>)
    ensures
        v@.len() == 256,
        forall|x: int| 0 <= x < 256 ==> !v@[x],
{
    let mut v: Vec<bool> = Vec::new();
    while v.len() < 256
        invariant
            v@.len() <= 256,
            forall|x: int| 0 <= x < v@.len() ==> !v@[x],
        decreases 256 - v@.len(),
    {
        v.push(false);
    }
    v
}

/// An exact copy of a marker vector.
fn copy_markers(src: &Vec<bool>) -> (v: Vec<bool>)
    ensures
        v@ =~= src@,
{
    let mut v: Vec<bool> = Vec::new();
    let n = src.len();
    let mut i: usize = 0;
    while i < n
        invariant
            n == src@.len(),
            0 <= i <= n,
            v@ =~= src@.subrange(0, i as int),
        decreases n - i,
    {
        v.push(src[i]);
        i = i + 1;
    }
    v
}

/// Is any marker set?
fn any_marker(v: &Vec<bool>) -> (r: bool)
    ensures
        r == exists|x: int| 0 <= x < v@.len() && v@[x],
{
    let n = v.len();
    let mut i: usize = 0;
    while i < n
        invariant
            n == v@.len(),
            0 <= i <= n,
            forall|x: int| 0 <= x < i ==> !v@[x],
        decreases n - i,
    {
        if v[i] {
            return true;
        }
        i = i + 1;
    }
    false
}

/// A wall under construction: its rows, the polyominos occurring in them,
/// and the placed / still unplaced markers of the current build attempt.
pub struct Wall {
    /// The rows of the wall, top first, all of one width.
    pub data: Vec<Vec<u8>>,
    /// Which byte values label some cell of the wall.
    pub polyominos: Vec<bool>,
    /// Which polyominos the current build attempt has placed.
    pub placed: Vec<bool>,
    /// Which polyominos the current build attempt has not placed yet.
    pub unplaced: Vec<bool>,
}

impl Wall {
    /// The marker vectors span all byte values and the rows have one width.
    pub open spec fn wf(self) -> bool {
        &&& self.polyominos@.len() == 256
        &&& self.placed@.len() == 256
        &&& self.unplaced@.len() == 256
        &&& forall|r: int|
            0 <= r < self.data@.len() ==> (#[trigger] self.data@[r])@.len()
                == self.data@[0]@.len()
    }

    /// An empty wall with capacity for the given number of rows.
    pub fn new(rows: usize) -> (w: Self)
        ensures
            w.wf(),
            w.data@.len() == 0,
            forall|x: int| 0 <= x < 256 ==> !w.polyominos@[x],
            forall|x: int| 0 <= x < 256 ==> !w.placed@[x],
            forall|x: int| 0 <= x < 256 ==> !w.unplaced@[x],
    {
        Wall {
            data: Vec::with_capacity(rows),
            polyominos: false_markers(),
            placed: false_markers(),
            unplaced: false_markers(),
        }
    }

    /// Append a row to the bottom of the wall, recording the polyominos
    /// occurring in it.
    pub fn add_row(&mut self, row: Vec<u8>)
        requires
            old(self).wf(),
            old(self).data@.len() > 0 ==> row@.len() == old(self).data@[0]@.len(),
        ensures
            final(self).wf(),
            final(self).data@ == old(self).data@.push(row),
            forall|x: int|
                0 <= x < 256 ==> final(self).polyominos@[x] == (old(self).polyominos@[x]
                    || row@.contains(x as u8)),
            final(self).placed@ == old(self).placed@,
            final(self).unplaced@ == old(self).unplaced@,
    {
        let n = row.len();
        let mut c: usize = 0;
        while c < n
            invariant
                n == row@.len(),
                0 <= c <= n,
                self.data == old(self).data,
                self.placed == old(self).placed,
                self.unplaced == old(self).unplaced,
                self.polyominos@.len() == 256,
                forall|x: int|
                    0 <= x < 256 ==> self.polyominos@[x] == (old(self).polyominos@[x]
                        || exists|j: int| 0 <= j < c && (#[trigger] row@[j]) as int == x),
            decreases n - c,
        {
            let b = row[c];
            self.polyominos.set(b as usize, true);
            c = c + 1;
        }
        proof {
            assert forall|x: int|
                0 <= x < 256 implies self.polyominos@[x] == (old(self).polyominos@[x]
                || row@.contains(x as u8)) by {
                if row@.contains(x as u8) {
                    let j = choose|j: int| 0 <= j < row@.len() && row@[j] == x as u8;
                    assert(row@[j] as int == x);
                }
            }
        }
        self.data.push(row);
    }

    /// Whether `polyomino` is supported at `row_index`, every cell of it
    /// there resting on itself or on a placed polyomino.
    pub fn is_polyomino_supported_at_row(&self, polyomino: u8, row_index: usize) -> (r: bool)
        requires
            self.wf(),
            row_index + 1 < self.data@.len(),
        ensures
            r == supported_at_row(self.data@, self.placed@, polyomino, row_index as int),
    {
        // brings the machine-width bound on the row count into scope
        let _nrows = self.data.len();
        let below_index = row_index + 1;
        let width = self.data[row_index].len();
        let mut c: usize = 0;
        while c < width
            invariant
                self.wf(),
                below_index == row_index + 1,
                row_index + 1 < self.data@.len(),
                width == self.data@[row_index as int]@.len(),
                0 <= c <= width,
                forall|j: int|
                    0 <= j < c ==> ((#[trigger] self.data@[row_index as int]@[j]) == polyomino
                        ==> self.data@[row_index as int + 1]@[j] == polyomino
                        || self.placed@[self.data@[row_index as int + 1]@[j] as int]),
            decreases width - c,
        {
            let x = self.data[row_index][c];
            if x == polyomino {
                let below = self.data[below_index][c];
                if below != polyomino {
                    if !self.placed[below as usize] {
                        return false;
                    }
                }
            }
            c = c + 1;
        }
        true
    }

    /// Whether `polyomino` is supported at every row of the wall.
    pub fn is_polyomino_supported(&self, polyomino: u8) -> (r: bool)
        requires
            self.wf(),
            self.data@.len() >= 1,
        ensures
            r == supported(self.data@, self.placed@, polyomino),
    {
        let rows = self.data.len();
        let mut r: usize = 0;
        while r < rows - 1
            invariant
                self.wf(),
                rows == self.data@.len(),
                1 <= rows,
                0 <= r <= rows - 1,
                forall|j: int|
                    0 <= j < r ==> #[trigger] supported_at_row(
                        self.data@,
                        self.placed@,
                        polyomino,
                        j,
                    ),
            decreases rows - 1 - r,
        {
            if !self.is_polyomino_supported_at_row(polyomino, r) {
                return false;
            }
            r = r + 1;
        }
        true
    }

    /// Some still unplaced polyomino that is supported, if one exists.
    pub fn find_supported_polyomino_to_place(&self) -> (r: Option<u8>)
        requires
            self.wf(),
            self.data@.len() >= 1,
        ensures
            r matches Some(p) ==> self.unplaced@[p as int] && supported(
                self.data@,
                self.placed@,
                p,
            ),
            r is None ==> forall|p: u8|
                self.unplaced@[p as int] ==> !#[trigger] supported(
                    self.data@,
                    self.placed@,
                    p,
                ),
    {
        let mut b: usize = 0;
        while b < 256
            invariant
                self.wf(),
                self.data@.len() >= 1,
                0 <= b <= 256,
                forall|p: u8|
                    (p as int) < b ==> (self.unplaced@[p as int] ==> !#[trigger] supported(
                        self.data@,
                        self.placed@,
                        p,
                    )),
            decreases 256 - b,
        {
            if self.unplaced[b] {
                if self.is_polyomino_supported(b as u8) {
                    return Some(b as u8);
                }
            }
            b = b + 1;
        }
        None
    }

    /// Place supported polyominos one after another until the wall is
    /// complete or deadlocked. A returned order lists every polyomino of
    /// the wall exactly once, each supported given those placed before it;
    /// nothing is returned exactly when some non-empty set of polyominos
    /// remains in which none is supported given all the others placed.
    pub fn polyomino_placement_order(&mut self) -> (r: Option<Vec<u8>>)
        requires
            old(self).wf(),
            old(self).data@.len() >= 1,
        ensures
            final(self).wf(),
            final(self).data@ == old(self).data@,
            final(self).polyominos@ == old(self).polyominos@,
            r matches Some(order) ==> {
                &&& forall|x: int|
                    0 <= x < 256 ==> old(self).polyominos@[x] == order@.contains(x as u8)
                &&& forall|a: int, b: int| 0 <= a < b < order@.len() ==> order@[a] != order@[b]
                &&& forall|idx: int|
                    0 <= idx < order@.len() ==> supported(
                        old(self).data@,
                        placed_prefix(order@, idx),
                        order@[idx],
                    )
            },
            r is None ==> {
                &&& exists|x: int| 0 <= x < 256 && final(self).unplaced@[x]
                &&& forall|p: u8|
                    final(self).unplaced@[p as int] ==> !#[trigger] supported(
                        old(self).data@,
                        final(self).placed@,
                        p,
                    )
                &&& forall|x: int|
                    0 <= x < 256 ==> (final(self).unplaced@[x] || final(self).placed@[x])
                        == old(self).polyominos@[x]
                &&& forall|x: int|
                    0 <= x < 256 ==> !(final(self).unplaced@[x] && final(self).placed@[x])
            },
    {
        self.unplaced = copy_markers(&self.polyominos);
        self.placed = false_markers();
        let mut result: Vec<u8> = Vec::new();
        loop
            invariant
                self.wf(),
                self.data@ == old(self).data@,
                self.data@.len() >= 1,
                self.polyominos@ == old(self).polyominos@,
                forall|x: int|
                    0 <= x < 256 ==> (self.unplaced@[x] || self.placed@[x]) == self.polyominos@[x],
                forall|x: int| 0 <= x < 256 ==> !(self.unplaced@[x] && self.placed@[x]),
                forall|x: int| 0 <= x < 256 ==> self.placed@[x] == result@.contains(x as u8),
                forall|a: int, b: int| 0 <= a < b < result@.len() ==> result@[a] != result@[b],
                forall|idx: int|
                    0 <= idx < result@.len() ==> #[trigger] supported(
                        old(self).data@,
                        placed_prefix(result@, idx),
                        result@[idx],
                    ),
            decreases count_true(self.unplaced@),
        {
            let p = self.find_supported_polyomino_to_place();
            match p {
                None => {
                    if !any_marker(&self.unplaced) {
                        return Some(result);
                    } else {
                        return None;
                    }
                },
                Some(p) => {
                    let ghost prev_result = result@;
                    let ghost prev_placed = self.placed@;
                    proof {
                        assert(!prev_placed[p as int]);
                        if prev_result.contains(p) {
                            assert(prev_placed[p as int]);
                        }
                        lemma_count_true_clear(self.unplaced@, p as int);
                    }
                    self.placed.set(p as usize, true);
                    self.unplaced.set(p as usize, false);
                    result.push(p);
                    proof {
                        let newr = result@;
                        let plen = prev_result.len() as int;
                        assert(newr == prev_result.push(p));
                        assert(forall|j: int|
                            0 <= j < plen ==> (#[trigger] newr[j]) == prev_result[j]);
                        assert forall|x: int|
                            0 <= x < 256 implies self.placed@[x] == newr.contains(
                            x as u8,
                        ) by {
                            if x == p as int {
                                assert(newr[plen] == p);
                                assert(newr.contains(x as u8));
                            } else {
                                if newr.contains(x as u8) {
                                    let j = choose|j: int|
                                        0 <= j < newr.len() && newr[j] == x as u8;
                                    assert(j < plen);
                                    assert(prev_result[j] == x as u8);
                                    assert(prev_result.contains(x as u8));
                                }
                                if prev_placed[x] {
                                    assert(prev_result.contains(x as u8));
                                    let j = choose|j: int|
                                        0 <= j < plen && prev_result[j] == x as u8;
                                    assert(newr[j] == x as u8);
                                    assert(newr.contains(x as u8));
                                }
                            }
                        }
                        assert forall|a: int, b: int|
                            0 <= a < b < newr.len() implies newr[a] != newr[b] by {
                            if b == plen && newr[a] == p {
                                assert(prev_result[a] == p);
                                assert(prev_result.contains(p));
                            }
                        }
                        assert forall|x: int|
                            0 <= x < 256 implies placed_prefix(newr, plen)[x]
                            == prev_placed[x] by {
                            if placed_prefix(newr, plen)[x] {
                                let j = choose|j: int|
                                    0 <= j < plen && ((#[trigger] newr[j]) as int) == x;
                                assert(prev_result[j] as int == x);
                                assert(prev_result[j] == x as u8);
                                assert(prev_result.contains(x as u8));
                            }
                            if prev_placed[x] {
                                assert(prev_result.contains(x as u8));
                                let j = choose|j: int|
                                    0 <= j < plen && prev_result[j] == x as u8;
                                assert((newr[j] as int) == x);
                            }
                        }
                        assert(placed_prefix(newr, plen) =~= prev_placed);
                        assert(supported(old(self).data@, placed_prefix(newr, plen), p));
                        assert forall|idx: int|
                            0 <= idx < plen implies #[trigger] supported(
                            old(self).data@,
                            placed_prefix(newr, idx),
                            newr[idx],
                        ) by {
                            assert forall|x: int|
                                0 <= x < 256 implies placed_prefix(newr, idx)[x]
                                == placed_prefix(prev_result, idx)[x] by {
                                if placed_prefix(newr, idx)[x] {
                                    let j = choose|j: int|
                                        0 <= j < idx && ((#[trigger] newr[j]) as int) == x;
                                    assert((prev_result[j] as int) == x);
                                }
                                if placed_prefix(prev_result, idx)[x] {
                                    let j = choose|j: int|
                                        0 <= j < idx && ((#[trigger] prev_result[j]) as int)
                                            == x;
                                    assert((newr[j] as int) == x);
                                }
                            }
                            assert(placed_prefix(newr, idx) =~= placed_prefix(
                                prev_result,
                                idx,
                            ));
                            assert(supported(
                                old(self).data@,
                                placed_prefix(prev_result, idx),
                                prev_result[idx],
                            ));
                        }
                    }
                },
            }
        }
    }
}

} // verus!
