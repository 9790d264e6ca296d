use vstd::arithmetic::div_mod::{
    lemma_fundamental_div_mod, lemma_fundamental_div_mod_converse_div,
    lemma_fundamental_div_mod_converse_mod,
};
use vstd::prelude::*;

verus! {

/// An integer 2D grid coordinate.
#[derive(Clone, Copy, Debug, PartialEq, Eq, Structural)]
pub struct Index2 {
    pub x: usize,
    pub y: usize,
}

impl Index2 {
    pub fn new(x: usize, y: usize) -> (r: Index2)
        ensures
            r.x == x,
            r.y == y,
    {
        Index2 { x, y }
    }

    pub fn zeros() -> (r: Index2)
        ensures
            r.x == 0,
            r.y == 0,
    {
        Index2 { x: 0, y: 0 }
    }
}

/// `min <= index < max`, component-wise.
pub open spec fn in_range(min: Index2, max: Index2, index: Index2) -> bool {
    min.x <= index.x < max.x && min.y <= index.y < max.y
}

/// Width of the half-open range `[min, max)` along x.
pub open spec fn range_width(min: Index2, max: Index2) -> int {
    max.x - min.x
}

/// Number of coordinates in the half-open range `[min, max)`.
pub open spec fn range_count(min: Index2, max: Index2) -> int {
    if min.x <= max.x && min.y <= max.y {
        (max.x - min.x) * (max.y - min.y)
    } else {
        0
    }
}

/// The `k`-th coordinate of `[min, max)` in row-major order (x fastest).
pub open spec fn row_major(min: Index2, max: Index2, k: int) -> Index2 {
    let w = range_width(min, max);
    Index2 { x: (min.x + k % w) as usize, y: (min.y + k / w) as usize }
}

/// Position of `index` in the row-major order of a range starting at `min`
/// with rows of width `w`.
pub open spec fn row_major_rank(min: Index2, w: int, index: Index2) -> int {
    (index.y - min.y) * w + (index.x - min.x)
}

/// A coordinate together with the grid dimensions it refers to.
#[derive(Clone, Copy, Debug)]
pub struct GridIndex {
    pub index: Index2,
    pub dim: Index2,
}

impl GridIndex {
    /// Row-major storage offset `x + dim.x * y`.
    pub open spec fn data_offset(self) -> int {
        self.index.x + self.dim.x * self.index.y
    }

    pub fn dim(&self) -> (r: Index2)
        ensures
            r == self.dim,
    {
        self.dim
    }

    pub fn to_data_index(&self) -> (r: usize)
        requires
            self.index.x < self.dim.x,
            self.index.y < self.dim.y,
            self.dim.x * self.dim.y <= usize::MAX,
        ensures
            r == self.data_offset(),
    {
        proof {
            lemma_offset_bounds(self.dim, self.index);
        }
        self.index.x + self.dim.x * self.index.y
    }
}

/// For `index` inside `dim`, the row-major offset lies in `[0, dim.x * dim.y)`.
pub proof fn lemma_offset_bounds(dim: Index2, index: Index2)
    requires
        index.x < dim.x,
        index.y < dim.y,
    ensures
        0 <= index.x + dim.x * index.y < dim.x * dim.y,
{
    assert(dim.x * index.y <= dim.x * (dim.y - 1)) by (nonlinear_arith)
        requires
            index.y < dim.y,
    ;
    assert(dim.x * (dim.y - 1) == dim.x * dim.y - dim.x) by (nonlinear_arith);
    assert(0 <= dim.x * index.y) by (nonlinear_arith);
}


/// The coordinate that follows `index` in row-major order over `[min, max)`.
pub open spec fn advance(min: Index2, max: Index2, index: Index2) -> Index2 {
    if index.x + 1 >= max.x {
        Index2 { x: min.x, y: (index.y + 1) as usize }
    } else {
        Index2 { x: (index.x + 1) as usize, y: index.y }
    }
}

/// Row-major traversal of the half-open coordinate range `[min, max)`.
///
/// Once it has returned `None` it stays exhausted.
pub struct GridIndexIterator {
    pub(crate) curr: GridIndex,
    pub(crate) min: Index2,
    pub(crate) max: Index2,
}

impl GridIndexIterator {
    pub closed spec fn current(&self) -> GridIndex {
        self.curr
    }

    pub closed spec fn min(&self) -> Index2 {
        self.min
    }

    pub closed spec fn max(&self) -> Index2 {
        self.max
    }

    /// The iterator is at the `k`-th coordinate of its range (`k == count` once
    /// all have been handed out).
    pub open spec fn at_step(&self, k: int) -> bool {
        &&& 0 <= k <= range_count(self.min(), self.max())
        &&& (range_count(self.min(), self.max()) == 0 ==> self.current().index == self.min())
        &&& (range_count(self.min(), self.max()) > 0 ==> self.current().index == row_major(
            self.min(),
            self.max(),
            k,
        ))
    }

    /// A fresh traversal of `[min, max)` for a grid of dimensions `dim`.
    pub fn new(min: Index2, max: Index2, dim: Index2) -> (r: GridIndexIterator)
        ensures
            r.min() == min,
            r.max() == max,
            r.current().dim == dim,
            r.at_step(0),
    {
        let r = GridIndexIterator { curr: GridIndex { index: min, dim }, min, max };
        proof {
            if range_count(min, max) > 0 {
                lemma_row_major_facts(min, max, 0);
            }
        }
        r
    }

    /// Hands out the current coordinate and moves to the next one, or returns
    /// `None` when the range is exhausted.
    pub fn next(&mut self) -> (r: Option<GridIndex>)
        ensures
            final(self).min() == old(self).min(),
            final(self).max() == old(self).max(),
            final(self).current().dim == old(self).current().dim,
            in_range(old(self).min(), old(self).max(), old(self).current().index) ==> {
                &&& r == Some(old(self).current())
                &&& final(self).current().index == advance(
                    old(self).min(),
                    old(self).max(),
                    old(self).current().index,
                )
            },
            !in_range(old(self).min(), old(self).max(), old(self).current().index) ==> {
                &&& r.is_none()
                &&& *final(self) == *old(self)
            },
            forall|k: int|
                #[trigger] old(self).at_step(k) ==> {
                    &&& k < range_count(old(self).min(), old(self).max()) ==> {
                        &&& r.is_some()
                        &&& r.unwrap().index == row_major(old(self).min(), old(self).max(), k)
                        &&& final(self).at_step(k + 1)
                    }
                    &&& k == range_count(old(self).min(), old(self).max()) ==> {
                        &&& r.is_none()
                        &&& final(self).at_step(k)
                    }
                },
    {
        proof {
            assert forall|k: int| #[trigger] self.at_step(k) && range_count(self.min, self.max)
                > 0 implies (k < range_count(self.min, self.max) <==> in_range(
                self.min,
                self.max,
                self.curr.index,
            )) && (k < range_count(self.min, self.max) ==> advance(
                self.min,
                self.max,
                self.curr.index,
            ) == row_major(self.min, self.max, k + 1)) by {
                lemma_row_major_facts(self.min, self.max, k);
            }
            if range_count(self.min, self.max) == 0 && in_range(
                self.min,
                self.max,
                self.curr.index,
            ) {
                let (w, h) = ((self.max.x - self.min.x) as int, (self.max.y - self.min.y) as int);
                assert(w * h > 0) by (nonlinear_arith)
                    requires
                        w > 0,
                        h > 0,
                ;
            }
        }
        let curr = self.curr;
        if !(self.min.x <= curr.index.x && curr.index.x < self.max.x && self.min.y <= curr.index.y
            && curr.index.y < self.max.y) {
            return None;
        }
        self.curr.index.x = curr.index.x + 1;
        if self.curr.index.x >= self.max.x {
            self.curr.index.y = curr.index.y + 1;
            self.curr.index.x = self.min.x;
        }
        Some(curr)
    }

    /// Drains the iterator from the start of its range into a vector.
    pub fn into_vec(self) -> (r: Vec<GridIndex>)
        requires
            self.at_step(0),
        ensures
            r@.len() == range_count(self.min(), self.max()),
            forall|k: int|
                0 <= k < r@.len() ==> #[trigger] r@[k].index == row_major(
                    self.min(),
                    self.max(),
                    k,
                ) && r@[k].dim == self.current().dim,
    {
        let ghost min = self.min;
        let ghost max = self.max;
        let ghost dim = self.curr.dim;
        let mut it = self;
        let mut out: Vec<GridIndex> = Vec::new();
        loop
            invariant
                it.min == min,
                it.max == max,
                it.curr.dim == dim,
                it.at_step(out@.len() as int),
                forall|k: int|
                    0 <= k < out@.len() ==> (#[trigger] out@[k]).index == row_major(min, max, k)
                        && out@[k].dim == dim,
            ensures
                out@.len() == range_count(min, max),
                forall|k: int|
                    0 <= k < out@.len() ==> (#[trigger] out@[k]).index == row_major(min, max, k)
                        && out@[k].dim == dim,
            decreases range_count(min, max) - out@.len(),
        {
            let ghost k = out@.len() as int;
            proof {
                if range_count(min, max) > 0 {
                    lemma_row_major_facts(min, max, k);
                } else {
                    if min.x < max.x && min.y < max.y {
                        assert((max.x - min.x) * (max.y - min.y) > 0) by (nonlinear_arith)
                            requires
                                min.x < max.x,
                                min.y < max.y,
                        ;
                    }
                }
            }
            match it.next() {
                Some(g) => {
                    out.push(g);
                    proof {
                        lemma_row_major_facts(min, max, k + 1);
                    }
                },
                None => {
                    break ;
                },
            }
        }
        out
    }
}

/// Facts on the `k`-th row-major coordinate of a non-empty range: it lies in
/// the range exactly while `k < count`, its rank is `k`, and the next one
/// is reached by `advance`.
pub proof fn lemma_row_major_facts(min: Index2, max: Index2, k: int)
    requires
        range_count(min, max) > 0,
        0 <= k <= range_count(min, max),
    ensures
        min.x < max.x,
        min.y < max.y,
        k < range_count(min, max) ==> in_range(min, max, row_major(min, max, k)),
        k < range_count(min, max) ==> advance(min, max, row_major(min, max, k)) == row_major(
            min,
            max,
            k + 1,
        ),
        k == range_count(min, max) ==> row_major(min, max, k) == (Index2 { x: min.x, y: max.y }),
        k < range_count(min, max) ==> row_major_rank(
            min,
            range_width(min, max),
            row_major(min, max, k),
        ) == k,
{
    let w = range_width(min, max);
    let h = max.y - min.y;
    let n = range_count(min, max);
    if !(min.x < max.x) {
        assert(w * h <= 0) by (nonlinear_arith)
            requires
                w <= 0,
                h >= 0,
        ;
    }
    if !(min.y < max.y) {
        assert(w * h <= 0) by (nonlinear_arith)
            requires
                w >= 0,
                h <= 0,
        ;
    }
    assert(n == w * h);
    lemma_fundamental_div_mod(k, w);
    let q = k / w;
    let r = k % w;
    assert(k == w * q + r);
    assert(0 <= r < w);
    assert(q >= 0) by (nonlinear_arith)
        requires
            k == w * q + r,
            0 <= r < w,
            k >= 0,
    ;
    if k < n {
        assert(q < h) by (nonlinear_arith)
            requires
                k == w * q + r,
                0 <= r,
                k < w * h,
                w > 0,
        ;
        assert(row_major_rank(min, w, row_major(min, max, k)) == q * w + r) by (nonlinear_arith)
            requires
                row_major(min, max, k).y == min.y + q,
                row_major(min, max, k).x == min.x + r,
        ;
        assert(q * w == w * q) by (nonlinear_arith);
        if r + 1 < w {
            assert(k + 1 == q * w + (r + 1)) by (nonlinear_arith)
                requires
                    k == w * q + r,
            ;
            lemma_fundamental_div_mod_converse_div(k + 1, w, q, r + 1);
            lemma_fundamental_div_mod_converse_mod(k + 1, w, q, r + 1);
        } else {
            assert(k + 1 == (q + 1) * w + 0) by (nonlinear_arith)
                requires
                    k == w * q + r,
                    r + 1 == w,
            ;
            lemma_fundamental_div_mod_converse_div(k + 1, w, q + 1, 0);
            lemma_fundamental_div_mod_converse_mod(k + 1, w, q + 1, 0);
        }
    } else {
        assert(k == h * w + 0) by (nonlinear_arith)
            requires
                k == n,
                n == w * h,
        ;
        lemma_fundamental_div_mod_converse_div(k, w, h, 0);
        lemma_fundamental_div_mod_converse_mod(k, w, h, 0);
    }
}

} // verus!
