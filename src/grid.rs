use crate::cell::{Cell, CellTypes, FrontBackBuffer};
use crate::index::{
    in_range, lemma_offset_bounds, lemma_row_major_facts, range_count, row_major, GridIndex,
    GridIndexIterator, Index2,
};
use vstd::arithmetic::div_mod::{
    lemma_fundamental_div_mod_converse_div, lemma_fundamental_div_mod_converse_mod,
};
use vstd::prelude::*;

verus! {

/// `index` lies strictly inside the one-cell border of a grid of size `dim`.
pub open spec fn is_interior(dim: Index2, index: Index2) -> bool {
    0 < index.x && index.x + 1 < dim.x && 0 < index.y && index.y + 1 < dim.y
}

/// The mode a cell at `index` gets when a grid of size `dim` is built.
pub open spec fn initial_mode(dim: Index2, index: Index2) -> CellTypes {
    if is_interior(dim, index) {
        CellTypes::Fluid
    } else {
        CellTypes::Solid
    }
}

/// Row-major storage offset of `index` in a grid of size `dim`.
pub open spec fn offset_of(dim: Index2, index: Index2) -> int {
    index.x + dim.x * index.y
}

/// The whole grid range `[(0, 0), dim)`.
pub open spec fn in_grid(dim: Index2, index: Index2) -> bool {
    in_range(Index2 { x: 0, y: 0 }, dim, index)
}

/// A 2D staggered grid of cells in row-major storage.
///
/// The stored dimensions include a one-cell border on every side.
pub struct Grid<S> {
    pub cell_width: S,
    pub dim: Index2,
    cells: Vec<Cell<S>>,
}

impl<S> View for Grid<S> {
    type V = Seq<Cell<S>>;

    /// The cells in row-major order.
    closed spec fn view(&self) -> Seq<Cell<S>> {
        self.cells@
    }
}

impl<S: Copy + Default> Grid<S> {
    /// Stored dimensions, border included.
    pub closed spec fn size(&self) -> Index2 {
        self.dim
    }

    /// Physical spacing between nodes.
    pub closed spec fn spacing(&self) -> S {
        self.cell_width
    }

    /// The stored dimensions, as a value.
    pub fn dim(&self) -> (r: Index2)
        ensures
            r == self.size(),
    {
        self.dim
    }

    /// The spacing between nodes, as a value.
    pub fn cell_width(&self) -> (r: S)
        ensures
            r == self.spacing(),
    {
        self.cell_width
    }

    /// Storage holds exactly one cell per coordinate of a grid that has room
    /// for a border.
    pub open spec fn wf(&self) -> bool {
        &&& self.size().x >= 2
        &&& self.size().y >= 2
        &&& self.size().x * self.size().y <= usize::MAX
        &&& self@.len() == self.size().x * self.size().y
    }

    /// The cell stored for coordinate `index`.
    pub open spec fn at(&self, index: Index2) -> Cell<S> {
        self@[offset_of(self.size(), index)]
    }

    /// Builds a grid for a requested interior of `dim_x` by `dim_y` cells:
    /// the stored size is one cell larger on every side, the border ring is
    /// solid, the interior fluid, and every value holds `S::default()`.
    pub fn new(dim_x: usize, dim_y: usize, cell_width: S) -> (r: Grid<S>)
        requires
            (dim_x + 2) * (dim_y + 2) <= usize::MAX,
        ensures
            r.wf(),
            r.size() == (Index2 { x: (dim_x + 2) as usize, y: (dim_y + 2) as usize }),
            r.spacing() == cell_width,
            forall|i: Index2|
                in_grid(r.size(), i) ==> {
                    &&& (#[trigger] r.at(i)).mode == initial_mode(r.size(), i)
                    &&& r.at(i).coord() == i
                    &&& r.at(i).is_at_rest()
                },
    {
        assert(dim_x + 2 <= (dim_x + 2) * (dim_y + 2)) by (nonlinear_arith);
        assert(dim_y + 2 <= (dim_x + 2) * (dim_y + 2)) by (nonlinear_arith);
        let dim = Index2::new(dim_x + 2, dim_y + 2);
        let mut grid = Grid { cell_width, dim, cells: Vec::new() };
        let order = grid.to_index_iter().into_vec();
        let ghost zero = Index2 { x: 0, y: 0 };
        proof {
            lemma_range_count_full(dim);
        }
        let mut k: usize = 0;
        while k < order.len()
            invariant
                grid.dim == dim,
                grid.cell_width == cell_width,
                dim.x >= 2 && dim.y >= 2,
                order@.len() == dim.x * dim.y,
                forall|j: int|
                    0 <= j < order@.len() ==> #[trigger] order@[j].index == row_major(zero, dim, j),
                0 <= k <= order@.len(),
                grid.cells@.len() == k,
                forall|j: int|
                    0 <= j < k ==> {
                        &&& (#[trigger] grid.cells@[j]).coord() == row_major(zero, dim, j)
                        &&& grid.cells@[j].mode == initial_mode(dim, row_major(zero, dim, j))
                        &&& grid.cells@[j].is_at_rest()
                    },
            decreases order@.len() - k,
        {
            let it = order[k];
            let mode = if Grid::<S>::is_inside_border(dim, it.index) {
                CellTypes::Fluid
            } else {
                CellTypes::Solid
            };
            let mut cell = Cell::new(it.index);
            cell.mode = mode;
            grid.cells.push(cell);
            k = k + 1;
        }
        assert forall|i: Index2| in_grid(grid.dim, i) implies {
            &&& (#[trigger] grid.at(i)).mode == initial_mode(grid.dim, i)
            &&& grid.at(i).coord() == i
            &&& grid.at(i).is_at_rest()
        } by {
            lemma_offset_bounds(dim, i);
            lemma_row_major_of_offset(dim, i);
        }
        grid
    }

    /// Row-major traversal of the whole grid.
    pub fn to_index_iter(&self) -> (r: GridIndexIterator)
        ensures
            r.min() == (Index2 { x: 0, y: 0 }),
            r.max() == self.size(),
            r.current().dim == self.size(),
            r.at_step(0),
    {
        GridIndexIterator::new(Index2::zeros(), self.dim, self.dim)
    }

    /// Row-major traversal of the cells inside the border.
    pub fn to_inside_index_iter(&self) -> (r: GridIndexIterator)
        requires
            self.wf(),
        ensures
            r.min() == (Index2 { x: 1, y: 1 }),
            r.max() == (Index2 { x: (self.size().x - 1) as usize, y: (self.size().y - 1) as usize }),
            r.current().dim == self.size(),
            r.at_step(0),
    {
        GridIndexIterator::new(
            Index2::new(1, 1),
            Index2::new(self.dim.x - 1, self.dim.y - 1),
            self.dim,
        )
    }

    /// Sets the front velocity back to the committed one wherever it sits on
    /// a face of a solid cell: both components of a solid cell, the x-component
    /// of the cell right of a solid cell and the y-component of the cell above
    /// one. Nothing else changes.
    pub fn enforce_solid_constraints(&mut self)
        requires
            old(self).wf(),
        ensures
            final(self).size() == old(self).size(),
            final(self).spacing() == old(self).spacing(),
            final(self)@.len() == old(self)@.len(),
            forall|k: int|
                0 <= k < old(self)@.len() ==> {
                    let c = old(self)@[k];
                    let n = #[trigger] final(self)@[k];
                    let w = old(self).size().x as int;
                    &&& n.mode == c.mode
                    &&& n.index == c.index
                    &&& n.pressure == c.pressure
                    &&& n.smoke == c.smoke
                    &&& n.velocity.back == c.velocity.back
                    &&& n.velocity.front[0] == if on_solid_face(old(self)@, w, k, 0) {
                        c.velocity.back[0]
                    } else {
                        c.velocity.front[0]
                    }
                    &&& n.velocity.front[1] == if on_solid_face(old(self)@, w, k, 1) {
                        c.velocity.back[1]
                    } else {
                        c.velocity.front[1]
                    }
                },
            forall|k: int|
                0 <= k < final(self)@.len() && (#[trigger] final(self)@[k]).mode
                    == CellTypes::Solid ==> final(self)@[k].velocity.front[0]
                    == final(self)@[k].velocity.back[0] && final(self)@[k].velocity.front[1]
                    == final(self)@[k].velocity.back[1],
    {
        let ghost start = self.cells@;
        let w = self.dim.x;
        let n = self.cells.len();
        let mut k: usize = 0;
        while k < n
            invariant
                self.dim == old(self).dim,
                self.cell_width == old(self).cell_width,
                w == self.dim.x,
                w >= 2,
                start == old(self)@,
                n == start.len(),
                self.cells@.len() == n,
                0 <= k <= n,
                forall|j: int|
                    0 <= j < n ==> {
                        let c = start[j];
                        let m = #[trigger] self.cells@[j];
                        &&& m.mode == c.mode
                        &&& m.index == c.index
                        &&& m.pressure == c.pressure
                        &&& m.smoke == c.smoke
                        &&& m.velocity.back == c.velocity.back
                        &&& m.velocity.front[0] == if j < k && on_solid_face(start, w as int, j, 0) {
                            c.velocity.back[0]
                        } else {
                            c.velocity.front[0]
                        }
                        &&& m.velocity.front[1] == if j < k && on_solid_face(start, w as int, j, 1) {
                            c.velocity.back[1]
                        } else {
                            c.velocity.front[1]
                        }
                    },
            decreases n - k,
        {
            let mut c = self.cells[k];
            let solid = c.mode == CellTypes::Solid;
            let left_solid = k >= 1 && k % w >= 1 && self.cells[k - 1].mode == CellTypes::Solid;
            let below_solid = k >= w && self.cells[k - w].mode == CellTypes::Solid;
            let mut front = c.velocity.front;
            if solid || left_solid {
                front[0] = c.velocity.back[0];
            }
            if solid || below_solid {
                front[1] = c.velocity.back[1];
            }
            c.velocity = FrontBackBuffer { front, back: c.velocity.back };
            proof {
                if k == 0 {
                    assert(0int % (w as int) == 0);
                }
                if k >= 1 && k % w >= 1 {
                    assert(self.cells@[k - 1].mode == start[k - 1].mode);
                }
                if k >= w {
                    assert(self.cells@[k - w].mode == start[k - w].mode);
                }
                assert(left_solid == (k as int % w as int >= 1 && start[k - 1].mode
                    == CellTypes::Solid));
                assert(below_solid == (k >= w && start[k - w].mode == CellTypes::Solid));
                assert(c.velocity.front[0] == if on_solid_face(start, w as int, k as int, 0) {
                    start[k as int].velocity.back[0]
                } else {
                    start[k as int].velocity.front[0]
                });
            }
            self.cells.set(k, c);
            k = k + 1;
        }
    }

    /// Exchanges front and back velocity of every cell.
    pub fn swap_velocity_buffers(&mut self)
        requires
            old(self).wf(),
        ensures
            final(self).size() == old(self).size(),
            final(self).spacing() == old(self).spacing(),
            final(self)@.len() == old(self)@.len(),
            forall|k: int|
                0 <= k < old(self)@.len() ==> {
                    let c = old(self)@[k];
                    let n = #[trigger] final(self)@[k];
                    &&& n.velocity.front == c.velocity.back
                    &&& n.velocity.back == c.velocity.front
                    &&& n.mode == c.mode
                    &&& n.index == c.index
                    &&& n.pressure == c.pressure
                    &&& n.smoke == c.smoke
                },
            forall|k: int|
                0 <= k < old(self)@.len() && (#[trigger] old(self)@[k]).velocity.front == old(
                    self,
                )@[k].velocity.back ==> final(self)@[k].velocity == old(self)@[k].velocity,
    {
        let n = self.cells.len();
        let mut k: usize = 0;
        while k < n
            invariant
                self.dim == old(self).dim,
                self.cell_width == old(self).cell_width,
                n == old(self)@.len(),
                self.cells@.len() == n,
                0 <= k <= n,
                forall|j: int|
                    0 <= j < n ==> {
                        let c = old(self)@[j];
                        let m = #[trigger] self.cells@[j];
                        &&& m.velocity.front == if j < k {
                            c.velocity.back
                        } else {
                            c.velocity.front
                        }
                        &&& m.velocity.back == if j < k {
                            c.velocity.front
                        } else {
                            c.velocity.back
                        }
                        &&& m.mode == c.mode
                        &&& m.index == c.index
                        &&& m.pressure == c.pressure
                        &&& m.smoke == c.smoke
                    },
            decreases n - k,
        {
            let mut c = self.cells[k];
            c.velocity.swap();
            self.cells.set(k, c);
            k = k + 1;
        }
    }

    /// Sets every front velocity component to `force(back, axis)`, for solid
    /// and fluid cells alike, then enforces the solid constraints.
    pub fn integrate_with<F>(&mut self, force: F) where F: Fn(S, usize) -> S,
        requires
            old(self).wf(),
            forall|v: S, a: usize| a < 2 ==> #[trigger] force.requires((v, a)),
        ensures
            final(self).size() == old(self).size(),
            final(self).spacing() == old(self).spacing(),
            final(self)@.len() == old(self)@.len(),
            forall|k: int|
                0 <= k < old(self)@.len() ==> {
                    let c = old(self)@[k];
                    let n = #[trigger] final(self)@[k];
                    let w = old(self).size().x as int;
                    &&& n.mode == c.mode
                    &&& n.index == c.index
                    &&& n.pressure == c.pressure
                    &&& n.smoke == c.smoke
                    &&& n.velocity.back == c.velocity.back
                    &&& forall|a: int|
                        0 <= a < 2 ==> if on_solid_face(old(self)@, w, k, a) {
                            n.velocity.front[a] == c.velocity.back[a]
                        } else {
                            force.ensures((c.velocity.back[a], a as usize), n.velocity.front[a])
                        }
                },
    {
        let n = self.cells.len();
        let mut k: usize = 0;
        while k < n
            invariant
                self.dim == old(self).dim,
                self.cell_width == old(self).cell_width,
                n == old(self)@.len(),
                self.cells@.len() == n,
                0 <= k <= n,
                forall|v: S, a: usize| a < 2 ==> #[trigger] force.requires((v, a)),
                forall|j: int|
                    0 <= j < n ==> {
                        let c = old(self)@[j];
                        let m = #[trigger] self.cells@[j];
                        &&& m.mode == c.mode
                        &&& m.index == c.index
                        &&& m.pressure == c.pressure
                        &&& m.smoke == c.smoke
                        &&& m.velocity.back == c.velocity.back
                        &&& j >= k ==> m.velocity.front == c.velocity.front
                        &&& j < k ==> forall|a: int|
                            0 <= a < 2 ==> force.ensures(
                                (c.velocity.back[a], a as usize),
                                m.velocity.front[a],
                            )
                    },
            decreases n - k,
        {
            let mut c = self.cells[k];
            let fx = force(c.velocity.back[0], 0);
            let fy = force(c.velocity.back[1], 1);
            c.velocity = FrontBackBuffer { front: [fx, fy], back: c.velocity.back };
            self.cells.set(k, c);
            proof {
                assert forall|a: int| 0 <= a < 2 implies force.ensures(
                    (old(self)@[k as int].velocity.back[a], a as usize),
                    self.cells@[k as int].velocity.front[a],
                ) by {
                    if a == 0 {
                    } else {
                    }
                }
            }
            k = k + 1;
        }
        let ghost mid = self.cells@;
        self.enforce_solid_constraints();
        proof {
            assert forall|k: int| 0 <= k < n implies on_solid_face(mid, self.dim.x as int, k, 0)
                == on_solid_face(old(self)@, self.dim.x as int, k, 0) && on_solid_face(
                mid,
                self.dim.x as int,
                k,
                1,
            ) == on_solid_face(old(self)@, self.dim.x as int, k, 1) by {
                assert(mid[k].mode == old(self)@[k].mode);
                if k >= 1 {
                    assert(mid[k - 1].mode == old(self)@[k - 1].mode);
                }
                if k >= self.dim.x {
                    assert(mid[k - self.dim.x].mode == old(self)@[k - self.dim.x].mode);
                }
            }
        }
    }

    /// Runs `iterations` relaxation sweeps of the pressure solve and then
    /// swaps the velocity buffers of every cell once.
    ///
    /// A sweep visits the inside of the grid in row-major order; for each
    /// cell that `relaxation_stencil` does not skip, `relax` gets the cell and
    /// its two positive neighbours (in the order of the stencil's offsets)
    /// and returns their new values, which later cells of the sweep see.
    /// `relax` may only correct front velocities on open faces and the
    /// pressure of the relaxed cell (`relax_respects`).
    pub fn relax_sweeps<F>(&mut self, iterations: u64, relax: F) where
        F: Fn([Cell<S>; 3], RelaxStencil) -> [Cell<S>; 3],

        requires
            old(self).wf(),
            forall|c: [Cell<S>; 3], st: RelaxStencil| #[trigger] relax.requires((c, st)),
            forall|c: [Cell<S>; 3], st: RelaxStencil, out: [Cell<S>; 3]|
                #[trigger] relax.ensures((c, st), out) ==> relax_respects(c, st, out),
        ensures
            final(self).size() == old(self).size(),
            final(self).spacing() == old(self).spacing(),
            final(self)@.len() == old(self)@.len(),
            exists|trace: Seq<Seq<Cell<S>>>|
                {
                    &&& #[trigger] sweeps_trace(
                        relax,
                        old(self).size(),
                        trace,
                        iterations * interior_count(old(self).size()),
                    )
                    &&& trace[0] == old(self)@
                    &&& buffers_swapped(trace.last(), final(self)@)
                },
            forall|k: int|
                0 <= k < old(self)@.len() ==> {
                    let c = old(self)@[k];
                    let n = #[trigger] final(self)@[k];
                    let w = old(self).size().x as int;
                    &&& n.mode == c.mode
                    &&& n.index == c.index
                    &&& n.smoke == c.smoke
                    &&& n.velocity.front == c.velocity.back
                    &&& on_solid_face(old(self)@, w, k, 0) ==> n.velocity.back[0]
                        == c.velocity.front[0]
                    &&& on_solid_face(old(self)@, w, k, 1) ==> n.velocity.back[1]
                        == c.velocity.front[1]
                    &&& n.pressure != c.pressure ==> pressure_relaxed(
                        old(self).size(),
                        old(self)@,
                        k,
                    )
                },
            forall|i: Index2|
                is_interior(old(self).size(), i) && #[trigger] old(self).enclosed(i) ==> {
                    let c = old(self).at(i);
                    let n = final(self).at(i);
                    &&& n.pressure == c.pressure
                    &&& n.velocity.front == c.velocity.back
                    &&& n.velocity.back[0] == c.velocity.front[0]
                    &&& n.velocity.back[1] == c.velocity.front[1]
                },
    {
        let ghost dim = self.dim;
        let ghost start = self.cells@;
        let ghost mut trace: Seq<Seq<Cell<S>>> = seq![self.cells@];
        proof {
            assert forall|k: int| 0 <= k < start.len() implies #[trigger] kept_since(
                dim,
                start,
                start,
                k,
            ) by {}
            assert(trace.len() == 1);
        }
        let mut iter: u64 = 0;
        while iter < iterations
            invariant
                self.wf(),
                self.dim == dim,
                dim == old(self).dim,
                start == old(self)@,
                self.cell_width == old(self).cell_width,
                iter <= iterations,
                forall|c: [Cell<S>; 3], st: RelaxStencil| #[trigger] relax.requires((c, st)),
                forall|c: [Cell<S>; 3], st: RelaxStencil, out: [Cell<S>; 3]|
                    #[trigger] relax.ensures((c, st), out) ==> relax_respects(c, st, out),
                sweep_inv(dim, start, self.cells@),
                trace.len() == iter * interior_count(dim) + 1,
                trace[0] == start,
                trace.last() == self.cells@,
                sweeps_trace(relax, dim, trace, trace.len() - 1),
            decreases iterations - iter,
        {
            let order = self.to_inside_index_iter().into_vec();
            proof {
                lemma_interior_traversal(self.dim);
            }
            let mut t: usize = 0;
            while t < order.len()
                invariant
                    self.wf(),
                    self.dim == dim,
                    dim == old(self).dim,
                    start == old(self)@,
                    self.cell_width == old(self).cell_width,
                    iter < iterations,
                    forall|c: [Cell<S>; 3], st: RelaxStencil| #[trigger] relax.requires((c, st)),
                    forall|c: [Cell<S>; 3], st: RelaxStencil, out: [Cell<S>; 3]|
                        #[trigger] relax.ensures((c, st), out) ==> relax_respects(c, st, out),
                    order@.len() == interior_count(dim),
                    forall|j: int|
                        0 <= j < order@.len() ==> (#[trigger] order@[j]).index == row_major(
                            Index2 { x: 1, y: 1 },
                            Index2 { x: (dim.x - 1) as usize, y: (dim.y - 1) as usize },
                            j,
                        ),
                    forall|j: int|
                        0 <= j < order@.len() ==> is_interior(dim, #[trigger] order@[j].index),
                    0 <= t <= order@.len(),
                    sweep_inv(dim, start, self.cells@),
                    trace.len() == iter * interior_count(dim) + t + 1,
                    trace[0] == start,
                    trace.last() == self.cells@,
                    sweeps_trace(relax, dim, trace, trace.len() - 1),
                decreases order@.len() - t,
            {
                let index = order[t].index;
                let ghost prev = self.cells@;
                proof {
                    assert(is_interior(dim, order@[t as int].index));
                    lemma_step_position(iter as int, interior_count(dim), t as int);
                    assert(interior_at(dim, trace.len() - 1) == index);
                }
                match self.relaxation_stencil(index) {
                    Some(st) => {
                        let ghost px = Index2 { x: (index.x + 1) as usize, y: index.y };
                        let ghost py = Index2 { x: index.x, y: (index.y + 1) as usize };
                        proof {
                            lemma_offset_bounds(dim, index);
                            lemma_offset_bounds(dim, px);
                            lemma_offset_bounds(dim, py);
                            assert(offset_of(dim, py) == offset_of(dim, index) + dim.x)
                                by (nonlinear_arith)
                                requires
                                    py.x == index.x,
                                    py.y == index.y + 1,
                            ;
                        }
                        let r = &relax;
                        let step = move |c: CellTrio<S>| -> (out: CellTrio<S>)
                            ensures
                                r.ensures((c, st), out),
                            { r(c, st) };
                        self.modify_cells(st.offsets, step);
                        proof {
                            let (a, b) = choose|a: CellTrio<S>, b: CellTrio<S>|
                                {
                                    &&& picked(prev, st.offsets, a)
                                    &&& step.ensures((a,), b)
                                    &&& picked(self.cells@, st.offsets, b)
                                };
                            assert(relax.ensures((a, st), b));
                            assert(relax_step(relax, dim, prev, self.cells@, index));
                            lemma_step_keeps(dim, start, prev, self.cells@, index, st, a, b);
                        }
                    },
                    None => {
                        proof {
                            assert(relax_step(relax, dim, prev, self.cells@, index));
                        }
                    },
                }
                proof {
                    let old_trace = trace;
                    trace = trace.push(self.cells@);
                    assert forall|u: int| 0 <= u < trace.len() - 1 implies #[trigger] relax_step(
                        relax,
                        dim,
                        trace[u],
                        trace[u + 1],
                        interior_at(dim, u),
                    ) by {
                        if u < old_trace.len() - 1 {
                            assert(relax_step(
                                relax,
                                dim,
                                old_trace[u],
                                old_trace[u + 1],
                                interior_at(dim, u),
                            ));
                        }
                    }
                }
                t = t + 1;
            }
            proof {
                assert(iter * interior_count(dim) + interior_count(dim) == (iter + 1)
                    * interior_count(dim)) by (nonlinear_arith);
            }
            iter = iter + 1;
        }
        let ghost swept = self.cells@;
        self.swap_velocity_buffers();
        proof {
            assert(buffers_swapped(swept, self@));
            assert(trace.len() - 1 == iterations * interior_count(dim));
            assert forall|k: int| 0 <= k < start.len() implies {
                let c = start[k];
                let n = #[trigger] self@[k];
                &&& n.mode == c.mode
                &&& n.index == c.index
                &&& n.smoke == c.smoke
                &&& n.velocity.front == c.velocity.back
                &&& on_solid_face(start, dim.x as int, k, 0) ==> n.velocity.back[0]
                    == c.velocity.front[0]
                &&& on_solid_face(start, dim.x as int, k, 1) ==> n.velocity.back[1]
                    == c.velocity.front[1]
                &&& n.pressure != c.pressure ==> pressure_relaxed(dim, start, k)
            } by {
                assert(kept_since(dim, start, swept, k));
                assert(self@[k] == swapped(swept[k]));
            }
            assert forall|i: Index2|
                is_interior(dim, i) && #[trigger] old(self).enclosed(i) implies {
                let c = old(self).at(i);
                let n = self.at(i);
                &&& n.pressure == c.pressure
                &&& n.velocity.front == c.velocity.back
                &&& n.velocity.back[0] == c.velocity.front[0]
                &&& n.velocity.back[1] == c.velocity.front[1]
            } by {
                lemma_offset_bounds(dim, i);
                lemma_enclosed_kept(dim, start, swept, i);
                let k = offset_of(dim, i);
                assert(self@[k] == swapped(swept[k]));
            }
        }
    }
    /// The cell at `index` is fluid and its four neighbours are solid, so
    /// that no flow can enter or leave it.
    pub open spec fn enclosed(&self, index: Index2) -> bool {
        &&& self.at(index).mode == CellTypes::Fluid
        &&& self.at(left(index)).mode == CellTypes::Solid
        &&& self.at(right(index)).mode == CellTypes::Solid
        &&& self.at(below(index)).mode == CellTypes::Solid
        &&& self.at(above(index)).mode == CellTypes::Solid
    }

    /// The storage offsets `indices` are pairwise distinct, as
    /// `modify_cells` demands.
    pub fn distinct_offsets<const N: usize>(indices: [usize; N]) -> (r: bool)
        ensures
            r == (forall|i: int, j: int| 0 <= i < j < N ==> indices[i] != indices[j]),
    {
        let mut j: usize = 1;
        while j < N
            invariant
                1 <= j <= N || N == 0,
                forall|a: int, b: int| 0 <= a < b < j && b < N ==> indices[a] != indices[b],
            decreases N - j,
        {
            let mut i: usize = 0;
            while i < j
                invariant
                    0 <= i <= j < N,
                    forall|a: int| 0 <= a < i ==> indices[a] != indices[j as int],
                decreases j - i,
            {
                if indices[i] == indices[j] {
                    return false;
                }
                i = i + 1;
            }
            j = j + 1;
        }
        true
    }

    /// Hands the cells stored at `indices` to `f` all at once and stores what
    /// it returns in their places. The storage offsets must be distinct and
    /// inside the grid, so that no cell is handed out twice.
    pub fn modify_cells<F, const N: usize>(&mut self, indices: [usize; N], f: F) where
        F: FnOnce([Cell<S>; N]) -> [Cell<S>; N],

        requires
            old(self).wf(),
            forall|i: int| 0 <= i < N ==> #[trigger] indices[i] < old(self)@.len(),
            forall|i: int, j: int| 0 <= i < j < N ==> indices[i] != indices[j],
            forall|a: [Cell<S>; N]| picked(old(self)@, indices, a) ==> f.requires((a,)),
        ensures
            final(self).size() == old(self).size(),
            final(self).spacing() == old(self).spacing(),
            final(self)@.len() == old(self)@.len(),
            exists|a: [Cell<S>; N], b: [Cell<S>; N]|
                {
                    &&& picked(old(self)@, indices, a)
                    &&& f.ensures((a,), b)
                    &&& picked(final(self)@, indices, b)
                },
            forall|k: int|
                0 <= k < old(self)@.len() && (forall|i: int| 0 <= i < N ==> indices[i] != k)
                    ==> #[trigger] final(self)@[k] == old(self)@[k],
    {
        proof {
            let (w, h) = (self.dim.x as int, self.dim.y as int);
            assert(w * h > 0) by (nonlinear_arith)
                requires
                    w >= 2,
                    h >= 2,
            ;
        }
        let mut a: [Cell<S>; N] = vstd::array::array_fill_for_copy_types(self.cells[0]);
        let mut i: usize = 0;
        while i < N
            invariant
                self.cells@ == old(self)@,
                self.cells@.len() > 0,
                forall|i: int| 0 <= i < N ==> #[trigger] indices[i] < self.cells@.len(),
                0 <= i <= N,
                forall|j: int| 0 <= j < i ==> #[trigger] a[j] == self.cells@[indices[j] as int],
            decreases N - i,
        {
            a[i] = self.cells[indices[i]];
            i = i + 1;
        }
        assert(picked(old(self)@, indices, a));
        let b = f(a);
        let mut i: usize = 0;
        while i < N
            invariant
                self.dim == old(self).dim,
                self.cell_width == old(self).cell_width,
                self.cells@.len() == old(self)@.len(),
                forall|i: int| 0 <= i < N ==> #[trigger] indices[i] < self.cells@.len(),
                forall|i: int, j: int| 0 <= i < j < N ==> indices[i] != indices[j],
                0 <= i <= N,
                forall|j: int| 0 <= j < i ==> #[trigger] b[j] == self.cells@[indices[j] as int],
                forall|k: int|
                    0 <= k < old(self)@.len() && (forall|j: int| 0 <= j < i ==> indices[j] != k)
                        ==> #[trigger] self.cells@[k] == old(self)@[k],
            decreases N - i,
        {
            self.cells.set(indices[i], b[i]);
            i = i + 1;
        }
        assert(picked(self@, indices, b));
    }

    /// 1 for an open (fluid) cell at `index`, 0 for a solid one.
    fn s_factor(&self, index: Index2) -> (r: u8)
        requires
            self.wf(),
            in_grid(self.size(), index),
        ensures
            r == open_indicator(self.at(index)),
    {
        if self.cell(index).mode == CellTypes::Solid {
            0
        } else {
            1
        }
    }

    /// The relaxation step of the pressure solve for the interior cell at
    /// `index`: `None` when the cell is solid or all four of its neighbours
    /// are (nothing is to be done there), else where the cell and its two
    /// positive neighbours are stored and which faces are open.
    pub fn relaxation_stencil(&self, index: Index2) -> (r: Option<RelaxStencil>)
        requires
            self.wf(),
            is_interior(self.size(), index),
        ensures
            r.is_none() == skipped(self.size(), self@, index),
            r.is_some() ==> stencil_fits(self.size(), self@, index, r.unwrap()),
    {
        if self.cell(index).mode == CellTypes::Solid {
            return None;
        }
        let nbs = Grid::<S>::get_neighbors_indices(index);
        let open_neg = [self.s_factor(nbs[0][0]), self.s_factor(nbs[0][1])];
        let open_pos = [self.s_factor(nbs[1][0]), self.s_factor(nbs[1][1])];
        let s = open_neg[0] + open_neg[1] + open_pos[0] + open_pos[1];
        if s == 0 {
            return None;
        }
        let centre = GridIndex { index, dim: self.dim };
        let right = GridIndex { index: nbs[1][0], dim: self.dim };
        let up = GridIndex { index: nbs[1][1], dim: self.dim };
        Some(
            RelaxStencil {
                offsets: [centre.to_data_index(), right.to_data_index(), up.to_data_index()],
                open_neg,
                open_pos,
                open_count: s,
            },
        )
    }

    /// Clamps each component of `index` into `[min, max]`.
    pub fn clamp_to_range(min: Index2, max: Index2, index: Index2) -> (r: Index2)
        ensures
            r.x == clamp_spec(index.x, min.x, max.x),
            r.y == clamp_spec(index.y, min.y, max.y),
    {
        Index2::new(clamp_usize(index.x, min.x, max.x), clamp_usize(index.y, min.y, max.y))
    }

    /// The four nodes a bilinear sample around `base` blends, in the order
    /// `(x+1, y)`, `(x+1, y+1)`, `(x, y)`, `(x, y+1)`, where `(x, y)` is `base`
    /// moved into the grid and every node is moved into the grid on its own.
    pub fn sample_nodes(&self, base: Index2) -> (r: [Index2; 4])
        requires
            self.wf(),
        ensures
            ({
                let b = clamp_into(self.size(), base);
                &&& r[0] == clamp_into(self.size(), Index2 { x: (b.x + 1) as usize, y: b.y })
                &&& r[1] == clamp_into(
                    self.size(),
                    Index2 { x: (b.x + 1) as usize, y: (b.y + 1) as usize },
                )
                &&& r[2] == b
                &&& r[3] == clamp_into(self.size(), Index2 { x: b.x, y: (b.y + 1) as usize })
            }),
            forall|j: int| 0 <= j < 4 ==> in_grid(self.size(), #[trigger] r[j]),
    {
        let last = Index2::new(self.dim.x - 1, self.dim.y - 1);
        let zero = Index2::zeros();
        let b = Grid::<S>::clamp_to_range(zero, last, base);
        let r = [
            Grid::<S>::clamp_to_range(zero, last, Index2::new(b.x + 1, b.y)),
            Grid::<S>::clamp_to_range(zero, last, Index2::new(b.x + 1, b.y + 1)),
            b,
            Grid::<S>::clamp_to_range(zero, last, Index2::new(b.x, b.y + 1)),
        ];
        assert forall|j: int| 0 <= j < 4 implies in_grid(self.size(), #[trigger] r[j]) by {}
        r
    }

    /// `min <= index < max`, component-wise.
    pub fn is_inside_range(min: Index2, max: Index2, index: Index2) -> (r: bool)
        ensures
            r == in_range(min, max, index),
    {
        index.x < max.x && index.y < max.y && index.x >= min.x && index.y >= min.y
    }

    /// `index` is strictly inside the border of a grid of size `dim`.
    pub fn is_inside_border(dim: Index2, index: Index2) -> (r: bool)
        ensures
            r == is_interior(dim, index),
    {
        index.x > 0 && index.y > 0 && index.x < dim.x && index.y < dim.y && index.x + 1 < dim.x
            && index.y + 1 < dim.y
    }

    /// The negative neighbours `[(x-1, y), (x, y-1)]` and the positive ones
    /// `[(x+1, y), (x, y+1)]`. Only defined away from the zero edges.
    pub fn get_neighbors_indices(index: Index2) -> (r: [[Index2; 2]; 2])
        requires
            index.x >= 1,
            index.y >= 1,
            index.x < usize::MAX,
            index.y < usize::MAX,
        ensures
            r[0][0] == (Index2 { x: (index.x - 1) as usize, y: index.y }),
            r[0][1] == (Index2 { x: index.x, y: (index.y - 1) as usize }),
            r[1][0] == (Index2 { x: (index.x + 1) as usize, y: index.y }),
            r[1][1] == (Index2 { x: index.x, y: (index.y + 1) as usize }),
    {
        [
            [Index2::new(index.x - 1, index.y), Index2::new(index.x, index.y - 1)],
            [Index2::new(index.x + 1, index.y), Index2::new(index.x, index.y + 1)],
        ]
    }
}

/// `a` holds, in order, the cells stored at `indices`.
pub open spec fn picked<S, const N: usize>(
    cells: Seq<Cell<S>>,
    indices: [usize; N],
    a: [Cell<S>; N],
) -> bool {
    forall|i: int| 0 <= i < N ==> #[trigger] a[i] == cells[indices[i] as int]
}

/// 1 when `c` lets flow through, 0 when it is solid.
pub open spec fn open_indicator<S>(c: Cell<S>) -> u8 {
    if c.mode == CellTypes::Solid {
        0
    } else {
        1
    }
}

/// nalgebra's clamp on integers: `min` unless `val > min`, then `max` unless
/// `val < max`.
pub open spec fn clamp_spec(val: usize, min: usize, max: usize) -> usize {
    if val > min {
        if val < max {
            val
        } else {
            max
        }
    } else {
        min
    }
}

/// Relies on nalgebra::clamp, applied to integers.
#[verifier::external_body]
fn clamp_usize(val: usize, min: usize, max: usize) -> (r: usize)
    ensures
        r == clamp_spec(val, min, max),
{
    nalgebra::clamp(val, min, max)
}

/// `index` moved into the node range `[(0, 0), dim)`.
pub open spec fn clamp_into(dim: Index2, index: Index2) -> Index2 {
    Index2 {
        x: if index.x < dim.x { index.x } else { (dim.x - 1) as usize },
        y: if index.y < dim.y { index.y } else { (dim.y - 1) as usize },
    }
}

/// What the solver needs to relax one fluid cell: where the cell and its two
/// positive neighbours are stored, and which of the four faces are open.
#[derive(Clone, Copy, Debug)]
pub struct RelaxStencil {
    /// Storage offsets of the cell, of `(x+1, y)` and of `(x, y+1)`.
    pub offsets: [usize; 3],
    /// Open indicators of `(x-1, y)` and `(x, y-1)`.
    pub open_neg: [u8; 2],
    /// Open indicators of `(x+1, y)` and `(x, y+1)`.
    pub open_pos: [u8; 2],
    /// Number of open faces, between 1 and 4.
    pub open_count: u8,
}

/// Access to the cells of a container by coordinate: unchecked, where the
/// caller vouches for the coordinate, and checked, with `None` outside.
pub trait CellGetter<I> {
    type Item;

    /// The container is in a state where its cells can be reached.
    spec fn valid(&self) -> bool;

    /// `index` names a cell of the container.
    spec fn holds_index(&self, index: I) -> bool;

    /// The cell that `index` names.
    spec fn item_at(&self, index: I) -> Self::Item;

    /// `self` and `other` have the same dimensions and settings; only
    /// cell contents may differ.
    spec fn same_shape(&self, other: &Self) -> bool;

    fn cell(&self, index: I) -> (r: &Self::Item)
        requires
            self.valid(),
            self.holds_index(index),
        ensures
            *r == self.item_at(index),
    ;

    fn cell_mut(&mut self, index: I) -> (r: &mut Self::Item)
        requires
            old(self).valid(),
            old(self).holds_index(index),
        ensures
            *r == old(self).item_at(index),
            final(self).valid(),
            final(self).same_shape(old(self)),
            forall|j: I| #[trigger] final(self).holds_index(j) == old(self).holds_index(j),
            final(self).item_at(index) == *final(r),
            forall|j: I|
                old(self).holds_index(j) && j != index ==> #[trigger] final(self).item_at(j)
                    == old(self).item_at(j),
    ;

    fn cell_opt(&self, index: I) -> (r: Option<&Self::Item>)
        requires
            self.valid(),
        ensures
            r.is_some() == self.holds_index(index),
            r.is_some() ==> *r.unwrap() == self.item_at(index),
    ;

    fn cell_mut_opt(&mut self, index: I) -> (r: Option<&mut Self::Item>)
        requires
            old(self).valid(),
        ensures
            r.is_some() == old(self).holds_index(index),
            final(self).valid(),
            final(self).same_shape(old(self)),
            forall|j: I| #[trigger] final(self).holds_index(j) == old(self).holds_index(j),
            r.is_some() ==> *r.unwrap() == old(self).item_at(index),
            r.is_some() ==> final(self).item_at(index) == *final(r.unwrap()),
            forall|j: I|
                old(self).holds_index(j) && (r.is_none() || j != index)
                    ==> #[trigger] final(self).item_at(j) == old(self).item_at(j),
    ;
}

impl<S: Copy + Default> CellGetter<Index2> for Grid<S> {
    type Item = Cell<S>;

    open spec fn valid(&self) -> bool {
        self.wf()
    }

    open spec fn holds_index(&self, index: Index2) -> bool {
        in_grid(self.size(), index)
    }

    open spec fn item_at(&self, index: Index2) -> Cell<S> {
        self.at(index)
    }

    open spec fn same_shape(&self, other: &Self) -> bool {
        &&& self.size() == other.size()
        &&& self.spacing() == other.spacing()
        &&& self@.len() == other@.len()
    }

    fn cell(&self, index: Index2) -> (r: &Cell<S>) {
        proof {
            lemma_offset_bounds(self.dim, index);
            assert(index.y * self.dim.x == self.dim.x * index.y) by (nonlinear_arith);
        }
        &self.cells[index.x + index.y * self.dim.x]
    }

    fn cell_mut(&mut self, index: Index2) -> (r: &mut Cell<S>) {
        proof {
            lemma_offset_bounds(self.dim, index);
            assert(index.y * self.dim.x == self.dim.x * index.y) by (nonlinear_arith);
            lemma_offsets_distinct(self.dim, index);
        }
        let k = index.x + index.y * self.dim.x;
        &mut self.cells[k]
    }

    fn cell_opt(&self, index: Index2) -> (r: Option<&Cell<S>>) {
        if Grid::<S>::is_inside_range(Index2::zeros(), self.dim, index) {
            Some(self.cell(index))
        } else {
            None
        }
    }

    fn cell_mut_opt(&mut self, index: Index2) -> (r: Option<&mut Cell<S>>) {
        if Grid::<S>::is_inside_range(Index2::zeros(), self.dim, index) {
            Some(self.cell_mut(index))
        } else {
            None
        }
    }
}

/// Distinct coordinates of a grid are stored at distinct offsets, all
/// inside the storage.
pub proof fn lemma_offsets_distinct(dim: Index2, index: Index2)
    requires
        in_grid(dim, index),
    ensures
        forall|j: Index2|
            #[trigger] in_grid(dim, j) ==> 0 <= offset_of(dim, j) < dim.x * dim.y && (j != index
                ==> offset_of(dim, j) != offset_of(dim, index)),
{
    assert forall|j: Index2| #[trigger] in_grid(dim, j) implies 0 <= offset_of(dim, j) < dim.x
        * dim.y && (j != index ==> offset_of(dim, j) != offset_of(dim, index)) by {
        lemma_offset_bounds(dim, j);
        lemma_row_major_of_offset(dim, j);
        lemma_row_major_of_offset(dim, index);
    }
}

/// The face of velocity component `a` of the cell stored at `k` touches a
/// solid cell: the cell itself, or its negative neighbour along `a`.
pub open spec fn on_solid_face<S>(cells: Seq<Cell<S>>, w: int, k: int, a: int) -> bool {
    ||| cells[k].mode == CellTypes::Solid
    ||| (a == 0 && k % w >= 1 && cells[k - 1].mode == CellTypes::Solid)
    ||| (a == 1 && k >= w && cells[k - w].mode == CellTypes::Solid)
}

/// Traversing a whole grid of size `dim` visits `dim.x * dim.y`
/// coordinates, all inside the grid, each once, in row-major order: the
/// `k`-th one is stored at offset `k`.
pub proof fn lemma_full_traversal(dim: Index2)
    ensures
        range_count(Index2 { x: 0, y: 0 }, dim) == dim.x * dim.y,
        forall|k: int|
            0 <= k < dim.x * dim.y ==> {
                let i = #[trigger] row_major(Index2 { x: 0, y: 0 }, dim, k);
                &&& in_grid(dim, i)
                &&& offset_of(dim, i) == k
            },
        forall|j: int, k: int|
            0 <= j < k < dim.x * dim.y ==> row_major(Index2 { x: 0, y: 0 }, dim, j) != row_major(
                Index2 { x: 0, y: 0 },
                dim,
                k,
            ),
{
    let zero = Index2 { x: 0, y: 0 };
    assert forall|k: int| 0 <= k < dim.x * dim.y implies {
        let i = #[trigger] row_major(zero, dim, k);
        &&& in_grid(dim, i)
        &&& offset_of(dim, i) == k
    } by {
        lemma_row_major_facts(zero, dim, k);
        let i = row_major(zero, dim, k);
        assert(offset_of(dim, i) == (i.y - 0) * (dim.x - 0) + (i.x - 0)) by (nonlinear_arith);
    }
    assert forall|j: int, k: int| 0 <= j < k < dim.x * dim.y implies row_major(zero, dim, j)
        != row_major(zero, dim, k) by {
        lemma_row_major_facts(zero, dim, j);
        lemma_row_major_facts(zero, dim, k);
    }
}

/// Traversing the inside of a grid of size `dim` visits
/// `(dim.x - 2) * (dim.y - 2)` coordinates, all strictly inside the border,
/// each once.
pub proof fn lemma_interior_traversal(dim: Index2)
    requires
        dim.x >= 2,
        dim.y >= 2,
    ensures
        ({
            let lo = Index2 { x: 1, y: 1 };
            let hi = Index2 { x: (dim.x - 1) as usize, y: (dim.y - 1) as usize };
            &&& range_count(lo, hi) == (dim.x - 2) * (dim.y - 2)
            &&& forall|k: int|
                0 <= k < range_count(lo, hi) ==> is_interior(dim, #[trigger] row_major(lo, hi, k))
            &&& forall|j: int, k: int|
                0 <= j < k < range_count(lo, hi) ==> row_major(lo, hi, j) != row_major(lo, hi, k)
        }),
{
    let lo = Index2 { x: 1, y: 1 };
    let hi = Index2 { x: (dim.x - 1) as usize, y: (dim.y - 1) as usize };
    assert forall|k: int| 0 <= k < range_count(lo, hi) implies is_interior(
        dim,
        #[trigger] row_major(lo, hi, k),
    ) by {
        lemma_row_major_facts(lo, hi, k);
    }
    assert forall|j: int, k: int| 0 <= j < k < range_count(lo, hi) implies row_major(lo, hi, j)
        != row_major(lo, hi, k) by {
        lemma_row_major_facts(lo, hi, j);
        lemma_row_major_facts(lo, hi, k);
    }
}

/// `c` with its front and back velocity exchanged.
pub open spec fn swapped<S>(c: Cell<S>) -> Cell<S> {
    Cell { velocity: FrontBackBuffer { front: c.velocity.back, back: c.velocity.front }, ..c }
}

/// The three cells handed to a relaxation step.
pub type CellTrio<S> = [Cell<S>; 3];

/// `out` is `c` up to its pressure and its front velocity.
pub open spec fn same_identity<S>(c: Cell<S>, out: Cell<S>) -> bool {
    &&& out.mode == c.mode
    &&& out.index == c.index
    &&& out.smoke == c.smoke
    &&& out.velocity.back == c.velocity.back
}

/// What a relaxation step may change in the cells it is handed: the
/// pressure of the relaxed cell, its front velocity across open negative
/// faces, and the front velocity of each positive neighbour across the
/// shared face when that neighbour is open.
pub open spec fn relax_respects<S>(c: [Cell<S>; 3], st: RelaxStencil, out: [Cell<S>; 3]) -> bool {
    &&& same_identity(c[0], out[0])
    &&& same_identity(c[1], out[1])
    &&& same_identity(c[2], out[2])
    &&& out[1].pressure == c[1].pressure
    &&& out[2].pressure == c[2].pressure
    &&& out[1].velocity.front[1] == c[1].velocity.front[1]
    &&& out[2].velocity.front[0] == c[2].velocity.front[0]
    &&& st.open_neg[0] == 0 ==> out[0].velocity.front[0] == c[0].velocity.front[0]
    &&& st.open_neg[1] == 0 ==> out[0].velocity.front[1] == c[0].velocity.front[1]
    &&& st.open_pos[0] == 0 ==> out[1].velocity.front[0] == c[1].velocity.front[0]
    &&& st.open_pos[1] == 0 ==> out[2].velocity.front[1] == c[2].velocity.front[1]
}

/// The cell stored for `i` in row-major `cells` of a grid of size `dim`.
pub open spec fn node<S>(dim: Index2, cells: Seq<Cell<S>>, i: Index2) -> Cell<S> {
    cells[offset_of(dim, i)]
}

pub open spec fn left(i: Index2) -> Index2 {
    Index2 { x: (i.x - 1) as usize, y: i.y }
}

pub open spec fn right(i: Index2) -> Index2 {
    Index2 { x: (i.x + 1) as usize, y: i.y }
}

pub open spec fn below(i: Index2) -> Index2 {
    Index2 { x: i.x, y: (i.y - 1) as usize }
}

pub open spec fn above(i: Index2) -> Index2 {
    Index2 { x: i.x, y: (i.y + 1) as usize }
}

/// Number of open faces of the cell at `i`.
pub open spec fn open_faces<S>(dim: Index2, cells: Seq<Cell<S>>, i: Index2) -> int {
    open_indicator(node(dim, cells, left(i))) + open_indicator(node(dim, cells, below(i)))
        + open_indicator(node(dim, cells, right(i))) + open_indicator(node(dim, cells, above(i)))
}

/// The pressure solve leaves the cell at `i` alone: it is solid, or no
/// face of it is open.
pub open spec fn skipped<S>(dim: Index2, cells: Seq<Cell<S>>, i: Index2) -> bool {
    node(dim, cells, i).mode == CellTypes::Solid || open_faces(dim, cells, i) == 0
}

/// `st` describes the cell at `i` and its neighbours in `cells`.
pub open spec fn stencil_fits<S>(
    dim: Index2,
    cells: Seq<Cell<S>>,
    i: Index2,
    st: RelaxStencil,
) -> bool {
    &&& st.offsets[0] == offset_of(dim, i)
    &&& st.offsets[1] == offset_of(dim, right(i))
    &&& st.offsets[2] == offset_of(dim, above(i))
    &&& st.open_neg[0] == open_indicator(node(dim, cells, left(i)))
    &&& st.open_neg[1] == open_indicator(node(dim, cells, below(i)))
    &&& st.open_pos[0] == open_indicator(node(dim, cells, right(i)))
    &&& st.open_pos[1] == open_indicator(node(dim, cells, above(i)))
    &&& st.open_count == open_faces(dim, cells, i)
}

/// One relaxation step at `index` takes `before` to `after`: nothing
/// changes where the cell is skipped; else the three stencil cells become
/// what `relax` returned for them, and all other cells stay.
pub open spec fn relax_step<S, F: Fn([Cell<S>; 3], RelaxStencil) -> [Cell<S>; 3]>(
    relax: F,
    dim: Index2,
    before: Seq<Cell<S>>,
    after: Seq<Cell<S>>,
    index: Index2,
) -> bool {
    if skipped(dim, before, index) {
        after == before
    } else {
        exists|st: RelaxStencil, a: [Cell<S>; 3], b: [Cell<S>; 3]|
            {
                &&& stencil_fits(dim, before, index, st)
                &&& #[trigger] relax.ensures((a, st), b)
                &&& picked(before, st.offsets, a)
                &&& picked(after, st.offsets, b)
                &&& after.len() == before.len()
                &&& forall|k: int|
                    0 <= k < before.len() && k != st.offsets[0] && k != st.offsets[1] && k
                        != st.offsets[2] ==> #[trigger] after[k] == before[k]
            }
    }
}

/// Number of cells inside the border.
pub open spec fn interior_count(dim: Index2) -> int {
    range_count(Index2 { x: 1, y: 1 }, Index2 { x: (dim.x - 1) as usize, y: (dim.y - 1) as usize })
}

/// The cell that step `u` of a run of sweeps relaxes.
pub open spec fn interior_at(dim: Index2, u: int) -> Index2 {
    row_major(
        Index2 { x: 1, y: 1 },
        Index2 { x: (dim.x - 1) as usize, y: (dim.y - 1) as usize },
        u % interior_count(dim),
    )
}

/// `trace` lists the states of `steps` relaxation steps, sweep after sweep
/// over the inside of the grid in row-major order.
pub open spec fn sweeps_trace<S, F: Fn([Cell<S>; 3], RelaxStencil) -> [Cell<S>; 3]>(
    relax: F,
    dim: Index2,
    trace: Seq<Seq<Cell<S>>>,
    steps: int,
) -> bool {
    &&& trace.len() == steps + 1
    &&& forall|u: int|
        0 <= u < steps ==> #[trigger] relax_step(relax, dim, trace[u], trace[u + 1], interior_at(dim, u))
}

/// Some interior cell stored at `k` is relaxed by the pressure solve.
pub open spec fn pressure_relaxed<S>(dim: Index2, cells: Seq<Cell<S>>, k: int) -> bool {
    exists|i: Index2|
        is_interior(dim, i) && #[trigger] offset_of(dim, i) == k && !skipped(dim, cells, i)
}

/// What relaxation steps keep of the cell stored at `k`.
pub open spec fn kept_since<S>(dim: Index2, start: Seq<Cell<S>>, cur: Seq<Cell<S>>, k: int) -> bool {
    let c = start[k];
    let n = cur[k];
    &&& same_identity(c, n)
    &&& on_solid_face(start, dim.x as int, k, 0) ==> n.velocity.front[0] == c.velocity.front[0]
    &&& on_solid_face(start, dim.x as int, k, 1) ==> n.velocity.front[1] == c.velocity.front[1]
    &&& n.pressure != c.pressure ==> pressure_relaxed(dim, start, k)
}

pub open spec fn sweep_inv<S>(dim: Index2, start: Seq<Cell<S>>, cur: Seq<Cell<S>>) -> bool {
    &&& cur.len() == start.len()
    &&& forall|k: int| 0 <= k < start.len() ==> #[trigger] kept_since(dim, start, cur, k)
}

/// `after` is `before` with the velocity buffers of every cell exchanged.
pub open spec fn buffers_swapped<S>(before: Seq<Cell<S>>, after: Seq<Cell<S>>) -> bool {
    &&& after.len() == before.len()
    &&& forall|k: int| 0 <= k < before.len() ==> #[trigger] after[k] == swapped(before[k])
}

/// Step `iter * m + t` of a run of sweeps over `m` cells is the `t`-th of
/// its sweep.
pub proof fn lemma_step_position(iter: int, m: int, t: int)
    requires
        iter >= 0,
        0 <= t < m,
    ensures
        (iter * m + t) % m == t,
{
    lemma_fundamental_div_mod_converse_mod(iter * m + t, m, iter, t);
}

/// A relaxation step whose `relax` result respects `relax_respects` keeps
/// what `kept_since` tracks.
pub proof fn lemma_step_keeps<S>(
    dim: Index2,
    start: Seq<Cell<S>>,
    prev: Seq<Cell<S>>,
    cur: Seq<Cell<S>>,
    index: Index2,
    st: RelaxStencil,
    a: [Cell<S>; 3],
    b: [Cell<S>; 3],
)
    requires
        dim.x >= 2,
        dim.y >= 2,
        start.len() == dim.x * dim.y,
        is_interior(dim, index),
        sweep_inv(dim, start, prev),
        stencil_fits(dim, prev, index, st),
        !skipped(dim, prev, index),
        picked(prev, st.offsets, a),
        relax_respects(a, st, b),
        picked(cur, st.offsets, b),
        cur.len() == prev.len(),
        forall|k: int|
            0 <= k < prev.len() && k != st.offsets[0] && k != st.offsets[1] && k != st.offsets[2]
                ==> #[trigger] cur[k] == prev[k],
    ensures
        sweep_inv(dim, start, cur),
{
    let w = dim.x as int;
    let o = offset_of(dim, index);
    lemma_offset_bounds(dim, index);
    lemma_offset_bounds(dim, left(index));
    lemma_offset_bounds(dim, right(index));
    lemma_offset_bounds(dim, below(index));
    lemma_offset_bounds(dim, above(index));
    assert(offset_of(dim, above(index)) == o + w) by (nonlinear_arith)
        requires
            above(index).x == index.x,
            above(index).y == index.y + 1,
            o == index.x + dim.x * index.y,
            w == dim.x,
    ;
    assert(offset_of(dim, below(index)) == o - w) by (nonlinear_arith)
        requires
            below(index).x == index.x,
            below(index).y == index.y - 1,
            o == index.x + dim.x * index.y,
            w == dim.x,
    ;
    assert(kept_since(dim, start, prev, o));
    assert(kept_since(dim, start, prev, o - 1));
    assert(kept_since(dim, start, prev, o + 1));
    assert(kept_since(dim, start, prev, o - w));
    assert(kept_since(dim, start, prev, o + w));
    assert(a[0] == prev[o] && a[1] == prev[o + 1] && a[2] == prev[o + w]);
    assert(b[0] == cur[o] && b[1] == cur[o + 1] && b[2] == cur[o + w]);
    assert(!skipped(dim, start, index));
    assert forall|k: int| 0 <= k < start.len() implies #[trigger] kept_since(dim, start, cur, k) by {
        assert(kept_since(dim, start, prev, k));
        if k == o {
            assert(is_interior(dim, index) && offset_of(dim, index) == k && !skipped(
                dim,
                start,
                index,
            ));
        } else if k == o + 1 {
        } else if k == o + w {
        } else {
            assert(cur[k] == prev[k]);
        }
    }
}

/// A cell whose four neighbours are solid keeps its pressure and its front
/// velocity through relaxation steps.
pub proof fn lemma_enclosed_kept<S>(
    dim: Index2,
    start: Seq<Cell<S>>,
    cur: Seq<Cell<S>>,
    i: Index2,
)
    requires
        dim.x >= 2,
        dim.y >= 2,
        start.len() == dim.x * dim.y,
        is_interior(dim, i),
        node(dim, start, i).mode == CellTypes::Fluid,
        node(dim, start, left(i)).mode == CellTypes::Solid,
        node(dim, start, right(i)).mode == CellTypes::Solid,
        node(dim, start, below(i)).mode == CellTypes::Solid,
        node(dim, start, above(i)).mode == CellTypes::Solid,
        sweep_inv(dim, start, cur),
    ensures
        ({
            let k = offset_of(dim, i);
            &&& cur[k].pressure == start[k].pressure
            &&& cur[k].velocity.front[0] == start[k].velocity.front[0]
            &&& cur[k].velocity.front[1] == start[k].velocity.front[1]
            &&& cur[k].velocity.back == start[k].velocity.back
        }),
{
    let w = dim.x as int;
    let k = offset_of(dim, i);
    lemma_offset_bounds(dim, i);
    lemma_row_major_of_offset(dim, i);
    lemma_offsets_distinct(dim, i);
    assert(k >= w && offset_of(dim, below(i)) == k - w) by (nonlinear_arith)
        requires
            below(i).x == i.x,
            below(i).y == i.y - 1,
            i.y >= 1,
            k == i.x + dim.x * i.y,
            w == dim.x,
    ;
    assert(k % w == i.x);
    assert(kept_since(dim, start, cur, k));
    assert(on_solid_face(start, w, k, 0));
    assert(on_solid_face(start, w, k, 1));
    if cur[k].pressure != start[k].pressure {
        let j = choose|j: Index2|
            is_interior(dim, j) && #[trigger] offset_of(dim, j) == k && !skipped(dim, start, j);
        assert(in_grid(dim, j));
        assert(j == i);
        assert(false);
    }
}

/// The full range of a grid holds `dim.x * dim.y` coordinates.
pub proof fn lemma_range_count_full(dim: Index2)
    ensures
        range_count(Index2 { x: 0, y: 0 }, dim) == dim.x * dim.y,
{
}

/// The coordinate at the storage offset of `index` is `index` itself.
pub proof fn lemma_row_major_of_offset(dim: Index2, index: Index2)
    requires
        in_grid(dim, index),
    ensures
        row_major(Index2 { x: 0, y: 0 }, dim, offset_of(dim, index)) == index,
{
    let k = offset_of(dim, index);
    assert(k == index.y * dim.x + index.x) by (nonlinear_arith)
        requires
            k == index.x + dim.x * index.y,
    ;
    lemma_fundamental_div_mod_converse_div(k, dim.x as int, index.y as int, index.x as int);
    lemma_fundamental_div_mod_converse_mod(k, dim.x as int, index.y as int, index.x as int);
}

} // verus!
