use crate::index::Index2;
use vstd::prelude::*;

verus! {

/// Classification of a grid node.
#[derive(Clone, Copy, Debug, PartialEq, Eq, Structural)]
pub enum CellTypes {
    Solid,
    Fluid,
}

/// A pair of values: `front` is being written by the current step, `back`
/// holds the value committed by the previous one.
#[derive(Clone, Copy, Debug)]
pub struct FrontBackBuffer<T> {
    pub front: T,
    pub back: T,
}

impl<T: Copy> FrontBackBuffer<T> {
    /// Exchanges `front` and `back`.
    pub fn swap(&mut self)
        ensures
            final(self).front == old(self).back,
            final(self).back == old(self).front,
    {
        let f = self.front;
        self.front = self.back;
        self.back = f;
    }
}

/// One node of the staggered grid.
///
/// The x-component of the velocity lives at `(h/2, 0)` and the y-component
/// at `(0, h/2)` relative to the node, `h` being the cell width.
#[derive(Clone, Copy, Debug)]
pub struct Cell<S> {
    pub velocity: FrontBackBuffer<[S; 2]>,
    pub pressure: S,
    pub smoke: FrontBackBuffer<S>,
    pub mode: CellTypes,
    pub index: Index2,
}

impl<S: Copy + Default> Cell<S> {
    /// The coordinate the cell was created for.
    pub open spec fn coord(&self) -> Index2 {
        self.index
    }

    /// Every value field holds the same value, one that `S::default()`
    /// returns.
    pub open spec fn is_at_rest(&self) -> bool {
        let z = self.pressure;
        &&& call_ensures(S::default, (), z)
        &&& self.velocity.front[0] == z
        &&& self.velocity.front[1] == z
        &&& self.velocity.back[0] == z
        &&& self.velocity.back[1] == z
        &&& self.smoke.front == z
        &&& self.smoke.back == z
    }

    /// A fluid cell at `index` whose fields all hold `S::default()` (zero
    /// for the numeric types).
    pub fn new(index: Index2) -> (r: Cell<S>)
        ensures
            r.coord() == index,
            r.mode == CellTypes::Fluid,
            r.is_at_rest(),
    {
        let z = S::default();
        Cell {
            velocity: FrontBackBuffer { front: [z, z], back: [z, z] },
            pressure: z,
            smoke: FrontBackBuffer { front: z, back: z },
            mode: CellTypes::Fluid,
            index,
        }
    }

    pub fn index(&self) -> (r: Index2)
        ensures
            r == self.coord(),
    {
        self.index
    }
}

} // verus!
