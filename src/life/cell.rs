use vstd::prelude::*;

use super::cell_id::CellId;

verus! {

/// The value of a single cell: a node of depth zero.
#[derive(Clone, Copy, Debug, PartialEq, Eq, Hash, Structural)]
pub enum BaseCell {
    Alive,
    Dead,
}

/// Four references to nodes of one depth, and the memoized next generation.
#[derive(Clone, Copy, Debug)]
pub struct CompositeCell {
    pub nw: CellId,
    pub ne: CellId,
    pub sw: CellId,
    pub se: CellId,
    pub next_gen: Option<CellId>,
}

/// Two composites are the same node when their children are; the memo is
/// derived data and takes no part in identity.
impl PartialEq for CompositeCell {
    fn eq(&self, other: &Self) -> (r: bool) {
        self.nw == other.nw && self.ne == other.ne && self.sw == other.sw && self.se == other.se
    }
}

impl vstd::std_specs::cmp::PartialEqSpecImpl for CompositeCell {
    open spec fn obeys_eq_spec() -> bool {
        true
    }

    open spec fn eq_spec(&self, other: &CompositeCell) -> bool {
        self.nw.same_node(other.nw) && self.ne.same_node(other.ne) && self.sw.same_node(other.sw)
            && self.se.same_node(other.se)
    }
}

impl Eq for CompositeCell {}

/// A quadtree node: a single cell, or four children of one depth.
#[derive(Clone, Copy, Debug, PartialEq, Eq)]
pub enum Cell {
    Base(BaseCell),
    Composite(CompositeCell),
}

/// What identifies a node's content: the leaf value, or the depth and slot of
/// each of the four children.
pub type CellKey = (usize, usize, usize, usize, usize, usize, usize, usize, usize);

impl Cell {
    /// The node with its memo cleared: the part that never changes.
    pub open spec fn content(&self) -> Cell {
        match *self {
            Cell::Base(b) => Cell::Base(b),
            Cell::Composite(c) => Cell::Composite(CompositeCell { next_gen: None, ..c }),
        }
    }

    pub open spec fn spec_key(&self) -> CellKey {
        match *self {
            Cell::Base(BaseCell::Dead) => (0, 0, 0, 0, 0, 0, 0, 0, 0),
            Cell::Base(BaseCell::Alive) => (1, 0, 0, 0, 0, 0, 0, 0, 0),
            Cell::Composite(c) => (
                2,
                c.nw.spec_layer() as usize,
                c.nw.spec_index() as usize,
                c.ne.spec_layer() as usize,
                c.ne.spec_index() as usize,
                c.sw.spec_layer() as usize,
                c.sw.spec_index() as usize,
                c.se.spec_layer() as usize,
                c.se.spec_index() as usize,
            ),
        }
    }

    pub open spec fn spec_layer(&self) -> nat {
        match *self {
            Cell::Base(_) => 0,
            Cell::Composite(c) => c.nw.spec_layer() + 1,
        }
    }

    pub open spec fn spec_alive_count(&self) -> nat {
        match *self {
            Cell::Base(BaseCell::Alive) => 1,
            Cell::Base(BaseCell::Dead) => 0,
            Cell::Composite(c) => c.nw.spec_alive() + c.ne.spec_alive() + c.sw.spec_alive()
                + c.se.spec_alive(),
        }
    }

    pub fn composite(nw: CellId, ne: CellId, sw: CellId, se: CellId) -> (r: Self)
        ensures
            r == Cell::Composite(CompositeCell { nw, ne, sw, se, next_gen: None }),
    {
        Cell::Composite(CompositeCell { nw, ne, sw, se, next_gen: None })
    }

    pub fn as_composite(&self) -> (r: &CompositeCell)
        requires
            self is Composite,
        ensures
            *r == self->Composite_0,
    {
        match self {
            Cell::Composite(cell) => cell,
            Cell::Base(_) => unreached(),
        }
    }

    pub fn key(&self) -> (r: CellKey)
        ensures
            r == self.spec_key(),
    {
        match self {
            Cell::Base(BaseCell::Dead) => (0, 0, 0, 0, 0, 0, 0, 0, 0),
            Cell::Base(BaseCell::Alive) => (1, 0, 0, 0, 0, 0, 0, 0, 0),
            Cell::Composite(c) => (
                2,
                c.nw.layer(),
                c.nw.index(),
                c.ne.layer(),
                c.ne.index(),
                c.sw.layer(),
                c.sw.index(),
                c.se.layer(),
                c.se.index(),
            ),
        }
    }

    pub fn layer(&self) -> (r: u8)
        requires
            self.spec_layer() < 256,
        ensures
            r == self.spec_layer(),
    {
        match self {
            Cell::Base(_) => 0,
            Cell::Composite(CompositeCell { nw, .. }) => (nw.layer() + 1) as u8,
        }
    }

    pub fn alive_count(&self) -> (r: u64)
        requires
            self.spec_alive_count() <= u64::MAX,
        ensures
            r == self.spec_alive_count(),
    {
        match self {
            Cell::Base(BaseCell::Alive) => 1,
            Cell::Base(BaseCell::Dead) => 0,
            Cell::Composite(cell) => cell.nw.alive() + cell.ne.alive() + cell.sw.alive()
                + cell.se.alive(),
        }
    }
}

} // verus!
