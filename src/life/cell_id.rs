use vstd::prelude::*;

verus! {

/// Position of a node in the engine: the depth of its arena and its slot there.
#[derive(Clone, Copy, Debug, PartialEq, Eq, Hash, Structural)]
pub struct CellIndex {
    layer: u8,
    index: usize,
}

impl CellIndex {
    pub closed spec fn spec_layer(&self) -> nat {
        self.layer as nat
    }

    pub closed spec fn spec_index(&self) -> nat {
        self.index as nat
    }

    pub fn new(layer: u8, index: usize) -> (r: Self)
        ensures
            r.spec_layer() == layer,
            r.spec_index() == index,
    {
        CellIndex { layer, index }
    }

    pub fn index(&self) -> (r: usize)
        ensures
            r == self.spec_index(),
    {
        self.index
    }

    pub fn layer(&self) -> (r: usize)
        ensures
            r == self.spec_layer(),
    {
        self.layer as usize
    }
}

/// A copyable reference to a canonical node: its depth, its arena slot and
/// its population (the number of live cells below it). Depth and slot are
/// its identity; the population is derived data.
#[derive(Clone, Copy, Debug)]
pub struct CellId {
    alive: u64,
    index: CellIndex,
}

impl PartialEq for CellId {
    fn eq(&self, other: &Self) -> (r: bool) {
        self.index == other.index
    }
}

impl vstd::std_specs::cmp::PartialEqSpecImpl for CellId {
    open spec fn obeys_eq_spec() -> bool {
        true
    }

    open spec fn eq_spec(&self, other: &CellId) -> bool {
        self.same_node(*other)
    }
}

impl Eq for CellId {}

impl CellId {
    pub open spec fn spec_layer(&self) -> nat {
        self.spec_index_of().spec_layer()
    }

    pub open spec fn spec_index(&self) -> nat {
        self.spec_index_of().spec_index()
    }

    pub closed spec fn spec_index_of(&self) -> CellIndex {
        self.index
    }

    pub closed spec fn spec_alive(&self) -> nat {
        self.alive as nat
    }

    pub proof fn lemma_bounds(&self)
        ensures
            self.spec_layer() < 256,
            self.spec_index() <= usize::MAX,
            self.spec_alive() <= u64::MAX,
    {
    }

    /// The two references name the same node: same depth and same slot.
    pub open spec fn same_node(self, other: CellId) -> bool {
        self.spec_layer() == other.spec_layer() && self.spec_index() == other.spec_index()
    }

    /// Two references hold the same fields exactly when depth, slot and
    /// population agree.
    pub proof fn lemma_eq(a: CellId, b: CellId)
        ensures
            (a == b) <==> (a.spec_layer() == b.spec_layer() && a.spec_index() == b.spec_index()
                && a.spec_alive() == b.spec_alive()),
    {
    }

    pub fn new(layer: usize, index: usize, alive: u64) -> (r: Self)
        requires
            layer < 256,
        ensures
            r.spec_layer() == layer,
            r.spec_index() == index,
            r.spec_alive() == alive,
    {
        CellId { index: CellIndex::new(layer as u8, index), alive }
    }

    pub fn layer(&self) -> (r: usize)
        ensures
            r == self.spec_layer(),
    {
        self.index.layer()
    }

    pub fn index(&self) -> (r: usize)
        ensures
            r == self.spec_index(),
    {
        self.index.index()
    }

    pub fn alive(&self) -> (r: u64)
        ensures
            r == self.spec_alive(),
    {
        self.alive
    }
}

} // verus!
