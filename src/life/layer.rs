use std::collections::BTreeMap;

use vstd::prelude::*;

use super::cell::{Cell, CellKey, CompositeCell};
use super::cell_id::CellId;

verus! {

broadcast use vstd::std_specs::btree::group_btree_axioms, vstd::laws_cmp::group_laws_cmp;

/// No two nodes of the sequence have the same content key.
pub open spec fn keys_unique(s: Seq<Cell>) -> bool {
    forall|i: int, j: int|
        0 <= i < s.len() && 0 <= j < s.len() && i != j ==> #[trigger] s[i].spec_key()
            != #[trigger] s[j].spec_key()
}

/// Some node of the sequence has this content key.
pub open spec fn has_key(s: Seq<Cell>, k: CellKey) -> bool {
    exists|i: int| 0 <= i < s.len() && #[trigger] s[i].spec_key() == k
}

/// The canonical arena of one depth: an append-only list of nodes and a
/// reverse lookup from content to slot.
#[derive(Clone, Debug)]
pub struct Layer {
    /// How many insertions were asked of this arena (saturating).
    calls: usize,
    cells: Vec<Cell>,
    cells_index_lookup: BTreeMap<CellKey, usize>,
}

impl View for Layer {
    type V = Seq<Cell>;

    closed spec fn view(&self) -> Seq<Cell> {
        self.cells@
    }
}

impl Layer {
    pub closed spec fn lookup_wf(&self) -> bool {
        &&& forall|k: CellKey| #[trigger]
            self.cells_index_lookup@.contains_key(k) ==> {
                let i = self.cells_index_lookup@[k];
                &&& i < self.cells@.len()
                &&& self.cells@[i as int].spec_key() == k
            }
        &&& forall|i: int|
            0 <= i < self.cells@.len() ==> #[trigger] self.cells_index_lookup@.contains_key(
                self.cells@[i].spec_key(),
            )
    }

    /// The arena is consistent: slots are unique per content and the lookup
    /// agrees with the list.
    pub open spec fn wf(&self) -> bool {
        &&& keys_unique(self@)
        &&& self.lookup_wf()
    }

    pub closed spec fn spec_calls(&self) -> nat {
        self.calls as nat
    }

    /// How many insertions were asked of this arena (saturating at the
    /// largest `usize`).
    pub fn calls(&self) -> (r: usize)
        ensures
            r == self.spec_calls(),
    {
        self.calls
    }

    pub fn new() -> (r: Self)
        ensures
            r.wf(),
            r@ == Seq::<Cell>::empty(),
            r.spec_calls() == 0,
    {
        Layer { calls: 0, cells: Vec::new(), cells_index_lookup: BTreeMap::new() }
    }

    pub fn size(&self) -> (r: usize)
        ensures
            r == self@.len(),
    {
        self.cells.len()
    }

    /// Interns `cell`: the slot of a node with the same content if there is
    /// one, otherwise a new slot at the end.
    pub fn add_cell(&mut self, cell: Cell) -> (r: usize)
        requires
            old(self).wf(),
        ensures
            final(self).wf(),
            final(self).spec_calls() == (if old(self).spec_calls() < usize::MAX {
                old(self).spec_calls() + 1
            } else {
                old(self).spec_calls()
            }),
            has_key(old(self)@, cell.spec_key()) ==> {
                &&& final(self)@ == old(self)@
                &&& r < old(self)@.len()
                &&& old(self)@[r as int].spec_key() == cell.spec_key()
            },
            !has_key(old(self)@, cell.spec_key()) ==> {
                &&& final(self)@ == old(self)@.push(cell)
                &&& r == old(self)@.len()
            },
    {
        self.calls = self.calls.saturating_add(1);
        let key = cell.key();
        match self.cells_index_lookup.get(&key) {
            Some(index) => {
                let index = *index;
                proof {
                    assert(self.cells@[index as int].spec_key() == key);
                }
                index
            },
            None => {
                proof {
                    if has_key(self@, key) {
                        let i = choose|i: int| 0 <= i < self@.len() && #[trigger] self@[i].spec_key() == key;
                        assert(self.cells_index_lookup@.contains_key(self.cells@[i].spec_key()));
                    }
                }
                let cell_index = self.cells.len();
                self.cells_index_lookup.insert(key, cell_index);
                self.cells.push(cell);
                proof {
                    assert(self.cells@[cell_index as int] == cell);
                    assert forall|i: int| 0 <= i < self.cells@.len() implies
                        #[trigger] self.cells_index_lookup@.contains_key(self.cells@[i].spec_key()) by {
                        if i < cell_index {
                            assert(self.cells@[i] == old(self).cells@[i]);
                            assert(old(self).cells_index_lookup@.contains_key(old(self).cells@[i].spec_key()));
                        }
                    }
                    assert forall|k: CellKey| #[trigger]
                        self.cells_index_lookup@.contains_key(k) implies {
                            let i = self.cells_index_lookup@[k];
                            &&& i < self.cells@.len()
                            &&& self.cells@[i as int].spec_key() == k
                        } by {
                        if k != key {
                            assert(old(self).cells_index_lookup@.contains_key(k));
                        }
                    }
                    assert forall|i: int, j: int|
                        0 <= i < self.cells@.len() && 0 <= j < self.cells@.len() && i != j implies
                        #[trigger] self.cells@[i].spec_key() != #[trigger] self.cells@[j].spec_key() by {
                        if i == cell_index {
                            assert(old(self)@[j] == self@[j]);
                        } else if j == cell_index {
                            assert(old(self)@[i] == self@[i]);
                        } else {
                            assert(old(self)@[j] == self@[j]);
                            assert(old(self)@[i] == self@[i]);
                        }
                    }
                }
                cell_index
            },
        }
    }

    pub fn get_cell(&self, index: usize) -> (r: Option<&Cell>)
        ensures
            index < self@.len() ==> r == Some(&self@[index as int]),
            index >= self@.len() ==> r is None,
    {
        self.cells.get(index)
    }

    /// The memoized next generation of the composite that `cell_id` names.
    pub fn get_next_gen(&self, cell_id: CellId) -> (r: Option<&CellId>)
        requires
            cell_id.spec_index() < self@.len(),
            self@[cell_id.spec_index() as int] is Composite,
        ensures
            match r {
                Some(n) => self@[cell_id.spec_index() as int]->Composite_0.next_gen == Some(*n),
                None => self@[cell_id.spec_index() as int]->Composite_0.next_gen is None,
            },
    {
        match &self.cells[cell_id.index()] {
            Cell::Composite(c) => c.next_gen.as_ref(),
            Cell::Base(_) => unreached(),
        }
    }

    /// Records the next generation of the composite that `cell_id` names; a
    /// slot that holds no composite is left alone. The memo is written once.
    pub fn cache_next_gen(&mut self, cell_id: CellId, new_cell_id: CellId)
        requires
            old(self).wf(),
            cell_id.spec_index() < old(self)@.len() && old(self)@[cell_id.spec_index() as int] is Composite
                && old(self)@[cell_id.spec_index() as int]->Composite_0.next_gen is Some
                ==> old(self)@[cell_id.spec_index() as int]->Composite_0.next_gen == Some(new_cell_id),
        ensures
            final(self).wf(),
            final(self).spec_calls() == old(self).spec_calls(),
            final(self)@ == (if cell_id.spec_index() < old(self)@.len() && old(
                self,
            )@[cell_id.spec_index() as int] is Composite {
                old(self)@.update(
                    cell_id.spec_index() as int,
                    Cell::Composite(
                        CompositeCell {
                            next_gen: Some(new_cell_id),
                            ..old(self)@[cell_id.spec_index() as int]->Composite_0
                        },
                    ),
                )
            } else {
                old(self)@
            }),
    {
        let i = cell_id.index();
        if i < self.cells.len() {
            if let Cell::Composite(c) = self.cells[i] {
                let updated = Cell::Composite(CompositeCell { next_gen: Some(new_cell_id), ..c });
                self.cells.set(i, updated);
                proof {
                    assert(updated.spec_key() == old(self)@[i as int].spec_key());
                    assert forall|j: int| 0 <= j < self.cells@.len() implies
                        #[trigger] self.cells@[j].spec_key() == old(self).cells@[j].spec_key() by {}
                    assert forall|i: int, j: int|
                        0 <= i < self.cells@.len() && 0 <= j < self.cells@.len() && i != j implies
                        #[trigger] self.cells@[i].spec_key() != #[trigger] self.cells@[j].spec_key() by {
                        assert(self.cells@[i].spec_key() == old(self).cells@[i].spec_key());
                        assert(self.cells@[j].spec_key() == old(self).cells@[j].spec_key());
                    }
                    assert forall|i: int|
                        0 <= i < self.cells@.len() implies #[trigger] self.cells_index_lookup@.contains_key(
                            self.cells@[i].spec_key(),
                        ) by {
                        assert(self.cells@[i].spec_key() == old(self).cells@[i].spec_key());
                    }
                    assert forall|k: CellKey| #[trigger]
                        self.cells_index_lookup@.contains_key(k) implies {
                            let i = self.cells_index_lookup@[k];
                            &&& i < self.cells@.len()
                            &&& self.cells@[i as int].spec_key() == k
                        } by {
                        let i = self.cells_index_lookup@[k];
                        assert(self.cells@[i as int].spec_key() == old(self).cells@[i as int].spec_key());
                    }
                }
            }
        }
    }
}

impl Default for Layer {
    fn default() -> (r: Self)
        ensures
            r.wf(),
            r@ == Seq::<Cell>::empty(),
            r.spec_calls() == 0,
    {
        Layer::new()
    }
}

} // verus!
