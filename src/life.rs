//! The engine: per-depth canonical arenas of quadtree nodes, the board's
//! root, and where the root lies in the plane.
pub mod cell;
pub mod cell_id;
pub mod generation;
pub mod import;
pub mod laws;
pub mod layer;
pub mod model;
pub mod pack_unpack;
pub mod powers;
pub mod print;
pub mod step;
pub mod tree;

use vstd::prelude::*;

use cell::{BaseCell, Cell};
use cell_id::CellId;
use layer::{has_key, Layer};
use model::{
    alive_at, arena_ok, cell_ok, extends, insertable, lemma_empty_is_dead, lemma_extends_ok,
    lemma_extends_refl, lemma_extends_trans, lemma_extends_valid, lemma_population_bound,
    lemma_same_key, memo_kept, memo_ok, node, shape_ok, slot_memo_ok, slot_ok, valid_ref, Arena,
};

verus! {

/// A bound on the origin's coordinates, far beyond any `i64` cell.
pub const ORIGIN_LIMIT: i128 = 0x1_0000_0000_0000_0000_0000_0000;

/// A hashlife engine: one canonical arena per depth, and the root of the
/// board.
#[derive(Clone, Debug)]
pub struct Life {
    pub root: CellId,
    pub layers: Vec<Layer>,
    pub base_alive: CellId,
    pub base_dead: CellId,
    /// The cell coordinates of the root's north-west corner.
    pub origin_x: i128,
    pub origin_y: i128,
}

impl Life {
    /// The contents of the arenas.
    pub open spec fn arena(&self) -> Arena {
        self.layers@.map_values(|l: Layer| l@)
    }

    /// The engine is consistent: every arena deduplicates, every node fits,
    /// every memo holds the true next generation, and the root and the two
    /// leaves are valid references.
    pub open spec fn wf(&self) -> bool {
        &&& 1 <= self.layers@.len() <= 32
        &&& forall|d: int| 0 <= d < self.layers@.len() ==> (#[trigger] self.layers@[d]).wf()
        &&& arena_ok(self.arena())
        &&& memo_ok(self.arena())
        &&& valid_ref(self.arena(), self.root)
        &&& self.base_alive.spec_layer() == 0
        &&& valid_ref(self.arena(), self.base_alive)
        &&& node(self.arena(), self.base_alive) == Cell::Base(BaseCell::Alive)
        &&& self.base_dead.spec_layer() == 0
        &&& valid_ref(self.arena(), self.base_dead)
        &&& node(self.arena(), self.base_dead) == Cell::Base(BaseCell::Dead)
        &&& -ORIGIN_LIMIT < self.origin_x < ORIGIN_LIMIT
        &&& -ORIGIN_LIMIT < self.origin_y < ORIGIN_LIMIT
    }

    /// `new` is `old` with its arenas grown: same root, same leaves, every old
    /// node kept.
    pub open spec fn only_grows(old: Life, new: Life) -> bool {
        &&& extends(old.arena(), new.arena())
        &&& new.root == old.root
        &&& new.base_alive == old.base_alive
        &&& new.base_dead == old.base_dead
        &&& new.origin_x == old.origin_x
        &&& new.origin_y == old.origin_y
    }

    /// The arenas of depth `k` and above are untouched.
    pub open spec fn same_above(old: Life, new: Life, k: nat) -> bool {
        forall|j: int| k <= j < old.arena().len() ==> #[trigger] new.arena()[j] == old.arena()[j]
    }

    pub proof fn lemma_only_grows_refl(a: Life)
        ensures
            Self::only_grows(a, a),
    {
        lemma_extends_refl(a.arena());
    }

    pub proof fn lemma_only_grows_trans(a: Life, b: Life, c: Life)
        requires
            Self::only_grows(a, b),
            Self::only_grows(b, c),
        ensures
            Self::only_grows(a, c),
    {
        lemma_extends_trans(a.arena(), b.arena(), c.arena());
    }

    /// An empty engine with `max_depth` arenas, whose root is a dead leaf.
    pub fn new(max_depth: u8) -> (r: Self)
        requires
            1 <= max_depth <= 32,
        ensures
            r.wf(),
            r.layers@.len() == max_depth,
            r.root.spec_layer() == 0,
            r.root.spec_alive() == 0,
            r.root == r.base_dead,
            r.arena()[0] == seq![Cell::Base(BaseCell::Alive), Cell::Base(BaseCell::Dead)],
            forall|d: int| 1 <= d < max_depth ==> #[trigger] r.arena()[d].len() == 0,
            r.origin_x == 0,
            r.origin_y == 0,
    {
        let mut layers: Vec<Layer> = Vec::new();
        let mut d: u8 = 0;
        while d < max_depth
            invariant
                d <= max_depth,
                layers@.len() == d,
                forall|k: int| 0 <= k < d ==> (#[trigger] layers@[k]).wf() && layers@[k]@.len() == 0,
            decreases max_depth - d,
        {
            layers.push(Layer::new());
            d = d + 1;
        }
        let alive_slot = layers[0].add_cell(Cell::Base(BaseCell::Alive));
        let dead_slot = layers[0].add_cell(Cell::Base(BaseCell::Dead));
        let base_alive = CellId::new(0, alive_slot, 1);
        let base_dead = CellId::new(0, dead_slot, 0);
        let ghost ls = layers@.map_values(|l: Layer| l@);
        proof {
            assert(alive_slot == 0);
            assert(dead_slot == 1);
            assert forall|k: int| 0 <= k < layers@.len() implies (#[trigger] layers@[k]).wf() by {}
            assert(ls[0] == seq![Cell::Base(BaseCell::Alive), Cell::Base(BaseCell::Dead)]);
            assert forall|k: int, i: int| 0 <= k < ls.len() && 0 <= i < ls[k].len() implies #[trigger] slot_ok(
                ls,
                k,
                i,
            ) by {
                assert(k == 0);
            }
            assert forall|k: int, i: int| 0 <= k < ls.len() && 0 <= i < ls[k].len() implies #[trigger] slot_memo_ok(
                ls,
                k,
                i,
            ) by {
                assert(k == 0);
            }
        }
        Life { layers, root: base_dead, base_alive, base_dead, origin_x: 0, origin_y: 0 }
    }

    /// Interns `cell` at its depth: the reference of a node with the same
    /// content if one exists, otherwise of a new node.
    pub fn add_cell(&mut self, cell: Cell) -> (r: CellId)
        requires
            old(self).wf(),
            insertable(old(self).arena(), cell),
        ensures
            final(self).wf(),
            Self::only_grows(*old(self), *final(self)),
            final(self).layers@.len() == old(self).layers@.len(),
            Self::same_above(*old(self), *final(self), cell.spec_layer() + 1),
            r.spec_layer() == cell.spec_layer(),
            valid_ref(final(self).arena(), r),
            node(final(self).arena(), r).content() == cell,
            r.spec_alive() == cell.spec_alive_count(),
            final(self).arena() == (if has_key(old(self).arena()[cell.spec_layer() as int], cell.spec_key()) {
                old(self).arena()
            } else {
                old(self).arena().update(
                    cell.spec_layer() as int,
                    old(self).arena()[cell.spec_layer() as int].push(cell),
                )
            }),
    {
        let ghost ls = self.arena();
        let ghost d = cell.spec_layer() as int;
        proof {
            lemma_population_bound(ls, d as nat, cell);
        }
        let layer = cell.layer() as usize;
        let alive = cell.alive_count();
        let index = self.layers[layer].add_cell(cell);
        let ghost ls2 = self.arena();
        proof {
            assert forall|k: int| 0 <= k < self.layers@.len() implies (#[trigger] self.layers@[k]).wf() by {
                if k != d {
                    assert(self.layers@[k] == old(self).layers@[k]);
                }
            }
            if has_key(ls[d], cell.spec_key()) {
                assert(ls2 =~= ls);
                lemma_extends_refl(ls);
                assert(slot_ok(ls, d, index as int));
                lemma_same_key(ls, d as nat, ls[d][index as int], cell);
            } else {
                assert(ls2 =~= ls.update(d, ls[d].push(cell)));
                assert(ls2[d][index as int] == cell);
                assert forall|k: int| 0 <= k < ls.len() implies ls[k].len() <= #[trigger] ls2[k].len() by {}
                assert forall|k: int, i: int| 0 <= k < ls.len() && 0 <= i < ls[k].len() implies (
                #[trigger] ls2[k][i]) == ls[k][i] by {}
                assert forall|k: int, i: int| 0 <= k < ls.len() && 0 <= i < ls[k].len() implies #[trigger] memo_kept(
                    ls,
                    ls2,
                    k,
                    i,
                ) by {
                    assert(ls2[k][i] == ls[k][i]);
                }
                assert(extends(ls, ls2));
                if d > 0 {
                    let c = cell->Composite_0;
                    lemma_extends_valid(ls, ls2, c.nw);
                    lemma_extends_valid(ls, ls2, c.ne);
                    lemma_extends_valid(ls, ls2, c.sw);
                    lemma_extends_valid(ls, ls2, c.se);
                }
                assert(cell_ok(ls2, d as nat, cell));
                lemma_extends_ok(ls, ls2);
            }
            lemma_extends_valid(ls, ls2, self.root);
            lemma_extends_valid(ls, ls2, self.base_alive);
            lemma_extends_valid(ls, ls2, self.base_dead);
        }
        CellId::new(layer, index, alive)
    }

    /// The node that `cell_id` names; `None` for a reference that names none.
    pub fn get_cell(&self, cell_id: CellId) -> (r: Option<&Cell>)
        ensures
            cell_id.spec_layer() < self.layers@.len() && cell_id.spec_index()
                < self.arena()[cell_id.spec_layer() as int].len() ==> r == Some(
                &node(self.arena(), cell_id),
            ),
            !(cell_id.spec_layer() < self.layers@.len() && cell_id.spec_index()
                < self.arena()[cell_id.spec_layer() as int].len()) ==> r is None,
    {
        let layer = cell_id.layer();
        if layer < self.layers.len() {
            self.layers[layer].get_cell(cell_id.index())
        } else {
            None
        }
    }

    /// The canonical all-dead node of depth `layer`.
    pub fn empty_of_layer(&mut self, layer: u8) -> (r: CellId)
        requires
            old(self).wf(),
            layer < old(self).layers@.len(),
        ensures
            final(self).wf(),
            Self::only_grows(*old(self), *final(self)),
            final(self).layers@.len() == old(self).layers@.len(),
            r.spec_layer() == layer,
            valid_ref(final(self).arena(), r),
            r.spec_alive() == 0,
            forall|x: int, y: int| !#[trigger] alive_at(final(self).arena(), r, x, y),
    {
        let mut empty_id = self.add_cell(Cell::Base(BaseCell::Dead));
        let mut d: u8 = 0;
        while d < layer
            invariant
                self.wf(),
                Self::only_grows(*old(self), *self),
                self.layers@.len() == old(self).layers@.len(),
                d <= layer,
                layer < self.layers@.len(),
                empty_id.spec_layer() == d,
                valid_ref(self.arena(), empty_id),
                empty_id.spec_alive() == 0,
            decreases layer - d,
        {
            let ghost before = *self;
            empty_id = self.add_cell(Cell::composite(empty_id, empty_id, empty_id, empty_id));
            proof {
                Self::lemma_only_grows_trans(*old(self), before, *self);
            }
            d = d + 1;
        }
        proof {
            assert forall|x: int, y: int| !#[trigger] alive_at(self.arena(), empty_id, x, y) by {
                lemma_empty_is_dead(self.arena(), empty_id.spec_layer(), empty_id.spec_index() as int, x, y);
            }
        }
        empty_id
    }
}

} // verus!
