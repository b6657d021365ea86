//! Padding the board with dead cells, and advancing it by one generation.
use vstd::arithmetic::power2::{
    lemma2_to64, lemma2_to64_rest, lemma_pow2_pos, lemma_pow2_strictly_increases, lemma_pow2_unfold, pow2,
};
use vstd::prelude::*;

use super::cell_id::CellId;
use super::model::{
    agrees, alive_at, embeds, extends, in_square, lemma_agrees_trans, lemma_child_agrees,
    lemma_empty_is_dead, lemma_extends_refl, lemma_padded_center,
    lemma_extends_shifted, lemma_extends_trans, lemma_extends_valid, lemma_extends_valid_all,
    lemma_extends_alive, lemma_extends_embeds, lemma_embeds_trans, lemma_join_agrees,
    lemma_unfold_at, next_ok, node, pattern_of, step_of, valid_ref, arena_ok, Arena,
};
use super::powers::pow2_i128;
use super::laws::lemma_population_is_live_count;
use super::tree::center_alive;
use super::{Life, ORIGIN_LIMIT};

verus! {

/// Where a node of depth `d` sits inside its padding, one depth larger.
pub open spec fn pad_offset(d: nat) -> int {
    if d == 0 {
        0
    } else {
        pow2((d - 1) as nat) as int
    }
}

/// The cells of the pattern in `p`, placed with `p`'s north-west corner at
/// `(ox, oy)`.
pub open spec fn placed(ls: Arena, p: CellId, ox: int, oy: int, a: int, b: int) -> bool {
    in_square(p.spec_layer(), a - ox, b - oy) && alive_at(ls, p, a - ox, b - oy)
}

/// Where `p` embeds the old root, the old board's cells are those of `p`
/// placed `off` cells up and left of the old origin.
proof fn lemma_world_point(old: Life, ls: Arena, p: CellId, off: int, a: int, b: int)
    requires
        old.wf(),
        arena_ok(ls),
        extends(old.arena(), ls),
        valid_ref(ls, p),
        embeds(ls, old.root, p, off),
        0 <= off,
        off + pow2(old.root.spec_layer()) <= pow2(p.spec_layer()),
    ensures
        old.live(a, b) == placed(ls, p, old.origin_x - off, old.origin_y - off, a, b),
{
    let (u, v) = (a - old.origin_x, b - old.origin_y);
    lemma_extends_alive(old.arena(), ls, old.root.spec_layer(), old.root.spec_index() as int, u, v);
    if in_square(old.root.spec_layer(), u, v) {
        assert(alive_at(ls, old.root, u, v) == (pattern_of(ls, p))(u + off, v + off));
    } else if in_square(p.spec_layer(), u + off, v + off) {
        assert(!alive_at(ls, p, u + off, v + off));
    }
}

/// The step's geometry gives the rule on the whole board: the new board's
/// cells are the old board's one generation on.
proof fn lemma_step_world(old: Life, new: Life, p: CellId, off: int)
    requires
        old.wf(),
        new.wf(),
        extends(old.arena(), new.arena()),
        valid_ref(new.arena(), p),
        p.spec_layer() >= 3,
        embeds(new.arena(), old.root, p, off),
        0 <= off,
        off + pow2(old.root.spec_layer()) <= pow2(p.spec_layer()),
        forall|x: int, y: int| in_square(p.spec_layer(), x, y) && #[trigger] alive_at(new.arena(), p, x, y) ==> {
            let u = pow2((p.spec_layer() - 3) as nat) as int;
            3 * u <= x < 5 * u && 3 * u <= y < 5 * u
        },
        next_ok(new.arena(), p.spec_layer(), p.spec_index() as int, new.root),
        new.origin_x == old.origin_x - off + pow2((p.spec_layer() - 2) as nat),
        new.origin_y == old.origin_y - off + pow2((p.spec_layer() - 2) as nat),
    ensures
        forall|x: int, y: int| #[trigger] new.live(x, y) == (step_of(old.world()))(x, y),
{
    let ls = new.arena();
    let dp = p.spec_layer();
    let u = pow2((dp - 3) as nat) as int;
    let q = pow2((dp - 2) as nat) as int;
    lemma_pow2_unfold((dp - 2) as nat);
    lemma_pow2_unfold((dp - 1) as nat);
    lemma_pow2_unfold(dp);
    lemma_pow2_pos((dp - 3) as nat);
    assert((dp - 2 - 1) as nat == (dp - 3) as nat);
    assert((dp - 1 - 1) as nat == (dp - 2) as nat);
    assert(q == 2 * u);
    let (opx, opy) = (old.origin_x - off, old.origin_y - off);
    assert forall|x: int, y: int| #[trigger] new.live(x, y) == (step_of(old.world()))(x, y) by {
        let w = old.world();
        let f = pattern_of(ls, p);
        let (a, b) = (x - opx, y - opy);
        if in_square(new.root.spec_layer(), x - new.origin_x, y - new.origin_y) {
            assert(new.live(x, y) == (step_of(f))(a, b));
            lemma_world_point(old, ls, p, off, x - 1, y - 1);
            assert(w(x - 1, y - 1) == f(a - 1, b - 1));
            lemma_world_point(old, ls, p, off, x, y - 1);
            assert(w(x, y - 1) == f(a, b - 1));
            lemma_world_point(old, ls, p, off, x + 1, y - 1);
            assert(w(x + 1, y - 1) == f(a + 1, b - 1));
            lemma_world_point(old, ls, p, off, x - 1, y);
            assert(w(x - 1, y) == f(a - 1, b));
            lemma_world_point(old, ls, p, off, x, y);
            assert(w(x, y) == f(a, b));
            lemma_world_point(old, ls, p, off, x + 1, y);
            assert(w(x + 1, y) == f(a + 1, b));
            lemma_world_point(old, ls, p, off, x - 1, y + 1);
            assert(w(x - 1, y + 1) == f(a - 1, b + 1));
            lemma_world_point(old, ls, p, off, x, y + 1);
            assert(w(x, y + 1) == f(a, b + 1));
            lemma_world_point(old, ls, p, off, x + 1, y + 1);
            assert(w(x + 1, y + 1) == f(a + 1, b + 1));
        } else {
            lemma_world_point(old, ls, p, off, x - 1, y - 1);
            if in_square(dp, a - 1, b - 1) && alive_at(ls, p, a - 1, b - 1) {
                assert(3 * u <= a - 1 < 5 * u && 3 * u <= b - 1 < 5 * u);
            }
            assert(!w(x - 1, y - 1));
            lemma_world_point(old, ls, p, off, x, y - 1);
            if in_square(dp, a, b - 1) && alive_at(ls, p, a, b - 1) {
                assert(3 * u <= a < 5 * u && 3 * u <= b - 1 < 5 * u);
            }
            assert(!w(x, y - 1));
            lemma_world_point(old, ls, p, off, x + 1, y - 1);
            if in_square(dp, a + 1, b - 1) && alive_at(ls, p, a + 1, b - 1) {
                assert(3 * u <= a + 1 < 5 * u && 3 * u <= b - 1 < 5 * u);
            }
            assert(!w(x + 1, y - 1));
            lemma_world_point(old, ls, p, off, x - 1, y);
            if in_square(dp, a - 1, b) && alive_at(ls, p, a - 1, b) {
                assert(3 * u <= a - 1 < 5 * u && 3 * u <= b < 5 * u);
            }
            assert(!w(x - 1, y));
            lemma_world_point(old, ls, p, off, x, y);
            if in_square(dp, a, b) && alive_at(ls, p, a, b) {
                assert(3 * u <= a < 5 * u && 3 * u <= b < 5 * u);
            }
            assert(!w(x, y));
            lemma_world_point(old, ls, p, off, x + 1, y);
            if in_square(dp, a + 1, b) && alive_at(ls, p, a + 1, b) {
                assert(3 * u <= a + 1 < 5 * u && 3 * u <= b < 5 * u);
            }
            assert(!w(x + 1, y));
            lemma_world_point(old, ls, p, off, x - 1, y + 1);
            if in_square(dp, a - 1, b + 1) && alive_at(ls, p, a - 1, b + 1) {
                assert(3 * u <= a - 1 < 5 * u && 3 * u <= b + 1 < 5 * u);
            }
            assert(!w(x - 1, y + 1));
            lemma_world_point(old, ls, p, off, x, y + 1);
            if in_square(dp, a, b + 1) && alive_at(ls, p, a, b + 1) {
                assert(3 * u <= a < 5 * u && 3 * u <= b + 1 < 5 * u);
            }
            assert(!w(x, y + 1));
            lemma_world_point(old, ls, p, off, x + 1, y + 1);
            if in_square(dp, a + 1, b + 1) && alive_at(ls, p, a + 1, b + 1) {
                assert(3 * u <= a + 1 < 5 * u && 3 * u <= b + 1 < 5 * u);
            }
            assert(!w(x + 1, y + 1));
        }
    }
}


impl Life {
    /// The board's live cells, as a function of the cell.
    pub open spec fn world(&self) -> spec_fn(int, int) -> bool {
        |x: int, y: int| self.live(x, y)
    }

    /// The root is padded: it has depth two or more and every live cell lies
    /// in its centred subnode.
    pub open spec fn root_padded(&self) -> bool {
        &&& self.root.spec_layer() >= 2
        &&& self.root.spec_alive() == center_alive(self.arena(), self.root)
    }

    /// One step turned `old` into `new`: the old root sits at `(o, o)` in a
    /// padded node `p` of the same population, and the new root is the next
    /// generation of `p`; the origin follows the new root.
    pub open spec fn stepped(old: Life, new: Life, p: CellId, o: int) -> bool {
        &&& valid_ref(new.arena(), p)
        &&& p.spec_layer() >= 3
        &&& p.spec_layer() <= old.root.spec_layer() + 3
        &&& p.spec_alive() == old.root.spec_alive()
        &&& agrees(new.arena(), old.root, pattern_of(new.arena(), p), o, o)
        &&& next_ok(new.arena(), p.spec_layer(), p.spec_index() as int, new.root)
        &&& new.origin_x == old.origin_x - o + pow2((p.spec_layer() - 2) as nat)
        &&& new.origin_y == old.origin_y - o + pow2((p.spec_layer() - 2) as nat)
    }

    /// Whether every live cell of `cell_id` lies in its centred subnode; false
    /// below depth two.
    pub fn is_padded(&mut self, cell_id: CellId) -> (r: bool)
        requires
            old(self).wf(),
            valid_ref(old(self).arena(), cell_id),
        ensures
            final(self).wf(),
            Self::only_grows(*old(self), *final(self)),
            final(self).layers@.len() == old(self).layers@.len(),
            r == (cell_id.spec_layer() >= 2 && cell_id.spec_alive() == center_alive(
                final(self).arena(),
                cell_id,
            )),
            cell_id.spec_layer() >= 2 ==> center_alive(final(self).arena(), cell_id)
                == center_alive(old(self).arena(), cell_id),
    {
        if cell_id.layer() < 2 {
            proof {
                lemma_extends_refl(self.arena());
            }
            return false;
        }
        let total = cell_id.alive();
        let center = self.centered_subnode(cell_id).alive();
        total == center
    }

    /// Advances the board by one generation: pads the root until every live
    /// cell lies in its centre, pads once more, and replaces the root by the
    /// next generation of that.
    pub fn step(&mut self)
        requires
            old(self).wf(),
            old(self).root.spec_layer() + 3 < old(self).layers@.len(),
            -ORIGIN_LIMIT / 2 < old(self).origin_x < ORIGIN_LIMIT / 2,
            -ORIGIN_LIMIT / 2 < old(self).origin_y < ORIGIN_LIMIT / 2,
        ensures
            final(self).wf(),
            final(self).layers@.len() == old(self).layers@.len(),
            final(self).base_alive == old(self).base_alive,
            final(self).base_dead == old(self).base_dead,
            extends(old(self).arena(), final(self).arena()),
            exists|p: CellId, o: int| Self::stepped(*old(self), *final(self), p, o),
            forall|x: int, y: int| #[trigger] final(self).live(x, y) == (step_of(old(self).world()))(x, y),
            old(self).root.spec_layer() <= final(self).root.spec_layer() <= old(self).root.spec_layer() + 2,
            final(self).live_set().finite(),
            final(self).root.spec_alive() == final(self).live_set().len(),
    {
        let ghost start = *self;
        let mut offset: i128 = 0;
        proof {
            lemma_extends_refl(self.arena());
            lemma2_to64();
            assert(embeds(self.arena(), start.root, self.root, 0));
        }
        loop
            invariant
                self.wf(),
                start.wf(),
                extends(start.arena(), self.arena()),
                self.layers@.len() == start.layers@.len(),
                self.base_alive == start.base_alive,
                self.base_dead == start.base_dead,
                self.origin_x == start.origin_x,
                self.origin_y == start.origin_y,
                start.root.spec_layer() + 3 < start.layers@.len(),
                valid_ref(self.arena(), start.root),
                start.root.spec_layer() <= self.root.spec_layer() <= start.root.spec_layer() + 2,
                self.root.spec_alive() == start.root.spec_alive(),
                self.root.spec_layer() == start.root.spec_layer() + 2 ==> self.root_padded(),
                self.root.spec_layer() == start.root.spec_layer() + 1 && start.root.spec_layer() >= 1
                    ==> self.root_padded(),
                embeds(self.arena(), start.root, self.root, offset as int),
                0 <= offset,
                offset + pow2(start.root.spec_layer()) <= pow2(self.root.spec_layer()),
                self.root.spec_layer() < 32,
            ensures
                self.root.spec_layer() >= 2,
                self.root_padded(),
            decreases start.root.spec_layer() + 2 - self.root.spec_layer(),
        {
            let root = self.root;
            let ghost l0 = *self;
            let done = self.is_padded(root);
            let ghost l1 = *self;
            proof {
                lemma_extends_trans(start.arena(), l0.arena(), l1.arena());
                lemma_extends_embeds(l0.arena(), l1.arena(), start.root, root, offset as int);
                lemma_extends_valid(l0.arena(), l1.arena(), root);
                lemma_extends_valid(l0.arena(), l1.arena(), start.root);
            }
            if done {
                break;
            }
            let next = self.padded(root);
            let layer = root.layer();
            let shift = if layer == 0 { 0 } else { pow2_i128(layer - 1) };
            proof {
                let lf = self.arena();
                lemma_extends_trans(start.arena(), l1.arena(), lf);
                lemma_extends_embeds(l1.arena(), lf, start.root, root, offset as int);
                lemma_extends_valid(l1.arena(), lf, start.root);
                lemma_pow2_unfold((layer + 1) as nat);
                if layer > 0 {
                    lemma_pow2_unfold(layer as nat);
                }
                lemma_pow2_strictly_increases((layer + 1) as nat, 32);
                lemma2_to64();
                lemma_embeds_trans(lf, start.root, root, next, offset as int, shift as int);
            }
            offset = offset + shift;
            self.root = next;
        }
        let ghost l2 = *self;
        let root = self.root;
        let p = self.padded(root);
        let shift = pow2_i128(root.layer() - 1);
        let ghost l3 = *self;
        proof {
            let lf = self.arena();
            lemma_extends_embeds(l2.arena(), lf, start.root, root, offset as int);
            lemma_extends_valid(l2.arena(), lf, start.root);
            lemma_pow2_unfold((root.spec_layer() + 1) as nat);
            lemma_pow2_unfold(root.spec_layer());
            lemma_pow2_strictly_increases((root.spec_layer() + 1) as nat, 33);
            lemma2_to64();
            lemma2_to64_rest();
            lemma_embeds_trans(lf, start.root, root, p, offset as int, shift as int);
            let u = pow2((root.spec_layer() - 2) as nat) as int;
            assert((root.spec_layer() - 1 - 1) as nat == (root.spec_layer() - 2) as nat);
            assert((p.spec_layer() - 3) as nat == (root.spec_layer() - 2) as nat);
            assert forall|x: int, y: int| in_square(p.spec_layer(), x, y) && #[trigger] alive_at(lf, p, x, y)
                implies 3 * u <= x < 5 * u && 3 * u <= y < 5 * u by {
                if in_square(root.spec_layer(), x - shift, y - shift) {
                    assert(alive_at(lf, root, x - shift, y - shift));
                    lemma_extends_alive(l2.arena(), lf, root.spec_layer(), root.spec_index() as int, x - shift, y - shift);
                    if !(u <= x - shift < 3 * u && u <= y - shift < 3 * u) {
                        lemma_padded_center(l2.arena(), root, x - shift, y - shift);
                    }
                }
            }
        }
        offset = offset + shift;
        self.root = p;
        let res = self.next_generation(p);
        let rise = pow2_i128(p.layer() - 2);
        proof {
            let lf = self.arena();
            lemma_extends_trans(start.arena(), l2.arena(), l3.arena());
            lemma_extends_trans(start.arena(), l3.arena(), lf);
            lemma_extends_valid(l3.arena(), lf, p);
            lemma_extends_valid(l3.arena(), lf, start.root);
            lemma_extends_shifted(l3.arena(), lf, start.root, p, offset as int, offset as int);
            lemma_extends_embeds(l3.arena(), lf, start.root, p, offset as int);
            lemma_pow2_pos(start.root.spec_layer());
            lemma_pow2_strictly_increases(p.spec_layer(), 32);
            lemma2_to64();
            let u = pow2((p.spec_layer() - 3) as nat) as int;
            assert forall|x: int, y: int| in_square(p.spec_layer(), x, y) && #[trigger] alive_at(lf, p, x, y)
                implies 3 * u <= x < 5 * u && 3 * u <= y < 5 * u by {
                lemma_extends_alive(l3.arena(), lf, p.spec_layer(), p.spec_index() as int, x, y);
                assert(alive_at(l3.arena(), p, x, y));
            }
        }
        self.origin_x = self.origin_x - offset + rise;
        self.origin_y = self.origin_y - offset + rise;
        self.root = res;
        proof {
            lemma_step_world(start, *self, p, offset as int);
            lemma_population_is_live_count(*self);
            assert(Self::stepped(start, *self, p, offset as int));
        }
    }

    /// The node one depth larger with `cell_id` at its centre and dead cells
    /// around it (a leaf goes to the north-west corner).
    pub fn padded(&mut self, cell_id: CellId) -> (r: CellId)
        requires
            old(self).wf(),
            valid_ref(old(self).arena(), cell_id),
            cell_id.spec_layer() + 1 < old(self).layers@.len(),
        ensures
            final(self).wf(),
            Self::only_grows(*old(self), *final(self)),
            final(self).layers@.len() == old(self).layers@.len(),
            r.spec_layer() == cell_id.spec_layer() + 1,
            valid_ref(final(self).arena(), r),
            r.spec_alive() == cell_id.spec_alive(),
            agrees(
                final(self).arena(),
                cell_id,
                pattern_of(final(self).arena(), r),
                pad_offset(cell_id.spec_layer()),
                pad_offset(cell_id.spec_layer()),
            ),
            cell_id.spec_layer() >= 1 ==> center_alive(final(self).arena(), r)
                == cell_id.spec_alive(),
            embeds(final(self).arena(), cell_id, r, pad_offset(cell_id.spec_layer())),
    {
        let layer = cell_id.layer();
        if layer > 0 {
            let ghost l0 = *self;
            let (cnw, cne, csw, cse) = self.quadrants(cell_id);
            let empty = self.empty_of_layer((layer - 1) as u8);
            let ghost l1 = *self;
            proof {
                lemma_extends_valid_all(l0.arena(), l1.arena());
            }
            let nw = self.join(empty, empty, empty, cnw);
            let ghost l2 = *self;
            proof {
                lemma_extends_valid_all(l1.arena(), l2.arena());
            }
            let ne = self.join(empty, empty, cne, empty);
            let ghost l3 = *self;
            proof {
                lemma_extends_valid_all(l2.arena(), l3.arena());
            }
            let sw = self.join(empty, csw, empty, empty);
            let ghost l4 = *self;
            proof {
                lemma_extends_valid_all(l3.arena(), l4.arena());
            }
            let se = self.join(cse, empty, empty, empty);
            let ghost l5 = *self;
            proof {
                lemma_extends_valid_all(l4.arena(), l5.arena());
            }
            let r = self.join(nw, ne, sw, se);
            proof {
                let lf = self.arena();
                lemma_extends_trans(l4.arena(), l5.arena(), lf);
                lemma_extends_trans(l3.arena(), l4.arena(), lf);
                lemma_extends_trans(l2.arena(), l3.arena(), lf);
                lemma_extends_trans(l1.arena(), l2.arena(), lf);
                lemma_extends_trans(l0.arena(), l1.arena(), lf);
                lemma_extends_valid(l0.arena(), lf, cell_id);
                lemma_extends_valid(l2.arena(), lf, nw);
                lemma_extends_valid(l3.arena(), lf, ne);
                lemma_extends_valid(l4.arena(), lf, sw);
                lemma_extends_valid(l5.arena(), lf, se);
                let f = pattern_of(lf, r);
                let h = pow2((layer - 1) as nat) as int;
                lemma_unfold_at(lf, r, 0, 0);
                lemma_unfold_at(lf, cell_id, 0, 0);
                assert(agrees(lf, r, f, 0, 0));
                lemma_child_agrees(lf, r, f, 0, 0);
                lemma_child_agrees(lf, nw, f, 0, 0);
                lemma_child_agrees(lf, ne, f, 2 * h, 0);
                lemma_child_agrees(lf, sw, f, 0, 2 * h);
                lemma_child_agrees(lf, se, f, 2 * h, 2 * h);
                lemma_join_agrees(lf, cell_id, f, h, h);
                lemma_pow2_unfold((layer + 1) as nat);
                assert((layer + 1 - 2) as nat == (layer - 1) as nat);
                assert forall|x: int, y: int|
                    in_square(r.spec_layer(), x, y) && !in_square(cell_id.spec_layer(), x - h, y - h)
                        implies !#[trigger] alive_at(lf, r, x, y) by {
                    lemma_padded_center(lf, r, x, y);
                }
            }
            r
        } else {
            let ghost l0 = *self;
            let empty = self.empty_of_layer(0);
            let ghost l1 = *self;
            proof {
                lemma_extends_valid_all(l0.arena(), l1.arena());
            }
            let r = self.join(cell_id, empty, empty, empty);
            proof {
                let lf = self.arena();
                lemma_extends_trans(l0.arena(), l1.arena(), lf);
                let f = pattern_of(lf, r);
                assert(agrees(lf, r, f, 0, 0));
                lemma_child_agrees(lf, r, f, 0, 0);
                lemma2_to64();
                assert forall|x: int, y: int|
                    in_square(r.spec_layer(), x, y) && !in_square(cell_id.spec_layer(), x, y)
                        implies !#[trigger] alive_at(lf, r, x, y) by {
                    lemma_unfold_at(lf, r, x, y);
                    lemma_empty_is_dead(lf, 0, empty.spec_index() as int, x - 1, y);
                    lemma_empty_is_dead(lf, 0, empty.spec_index() as int, x, y - 1);
                    lemma_empty_is_dead(lf, 0, empty.spec_index() as int, x - 1, y - 1);
                }
            }
            r
        }
    }
}

} // verus!
