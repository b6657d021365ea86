//! The memoized recursive generation step.
use vstd::arithmetic::power2::{lemma2_to64, lemma_pow2_pos, lemma_pow2_unfold, pow2};
use vstd::prelude::*;

use super::cell_id::CellId;
use super::cell::{Cell, CompositeCell};
use super::model::{
    agrees, alive_at, b2i, extends, in_square, lemma_agrees_congr, lemma_agrees_trans,
    lemma_child_agrees, lemma_extends_chain, lemma_extends_next_ok, lemma_extends_trans, lemma_extends_quad4,
    lemma_extends_refl, lemma_extends_shifted, lemma_extends_valid, lemma_extends_valid_all,
    lemma_agrees_at, lemma_compose_next, lemma_join_agrees, lemma_leaf_alive, lemma_set_memo, lemma_step_congr,
    lemma_unfold_at, life_rule, next_ok, node, pattern_of, quad4, side_by_side, slot_memo_ok,
    stacked, step_of, valid_ref,
};
use super::Life;

verus! {

/// Conway's rule on a cell and its eight neighbours.
fn rule(
    alive: bool,
    n0: bool,
    n1: bool,
    n2: bool,
    n3: bool,
    n4: bool,
    n5: bool,
    n6: bool,
    n7: bool,
) -> (r: bool)
    ensures
        r == life_rule(
            alive,
            b2i(n0) + b2i(n1) + b2i(n2) + b2i(n3) + b2i(n4) + b2i(n5) + b2i(n6) + b2i(n7),
        ),
{
    let mut count: u8 = 0;
    if n0 {
        count = count + 1;
    }
    if n1 {
        count = count + 1;
    }
    if n2 {
        count = count + 1;
    }
    if n3 {
        count = count + 1;
    }
    if n4 {
        count = count + 1;
    }
    if n5 {
        count = count + 1;
    }
    if n6 {
        count = count + 1;
    }
    if n7 {
        count = count + 1;
    }
    count == 3 || (alive && count == 2)
}

impl Life {
    /// After a generation step on `cell_id` returned `r`, its memo holds `r`;
    /// where the memo was already set, `r` is what it held and nothing
    /// changed.
    pub open spec fn memo_result(old: Life, new: Life, cell_id: CellId, r: CellId) -> bool {
        &&& node(new.arena(), cell_id)->Composite_0.next_gen == Some(r)
        &&& node(old.arena(), cell_id)->Composite_0.next_gen is Some ==> r == node(
            old.arena(),
            cell_id,
        )->Composite_0.next_gen->Some_0 && new == old
    }

    /// The cell at `(x, y)` of four nodes of depth one laid out as quadrants.
    fn grid_cell(&self, nw: CellId, ne: CellId, sw: CellId, se: CellId, x: usize, y: usize) -> (r:
        bool)
        requires
            self.wf(),
            valid_ref(self.arena(), nw),
            valid_ref(self.arena(), ne),
            valid_ref(self.arena(), sw),
            valid_ref(self.arena(), se),
            nw.spec_layer() == 1,
            ne.spec_layer() == 1,
            sw.spec_layer() == 1,
            se.spec_layer() == 1,
            x < 4,
            y < 4,
        ensures
            r == (quad4(self.arena(), nw, ne, sw, se, 2))(x as int, y as int),
    {
        let q = if y < 2 {
            if x < 2 {
                nw
            } else {
                ne
            }
        } else {
            if x < 2 {
                sw
            } else {
                se
            }
        };
        let (lx, ly) = (x % 2, y % 2);
        let (a, b, c, d) = self.quadrants(q);
        let l = if ly == 0 {
            if lx == 0 {
                a
            } else {
                b
            }
        } else {
            if lx == 0 {
                c
            } else {
                d
            }
        };
        proof {
            lemma2_to64();
            lemma_unfold_at(self.arena(), q, lx as int, ly as int);
            lemma_leaf_alive(self.arena(), l);
        }
        l.alive() > 0
    }

    /// The next state of the inner cell `(x, y)` of four nodes of depth one
    /// laid out as quadrants.
    fn grid_next(&self, nw: CellId, ne: CellId, sw: CellId, se: CellId, x: usize, y: usize) -> (r:
        bool)
        requires
            self.wf(),
            valid_ref(self.arena(), nw),
            valid_ref(self.arena(), ne),
            valid_ref(self.arena(), sw),
            valid_ref(self.arena(), se),
            nw.spec_layer() == 1,
            ne.spec_layer() == 1,
            sw.spec_layer() == 1,
            se.spec_layer() == 1,
            1 <= x <= 2,
            1 <= y <= 2,
        ensures
            r == (step_of(quad4(self.arena(), nw, ne, sw, se, 2)))(x as int, y as int),
    {
        rule(
            self.grid_cell(nw, ne, sw, se, x, y),
            self.grid_cell(nw, ne, sw, se, x - 1, y - 1),
            self.grid_cell(nw, ne, sw, se, x, y - 1),
            self.grid_cell(nw, ne, sw, se, x + 1, y - 1),
            self.grid_cell(nw, ne, sw, se, x - 1, y),
            self.grid_cell(nw, ne, sw, se, x + 1, y),
            self.grid_cell(nw, ne, sw, se, x - 1, y + 1),
            self.grid_cell(nw, ne, sw, se, x, y + 1),
            self.grid_cell(nw, ne, sw, se, x + 1, y + 1),
        )
    }

    /// The next generation of the centre of four nodes of depth one laid out
    /// as quadrants: a node of depth one.
    pub fn next_generation_base_case(&mut self, nw: CellId, ne: CellId, sw: CellId, se: CellId) -> (r:
        CellId)
        requires
            old(self).wf(),
            valid_ref(old(self).arena(), nw),
            valid_ref(old(self).arena(), ne),
            valid_ref(old(self).arena(), sw),
            valid_ref(old(self).arena(), se),
            nw.spec_layer() == 1,
            ne.spec_layer() == 1,
            sw.spec_layer() == 1,
            se.spec_layer() == 1,
            old(self).layers@.len() > 1,
        ensures
            final(self).wf(),
            Self::only_grows(*old(self), *final(self)),
            final(self).layers@.len() == old(self).layers@.len(),
            Self::same_above(*old(self), *final(self), 2),
            r.spec_layer() == 1,
            valid_ref(final(self).arena(), r),
            agrees(final(self).arena(), r, step_of(quad4(final(self).arena(), nw, ne, sw, se, 2)), 1, 1),
    {
        let ghost ls = self.arena();
        let base_alive = self.base_alive;
        let base_dead = self.base_dead;
        let o00 = if self.grid_next(nw, ne, sw, se, 1, 1) { base_alive } else { base_dead };
        let o01 = if self.grid_next(nw, ne, sw, se, 2, 1) { base_alive } else { base_dead };
        let o10 = if self.grid_next(nw, ne, sw, se, 1, 2) { base_alive } else { base_dead };
        let o11 = if self.grid_next(nw, ne, sw, se, 2, 2) { base_alive } else { base_dead };
        let r = self.join(o00, o01, o10, o11);
        proof {
            let ls2 = self.arena();
            lemma2_to64();
            lemma_extends_quad4(ls, ls2, nw, ne, sw, se, 2);
            let g = quad4(ls2, nw, ne, sw, se, 2);
            let g0 = quad4(ls, nw, ne, sw, se, 2);
            lemma_leaf_alive(ls2, o00);
            lemma_leaf_alive(ls2, o01);
            lemma_leaf_alive(ls2, o10);
            lemma_leaf_alive(ls2, o11);
            assert forall|x: int, y: int| in_square(1, x, y) implies #[trigger] alive_at(ls2, r, x, y)
                == (step_of(g))(x + 1, y + 1) by {
                lemma_unfold_at(ls2, r, x, y);
                lemma_step_congr(g, g0, x + 1, y + 1);
            }
        }
        r
    }

    /// Builds the canonical node one depth smaller at the centre of
    /// `cell_id`, one generation on, and memoizes it.
    pub fn next_generation(&mut self, cell_id: CellId) -> (r: CellId)
        requires
            old(self).wf(),
            valid_ref(old(self).arena(), cell_id),
            cell_id.spec_layer() >= 2,
        ensures
            final(self).wf(),
            Self::only_grows(*old(self), *final(self)),
            final(self).layers@.len() == old(self).layers@.len(),
            Self::same_above(*old(self), *final(self), cell_id.spec_layer() + 1),
            next_ok(final(self).arena(), cell_id.spec_layer(), cell_id.spec_index() as int, r),
            Self::memo_result(*old(self), *final(self), cell_id, r),
        decreases cell_id.spec_layer(),
    {
        let d = cell_id.layer();
        proof {
            lemma_unfold_at(self.arena(), cell_id, 0, 0);
            assert(slot_memo_ok(self.arena(), d as int, cell_id.spec_index() as int));
        }
        if let Some(next_gen_id) = self.layers[d].get_next_gen(cell_id) {
            proof {
                lemma_extends_refl(self.arena());
            }
            return *next_gen_id;
        }
        if d == 2 {
            let (nw, ne, sw, se) = self.quadrants(cell_id);
            let ghost l0 = *self;
            let res = self.next_generation_base_case(nw, ne, sw, se);
            proof {
                let lf = self.arena();
                lemma2_to64();
                lemma_extends_valid(l0.arena(), lf, cell_id);
                let g = quad4(lf, nw, ne, sw, se, 2);
                let f = pattern_of(lf, cell_id);
                assert forall|x: int, y: int| #[trigger] g(x, y) == f(x, y) by {
                    lemma_unfold_at(lf, cell_id, x, y);
                }
                assert forall|x: int, y: int| in_square(1, x, y) implies #[trigger] alive_at(lf, res, x, y)
                    == (step_of(f))(x + 1, y + 1) by {
                    lemma_step_congr(g, f, x + 1, y + 1);
                }
                assert(lf[2] == l0.arena()[2]);
            }
            let ghost l1 = *self;
            self.cache_next_gen(cell_id, res);
            proof {
                lemma_extends_trans(l0.arena(), l1.arena(), self.arena());
            }
            return res;
        }
        let ghost l0 = *self;
        let qnw = self.quadrant(cell_id, 0, 0);
        let ghost l1 = *self;
        proof {
            lemma_extends_valid_all(l0.arena(), l1.arena());
            assert(l1.arena()[d as int] == l0.arena()[d as int]);
        }
        let qne = self.quadrant(cell_id, 0, 1);
        let ghost l2 = *self;
        proof {
            lemma_extends_valid_all(l1.arena(), l2.arena());
            assert(l2.arena()[d as int] == l1.arena()[d as int]);
        }
        let qsw = self.quadrant(cell_id, 1, 0);
        let ghost l3 = *self;
        proof {
            lemma_extends_valid_all(l2.arena(), l3.arena());
            assert(l3.arena()[d as int] == l2.arena()[d as int]);
        }
        let qse = self.quadrant(cell_id, 1, 1);
        let ghost l4 = *self;
        proof {
            lemma_extends_valid_all(l3.arena(), l4.arena());
            assert(l4.arena()[d as int] == l3.arena()[d as int]);
        }
        let rnw = self.next_generation(qnw);
        let ghost l5 = *self;
        proof {
            lemma_extends_valid_all(l4.arena(), l5.arena());
            assert(l5.arena()[d as int] == l4.arena()[d as int]);
        }
        let rne = self.next_generation(qne);
        let ghost l6 = *self;
        proof {
            lemma_extends_valid_all(l5.arena(), l6.arena());
            assert(l6.arena()[d as int] == l5.arena()[d as int]);
        }
        let rsw = self.next_generation(qsw);
        let ghost l7 = *self;
        proof {
            lemma_extends_valid_all(l6.arena(), l7.arena());
            assert(l7.arena()[d as int] == l6.arena()[d as int]);
        }
        let rse = self.next_generation(qse);
        let ghost l8 = *self;
        proof {
            lemma_extends_valid_all(l7.arena(), l8.arena());
            assert(l8.arena()[d as int] == l7.arena()[d as int]);
        }
        let res = self.join(rnw, rne, rsw, rse);
        let ghost l9 = *self;
        proof {
            lemma_extends_valid_all(l8.arena(), l9.arena());
            assert(l9.arena()[d as int] == l8.arena()[d as int]);
        }
        proof {
            lemma_extends_trans(l7.arena(), l8.arena(), l9.arena());
            lemma_extends_trans(l6.arena(), l7.arena(), l9.arena());
            lemma_extends_trans(l5.arena(), l6.arena(), l9.arena());
            lemma_extends_trans(l4.arena(), l5.arena(), l9.arena());
            lemma_extends_trans(l3.arena(), l4.arena(), l9.arena());
            lemma_extends_trans(l2.arena(), l3.arena(), l9.arena());
            lemma_extends_trans(l1.arena(), l2.arena(), l9.arena());
            lemma_extends_trans(l0.arena(), l1.arena(), l9.arena());
            let lf = l9.arena();
            let n = cell_id;
            let q = pow2((n.spec_layer() - 3) as nat) as int;
            assert((2 * 0 + 1) * q == q && (2 * 1 + 1) * q == 3 * q) by (nonlinear_arith);
            lemma_agrees_at(l1.arena(), qnw, pattern_of(l1.arena(), n), (2 * 0 + 1) * q, (2 * 0 + 1) * q, q, q);
            lemma_agrees_at(l2.arena(), qne, pattern_of(l2.arena(), n), (2 * 1 + 1) * q, (2 * 0 + 1) * q, 3 * q, q);
            lemma_agrees_at(l3.arena(), qsw, pattern_of(l3.arena(), n), (2 * 0 + 1) * q, (2 * 1 + 1) * q, q, 3 * q);
            lemma_agrees_at(l4.arena(), qse, pattern_of(l4.arena(), n), (2 * 1 + 1) * q, (2 * 1 + 1) * q, 3 * q, 3 * q);
            lemma_extends_shifted(l1.arena(), lf, qnw, n, q, q);
            lemma_extends_shifted(l2.arena(), lf, qne, n, 3 * q, q);
            lemma_extends_shifted(l3.arena(), lf, qsw, n, q, 3 * q);
            lemma_extends_shifted(l4.arena(), lf, qse, n, 3 * q, 3 * q);
            lemma_extends_next_ok(l5.arena(), lf, (d - 1) as nat, qnw.spec_index() as int, rnw);
            lemma_extends_next_ok(l6.arena(), lf, (d - 1) as nat, qne.spec_index() as int, rne);
            lemma_extends_next_ok(l7.arena(), lf, (d - 1) as nat, qsw.spec_index() as int, rsw);
            lemma_extends_next_ok(l8.arena(), lf, (d - 1) as nat, qse.spec_index() as int, rse);
            lemma_compose_next(lf, n, qnw, qne, qsw, qse, rnw, rne, rsw, rse, res);
            lemma_extends_valid(l0.arena(), lf, n);
        }
        let ghost l10 = *self;
        self.cache_next_gen(cell_id, res);
        proof {
            Self::lemma_only_grows_trans(l0, l10, *self);
        }
        res
    }

    /// Records `res` as the next generation of `cell_id`.
    fn cache_next_gen(&mut self, cell_id: CellId, res: CellId)
        requires
            old(self).wf(),
            valid_ref(old(self).arena(), cell_id),
            cell_id.spec_layer() >= 2,
            node(old(self).arena(), cell_id) is Composite,
            node(old(self).arena(), cell_id)->Composite_0.next_gen is None,
            next_ok(old(self).arena(), cell_id.spec_layer(), cell_id.spec_index() as int, res),
        ensures
            final(self).wf(),
            Self::only_grows(*old(self), *final(self)),
            final(self).layers@.len() == old(self).layers@.len(),
            Self::same_above(*old(self), *final(self), cell_id.spec_layer() + 1),
            node(final(self).arena(), cell_id)->Composite_0.next_gen == Some(res),
            next_ok(final(self).arena(), cell_id.spec_layer(), cell_id.spec_index() as int, res),
    {
        let ghost ls = self.arena();
        let ghost d = cell_id.spec_layer() as int;
        let ghost i = cell_id.spec_index() as int;
        self.layers[cell_id.layer()].cache_next_gen(cell_id, res);
        proof {
            lemma_set_memo(ls, d, i, res);
            assert(self.arena() =~= ls.update(
                d,
                ls[d].update(
                    i,
                    Cell::Composite(CompositeCell { next_gen: Some(res), ..ls[d][i]->Composite_0 }),
                ),
            ));
            assert forall|k: int| 0 <= k < self.layers@.len() implies (#[trigger] self.layers@[k]).wf() by {
                if k != d {
                    assert(self.layers@[k] == old(self).layers@[k]);
                }
            }
            lemma_extends_valid(ls, self.arena(), self.root);
            lemma_extends_valid(ls, self.arena(), self.base_alive);
            lemma_extends_valid(ls, self.arena(), self.base_dead);
            assert(slot_memo_ok(self.arena(), d, i));
        }
    }

    /// One of the nine overlapping windows of `cell_id` (row `i`, column
    /// `j`): a node a quarter of its size, offset by an odd number of eighths.
    fn centered_window(&mut self, cell_id: CellId, i: usize, j: usize) -> (r: CellId)
        requires
            old(self).wf(),
            valid_ref(old(self).arena(), cell_id),
            cell_id.spec_layer() >= 3,
            i < 3,
            j < 3,
        ensures
            final(self).wf(),
            Self::only_grows(*old(self), *final(self)),
            final(self).layers@.len() == old(self).layers@.len(),
            Self::same_above(*old(self), *final(self), (cell_id.spec_layer() - 1) as nat),
            r.spec_layer() + 2 == cell_id.spec_layer(),
            valid_ref(final(self).arena(), r),
            agrees(
                final(self).arena(),
                r,
                pattern_of(final(self).arena(), cell_id),
                (2 * j + 1) * pow2((cell_id.spec_layer() - 3) as nat),
                (2 * i + 1) * pow2((cell_id.spec_layer() - 3) as nat),
            ),
    {
        let ghost d = cell_id.spec_layer();
        let (nw, ne, sw, se) = self.quadrants(cell_id);
        let ghost l0 = *self;
        let r = if i == 0 && j == 0 {
            self.centered_subnode(nw)
        } else if i == 0 && j == 1 {
            self.centered_horizontal(nw, ne)
        } else if i == 0 && j == 2 {
            self.centered_subnode(ne)
        } else if i == 1 && j == 0 {
            self.centered_vertical(nw, sw)
        } else if i == 1 && j == 1 {
            self.centered_sub_subnode(nw, ne, sw, se)
        } else if i == 1 && j == 2 {
            self.centered_vertical(ne, se)
        } else if i == 2 && j == 0 {
            self.centered_subnode(sw)
        } else if i == 2 && j == 1 {
            self.centered_horizontal(sw, se)
        } else {
            self.centered_subnode(se)
        };
        proof {
            let ls = self.arena();
            let n = cell_id;
            let q = pow2((d - 3) as nat) as int;
            lemma_pow2_unfold((d - 1) as nat);
            lemma_pow2_unfold((d - 2) as nat);
            lemma_pow2_pos((d - 3) as nat);
            assert((d - 2 - 1) as nat == (d - 3) as nat);
            assert((d - 1 - 1) as nat == (d - 2) as nat);
            assert(pow2((d - 2) as nat) == 2 * q);
            assert(pow2((d - 1) as nat) == 4 * q);
            lemma_extends_valid(l0.arena(), ls, n);
            assert(agrees(ls, n, pattern_of(ls, n), 0, 0));
            if i == 0 && j == 0 {
                assert((2 * j + 1) * q == 1 * q && (2 * i + 1) * q == 1 * q) by (nonlinear_arith)
                    requires
                        i == 0,
                        j == 0,
                ;
                lemma_child_agrees(ls, n, pattern_of(ls, n), 0, 0);
                lemma_agrees_trans(ls, r, nw, pattern_of(ls, n), q, q, 0 * q, 0 * q);
                assert(agrees(ls, r, pattern_of(ls, n), 1 * q, 1 * q));
            } else if i == 0 && j == 1 {
                assert((2 * j + 1) * q == 3 * q && (2 * i + 1) * q == 1 * q) by (nonlinear_arith)
                    requires
                        i == 0,
                        j == 1,
                ;
                assert forall|x: int, y: int| in_square((d - 2) as nat, x, y) implies (side_by_side(ls, nw, ne, 4 * q))(x + 3 * q, y + 1 * q)
                    == #[trigger] (pattern_of(ls, n))(x + 3 * q + 0 * q, y + 1 * q + 0 * q) by {
                    lemma_unfold_at(ls, n, x + 3 * q + 0 * q, y + 1 * q + 0 * q);
                }
                lemma_agrees_congr(ls, r, side_by_side(ls, nw, ne, 4 * q), pattern_of(ls, n), 3 * q, 1 * q, 0 * q, 0 * q);
            } else if i == 0 && j == 2 {
                assert((2 * j + 1) * q == 5 * q && (2 * i + 1) * q == 1 * q) by (nonlinear_arith)
                    requires
                        i == 0,
                        j == 2,
                ;
                lemma_child_agrees(ls, n, pattern_of(ls, n), 0, 0);
                lemma_agrees_trans(ls, r, ne, pattern_of(ls, n), q, q, 4 * q, 0 * q);
                assert(agrees(ls, r, pattern_of(ls, n), 5 * q, 1 * q));
            } else if i == 1 && j == 0 {
                assert((2 * j + 1) * q == 1 * q && (2 * i + 1) * q == 3 * q) by (nonlinear_arith)
                    requires
                        i == 1,
                        j == 0,
                ;
                assert forall|x: int, y: int| in_square((d - 2) as nat, x, y) implies (stacked(ls, nw, sw, 4 * q))(x + 1 * q, y + 3 * q)
                    == #[trigger] (pattern_of(ls, n))(x + 1 * q + 0 * q, y + 3 * q + 0 * q) by {
                    lemma_unfold_at(ls, n, x + 1 * q + 0 * q, y + 3 * q + 0 * q);
                }
                lemma_agrees_congr(ls, r, stacked(ls, nw, sw, 4 * q), pattern_of(ls, n), 1 * q, 3 * q, 0 * q, 0 * q);
            } else if i == 1 && j == 1 {
                assert((2 * j + 1) * q == 3 * q && (2 * i + 1) * q == 3 * q) by (nonlinear_arith)
                    requires
                        i == 1,
                        j == 1,
                ;
                assert forall|x: int, y: int| in_square((d - 2) as nat, x, y) implies (quad4(ls, nw, ne, sw, se, 4 * q))(x + 3 * q, y + 3 * q)
                    == #[trigger] (pattern_of(ls, n))(x + 3 * q + 0 * q, y + 3 * q + 0 * q) by {
                    lemma_unfold_at(ls, n, x + 3 * q + 0 * q, y + 3 * q + 0 * q);
                }
                lemma_agrees_congr(ls, r, quad4(ls, nw, ne, sw, se, 4 * q), pattern_of(ls, n), 3 * q, 3 * q, 0 * q, 0 * q);
            } else if i == 1 && j == 2 {
                assert((2 * j + 1) * q == 5 * q && (2 * i + 1) * q == 3 * q) by (nonlinear_arith)
                    requires
                        i == 1,
                        j == 2,
                ;
                assert forall|x: int, y: int| in_square((d - 2) as nat, x, y) implies (stacked(ls, ne, se, 4 * q))(x + 1 * q, y + 3 * q)
                    == #[trigger] (pattern_of(ls, n))(x + 1 * q + 4 * q, y + 3 * q + 0 * q) by {
                    lemma_unfold_at(ls, n, x + 1 * q + 4 * q, y + 3 * q + 0 * q);
                }
                lemma_agrees_congr(ls, r, stacked(ls, ne, se, 4 * q), pattern_of(ls, n), 1 * q, 3 * q, 4 * q, 0 * q);
            } else if i == 2 && j == 0 {
                assert((2 * j + 1) * q == 1 * q && (2 * i + 1) * q == 5 * q) by (nonlinear_arith)
                    requires
                        i == 2,
                        j == 0,
                ;
                lemma_child_agrees(ls, n, pattern_of(ls, n), 0, 0);
                lemma_agrees_trans(ls, r, sw, pattern_of(ls, n), q, q, 0 * q, 4 * q);
                assert(agrees(ls, r, pattern_of(ls, n), 1 * q, 5 * q));
            } else if i == 2 && j == 1 {
                assert((2 * j + 1) * q == 3 * q && (2 * i + 1) * q == 5 * q) by (nonlinear_arith)
                    requires
                        i == 2,
                        j == 1,
                ;
                assert forall|x: int, y: int| in_square((d - 2) as nat, x, y) implies (side_by_side(ls, sw, se, 4 * q))(x + 3 * q, y + 1 * q)
                    == #[trigger] (pattern_of(ls, n))(x + 3 * q + 0 * q, y + 1 * q + 4 * q) by {
                    lemma_unfold_at(ls, n, x + 3 * q + 0 * q, y + 1 * q + 4 * q);
                }
                lemma_agrees_congr(ls, r, side_by_side(ls, sw, se, 4 * q), pattern_of(ls, n), 3 * q, 1 * q, 0 * q, 4 * q);
            } else {
                assert((2 * j + 1) * q == 5 * q && (2 * i + 1) * q == 5 * q) by (nonlinear_arith)
                    requires
                        i == 2,
                        j == 2,
                ;
                lemma_child_agrees(ls, n, pattern_of(ls, n), 0, 0);
                lemma_agrees_trans(ls, r, se, pattern_of(ls, n), q, q, 4 * q, 4 * q);
                assert(agrees(ls, r, pattern_of(ls, n), 5 * q, 5 * q));
            }
        }
        r
    }

    /// One of the four overlapping quadrants of `cell_id` (row `i`, column
    /// `j`): a node half its size, offset by an odd number of eighths.
    fn quadrant(&mut self, cell_id: CellId, i: usize, j: usize) -> (r: CellId)
        requires
            old(self).wf(),
            valid_ref(old(self).arena(), cell_id),
            cell_id.spec_layer() >= 3,
            i < 2,
            j < 2,
        ensures
            final(self).wf(),
            Self::only_grows(*old(self), *final(self)),
            final(self).layers@.len() == old(self).layers@.len(),
            Self::same_above(*old(self), *final(self), cell_id.spec_layer()),
            r.spec_layer() + 1 == cell_id.spec_layer(),
            valid_ref(final(self).arena(), r),
            agrees(
                final(self).arena(),
                r,
                pattern_of(final(self).arena(), cell_id),
                (2 * j + 1) * pow2((cell_id.spec_layer() - 3) as nat),
                (2 * i + 1) * pow2((cell_id.spec_layer() - 3) as nat),
            ),
    {
        let ghost l0 = *self;
        let a = self.centered_window(cell_id, i, j);
        let ghost l1 = *self;
        proof {
            lemma_extends_valid_all(l0.arena(), l1.arena());
        }
        let b = self.centered_window(cell_id, i, j + 1);
        let ghost l2 = *self;
        proof {
            lemma_extends_valid_all(l1.arena(), l2.arena());
        }
        let c = self.centered_window(cell_id, i + 1, j);
        let ghost l3 = *self;
        proof {
            lemma_extends_valid_all(l2.arena(), l3.arena());
        }
        let d = self.centered_window(cell_id, i + 1, j + 1);
        let ghost l4 = *self;
        proof {
            lemma_extends_valid_all(l3.arena(), l4.arena());
        }
        let r = self.join(a, b, c, d);
        proof {
            let ss = seq![l0.arena(), l1.arena(), l2.arena(), l3.arena(), l4.arena(), self.arena()];
            assert forall|k: int| 0 <= k < ss.len() - 1 implies extends(#[trigger] ss[k], ss[k + 1]) by {
            }
            lemma_extends_chain(ss);
            let lf = self.arena();
            let n = cell_id;
            let q = pow2((n.spec_layer() - 3) as nat) as int;
            lemma_pow2_unfold((n.spec_layer() - 2) as nat);
            assert((n.spec_layer() - 2 - 1) as nat == (n.spec_layer() - 3) as nat);
            assert((2 * (j + 1) + 1) * q == (2 * j + 1) * q + 2 * q) by (nonlinear_arith);
            assert((2 * (i + 1) + 1) * q == (2 * i + 1) * q + 2 * q) by (nonlinear_arith);
            lemma_extends_shifted(l1.arena(), lf, a, n, (2 * j + 1) * q, (2 * i + 1) * q);
            lemma_extends_shifted(l2.arena(), lf, b, n, (2 * (j + 1) + 1) * q, (2 * i + 1) * q);
            lemma_extends_shifted(l3.arena(), lf, c, n, (2 * j + 1) * q, (2 * (i + 1) + 1) * q);
            lemma_extends_shifted(l4.arena(), lf, d, n, (2 * (j + 1) + 1) * q, (2 * (i + 1) + 1) * q);
            lemma_join_agrees(lf, r, pattern_of(lf, n), (2 * j + 1) * q, (2 * i + 1) * q);
        }
        r
    }
}

} // verus!
