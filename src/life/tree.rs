//! Canonical assembly of composites, and the centred windows that the
//! generation step is built from.
use vstd::arithmetic::power2::pow2;
use vstd::prelude::*;

use super::cell::{Cell, CompositeCell};
use super::cell_id::CellId;
use super::layer::has_key;
use super::model::{
    agrees, child_ok, lemma_child_agrees, lemma_extends_valid, lemma_join_agrees,
    lemma_pair_agrees, lemma_quad4_agrees, lemma_unfold_at, node, pattern_of, quad4,
    side_by_side, stacked, valid_ref, Arena,
};
use super::Life;

verus! {

/// The population of the centred window of a node: the sum over its four
/// innermost grandchildren.
pub open spec fn center_alive(ls: Arena, id: CellId) -> nat {
    let c = node(ls, id)->Composite_0;
    node(ls, c.nw)->Composite_0.se.spec_alive() + node(ls, c.ne)->Composite_0.sw.spec_alive()
        + node(ls, c.sw)->Composite_0.ne.spec_alive() + node(ls, c.se)->Composite_0.nw.spec_alive()
}

impl Life {
    /// The four children of a composite.
    pub fn quadrants(&self, id: CellId) -> (r: (CellId, CellId, CellId, CellId))
        requires
            self.wf(),
            valid_ref(self.arena(), id),
            id.spec_layer() > 0,
        ensures
            node(self.arena(), id) is Composite,
            r.0 == node(self.arena(), id)->Composite_0.nw,
            r.1 == node(self.arena(), id)->Composite_0.ne,
            r.2 == node(self.arena(), id)->Composite_0.sw,
            r.3 == node(self.arena(), id)->Composite_0.se,
            child_ok(self.arena(), id.spec_layer(), r.0),
            child_ok(self.arena(), id.spec_layer(), r.1),
            child_ok(self.arena(), id.spec_layer(), r.2),
            child_ok(self.arena(), id.spec_layer(), r.3),
            pow2(id.spec_layer()) == 2 * pow2((id.spec_layer() - 1) as nat),
    {
        proof {
            lemma_unfold_at(self.arena(), id, 0, 0);
        }
        let c = self.get_cell(id).unwrap().as_composite();
        (c.nw, c.ne, c.sw, c.se)
    }

    /// The canonical composite of four nodes of one depth.
    pub fn join(&mut self, nw: CellId, ne: CellId, sw: CellId, se: CellId) -> (r: CellId)
        requires
            old(self).wf(),
            valid_ref(old(self).arena(), nw),
            valid_ref(old(self).arena(), ne),
            valid_ref(old(self).arena(), sw),
            valid_ref(old(self).arena(), se),
            ne.spec_layer() == nw.spec_layer(),
            sw.spec_layer() == nw.spec_layer(),
            se.spec_layer() == nw.spec_layer(),
            nw.spec_layer() + 1 < old(self).layers@.len(),
        ensures
            final(self).wf(),
            Self::only_grows(*old(self), *final(self)),
            final(self).layers@.len() == old(self).layers@.len(),
            Self::same_above(*old(self), *final(self), nw.spec_layer() + 2),
            r.spec_layer() == nw.spec_layer() + 1,
            valid_ref(final(self).arena(), r),
            node(final(self).arena(), r).content() == Cell::Composite(
                CompositeCell { nw, ne, sw, se, next_gen: None },
            ),
            node(final(self).arena(), r)->Composite_0.nw == nw,
            node(final(self).arena(), r)->Composite_0.ne == ne,
            node(final(self).arena(), r)->Composite_0.sw == sw,
            node(final(self).arena(), r)->Composite_0.se == se,
            r.spec_alive() == nw.spec_alive() + ne.spec_alive() + sw.spec_alive() + se.spec_alive(),
            ({
                let cell = Cell::Composite(CompositeCell { nw, ne, sw, se, next_gen: None });
                let d = nw.spec_layer() + 1 as int;
                final(self).arena() == (if has_key(old(self).arena()[d], cell.spec_key()) {
                    old(self).arena()
                } else {
                    old(self).arena().update(d, old(self).arena()[d].push(cell))
                })
            }),
    {
        self.add_cell(Cell::composite(nw, ne, sw, se))
    }

    /// The node of half the size at the centre of `id`.
    pub fn centered_subnode(&mut self, id: CellId) -> (r: CellId)
        requires
            old(self).wf(),
            valid_ref(old(self).arena(), id),
            id.spec_layer() >= 2,
        ensures
            final(self).wf(),
            Self::only_grows(*old(self), *final(self)),
            final(self).layers@.len() == old(self).layers@.len(),
            Self::same_above(*old(self), *final(self), id.spec_layer()),
            r.spec_layer() + 1 == id.spec_layer(),
            valid_ref(final(self).arena(), r),
            r.spec_alive() == center_alive(final(self).arena(), id),
            center_alive(final(self).arena(), id) == center_alive(old(self).arena(), id),
            agrees(
                final(self).arena(),
                r,
                pattern_of(final(self).arena(), id),
                pow2((id.spec_layer() - 2) as nat) as int,
                pow2((id.spec_layer() - 2) as nat) as int,
            ),
            node(final(self).arena(), r)->Composite_0.nw == node(final(self).arena(), node(final(self).arena(), id)->Composite_0.nw)->Composite_0.se,
            node(final(self).arena(), r)->Composite_0.ne == node(final(self).arena(), node(final(self).arena(), id)->Composite_0.ne)->Composite_0.sw,
            node(final(self).arena(), r)->Composite_0.sw == node(final(self).arena(), node(final(self).arena(), id)->Composite_0.sw)->Composite_0.ne,
            node(final(self).arena(), r)->Composite_0.se == node(final(self).arena(), node(final(self).arena(), id)->Composite_0.se)->Composite_0.nw,
    {
        let ghost ls0 = self.arena();
        let (nw, ne, sw, se) = self.quadrants(id);
        let (_, _, _, a) = self.quadrants(nw);
        let (_, _, b, _) = self.quadrants(ne);
        let (_, c, _, _) = self.quadrants(sw);
        let (e, _, _, _) = self.quadrants(se);
        let r = self.join(a, b, c, e);
        proof {
            let ls = self.arena();
            lemma_extends_valid(ls0, ls, id);
            lemma_extends_valid(ls0, ls, nw);
            lemma_extends_valid(ls0, ls, ne);
            lemma_extends_valid(ls0, ls, sw);
            lemma_extends_valid(ls0, ls, se);
            let f = pattern_of(ls, id);
            let h = pow2((id.spec_layer() - 1) as nat) as int;
            let q = pow2((id.spec_layer() - 2) as nat) as int;
            lemma_unfold_at(ls, nw, 0, 0);
            assert(agrees(ls, id, f, 0, 0));
            lemma_child_agrees(ls, id, f, 0, 0);
            lemma_child_agrees(ls, nw, f, 0, 0);
            lemma_child_agrees(ls, ne, f, h, 0);
            lemma_child_agrees(ls, sw, f, 0, h);
            lemma_child_agrees(ls, se, f, h, h);
            lemma_join_agrees(ls, r, f, q, q);
        }
        r
    }

    /// The node spanning the shared edge of two nodes side by side: half
    /// their size, centred on the edge.
    pub fn centered_horizontal(&mut self, w: CellId, e: CellId) -> (r: CellId)
        requires
            old(self).wf(),
            valid_ref(old(self).arena(), w),
            valid_ref(old(self).arena(), e),
            e.spec_layer() == w.spec_layer(),
            w.spec_layer() >= 2,
        ensures
            final(self).wf(),
            Self::only_grows(*old(self), *final(self)),
            final(self).layers@.len() == old(self).layers@.len(),
            Self::same_above(*old(self), *final(self), w.spec_layer()),
            r.spec_layer() + 1 == w.spec_layer(),
            valid_ref(final(self).arena(), r),
            agrees(
                final(self).arena(),
                r,
                side_by_side(final(self).arena(), w, e, pow2(w.spec_layer()) as int),
                3 * pow2((w.spec_layer() - 2) as nat) as int,
                pow2((w.spec_layer() - 2) as nat) as int,
            ),
            node(final(self).arena(), r)->Composite_0.nw == node(final(self).arena(), node(final(self).arena(), w)->Composite_0.ne)->Composite_0.se,
            node(final(self).arena(), r)->Composite_0.ne == node(final(self).arena(), node(final(self).arena(), e)->Composite_0.nw)->Composite_0.sw,
            node(final(self).arena(), r)->Composite_0.sw == node(final(self).arena(), node(final(self).arena(), w)->Composite_0.se)->Composite_0.ne,
            node(final(self).arena(), r)->Composite_0.se == node(final(self).arena(), node(final(self).arena(), e)->Composite_0.sw)->Composite_0.nw,
    {
        let ghost ls0 = self.arena();
        let (_, wne, _, wse) = self.quadrants(w);
        let (enw, _, esw, _) = self.quadrants(e);
        let (_, _, _, a) = self.quadrants(wne);
        let (_, _, b, _) = self.quadrants(enw);
        let (_, c, _, _) = self.quadrants(wse);
        let (d, _, _, _) = self.quadrants(esw);
        let r = self.join(a, b, c, d);
        proof {
            let ls = self.arena();
            lemma_extends_valid(ls0, ls, w);
            lemma_extends_valid(ls0, ls, e);
            lemma_extends_valid(ls0, ls, wne);
            lemma_extends_valid(ls0, ls, wse);
            lemma_extends_valid(ls0, ls, enw);
            lemma_extends_valid(ls0, ls, esw);
            let s = pow2(w.spec_layer()) as int;
            let f = side_by_side(ls, w, e, s);
            let h = pow2((w.spec_layer() - 1) as nat) as int;
            let q = pow2((w.spec_layer() - 2) as nat) as int;
            lemma_unfold_at(ls, w, 0, 0);
            lemma_unfold_at(ls, wne, 0, 0);
            lemma_pair_agrees(ls, w, e);
            lemma_child_agrees(ls, w, f, 0, 0);
            lemma_child_agrees(ls, e, f, s, 0);
            lemma_child_agrees(ls, wne, f, h, 0);
            lemma_child_agrees(ls, wse, f, h, h);
            lemma_child_agrees(ls, enw, f, s, 0);
            lemma_child_agrees(ls, esw, f, s, h);
            lemma_join_agrees(ls, r, f, 3 * q, q);
        }
        r
    }

    /// The node spanning the shared edge of two nodes one above the other:
    /// half their size, centred on the edge.
    pub fn centered_vertical(&mut self, n: CellId, s: CellId) -> (r: CellId)
        requires
            old(self).wf(),
            valid_ref(old(self).arena(), n),
            valid_ref(old(self).arena(), s),
            s.spec_layer() == n.spec_layer(),
            n.spec_layer() >= 2,
        ensures
            final(self).wf(),
            Self::only_grows(*old(self), *final(self)),
            final(self).layers@.len() == old(self).layers@.len(),
            Self::same_above(*old(self), *final(self), n.spec_layer()),
            r.spec_layer() + 1 == n.spec_layer(),
            valid_ref(final(self).arena(), r),
            agrees(
                final(self).arena(),
                r,
                stacked(final(self).arena(), n, s, pow2(n.spec_layer()) as int),
                pow2((n.spec_layer() - 2) as nat) as int,
                3 * pow2((n.spec_layer() - 2) as nat) as int,
            ),
            node(final(self).arena(), r)->Composite_0.nw == node(final(self).arena(), node(final(self).arena(), n)->Composite_0.sw)->Composite_0.se,
            node(final(self).arena(), r)->Composite_0.ne == node(final(self).arena(), node(final(self).arena(), n)->Composite_0.se)->Composite_0.sw,
            node(final(self).arena(), r)->Composite_0.sw == node(final(self).arena(), node(final(self).arena(), s)->Composite_0.nw)->Composite_0.ne,
            node(final(self).arena(), r)->Composite_0.se == node(final(self).arena(), node(final(self).arena(), s)->Composite_0.ne)->Composite_0.nw,
    {
        let ghost ls0 = self.arena();
        let (_, _, nsw, nse) = self.quadrants(n);
        let (snw, sne, _, _) = self.quadrants(s);
        let (_, _, _, a) = self.quadrants(nsw);
        let (_, _, b, _) = self.quadrants(nse);
        let (_, c, _, _) = self.quadrants(snw);
        let (d, _, _, _) = self.quadrants(sne);
        let r = self.join(a, b, c, d);
        proof {
            let ls = self.arena();
            lemma_extends_valid(ls0, ls, n);
            lemma_extends_valid(ls0, ls, s);
            lemma_extends_valid(ls0, ls, nsw);
            lemma_extends_valid(ls0, ls, nse);
            lemma_extends_valid(ls0, ls, snw);
            lemma_extends_valid(ls0, ls, sne);
            let w = pow2(n.spec_layer()) as int;
            let f = stacked(ls, n, s, w);
            let h = pow2((n.spec_layer() - 1) as nat) as int;
            let q = pow2((n.spec_layer() - 2) as nat) as int;
            lemma_unfold_at(ls, n, 0, 0);
            lemma_unfold_at(ls, nsw, 0, 0);
            lemma_pair_agrees(ls, n, s);
            lemma_child_agrees(ls, n, f, 0, 0);
            lemma_child_agrees(ls, s, f, 0, w);
            lemma_child_agrees(ls, nsw, f, 0, h);
            lemma_child_agrees(ls, nse, f, h, h);
            lemma_child_agrees(ls, snw, f, 0, w);
            lemma_child_agrees(ls, sne, f, h, w);
            lemma_join_agrees(ls, r, f, q, 3 * q);
        }
        r
    }

    /// The node at the exact centre of four nodes of one depth laid out as
    /// quadrants: a quarter of their size.
    pub fn centered_sub_subnode(&mut self, nw: CellId, ne: CellId, sw: CellId, se: CellId) -> (r:
        CellId)
        requires
            old(self).wf(),
            valid_ref(old(self).arena(), nw),
            valid_ref(old(self).arena(), ne),
            valid_ref(old(self).arena(), sw),
            valid_ref(old(self).arena(), se),
            ne.spec_layer() == nw.spec_layer(),
            sw.spec_layer() == nw.spec_layer(),
            se.spec_layer() == nw.spec_layer(),
            nw.spec_layer() >= 2,
        ensures
            final(self).wf(),
            Self::only_grows(*old(self), *final(self)),
            final(self).layers@.len() == old(self).layers@.len(),
            Self::same_above(*old(self), *final(self), nw.spec_layer()),
            r.spec_layer() + 1 == nw.spec_layer(),
            valid_ref(final(self).arena(), r),
            agrees(
                final(self).arena(),
                r,
                quad4(final(self).arena(), nw, ne, sw, se, pow2(nw.spec_layer()) as int),
                3 * pow2((nw.spec_layer() - 2) as nat) as int,
                3 * pow2((nw.spec_layer() - 2) as nat) as int,
            ),
            node(final(self).arena(), r)->Composite_0.nw == node(final(self).arena(), node(final(self).arena(), nw)->Composite_0.se)->Composite_0.se,
            node(final(self).arena(), r)->Composite_0.ne == node(final(self).arena(), node(final(self).arena(), ne)->Composite_0.sw)->Composite_0.sw,
            node(final(self).arena(), r)->Composite_0.sw == node(final(self).arena(), node(final(self).arena(), sw)->Composite_0.ne)->Composite_0.ne,
            node(final(self).arena(), r)->Composite_0.se == node(final(self).arena(), node(final(self).arena(), se)->Composite_0.nw)->Composite_0.nw,
    {
        let ghost ls0 = self.arena();
        let (_, _, _, nw_se) = self.quadrants(nw);
        let (_, _, ne_sw, _) = self.quadrants(ne);
        let (_, sw_ne, _, _) = self.quadrants(sw);
        let (se_nw, _, _, _) = self.quadrants(se);
        let (_, _, _, a) = self.quadrants(nw_se);
        let (_, _, b, _) = self.quadrants(ne_sw);
        let (_, c, _, _) = self.quadrants(sw_ne);
        let (d, _, _, _) = self.quadrants(se_nw);
        let r = self.join(a, b, c, d);
        proof {
            let ls = self.arena();
            lemma_extends_valid(ls0, ls, nw);
            lemma_extends_valid(ls0, ls, ne);
            lemma_extends_valid(ls0, ls, sw);
            lemma_extends_valid(ls0, ls, se);
            lemma_extends_valid(ls0, ls, nw_se);
            lemma_extends_valid(ls0, ls, ne_sw);
            lemma_extends_valid(ls0, ls, sw_ne);
            lemma_extends_valid(ls0, ls, se_nw);
            let w = pow2(nw.spec_layer()) as int;
            let f = quad4(ls, nw, ne, sw, se, w);
            let h = pow2((nw.spec_layer() - 1) as nat) as int;
            let q = pow2((nw.spec_layer() - 2) as nat) as int;
            lemma_unfold_at(ls, nw, 0, 0);
            lemma_unfold_at(ls, nw_se, 0, 0);
            lemma_quad4_agrees(ls, nw, ne, sw, se);
            lemma_child_agrees(ls, nw, f, 0, 0);
            lemma_child_agrees(ls, ne, f, w, 0);
            lemma_child_agrees(ls, sw, f, 0, w);
            lemma_child_agrees(ls, se, f, w, w);
            lemma_child_agrees(ls, nw_se, f, h, h);
            lemma_child_agrees(ls, ne_sw, f, w, h);
            lemma_child_agrees(ls, sw_ne, f, h, w);
            lemma_child_agrees(ls, se_nw, f, w, w);
            lemma_join_agrees(ls, r, f, 3 * q, 3 * q);
        }
        r
    }
}

} // verus!
