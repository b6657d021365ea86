//! Properties of the engine that relate several operations or hold of every
//! state.
use vstd::arithmetic::power2::pow2;
use vstd::prelude::*;

use super::cell::{BaseCell, Cell};
use super::cell_id::CellId;
use super::model::{
    alive_at, alive_in, in_square, lemma_empty_is_dead, lemma_live_cell_exists, next_ok, node, pattern_of,
    slot_ok, step_of, valid_ref, live_cells, shifted, lemma_shifted_len, lemma_population_counts,
};
use super::pack_unpack::{has_point, lemma_reports_exact, CellBounds};
use super::Life;

verus! {

/// The rectangle that holds every `i64` cell.
pub open spec fn unbounded() -> CellBounds {
    CellBounds { min_x: i64::MIN, min_y: i64::MIN, max_x: i64::MAX, max_y: i64::MAX }
}

/// Listing a board built from `points` at a granularity depth above its
/// root's, over the whole plane, gives back exactly `points`.
pub proof fn lemma_round_trip(life: Life, points: Seq<(i64, i64)>, g: nat, px: i64, py: i64)
    requires
        life.wf(),
        forall|x: int, y: int| #[trigger] life.live(x, y) <==> has_point(points, x, y),
        g > life.root.spec_layer(),
    ensures
        life.reported(g, unbounded(), px as int, py as int) <==> has_point(points, px as int, py as int),
{
    lemma_reports_exact(
        life.arena(),
        life.root.spec_layer(),
        life.root.spec_index() as int,
        g,
        life.origin_x as int,
        life.origin_y as int,
        unbounded(),
        px as int,
        py as int,
    );
    assert(life.live(px as int, py as int) <==> has_point(points, px as int, py as int));
}

/// Two references of one depth are equal exactly when they name nodes of the
/// same content: interning never stores one content twice.
pub proof fn lemma_hash_consing(life: Life, a: CellId, b: CellId)
    requires
        life.wf(),
        valid_ref(life.arena(), a),
        valid_ref(life.arena(), b),
        a.spec_layer() == b.spec_layer(),
    ensures
        node(life.arena(), a).content() == node(life.arena(), b).content() <==> a == b,
{
    let d = a.spec_layer() as int;
    if node(life.arena(), a).content() == node(life.arena(), b).content() {
        assert(life.layers@[d].wf());
        let s = life.arena()[d];
        assert(node(life.arena(), a).content().spec_key() == node(life.arena(), a).spec_key());
        assert(node(life.arena(), b).content().spec_key() == node(life.arena(), b).spec_key());
        assert(s[a.spec_index() as int].spec_key() == s[b.spec_index() as int].spec_key());
        a.lemma_bounds();
        b.lemma_bounds();
        CellId::lemma_eq(a, b);
    }
}

/// Within one engine, two references that name the same node (same depth
/// and slot, which is what `==` compares) also carry the same population:
/// they are the same value.
pub proof fn lemma_reference_identity(life: Life, a: CellId, b: CellId)
    requires
        life.wf(),
        valid_ref(life.arena(), a),
        valid_ref(life.arena(), b),
    ensures
        a.same_node(b) <==> a == b,
{
    CellId::lemma_eq(a, b);
}

/// The root's population is the number of live cells on the board.
pub proof fn lemma_population_is_live_count(life: Life)
    requires
        life.wf(),
    ensures
        life.live_set().finite(),
        life.root.spec_alive() == life.live_set().len(),
{
    let ls = life.arena();
    let (d, i) = (life.root.spec_layer(), life.root.spec_index() as int);
    lemma_population_counts(ls, d, i);
    let cells = live_cells(ls, d, i);
    let (ox, oy) = (life.origin_x as int, life.origin_y as int);
    lemma_shifted_len(cells, ox, oy);
    assert forall|p: (int, int)| #[trigger] life.live_set().contains(p) <==> shifted(cells, ox, oy).contains(p) by {
        if life.live_set().contains(p) {
            assert(cells.contains((p.0 - ox, p.1 - oy)));
            assert(((p.0 - ox) + ox, (p.1 - oy) + oy) == p);
        }
        if shifted(cells, ox, oy).contains(p) {
            let q = choose|q: (int, int)| cells.contains(q) && (q.0 + ox, q.1 + oy) == p;
        }
    }
    assert(life.live_set() =~= shifted(cells, ox, oy));
}

/// A leaf's population is one when alive and zero when dead; a composite's
/// is the sum of its four children's.
pub proof fn lemma_population(life: Life, id: CellId)
    requires
        life.wf(),
        valid_ref(life.arena(), id),
    ensures
        match node(life.arena(), id) {
            Cell::Base(BaseCell::Alive) => id.spec_alive() == 1,
            Cell::Base(BaseCell::Dead) => id.spec_alive() == 0,
            Cell::Composite(c) => id.spec_alive() == c.nw.spec_alive() + c.ne.spec_alive()
                + c.sw.spec_alive() + c.se.spec_alive(),
        },
{
}

/// The four children of a composite share one depth, one less than the
/// composite's; depth zero holds the leaves.
pub proof fn lemma_depth(life: Life, id: CellId)
    requires
        life.wf(),
        valid_ref(life.arena(), id),
    ensures
        id.spec_layer() == 0 <==> node(life.arena(), id) is Base,
        node(life.arena(), id) is Composite ==> {
            let c = node(life.arena(), id)->Composite_0;
            &&& c.nw.spec_layer() + 1 == id.spec_layer()
            &&& c.ne.spec_layer() + 1 == id.spec_layer()
            &&& c.sw.spec_layer() + 1 == id.spec_layer()
            &&& c.se.spec_layer() + 1 == id.spec_layer()
        },
{
    assert(slot_ok(life.arena(), id.spec_layer() as int, id.spec_index() as int));
}

/// Asking twice for the next generation of one node returns the same
/// reference, and the second request changes nothing.
pub proof fn lemma_memo_reuse(l0: Life, l1: Life, l2: Life, id: CellId, r1: CellId, r2: CellId)
    requires
        Life::memo_result(l0, l1, id, r1),
        Life::memo_result(l1, l2, id, r2),
    ensures
        r1 == r2,
        l2 == l1,
{
}

/// A step on a board without live cells leaves a board without live cells.
pub proof fn lemma_empty_stays_empty(old: Life, new: Life, p: CellId, o: int)
    requires
        old.wf(),
        new.wf(),
        old.root.spec_alive() == 0,
        Life::stepped(old, new, p, o),
    ensures
        new.root.spec_alive() == 0,
        forall|x: int, y: int| !#[trigger] new.live(x, y),
{
    let ls = new.arena();
    let q = pow2((p.spec_layer() - 2) as nat) as int;
    let (dp, ip) = (p.spec_layer(), p.spec_index() as int);
    let (dr, ir) = (new.root.spec_layer(), new.root.spec_index() as int);
    assert forall|x: int, y: int| !#[trigger] alive_in(ls, dp, ip, x, y) by {
        lemma_empty_is_dead(ls, dp, ip, x, y);
    }
    assert forall|x: int, y: int| in_square(dr, x, y) implies !#[trigger] alive_in(ls, dr, ir, x, y) by {
        assert(alive_at(ls, new.root, x, y) == (step_of(pattern_of(ls, p)))(x + q, y + q));
        assert(!alive_in(ls, dp, ip, x + q - 1, y + q - 1));
        assert(!alive_in(ls, dp, ip, x + q, y + q - 1));
        assert(!alive_in(ls, dp, ip, x + q + 1, y + q - 1));
        assert(!alive_in(ls, dp, ip, x + q - 1, y + q));
        assert(!alive_in(ls, dp, ip, x + q, y + q));
        assert(!alive_in(ls, dp, ip, x + q + 1, y + q));
        assert(!alive_in(ls, dp, ip, x + q - 1, y + q + 1));
        assert(!alive_in(ls, dp, ip, x + q, y + q + 1));
        assert(!alive_in(ls, dp, ip, x + q + 1, y + q + 1));
    }
    if new.root.spec_alive() > 0 {
        lemma_live_cell_exists(ls, dr, ir);
        let (x, y) = choose|x: int, y: int| in_square(dr, x, y) && #[trigger] alive_in(ls, dr, ir, x, y);
        assert(!alive_in(ls, dr, ir, x, y));
    }
    assert forall|x: int, y: int| !#[trigger] new.live(x, y) by {
        lemma_empty_is_dead(ls, dr, ir, x - new.origin_x, y - new.origin_y);
    }
}

} // verus!
