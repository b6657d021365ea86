//! The mathematical model of an engine's arenas: which references are valid,
//! what pattern of live cells each node stands for, and how the arenas may
//! grow.
use vstd::arithmetic::power2::{lemma2_to64, lemma2_to64_rest, lemma_pow2_pos, lemma_pow2_unfold, pow2};
use vstd::prelude::*;
use vstd::relations::injective_on;
use vstd::set_lib::{lemma_map_size, lemma_set_disjoint_lens};

use super::cell::{BaseCell, Cell, CompositeCell};
use super::cell_id::CellId;

verus! {

/// The contents of every arena, indexed by depth and then by slot.
pub type Arena = Seq<Seq<Cell>>;

/// `4^d`: the number of cells in a node of depth `d`.
pub open spec fn pow4(d: nat) -> nat
    decreases d,
{
    if d == 0 {
        1
    } else {
        4 * pow4((d - 1) as nat)
    }
}

/// The node that a reference names.
pub open spec fn node(ls: Arena, r: CellId) -> Cell {
    ls[r.spec_layer() as int][r.spec_index() as int]
}

/// `r` names a node that exists, and carries that node's population.
pub open spec fn valid_ref(ls: Arena, r: CellId) -> bool {
    &&& r.spec_layer() < ls.len()
    &&& r.spec_index() < ls[r.spec_layer() as int].len()
    &&& r.spec_alive() == node(ls, r).spec_alive_count()
}

/// `c` may stand as a child of a node of depth `d`.
pub open spec fn child_ok(ls: Arena, d: nat, c: CellId) -> bool {
    &&& c.spec_layer() + 1 == d
    &&& valid_ref(ls, c)
}

/// A node has the shape of depth `d`: a leaf at depth zero, otherwise four
/// valid children one depth down.
pub open spec fn shape_ok(ls: Arena, d: nat, cell: Cell) -> bool {
    if d == 0 {
        cell is Base
    } else {
        &&& cell is Composite
        &&& child_ok(ls, d, cell->Composite_0.nw)
        &&& child_ok(ls, d, cell->Composite_0.ne)
        &&& child_ok(ls, d, cell->Composite_0.sw)
        &&& child_ok(ls, d, cell->Composite_0.se)
    }
}

/// A node fits in the arena of depth `d`; its population is at most its area.
pub open spec fn cell_ok(ls: Arena, d: nat, cell: Cell) -> bool {
    &&& shape_ok(ls, d, cell)
    &&& cell.spec_alive_count() <= pow4(d)
}

/// `cell` may be interned: it has the shape of its own depth, which the
/// engine holds, and carries no memo.
pub open spec fn insertable(ls: Arena, cell: Cell) -> bool {
    &&& cell.spec_layer() < ls.len()
    &&& cell == cell.content()
    &&& shape_ok(ls, cell.spec_layer(), cell)
}

/// The node in slot `i` of depth `d` fits its arena.
pub open spec fn slot_ok(ls: Arena, d: int, i: int) -> bool {
    cell_ok(ls, d as nat, ls[d][i])
}

/// Every stored node fits its arena.
pub open spec fn arena_ok(ls: Arena) -> bool {
    forall|d: int, i: int| 0 <= d < ls.len() && 0 <= i < ls[d].len() ==> #[trigger] slot_ok(ls, d, i)
}

/// The memo of the node in slot `i` of depth `d`, if set in `old`, is the
/// same in `new`.
pub open spec fn memo_kept(old: Arena, new: Arena, d: int, i: int) -> bool {
    old[d][i] is Composite && old[d][i]->Composite_0.next_gen is Some ==> new[d][i] is Composite
        && new[d][i]->Composite_0.next_gen == old[d][i]->Composite_0.next_gen
}

/// `new` holds every node of `old` in the same slot with the same content:
/// arenas only grow, and memos are only filled in, never changed.
pub open spec fn extends(old: Arena, new: Arena) -> bool {
    &&& old.len() == new.len()
    &&& forall|d: int| 0 <= d < old.len() ==> old[d].len() <= #[trigger] new[d].len()
    &&& forall|d: int, i: int|
        0 <= d < old.len() && 0 <= i < old[d].len() ==> (#[trigger] new[d][i]).content()
            == old[d][i].content()
    &&& forall|d: int, i: int|
        0 <= d < old.len() && 0 <= i < old[d].len() ==> #[trigger] memo_kept(old, new, d, i)
}

/// Whether the cell at `(x, y)` of the node in slot `i` of depth `d` is alive;
/// `(0, 0)` is the north-west corner and the node spans `2^d` cells a side.
pub open spec fn alive_in(ls: Arena, d: nat, i: int, x: int, y: int) -> bool
    decreases d,
{
    let cell = ls[d as int][i];
    if d == 0 {
        cell == Cell::Base(BaseCell::Alive)
    } else {
        let c = cell->Composite_0;
        let h = pow2((d - 1) as nat) as int;
        let e = (d - 1) as nat;
        if y < h {
            if x < h {
                alive_in(ls, e, c.nw.spec_index() as int, x, y)
            } else {
                alive_in(ls, e, c.ne.spec_index() as int, x - h, y)
            }
        } else {
            if x < h {
                alive_in(ls, e, c.sw.spec_index() as int, x, y - h)
            } else {
                alive_in(ls, e, c.se.spec_index() as int, x - h, y - h)
            }
        }
    }
}

/// The cell at `(x, y)` of the node that `r` names.
pub open spec fn alive_at(ls: Arena, r: CellId, x: int, y: int) -> bool {
    alive_in(ls, r.spec_layer(), r.spec_index() as int, x, y)
}

/// `(x, y)` lies in a node of depth `d`.
pub open spec fn in_square(d: nat, x: int, y: int) -> bool {
    0 <= x < pow2(d) && 0 <= y < pow2(d)
}

/// Conway's rule: a cell lives on with two or three live neighbours and is
/// born with exactly three.
pub open spec fn life_rule(alive: bool, neighbours: int) -> bool {
    neighbours == 3 || (alive && neighbours == 2)
}

pub open spec fn b2i(b: bool) -> int {
    if b {
        1
    } else {
        0
    }
}

/// The pattern of the node in slot `i` of depth `d`, as a function of the cell.
pub open spec fn pattern_in(ls: Arena, d: nat, i: int) -> spec_fn(int, int) -> bool {
    |x: int, y: int| alive_in(ls, d, i, x, y)
}

/// How many of the eight cells around `(x, y)` are alive in the pattern `f`.
pub open spec fn neighbours(f: spec_fn(int, int) -> bool, x: int, y: int) -> int {
    b2i(f(x - 1, y - 1)) + b2i(f(x, y - 1)) + b2i(f(x + 1, y - 1)) + b2i(f(x - 1, y)) + b2i(
        f(x + 1, y),
    ) + b2i(f(x - 1, y + 1)) + b2i(f(x, y + 1)) + b2i(f(x + 1, y + 1))
}

/// The state of the cell at `(x, y)` of the pattern `f` one generation later.
pub open spec fn rule_at(f: spec_fn(int, int) -> bool, x: int, y: int) -> bool {
    life_rule(f(x, y), neighbours(f, x, y))
}

/// The pattern `f` one generation later, on the cells whose neighbours `f`
/// gives.
pub open spec fn step_of(f: spec_fn(int, int) -> bool) -> spec_fn(int, int) -> bool {
    |x: int, y: int| rule_at(f, x, y)
}

/// `r` is the next generation of the node in slot `i` of depth `d`: the node
/// of half its size at its centre, one generation on.
pub open spec fn next_ok(ls: Arena, d: nat, i: int, r: CellId) -> bool {
    &&& d >= 2
    &&& r.spec_layer() + 1 == d
    &&& valid_ref(ls, r)
    &&& agrees(
        ls,
        r,
        step_of(pattern_in(ls, d, i)),
        pow2((d - 2) as nat) as int,
        pow2((d - 2) as nat) as int,
    )
}

/// The memo of the node in slot `i` of depth `d`, if set, holds its next
/// generation.
pub open spec fn slot_memo_ok(ls: Arena, d: int, i: int) -> bool {
    ls[d][i] is Composite && ls[d][i]->Composite_0.next_gen is Some ==> next_ok(
        ls,
        d as nat,
        i,
        ls[d][i]->Composite_0.next_gen->Some_0,
    )
}

/// Every memo that is set holds the node's next generation.
pub open spec fn memo_ok(ls: Arena) -> bool {
    forall|d: int, i: int|
        0 <= d < ls.len() && 0 <= i < ls[d].len() ==> #[trigger] slot_memo_ok(ls, d, i)
}

/// Within one depth, the content key determines the content.
pub proof fn lemma_same_key(ls: Arena, d: nat, a: Cell, b: Cell)
    requires
        shape_ok(ls, d, a),
        shape_ok(ls, d, b),
        a.spec_key() == b.spec_key(),
    ensures
        a.content() == b.content(),
{
    if d > 0 {
        let (ca, cb) = (a->Composite_0, b->Composite_0);
        ca.nw.lemma_bounds();
        cb.nw.lemma_bounds();
        ca.ne.lemma_bounds();
        cb.ne.lemma_bounds();
        ca.sw.lemma_bounds();
        cb.sw.lemma_bounds();
        ca.se.lemma_bounds();
        cb.se.lemma_bounds();
        CellId::lemma_eq(ca.nw, cb.nw);
        CellId::lemma_eq(ca.ne, cb.ne);
        CellId::lemma_eq(ca.sw, cb.sw);
        CellId::lemma_eq(ca.se, cb.se);
    }
}

/// A node whose children fit has a population of at most its area.
pub proof fn lemma_population_bound(ls: Arena, d: nat, cell: Cell)
    requires
        arena_ok(ls),
        shape_ok(ls, d, cell),
        d <= 31,
    ensures
        cell.spec_alive_count() <= pow4(d),
        cell.spec_alive_count() <= 0x4000_0000_0000_0000,
{
    if d > 0 {
        let c = cell->Composite_0;
        assert(slot_ok(ls, c.nw.spec_layer() as int, c.nw.spec_index() as int));
        assert(slot_ok(ls, c.ne.spec_layer() as int, c.ne.spec_index() as int));
        assert(slot_ok(ls, c.sw.spec_layer() as int, c.sw.spec_index() as int));
        assert(slot_ok(ls, c.se.spec_layer() as int, c.se.spec_index() as int));
    }
    lemma_pow4_bound(d);
}

/// The pattern of the node that `n` names, as a function of the cell.
pub open spec fn pattern_of(ls: Arena, n: CellId) -> spec_fn(int, int) -> bool {
    pattern_in(ls, n.spec_layer(), n.spec_index() as int)
}

/// The pattern of four nodes of side `s` laid out as the quadrants of a square.
pub open spec fn quad4(
    ls: Arena,
    nw: CellId,
    ne: CellId,
    sw: CellId,
    se: CellId,
    s: int,
) -> spec_fn(int, int) -> bool {
    |x: int, y: int|
        if y < s {
            if x < s {
                alive_at(ls, nw, x, y)
            } else {
                alive_at(ls, ne, x - s, y)
            }
        } else {
            if x < s {
                alive_at(ls, sw, x, y - s)
            } else {
                alive_at(ls, se, x - s, y - s)
            }
        }
}

/// Two nodes of side `s` side by side, west then east.
pub open spec fn side_by_side(ls: Arena, w: CellId, e: CellId, s: int) -> spec_fn(int, int) -> bool {
    |x: int, y: int|
        if x < s {
            alive_at(ls, w, x, y)
        } else {
            alive_at(ls, e, x - s, y)
        }
}

/// Two nodes of side `s` one above the other, north then south.
pub open spec fn stacked(ls: Arena, n: CellId, so: CellId, s: int) -> spec_fn(int, int) -> bool {
    |x: int, y: int|
        if y < s {
            alive_at(ls, n, x, y)
        } else {
            alive_at(ls, so, x, y - s)
        }
}

/// Every cell of the node `m` equals the cell of `f` at an offset of
/// `(ox, oy)`.
pub open spec fn agrees(ls: Arena, m: CellId, f: spec_fn(int, int) -> bool, ox: int, oy: int) -> bool {
    forall|x: int, y: int|
        in_square(m.spec_layer(), x, y) ==> #[trigger] alive_at(ls, m, x, y) == f(x + ox, y + oy)
}

/// A composite's cell is the cell of the child whose quadrant holds it.
pub proof fn lemma_unfold_at(ls: Arena, r: CellId, x: int, y: int)
    requires
        arena_ok(ls),
        valid_ref(ls, r),
        r.spec_layer() > 0,
    ensures
        node(ls, r) is Composite,
        child_ok(ls, r.spec_layer(), node(ls, r)->Composite_0.nw),
        child_ok(ls, r.spec_layer(), node(ls, r)->Composite_0.ne),
        child_ok(ls, r.spec_layer(), node(ls, r)->Composite_0.sw),
        child_ok(ls, r.spec_layer(), node(ls, r)->Composite_0.se),
        pow2(r.spec_layer()) == 2 * pow2((r.spec_layer() - 1) as nat),
        alive_at(ls, r, x, y) == (quad4(
            ls,
            node(ls, r)->Composite_0.nw,
            node(ls, r)->Composite_0.ne,
            node(ls, r)->Composite_0.sw,
            node(ls, r)->Composite_0.se,
            pow2((r.spec_layer() - 1) as nat) as int,
        ))(x, y),
{
    assert(slot_ok(ls, r.spec_layer() as int, r.spec_index() as int));
    lemma_pow2_unfold(r.spec_layer());
}

/// A composite agrees with `f` where its four children agree with the
/// matching quadrants of `f`.
pub proof fn lemma_join_agrees(
    ls: Arena,
    r: CellId,
    f: spec_fn(int, int) -> bool,
    ox: int,
    oy: int,
)
    requires
        arena_ok(ls),
        valid_ref(ls, r),
        r.spec_layer() > 0,
        ({
            let c = node(ls, r)->Composite_0;
            let s = pow2((r.spec_layer() - 1) as nat) as int;
            &&& agrees(ls, c.nw, f, ox, oy)
            &&& agrees(ls, c.ne, f, ox + s, oy)
            &&& agrees(ls, c.sw, f, ox, oy + s)
            &&& agrees(ls, c.se, f, ox + s, oy + s)
        }),
    ensures
        agrees(ls, r, f, ox, oy),
{
    let c = node(ls, r)->Composite_0;
    let s = pow2((r.spec_layer() - 1) as nat) as int;
    assert forall|x: int, y: int| in_square(r.spec_layer(), x, y) implies #[trigger] alive_at(
        ls,
        r,
        x,
        y,
    ) == f(x + ox, y + oy) by {
        lemma_unfold_at(ls, r, x, y);
        if y < s {
            if x < s {
                assert(alive_at(ls, c.nw, x, y) == f(x + ox, y + oy));
            } else {
                assert(alive_at(ls, c.ne, x - s, y) == f(x - s + (ox + s), y + oy));
            }
        } else {
            if x < s {
                assert(alive_at(ls, c.sw, x, y - s) == f(x + ox, y - s + (oy + s)));
            } else {
                assert(alive_at(ls, c.se, x - s, y - s) == f(x - s + (ox + s), y - s + (oy + s)));
            }
        }
    }
}

/// The children of a node that agrees with `f` agree with the matching
/// quadrants of `f`.
pub proof fn lemma_child_agrees(ls: Arena, m: CellId, f: spec_fn(int, int) -> bool, ox: int, oy: int)
    requires
        arena_ok(ls),
        valid_ref(ls, m),
        m.spec_layer() > 0,
        agrees(ls, m, f, ox, oy),
    ensures
        ({
            let c = node(ls, m)->Composite_0;
            let s = pow2((m.spec_layer() - 1) as nat) as int;
            &&& agrees(ls, c.nw, f, ox, oy)
            &&& agrees(ls, c.ne, f, ox + s, oy)
            &&& agrees(ls, c.sw, f, ox, oy + s)
            &&& agrees(ls, c.se, f, ox + s, oy + s)
        }),
{
    let c = node(ls, m)->Composite_0;
    let s = pow2((m.spec_layer() - 1) as nat) as int;
    lemma_unfold_at(ls, m, 0, 0);
    let e = (m.spec_layer() - 1) as nat;
    assert forall|x: int, y: int| in_square(e, x, y) implies #[trigger] alive_at(ls, c.nw, x, y) == f(
        x + ox,
        y + oy,
    ) by {
        lemma_unfold_at(ls, m, x, y);
    }
    assert forall|x: int, y: int| in_square(e, x, y) implies #[trigger] alive_at(ls, c.ne, x, y) == f(
        x + (ox + s),
        y + oy,
    ) by {
        lemma_unfold_at(ls, m, x + s, y);
    }
    assert forall|x: int, y: int| in_square(e, x, y) implies #[trigger] alive_at(ls, c.sw, x, y) == f(
        x + ox,
        y + (oy + s),
    ) by {
        lemma_unfold_at(ls, m, x, y + s);
    }
    assert forall|x: int, y: int| in_square(e, x, y) implies #[trigger] alive_at(ls, c.se, x, y) == f(
        x + (ox + s),
        y + (oy + s),
    ) by {
        lemma_unfold_at(ls, m, x + s, y + s);
    }
}

/// Each of four nodes of one depth agrees with its own quadrant of `quad4`.
pub proof fn lemma_quad4_agrees(ls: Arena, nw: CellId, ne: CellId, sw: CellId, se: CellId)
    requires
        ne.spec_layer() == nw.spec_layer(),
        sw.spec_layer() == nw.spec_layer(),
        se.spec_layer() == nw.spec_layer(),
    ensures
        ({
            let s = pow2(nw.spec_layer()) as int;
            let f = quad4(ls, nw, ne, sw, se, s);
            &&& agrees(ls, nw, f, 0, 0)
            &&& agrees(ls, ne, f, s, 0)
            &&& agrees(ls, sw, f, 0, s)
            &&& agrees(ls, se, f, s, s)
        }),
{
}

/// Two nodes of one depth each agree with their half of `side_by_side` and
/// of `stacked`.
pub proof fn lemma_pair_agrees(ls: Arena, a: CellId, b: CellId)
    requires
        b.spec_layer() == a.spec_layer(),
    ensures
        ({
            let s = pow2(a.spec_layer()) as int;
            &&& agrees(ls, a, side_by_side(ls, a, b, s), 0, 0)
            &&& agrees(ls, b, side_by_side(ls, a, b, s), s, 0)
            &&& agrees(ls, a, stacked(ls, a, b, s), 0, 0)
            &&& agrees(ls, b, stacked(ls, a, b, s), 0, s)
        }),
{
}

/// Where every cell of `m` is also a cell of `n`, offset by `(ox, oy)`, this
/// holds of the cells that `f` gives for `n` too.
pub proof fn lemma_agrees_trans(
    ls: Arena,
    m: CellId,
    n: CellId,
    f: spec_fn(int, int) -> bool,
    ox: int,
    oy: int,
    px: int,
    py: int,
)
    requires
        agrees(ls, m, pattern_of(ls, n), ox, oy),
        agrees(ls, n, f, px, py),
        0 <= ox,
        0 <= oy,
        ox + pow2(m.spec_layer()) <= pow2(n.spec_layer()),
        oy + pow2(m.spec_layer()) <= pow2(n.spec_layer()),
    ensures
        agrees(ls, m, f, ox + px, oy + py),
{
    assert forall|x: int, y: int| in_square(m.spec_layer(), x, y) implies #[trigger] alive_at(
        ls,
        m,
        x,
        y,
    ) == f(x + (ox + px), y + (oy + py)) by {
        assert(alive_at(ls, m, x, y) == alive_at(ls, n, x + ox, y + oy));
        assert(in_square(n.spec_layer(), x + ox, y + oy));
        assert(alive_at(ls, n, x + ox, y + oy) == f(x + ox + px, y + oy + py));
    }
}

/// A node that agrees with `pattern_of(n)` keeps doing so as the arenas grow.
pub proof fn lemma_extends_shifted(
    old: Arena,
    new: Arena,
    m: CellId,
    n: CellId,
    ox: int,
    oy: int,
)
    requires
        arena_ok(old),
        extends(old, new),
        valid_ref(old, m),
        valid_ref(old, n),
        agrees(old, m, pattern_of(old, n), ox, oy),
    ensures
        agrees(new, m, pattern_of(new, n), ox, oy),
{
    assert forall|x: int, y: int| in_square(m.spec_layer(), x, y) implies #[trigger] alive_at(
        new,
        m,
        x,
        y,
    ) == (pattern_of(new, n))(x + ox, y + oy) by {
        lemma_extends_alive(old, new, m.spec_layer(), m.spec_index() as int, x, y);
        lemma_extends_alive(old, new, n.spec_layer(), n.spec_index() as int, x + ox, y + oy);
        assert(alive_at(old, m, x, y) == (pattern_of(old, n))(x + ox, y + oy));
    }
}

/// Consecutive extensions compose: each arena of the chain is extended by
/// every later one.
pub proof fn lemma_extends_chain(ss: Seq<Arena>)
    requires
        forall|k: int| 0 <= k < ss.len() - 1 ==> extends(#[trigger] ss[k], ss[k + 1]),
    ensures
        forall|a: int, b: int| 0 <= a <= b < ss.len() ==> extends(#[trigger] ss[a], #[trigger] ss[b]),
    decreases ss.len(),
{
    if ss.len() > 1 {
        let init = ss.drop_last();
        assert forall|k: int| 0 <= k < init.len() - 1 implies extends(#[trigger] init[k], init[k + 1]) by {
            assert(init[k] == ss[k] && init[k + 1] == ss[k + 1]);
        }
        lemma_extends_chain(init);
        let last = ss.len() - 1;
        assert forall|a: int, b: int| 0 <= a <= b < ss.len() implies extends(
            #[trigger] ss[a],
            #[trigger] ss[b],
        ) by {
            if b < last {
                assert(init[a] == ss[a] && init[b] == ss[b]);
            } else if a == b {
                lemma_extends_refl(ss[a]);
            } else {
                assert(init[a] == ss[a] && init[last - 1] == ss[last - 1]);
                assert(extends(ss[a], ss[last - 1]));
                lemma_extends_trans(ss[a], ss[last - 1], ss[last]);
            }
        }
    }
}

/// Where every cell of `m` (depth at least two) is the cell of `n` offset by
/// `(ox, oy)`, the next generation of `m` is that of `n` there too.
pub proof fn lemma_next_agrees(ls: Arena, r: CellId, m: CellId, n: CellId, ox: int, oy: int)
    requires
        next_ok(ls, m.spec_layer(), m.spec_index() as int, r),
        agrees(ls, m, pattern_of(ls, n), ox, oy),
    ensures
        agrees(
            ls,
            r,
            step_of(pattern_of(ls, n)),
            ox + pow2((m.spec_layer() - 2) as nat),
            oy + pow2((m.spec_layer() - 2) as nat),
        ),
{
    let k = m.spec_layer();
    let p = pow2((k - 2) as nat) as int;
    lemma_pow2_unfold(k);
    lemma_pow2_unfold((k - 1) as nat);
    lemma_pow2_pos((k - 2) as nat);
    assert((k - 1 - 1) as nat == (k - 2) as nat);
    let fm = pattern_of(ls, m);
    let fnn = pattern_of(ls, n);
    assert forall|x: int, y: int| in_square(r.spec_layer(), x, y) implies #[trigger] alive_at(
        ls,
        r,
        x,
        y,
    ) == (step_of(fnn))(x + (ox + p), y + (oy + p)) by {
        assert(alive_at(ls, r, x, y) == (step_of(fm))(x + p, y + p));
        let (a, b) = (x + p, y + p);
        assert(in_square(k, a - 1, b - 1));
        assert(alive_at(ls, m, a - 1, b - 1) == fnn(a - 1 + ox, b - 1 + oy));
        assert(in_square(k, a, b - 1));
        assert(alive_at(ls, m, a, b - 1) == fnn(a + ox, b - 1 + oy));
        assert(in_square(k, a + 1, b - 1));
        assert(alive_at(ls, m, a + 1, b - 1) == fnn(a + 1 + ox, b - 1 + oy));
        assert(in_square(k, a - 1, b));
        assert(alive_at(ls, m, a - 1, b) == fnn(a - 1 + ox, b + oy));
        assert(in_square(k, a, b));
        assert(alive_at(ls, m, a, b) == fnn(a + ox, b + oy));
        assert(in_square(k, a + 1, b));
        assert(alive_at(ls, m, a + 1, b) == fnn(a + 1 + ox, b + oy));
        assert(in_square(k, a - 1, b + 1));
        assert(alive_at(ls, m, a - 1, b + 1) == fnn(a - 1 + ox, b + 1 + oy));
        assert(in_square(k, a, b + 1));
        assert(alive_at(ls, m, a, b + 1) == fnn(a + ox, b + 1 + oy));
        assert(in_square(k, a + 1, b + 1));
        assert(alive_at(ls, m, a + 1, b + 1) == fnn(a + 1 + ox, b + 1 + oy));
    }
}

/// The next generation of a quadrant of `n` (one depth smaller, offset by
/// `(ox, oy)`) is the next generation of `n` a further eighth of `n` in.
pub proof fn lemma_quadrant_next(ls: Arena, r: CellId, m: CellId, n: CellId, ox: int, oy: int)
    requires
        m.spec_layer() + 1 == n.spec_layer(),
        n.spec_layer() >= 3,
        next_ok(ls, m.spec_layer(), m.spec_index() as int, r),
        agrees(ls, m, pattern_of(ls, n), ox, oy),
    ensures
        agrees(
            ls,
            r,
            step_of(pattern_of(ls, n)),
            ox + pow2((n.spec_layer() - 3) as nat),
            oy + pow2((n.spec_layer() - 3) as nat),
        ),
{
    assert((m.spec_layer() - 2) as nat == (n.spec_layer() - 3) as nat);
    lemma_next_agrees(ls, r, m, n, ox, oy);
}

pub proof fn lemma_agrees_at(ls: Arena, m: CellId, f: spec_fn(int, int) -> bool, ox: int, oy: int, px: int, py: int)
    requires
        agrees(ls, m, f, ox, oy),
        ox == px,
        oy == py,
    ensures
        agrees(ls, m, f, px, py),
{
}

/// Where the four overlapping quadrants of `n` have next generations
/// `rnw`..`rse`, their join is the next generation of `n`.
pub proof fn lemma_compose_next(
    ls: Arena,
    n: CellId,
    qnw: CellId,
    qne: CellId,
    qsw: CellId,
    qse: CellId,
    rnw: CellId,
    rne: CellId,
    rsw: CellId,
    rse: CellId,
    res: CellId,
)
    requires
        arena_ok(ls),
        valid_ref(ls, n),
        valid_ref(ls, res),
        n.spec_layer() >= 3,
        res.spec_layer() + 1 == n.spec_layer(),
        node(ls, res)->Composite_0.nw == rnw,
        node(ls, res)->Composite_0.ne == rne,
        node(ls, res)->Composite_0.sw == rsw,
        node(ls, res)->Composite_0.se == rse,
        qnw.spec_layer() + 1 == n.spec_layer(),
        qne.spec_layer() + 1 == n.spec_layer(),
        qsw.spec_layer() + 1 == n.spec_layer(),
        qse.spec_layer() + 1 == n.spec_layer(),
        ({
            let q = pow2((n.spec_layer() - 3) as nat) as int;
            &&& agrees(ls, qnw, pattern_of(ls, n), q, q)
            &&& agrees(ls, qne, pattern_of(ls, n), 3 * q, q)
            &&& agrees(ls, qsw, pattern_of(ls, n), q, 3 * q)
            &&& agrees(ls, qse, pattern_of(ls, n), 3 * q, 3 * q)
        }),
        next_ok(ls, qnw.spec_layer(), qnw.spec_index() as int, rnw),
        next_ok(ls, qne.spec_layer(), qne.spec_index() as int, rne),
        next_ok(ls, qsw.spec_layer(), qsw.spec_index() as int, rsw),
        next_ok(ls, qse.spec_layer(), qse.spec_index() as int, rse),
    ensures
        next_ok(ls, n.spec_layer(), n.spec_index() as int, res),
{
    let d = n.spec_layer();
    let q = pow2((d - 3) as nat) as int;
    lemma_pow2_unfold((d - 2) as nat);
    assert((d - 2 - 1) as nat == (d - 3) as nat);
    assert((res.spec_layer() - 1) as nat == (d - 2) as nat);
    assert(pow2((d - 2) as nat) == 2 * q);
    let f = step_of(pattern_of(ls, n));
    lemma_quadrant_next(ls, rnw, qnw, n, q, q);
    lemma_quadrant_next(ls, rne, qne, n, 3 * q, q);
    lemma_quadrant_next(ls, rsw, qsw, n, q, 3 * q);
    lemma_quadrant_next(ls, rse, qse, n, 3 * q, 3 * q);
    lemma_agrees_at(ls, rnw, f, q + q, q + q, 2 * q, 2 * q);
    lemma_agrees_at(ls, rne, f, 3 * q + q, q + q, 4 * q, 2 * q);
    lemma_agrees_at(ls, rsw, f, q + q, 3 * q + q, 2 * q, 4 * q);
    lemma_agrees_at(ls, rse, f, 3 * q + q, 3 * q + q, 4 * q, 4 * q);
    lemma_join_agrees(ls, res, f, 2 * q, 2 * q);
}

/// Filling in the memo of a composite with its true next generation keeps
/// the arena consistent.
pub proof fn lemma_set_memo(ls: Arena, d: int, i: int, r: CellId)
    requires
        arena_ok(ls),
        memo_ok(ls),
        0 <= d < ls.len(),
        0 <= i < ls[d].len(),
        ls[d][i] is Composite,
        ls[d][i]->Composite_0.next_gen is None,
        next_ok(ls, d as nat, i, r),
    ensures
        ({
            let ls2 = ls.update(
                d,
                ls[d].update(
                    i,
                    Cell::Composite(CompositeCell { next_gen: Some(r), ..ls[d][i]->Composite_0 }),
                ),
            );
            &&& extends(ls, ls2)
            &&& arena_ok(ls2)
            &&& memo_ok(ls2)
        }),
{
    let ls2 = ls.update(
        d,
        ls[d].update(
            i,
            Cell::Composite(CompositeCell { next_gen: Some(r), ..ls[d][i]->Composite_0 }),
        ),
    );
    assert forall|k: int| 0 <= k < ls.len() implies ls[k].len() <= #[trigger] ls2[k].len() by {}
    assert forall|k: int, j: int| 0 <= k < ls.len() && 0 <= j < ls[k].len() implies (
    #[trigger] ls2[k][j]).content() == ls[k][j].content() by {}
    assert forall|k: int, j: int| 0 <= k < ls.len() && 0 <= j < ls[k].len() implies #[trigger] memo_kept(
        ls,
        ls2,
        k,
        j,
    ) by {}
    assert(extends(ls, ls2));
    assert forall|k: int, j: int| 0 <= k < ls2.len() && 0 <= j < ls2[k].len() implies #[trigger] slot_ok(
        ls2,
        k,
        j,
    ) by {
        lemma_extends_cell_ok(ls, ls2, k, j);
    }
    assert forall|k: int, j: int| 0 <= k < ls2.len() && 0 <= j < ls2[k].len() implies #[trigger] slot_memo_ok(
        ls2,
        k,
        j,
    ) by {
        if k == d && j == i {
            lemma_extends_next_ok(ls, ls2, d as nat, i, r);
        } else {
            assert(ls2[k][j] == ls[k][j]);
            assert(slot_memo_ok(ls, k, j));
            if ls[k][j] is Composite && ls[k][j]->Composite_0.next_gen is Some {
                lemma_extends_next_ok(ls, ls2, k as nat, j, ls[k][j]->Composite_0.next_gen->Some_0);
            }
        }
    }
}

/// A leaf is alive everywhere exactly when its population is positive.
pub proof fn lemma_leaf_alive(ls: Arena, l: CellId)
    requires
        arena_ok(ls),
        valid_ref(ls, l),
        l.spec_layer() == 0,
    ensures
        forall|x: int, y: int| #[trigger] alive_at(ls, l, x, y) == (l.spec_alive() > 0),
{
    assert(slot_ok(ls, 0, l.spec_index() as int));
}

/// The next state of a cell depends only on the cell and its eight
/// neighbours.
pub proof fn lemma_step_congr(f: spec_fn(int, int) -> bool, g: spec_fn(int, int) -> bool, a: int, b: int)
    requires
        forall|x: int, y: int| a - 1 <= x <= a + 1 && b - 1 <= y <= b + 1 ==> #[trigger] f(x, y) == g(x, y),
    ensures
        (step_of(f))(a, b) == (step_of(g))(a, b),
{
    assert(f(a - 1, b - 1) == g(a - 1, b - 1));
    assert(f(a, b - 1) == g(a, b - 1));
    assert(f(a + 1, b - 1) == g(a + 1, b - 1));
    assert(f(a - 1, b) == g(a - 1, b));
    assert(f(a, b) == g(a, b));
    assert(f(a + 1, b) == g(a + 1, b));
    assert(f(a - 1, b + 1) == g(a - 1, b + 1));
    assert(f(a, b + 1) == g(a, b + 1));
    assert(f(a + 1, b + 1) == g(a + 1, b + 1));
}

/// Where `f` and `g` agree on the cells that `m` covers (offset by
/// `(gx, gy)`), agreement with `f` carries over to `g`.
pub proof fn lemma_agrees_congr(
    ls: Arena,
    m: CellId,
    f: spec_fn(int, int) -> bool,
    g: spec_fn(int, int) -> bool,
    ox: int,
    oy: int,
    gx: int,
    gy: int,
)
    requires
        agrees(ls, m, f, ox, oy),
        forall|x: int, y: int|
            in_square(m.spec_layer(), x, y) ==> f(x + ox, y + oy) == #[trigger] g(
                x + ox + gx,
                y + oy + gy,
            ),
    ensures
        agrees(ls, m, g, ox + gx, oy + gy),
{
    assert forall|x: int, y: int| in_square(m.spec_layer(), x, y) implies #[trigger] alive_at(
        ls,
        m,
        x,
        y,
    ) == g(x + (ox + gx), y + (oy + gy)) by {
        assert(alive_at(ls, m, x, y) == f(x + ox, y + oy));
        assert(f(x + ox, y + oy) == g(x + ox + gx, y + oy + gy));
    }
}

/// Four old nodes laid out as quadrants keep their pattern as the arenas
/// grow.
pub proof fn lemma_extends_quad4(
    old: Arena,
    new: Arena,
    nw: CellId,
    ne: CellId,
    sw: CellId,
    se: CellId,
    s: int,
)
    requires
        arena_ok(old),
        extends(old, new),
        valid_ref(old, nw),
        valid_ref(old, ne),
        valid_ref(old, sw),
        valid_ref(old, se),
    ensures
        forall|x: int, y: int| #[trigger] (quad4(new, nw, ne, sw, se, s))(x, y) == (quad4(old, nw, ne, sw, se, s))(x, y),
{
    assert forall|x: int, y: int| #[trigger] (quad4(new, nw, ne, sw, se, s))(x, y) == (quad4(old, nw, ne, sw, se, s))(x, y) by {
        lemma_extends_alive(old, new, nw.spec_layer(), nw.spec_index() as int, x, y);
        lemma_extends_alive(old, new, ne.spec_layer(), ne.spec_index() as int, x - s, y);
        lemma_extends_alive(old, new, sw.spec_layer(), sw.spec_index() as int, x, y - s);
        lemma_extends_alive(old, new, se.spec_layer(), se.spec_index() as int, x - s, y - s);
    }
}

/// Every reference valid in `old` stays valid in an extension of it.
pub proof fn lemma_extends_valid_all(old: Arena, new: Arena)
    requires
        extends(old, new),
    ensures
        forall|r: CellId| valid_ref(old, r) ==> #[trigger] valid_ref(new, r),
{
    assert forall|r: CellId| valid_ref(old, r) implies #[trigger] valid_ref(new, r) by {
        lemma_extends_valid(old, new, r);
    }
}

pub proof fn lemma_content_alive_count(c: Cell)
    ensures
        c.content().spec_alive_count() == c.spec_alive_count(),
        c.content().spec_key() == c.spec_key(),
        c.content() is Base <==> c is Base,
{
}

/// Growing the arenas changes neither the validity of an old reference nor
/// the pattern of an old node.
pub proof fn lemma_extends_alive(old: Arena, new: Arena, d: nat, i: int, x: int, y: int)
    requires
        arena_ok(old),
        extends(old, new),
        d < old.len(),
        0 <= i < old[d as int].len(),
    ensures
        alive_in(new, d, i, x, y) == alive_in(old, d, i, x, y),
    decreases d,
{
    let oc = old[d as int][i];
    let nc = new[d as int][i];
    assert(nc.content() == oc.content());
    assert(slot_ok(old, d as int, i));
    if d > 0 {
        let c = oc->Composite_0;
        assert(nc->Composite_0.nw == c.nw && nc->Composite_0.ne == c.ne);
        assert(nc->Composite_0.sw == c.sw && nc->Composite_0.se == c.se);
        let h = pow2((d - 1) as nat) as int;
        let e = (d - 1) as nat;
        if y < h {
            if x < h {
                lemma_extends_alive(old, new, e, c.nw.spec_index() as int, x, y);
            } else {
                lemma_extends_alive(old, new, e, c.ne.spec_index() as int, x - h, y);
            }
        } else {
            if x < h {
                lemma_extends_alive(old, new, e, c.sw.spec_index() as int, x, y - h);
            } else {
                lemma_extends_alive(old, new, e, c.se.spec_index() as int, x - h, y - h);
            }
        }
    } else {
        assert(nc is Base);
    }
}

pub proof fn lemma_extends_valid(old: Arena, new: Arena, r: CellId)
    requires
        extends(old, new),
        valid_ref(old, r),
    ensures
        valid_ref(new, r),
        node(new, r).content() == node(old, r).content(),
        node(new, r) is Composite <==> node(old, r) is Composite,
        node(old, r) is Composite ==> {
            &&& node(new, r)->Composite_0.nw == node(old, r)->Composite_0.nw
            &&& node(new, r)->Composite_0.ne == node(old, r)->Composite_0.ne
            &&& node(new, r)->Composite_0.sw == node(old, r)->Composite_0.sw
            &&& node(new, r)->Composite_0.se == node(old, r)->Composite_0.se
        },
{
    let d = r.spec_layer() as int;
    let i = r.spec_index() as int;
    assert(new[d].len() >= old[d].len());
    assert(new[d][i].content() == old[d][i].content());
    lemma_content_alive_count(new[d][i]);
    lemma_content_alive_count(old[d][i]);
}

pub proof fn lemma_extends_cell_ok(old: Arena, new: Arena, d: int, i: int)
    requires
        arena_ok(old),
        extends(old, new),
        0 <= d < old.len(),
        0 <= i < old[d].len(),
    ensures
        cell_ok(new, d as nat, new[d][i]),
{
    let oc = old[d][i];
    let nc = new[d][i];
    assert(slot_ok(old, d, i));
    assert(nc.content() == oc.content());
    lemma_content_alive_count(nc);
    lemma_content_alive_count(oc);
    if d > 0 {
        let c = oc->Composite_0;
        assert(nc->Composite_0.nw == c.nw);
        lemma_extends_valid(old, new, c.nw);
        lemma_extends_valid(old, new, c.ne);
        lemma_extends_valid(old, new, c.sw);
        lemma_extends_valid(old, new, c.se);
    }
}

pub proof fn lemma_extends_next_ok(old: Arena, new: Arena, d: nat, i: int, r: CellId)
    requires
        arena_ok(old),
        extends(old, new),
        d < old.len(),
        0 <= i < old[d as int].len(),
        next_ok(old, d, i, r),
    ensures
        next_ok(new, d, i, r),
{
    lemma_extends_valid(old, new, r);
    let q = pow2((d - 2) as nat) as int;
    let fo = step_of(pattern_in(old, d, i));
    let fnew = step_of(pattern_in(new, d, i));
    assert forall|x: int, y: int| in_square(r.spec_layer(), x, y) implies #[trigger] alive_at(
        new,
        r,
        x,
        y,
    ) == fnew(x + q, y + q) by {
        lemma_extends_alive(old, new, r.spec_layer(), r.spec_index() as int, x, y);
        let (a, b) = (x + q, y + q);
        lemma_extends_alive(old, new, d, i, a, b);
        lemma_extends_alive(old, new, d, i, a - 1, b - 1);
        lemma_extends_alive(old, new, d, i, a, b - 1);
        lemma_extends_alive(old, new, d, i, a + 1, b - 1);
        lemma_extends_alive(old, new, d, i, a - 1, b);
        lemma_extends_alive(old, new, d, i, a + 1, b);
        lemma_extends_alive(old, new, d, i, a - 1, b + 1);
        lemma_extends_alive(old, new, d, i, a, b + 1);
        lemma_extends_alive(old, new, d, i, a + 1, b + 1);
        assert(alive_at(old, r, x, y) == fo(x + q, y + q));
    }
}

/// Where `new` extends `old` and every node of `new` that is not in `old` fits
/// and carries no memo, `new` is a consistent arena whenever `old` is.
pub proof fn lemma_extends_ok(old: Arena, new: Arena)
    requires
        arena_ok(old),
        memo_ok(old),
        extends(old, new),
        forall|d: int, i: int|
            0 <= d < old.len() && 0 <= i < old[d].len() ==> (#[trigger] new[d][i]) == old[d][i],
        forall|d: int, i: int|
            0 <= d < new.len() && old[d].len() <= i < new[d].len() ==> cell_ok(
                new,
                d as nat,
                #[trigger] new[d][i],
            ) && new[d][i] == new[d][i].content(),
    ensures
        arena_ok(new),
        memo_ok(new),
{
    assert forall|d: int, i: int| 0 <= d < new.len() && 0 <= i < new[d].len() implies #[trigger] slot_ok(
        new,
        d,
        i,
    ) by {
        if i < old[d].len() {
            lemma_extends_cell_ok(old, new, d, i);
        } else {
            assert(cell_ok(new, d as nat, new[d][i]));
        }
    }
    assert forall|d: int, i: int| 0 <= d < new.len() && 0 <= i < new[d].len() implies #[trigger] slot_memo_ok(
        new,
        d,
        i,
    ) by {
        if i < old[d].len() {
            assert(new[d][i] == old[d][i]);
            assert(slot_memo_ok(old, d, i));
            if old[d][i] is Composite && old[d][i]->Composite_0.next_gen is Some {
                lemma_extends_next_ok(old, new, d as nat, i, old[d][i]->Composite_0.next_gen->Some_0);
            }
        } else {
            assert(new[d][i] == new[d][i].content());
        }
    }
}

pub proof fn lemma_extends_trans(a: Arena, b: Arena, c: Arena)
    requires
        extends(a, b),
        extends(b, c),
    ensures
        extends(a, c),
{
    assert forall|d: int| 0 <= d < a.len() implies a[d].len() <= #[trigger] c[d].len() by {
        assert(b[d].len() <= c[d].len());
    }
    assert forall|d: int, i: int| 0 <= d < a.len() && 0 <= i < a[d].len() implies (
    #[trigger] c[d][i]).content() == a[d][i].content() by {
        assert(b[d].len() <= c[d].len());
        assert(b[d][i].content() == a[d][i].content());
    }
    assert forall|d: int, i: int| 0 <= d < a.len() && 0 <= i < a[d].len() implies #[trigger] memo_kept(
        a,
        c,
        d,
        i,
    ) by {
        assert(b[d].len() <= c[d].len());
        assert(memo_kept(a, b, d, i));
        assert(memo_kept(b, c, d, i));
    }
}

pub proof fn lemma_extends_refl(a: Arena)
    ensures
        extends(a, a),
{
    assert forall|d: int, i: int| 0 <= d < a.len() && 0 <= i < a[d].len() implies (
    #[trigger] a[d][i]).content() == a[d][i].content() by {}
    assert forall|d: int, i: int| 0 <= d < a.len() && 0 <= i < a[d].len() implies #[trigger] memo_kept(
        a,
        a,
        d,
        i,
    ) by {}
}

/// The node `n` sits in `r` at `(o, o)`, and every cell of `r` outside that
/// copy is dead.
pub open spec fn embeds(ls: Arena, n: CellId, r: CellId, o: int) -> bool {
    &&& agrees(ls, n, pattern_of(ls, r), o, o)
    &&& forall|x: int, y: int|
        in_square(r.spec_layer(), x, y) && !in_square(n.spec_layer(), x - o, y - o)
            ==> !#[trigger] alive_at(ls, r, x, y)
}

/// An embedding keeps holding as the arenas grow.
pub proof fn lemma_extends_embeds(old: Arena, new: Arena, n: CellId, r: CellId, o: int)
    requires
        arena_ok(old),
        extends(old, new),
        valid_ref(old, n),
        valid_ref(old, r),
        embeds(old, n, r, o),
    ensures
        embeds(new, n, r, o),
{
    lemma_extends_shifted(old, new, n, r, o, o);
    assert forall|x: int, y: int|
        in_square(r.spec_layer(), x, y) && !in_square(n.spec_layer(), x - o, y - o)
            implies !#[trigger] alive_at(new, r, x, y) by {
        lemma_extends_alive(old, new, r.spec_layer(), r.spec_index() as int, x, y);
        assert(!alive_at(old, r, x, y));
    }
}

/// Embedding composes.
pub proof fn lemma_embeds_trans(ls: Arena, n: CellId, r1: CellId, r2: CellId, o1: int, o2: int)
    requires
        embeds(ls, n, r1, o1),
        embeds(ls, r1, r2, o2),
        0 <= o1,
        o1 + pow2(n.spec_layer()) <= pow2(r1.spec_layer()),
    ensures
        embeds(ls, n, r2, o1 + o2),
{
    lemma_agrees_trans(ls, n, r1, pattern_of(ls, r2), o1, o1, o2, o2);
    assert forall|x: int, y: int|
        in_square(r2.spec_layer(), x, y) && !in_square(n.spec_layer(), x - (o1 + o2), y - (o1 + o2))
            implies !#[trigger] alive_at(ls, r2, x, y) by {
        if in_square(r1.spec_layer(), x - o2, y - o2) {
            assert(alive_at(ls, r1, x - o2, y - o2) == (pattern_of(ls, r2))(x - o2 + o2, y - o2 + o2));
            assert(!alive_at(ls, r1, x - o2, y - o2));
        }
    }
}

/// A node whose population is that of its centred window has no live cell
/// outside that window.
pub proof fn lemma_padded_center(ls: Arena, r: CellId, x: int, y: int)
    requires
        arena_ok(ls),
        valid_ref(ls, r),
        r.spec_layer() >= 2,
        ({
            let c = node(ls, r)->Composite_0;
            r.spec_alive() == node(ls, c.nw)->Composite_0.se.spec_alive() + node(
                ls,
                c.ne,
            )->Composite_0.sw.spec_alive() + node(ls, c.sw)->Composite_0.ne.spec_alive() + node(
                ls,
                c.se,
            )->Composite_0.nw.spec_alive()
        }),
        in_square(r.spec_layer(), x, y),
        !({
            let u = pow2((r.spec_layer() - 2) as nat) as int;
            u <= x < 3 * u && u <= y < 3 * u
        }),
    ensures
        !alive_at(ls, r, x, y),
{
    let d = r.spec_layer();
    let u = pow2((d - 2) as nat) as int;
    let c = node(ls, r)->Composite_0;
    lemma_unfold_at(ls, r, x, y);
    let h = pow2((d - 1) as nat) as int;
    assert((d - 1 - 1) as nat == (d - 2) as nat);
    let (k, kx, ky) = if y < h {
        if x < h {
            (c.nw, x, y)
        } else {
            (c.ne, x - h, y)
        }
    } else {
        if x < h {
            (c.sw, x, y - h)
        } else {
            (c.se, x - h, y - h)
        }
    };
    lemma_unfold_at(ls, c.nw, 0, 0);
    lemma_unfold_at(ls, c.ne, 0, 0);
    lemma_unfold_at(ls, c.sw, 0, 0);
    lemma_unfold_at(ls, c.se, 0, 0);
    lemma_unfold_at(ls, k, kx, ky);
    let g = node(ls, k)->Composite_0;
    let (gg, gx, gy) = if ky < u {
        if kx < u {
            (g.nw, kx, ky)
        } else {
            (g.ne, kx - u, ky)
        }
    } else {
        if kx < u {
            (g.sw, kx, ky - u)
        } else {
            (g.se, kx - u, ky - u)
        }
    };
    assert(gg.spec_alive() == 0);
    assert(slot_ok(ls, gg.spec_layer() as int, gg.spec_index() as int));
    lemma_empty_is_dead(ls, gg.spec_layer(), gg.spec_index() as int, gx, gy);
}

/// The live cells of the node in slot `i` of depth `d`, in its own square.
pub open spec fn live_cells(ls: Arena, d: nat, i: int) -> Set<(int, int)> {
    Set::new(|p: (int, int)| in_square(d, p.0, p.1) && alive_in(ls, d, i, p.0, p.1))
}

/// The cells of `s` moved by `(dx, dy)`.
pub open spec fn shifted(s: Set<(int, int)>, dx: int, dy: int) -> Set<(int, int)> {
    s.map(|p: (int, int)| (p.0 + dx, p.1 + dy))
}

pub proof fn lemma_shifted_len(s: Set<(int, int)>, dx: int, dy: int)
    requires
        s.finite(),
    ensures
        shifted(s, dx, dy).finite(),
        shifted(s, dx, dy).len() == s.len(),
{
    let f = |p: (int, int)| (p.0 + dx, p.1 + dy);
    assert(injective_on(f, s));
    lemma_map_size(s, shifted(s, dx, dy), f);
}

/// A node's population is the number of its live cells.
pub proof fn lemma_population_counts(ls: Arena, d: nat, i: int)
    requires
        arena_ok(ls),
        d < ls.len(),
        0 <= i < ls[d as int].len(),
    ensures
        live_cells(ls, d, i).finite(),
        live_cells(ls, d, i).len() == ls[d as int][i].spec_alive_count(),
    decreases d,
{
    let cell = ls[d as int][i];
    assert(slot_ok(ls, d as int, i));
    if d == 0 {
        lemma2_to64();
        if cell == Cell::Base(BaseCell::Alive) {
            assert(live_cells(ls, d, i) =~= set![(0int, 0int)]);
        } else {
            assert(live_cells(ls, d, i) =~= Set::<(int, int)>::empty());
        }
    } else {
        let c = cell->Composite_0;
        let h = pow2((d - 1) as nat) as int;
        let e = (d - 1) as nat;
        lemma_pow2_unfold(d);
        let (inw, ine, isw, ise) = (
            c.nw.spec_index() as int,
            c.ne.spec_index() as int,
            c.sw.spec_index() as int,
            c.se.spec_index() as int,
        );
        lemma_population_counts(ls, e, inw);
        lemma_population_counts(ls, e, ine);
        lemma_population_counts(ls, e, isw);
        lemma_population_counts(ls, e, ise);
        let a = live_cells(ls, e, inw);
        let b = shifted(live_cells(ls, e, ine), h, 0);
        let cc = shifted(live_cells(ls, e, isw), 0, h);
        let dd = shifted(live_cells(ls, e, ise), h, h);
        lemma_shifted_len(live_cells(ls, e, ine), h, 0);
        lemma_shifted_len(live_cells(ls, e, isw), 0, h);
        lemma_shifted_len(live_cells(ls, e, ise), h, h);
        let all = live_cells(ls, d, i);
        assert forall|p: (int, int)| #[trigger] all.contains(p) <==> (a + b + cc + dd).contains(p) by {
            let (x, y) = p;
            if x < h && y < h {
            } else if y < h {
                if live_cells(ls, e, ine).contains((x - h, y)) {
                    assert(((x - h) + h, y + 0) == p);
                }
            } else if x < h {
                if live_cells(ls, e, isw).contains((x, y - h)) {
                    assert((x + 0, (y - h) + h) == p);
                }
            } else {
                if live_cells(ls, e, ise).contains((x - h, y - h)) {
                    assert(((x - h) + h, (y - h) + h) == p);
                }
            }
            if b.contains(p) {
                let q = choose|q: (int, int)| live_cells(ls, e, ine).contains(q) && (q.0 + h, q.1 + 0) == p;
            }
            if cc.contains(p) {
                let q = choose|q: (int, int)| live_cells(ls, e, isw).contains(q) && (q.0 + 0, q.1 + h) == p;
            }
            if dd.contains(p) {
                let q = choose|q: (int, int)| live_cells(ls, e, ise).contains(q) && (q.0 + h, q.1 + h) == p;
            }
        }
        assert(all =~= a + b + cc + dd);
        assert(a.disjoint(b)) by {
            assert forall|p: (int, int)| a.contains(p) implies !b.contains(p) by {
                if b.contains(p) {
                    let q = choose|q: (int, int)| live_cells(ls, e, ine).contains(q) && (q.0 + h, q.1 + 0) == p;
                }
            }
        }
        assert((a + b).disjoint(cc)) by {
            assert forall|p: (int, int)| (a + b).contains(p) implies !cc.contains(p) by {
                if cc.contains(p) {
                    let q = choose|q: (int, int)| live_cells(ls, e, isw).contains(q) && (q.0 + 0, q.1 + h) == p;
                }
                if b.contains(p) {
                    let q = choose|q: (int, int)| live_cells(ls, e, ine).contains(q) && (q.0 + h, q.1 + 0) == p;
                }
            }
        }
        assert((a + b + cc).disjoint(dd)) by {
            assert forall|p: (int, int)| (a + b + cc).contains(p) implies !dd.contains(p) by {
                if dd.contains(p) {
                    let q = choose|q: (int, int)| live_cells(ls, e, ise).contains(q) && (q.0 + h, q.1 + h) == p;
                }
                if b.contains(p) {
                    let q = choose|q: (int, int)| live_cells(ls, e, ine).contains(q) && (q.0 + h, q.1 + 0) == p;
                }
                if cc.contains(p) {
                    let q = choose|q: (int, int)| live_cells(ls, e, isw).contains(q) && (q.0 + 0, q.1 + h) == p;
                }
            }
        }
        lemma_set_disjoint_lens(a, b);
        lemma_set_disjoint_lens(a + b, cc);
        lemma_set_disjoint_lens(a + b + cc, dd);
    }
}

/// A node of positive population holds a live cell.
pub proof fn lemma_live_cell_exists(ls: Arena, d: nat, i: int)
    requires
        arena_ok(ls),
        d < ls.len(),
        0 <= i < ls[d as int].len(),
        ls[d as int][i].spec_alive_count() > 0,
    ensures
        exists|x: int, y: int| in_square(d, x, y) && #[trigger] alive_in(ls, d, i, x, y),
    decreases d,
{
    let cell = ls[d as int][i];
    assert(slot_ok(ls, d as int, i));
    if d == 0 {
        lemma2_to64();
        assert(in_square(0, 0, 0) && alive_in(ls, 0, i, 0, 0));
    } else {
        let c = cell->Composite_0;
        let h = pow2((d - 1) as nat) as int;
        let e = (d - 1) as nat;
        lemma_pow2_unfold(d);
        lemma_pow2_pos(e);
        if c.nw.spec_alive() > 0 {
            lemma_live_cell_exists(ls, e, c.nw.spec_index() as int);
            let (x, y) = choose|x: int, y: int| in_square(e, x, y) && #[trigger] alive_in(ls, e, c.nw.spec_index() as int, x, y);
            assert(in_square(d, x, y) && alive_in(ls, d, i, x, y));
        } else if c.ne.spec_alive() > 0 {
            lemma_live_cell_exists(ls, e, c.ne.spec_index() as int);
            let (x, y) = choose|x: int, y: int| in_square(e, x, y) && #[trigger] alive_in(ls, e, c.ne.spec_index() as int, x, y);
            assert(in_square(d, x + h, y) && alive_in(ls, d, i, x + h, y));
        } else if c.sw.spec_alive() > 0 {
            lemma_live_cell_exists(ls, e, c.sw.spec_index() as int);
            let (x, y) = choose|x: int, y: int| in_square(e, x, y) && #[trigger] alive_in(ls, e, c.sw.spec_index() as int, x, y);
            assert(in_square(d, x, y + h) && alive_in(ls, d, i, x, y + h));
        } else {
            lemma_live_cell_exists(ls, e, c.se.spec_index() as int);
            let (x, y) = choose|x: int, y: int| in_square(e, x, y) && #[trigger] alive_in(ls, e, c.se.spec_index() as int, x, y);
            assert(in_square(d, x + h, y + h) && alive_in(ls, d, i, x + h, y + h));
        }
    }
}

/// A node of population zero holds no live cell.
pub proof fn lemma_empty_is_dead(ls: Arena, d: nat, i: int, x: int, y: int)
    requires
        arena_ok(ls),
        d < ls.len(),
        0 <= i < ls[d as int].len(),
        ls[d as int][i].spec_alive_count() == 0,
    ensures
        !alive_in(ls, d, i, x, y),
    decreases d,
{
    let cell = ls[d as int][i];
    assert(slot_ok(ls, d as int, i));
    if d > 0 {
        let c = cell->Composite_0;
        let h = pow2((d - 1) as nat) as int;
        let e = (d - 1) as nat;
        if y < h {
            if x < h {
                lemma_empty_is_dead(ls, e, c.nw.spec_index() as int, x, y);
            } else {
                lemma_empty_is_dead(ls, e, c.ne.spec_index() as int, x - h, y);
            }
        } else {
            if x < h {
                lemma_empty_is_dead(ls, e, c.sw.spec_index() as int, x, y - h);
            } else {
                lemma_empty_is_dead(ls, e, c.se.spec_index() as int, x - h, y - h);
            }
        }
    }
}

pub proof fn lemma_pow4_bound(d: nat)
    requires
        d <= 31,
    ensures
        pow4(d) <= 0x4000_0000_0000_0000,
{
    lemma_pow4_mono(d, 31);
    lemma_pow4_pow2(31);
    lemma2_to64_rest();
    assert(pow2(62) == 0x4000_0000_0000_0000);
}

pub proof fn lemma_pow4_pow2(d: nat)
    ensures
        pow4(d) == pow2(2 * d),
    decreases d,
{
    if d > 0 {
        let e = (d - 1) as nat;
        lemma_pow4_pow2(e);
        lemma_pow2_unfold(2 * d);
        lemma_pow2_unfold((2 * d - 1) as nat);
        assert((2 * d - 1 - 1) as nat == 2 * e);
        assert(pow2(2 * d) == 4 * pow2(2 * e));
        assert(pow4(d) == 4 * pow4(e));
    } else {
        lemma2_to64();
    }
}

pub proof fn lemma_pow4_mono(a: nat, b: nat)
    requires
        a <= b,
    ensures
        pow4(a) <= pow4(b),
    decreases b,
{
    if a < b {
        lemma_pow4_mono(a, (b - 1) as nat);
    }
}

} // verus!
