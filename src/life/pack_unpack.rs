//! Building an engine from a list of live cells, and listing its live cells.
use vstd::arithmetic::power2::{
    lemma2_to64, lemma2_to64_rest, lemma_pow2_adds, lemma_pow2_pos, lemma_pow2_strictly_increases, lemma_pow2_unfold,
    pow2,
};
use vstd::arithmetic::div_mod::{lemma_fundamental_div_mod, lemma_mod_multiples_vanish, lemma_small_mod};
use vstd::prelude::*;

use super::cell_id::CellId;
use super::import::{decode, rle_to_cell_positions};
use super::model::{
    alive_at, alive_in, arena_ok, extends, in_square, lemma_extends_alive, lemma_extends_trans,
    lemma_empty_is_dead, lemma_extends_valid, lemma_extends_valid_all, lemma_leaf_alive,
    lemma_live_cell_exists, lemma_unfold_at, slot_ok,
    valid_ref, Arena,
};
use super::powers::{pow2_i128, pow2_i64};
use super::laws::lemma_population_is_live_count;
use super::Life;

verus! {

/// A rectangle of cells, bounds included.
#[derive(Clone, Copy, Debug)]
pub struct CellBounds {
    pub min_x: i64,
    pub min_y: i64,
    pub max_x: i64,
    pub max_y: i64,
}

/// `(x, y)` lies in the rectangle.
pub open spec fn in_bounds(b: CellBounds, x: int, y: int) -> bool {
    b.min_x <= x <= b.max_x && b.min_y <= y <= b.max_y
}

/// Whether listing the node in slot `i` of depth `d`, with its north-west
/// corner at `(x, y)`, reports `(px, py)`: a node of depth `g` (or a leaf) is
/// reported at its corner when it holds a live cell and its square meets
/// `b` (and the corner is an `i64`); a larger composite reports what its
/// quadrants report.
pub open spec fn reports(
    ls: Arena,
    d: nat,
    i: int,
    g: nat,
    x: int,
    y: int,
    b: CellBounds,
    px: int,
    py: int,
) -> bool
    decreases d,
{
    let cell = ls[d as int][i];
    if d == g || d == 0 {
        &&& px == x && py == y
        &&& cell.spec_alive_count() > 0
        &&& box_meets(b, x, y, pow2(d) as int)
        &&& i64::MIN <= x && i64::MIN <= y
    } else {
        let c = cell->Composite_0;
        let h = pow2((d - 1) as nat) as int;
        let e = (d - 1) as nat;
        reports(ls, e, c.nw.spec_index() as int, g, x, y, b, px, py) || reports(
            ls,
            e,
            c.ne.spec_index() as int,
            g,
            x + h,
            y,
            b,
            px,
            py,
        ) || reports(ls, e, c.sw.spec_index() as int, g, x, y + h, b, px, py) || reports(
            ls,
            e,
            c.se.spec_index() as int,
            g,
            x + h,
            y + h,
            b,
            px,
            py,
        )
    }
}

/// `new` is `old` followed by positions that the node in slot `i` of depth
/// `d` reports, none of them twice.
pub open spec fn appends_reports(
    old: Seq<(i64, i64)>,
    new: Seq<(i64, i64)>,
    ls: Arena,
    d: nat,
    i: int,
    g: nat,
    x: int,
    y: int,
    b: CellBounds,
) -> bool {
    &&& old.len() <= new.len()
    &&& forall|j: int| 0 <= j < old.len() ==> #[trigger] new[j] == old[j]
    &&& forall|j: int|
        old.len() <= j < new.len() ==> reports(ls, d, i, g, x, y, b, #[trigger] new[j].0 as int, new[j].1 as int)
    &&& forall|j: int, k: int| old.len() <= j < k < new.len() ==> #[trigger] new[j] != #[trigger] new[k]
}

/// A node reports only cells of its own square, inside the rectangle, and
/// nothing when it holds no live cell.
pub proof fn lemma_reports_range(
    ls: Arena,
    d: nat,
    i: int,
    g: nat,
    x: int,
    y: int,
    b: CellBounds,
    px: int,
    py: int,
)
    requires
        arena_ok(ls),
        d < ls.len(),
        0 <= i < ls[d as int].len(),
        reports(ls, d, i, g, x, y, b, px, py),
    ensures
        x <= px < x + pow2(d),
        y <= py < y + pow2(d),
        px <= b.max_x && py <= b.max_y,
        b.min_x <= x + pow2(d) - 1 && b.min_y <= y + pow2(d) - 1,
        i64::MIN <= px && i64::MIN <= py,
        ls[d as int][i].spec_alive_count() > 0,
    decreases d,
{
    lemma_pow2_pos(d);
    assert(slot_ok(ls, d as int, i));
    if !(d == g || d == 0) {
        let c = ls[d as int][i]->Composite_0;
        let h = pow2((d - 1) as nat) as int;
        let e = (d - 1) as nat;
        lemma_pow2_unfold(d);
        if reports(ls, e, c.nw.spec_index() as int, g, x, y, b, px, py) {
            lemma_reports_range(ls, e, c.nw.spec_index() as int, g, x, y, b, px, py);
        } else if reports(ls, e, c.ne.spec_index() as int, g, x + h, y, b, px, py) {
            lemma_reports_range(ls, e, c.ne.spec_index() as int, g, x + h, y, b, px, py);
        } else if reports(ls, e, c.sw.spec_index() as int, g, x, y + h, b, px, py) {
            lemma_reports_range(ls, e, c.sw.spec_index() as int, g, x, y + h, b, px, py);
        } else {
            lemma_reports_range(ls, e, c.se.spec_index() as int, g, x + h, y + h, b, px, py);
        }
    }
}

/// The block of side `s` with its corner at `(u, v)` of the node in slot `i`
/// of depth `d` holds a live cell.
pub open spec fn block_live(ls: Arena, d: nat, i: int, s: int, u: int, v: int) -> bool {
    exists|du: int, dv: int| 0 <= du < s && 0 <= dv < s && #[trigger] alive_in(ls, d, i, u + du, v + dv)
}

/// What listing the node (corner at `(x, y)`) at granularity depth `g`
/// reports, stated directly: `(px, py)` is the corner of a block of side
/// `2^g`, aligned to the node, that holds a live cell and whose square meets
/// `b`.
pub open spec fn reports_block(
    ls: Arena,
    d: nat,
    i: int,
    g: nat,
    x: int,
    y: int,
    b: CellBounds,
    px: int,
    py: int,
) -> bool {
    let s = pow2(g) as int;
    let (u, v) = (px - x, py - y);
    &&& in_square(d, u, v)
    &&& u % s == 0 && v % s == 0
    &&& block_live(ls, d, i, s, u, v)
    &&& box_meets(b, px, py, s)
    &&& i64::MIN <= px && i64::MIN <= py
}

/// An aligned block that starts below an aligned bound ends there too.
proof fn lemma_aligned_gap(w: int, h: int, s: int)
    requires
        0 < s,
        0 <= w < h,
        w % s == 0,
        h % s == 0,
    ensures
        w + s <= h,
{
    lemma_fundamental_div_mod(w, s);
    lemma_fundamental_div_mod(h, s);
    let (a, c) = (w / s, h / s);
    assert(w == s * a && h == s * c);
    assert(a < c) by (nonlinear_arith)
        requires
            w == s * a,
            h == s * c,
            w < h,
            0 < s,
    ;
    assert(s * a + s <= s * c) by (nonlinear_arith)
        requires
            a < c,
            0 < s,
    ;
}

/// Inside one quadrant, the direct statement for a node and for that child
/// agree.
proof fn lemma_block_quadrant(
    ls: Arena,
    d: nat,
    i: int,
    g: nat,
    x: int,
    y: int,
    b: CellBounds,
    px: int,
    py: int,
    ci: int,
    ox: int,
    oy: int,
)
    requires
        arena_ok(ls),
        0 < d < ls.len(),
        0 <= i < ls[d as int].len(),
        g < d,
        ({
            let c = ls[d as int][i]->Composite_0;
            let h = pow2((d - 1) as nat) as int;
            ||| ox == 0 && oy == 0 && ci == c.nw.spec_index()
            ||| ox == h && oy == 0 && ci == c.ne.spec_index()
            ||| ox == 0 && oy == h && ci == c.sw.spec_index()
            ||| ox == h && oy == h && ci == c.se.spec_index()
        }),
        ox <= px - x < ox + pow2((d - 1) as nat),
        oy <= py - y < oy + pow2((d - 1) as nat),
    ensures
        reports_block(ls, d, i, g, x, y, b, px, py) <==> reports_block(
            ls,
            (d - 1) as nat,
            ci,
            g,
            x + ox,
            y + oy,
            b,
            px,
            py,
        ),
{
    let e = (d - 1) as nat;
    let h = pow2(e) as int;
    let s = pow2(g) as int;
    let (u, v) = (px - x, py - y);
    lemma_pow2_unfold(d);
    lemma_pow2_pos(g);
    lemma_pow2_adds((e - g) as nat, g);
    assert(((e - g) as nat + g) as nat == e);
    let k = pow2((e - g) as nat) as int;
    assert(h == k * s);
    lemma_mod_multiples_vanish(-k, u, s);
    lemma_mod_multiples_vanish(-k, v, s);
    lemma_mod_multiples_vanish(k, 0, s);
    assert(s * (-k) + u == u - h) by (nonlinear_arith)
        requires
            h == k * s,
    ;
    assert(s * (-k) + v == v - h) by (nonlinear_arith)
        requires
            h == k * s,
    ;
    assert(s * k + 0 == h) by (nonlinear_arith)
        requires
            h == k * s,
    ;
    assert((u - ox) % s == u % s);
    assert((v - oy) % s == v % s);
    if u % s == 0 && v % s == 0 {
        lemma_aligned_gap(u - ox, h, s);
        lemma_aligned_gap(v - oy, h, s);
        if block_live(ls, d, i, s, u, v) {
            let (du, dv) = choose|du: int, dv: int| 0 <= du < s && 0 <= dv < s && #[trigger] alive_in(ls, d, i, u + du, v + dv);
            assert(alive_in(ls, e, ci, u - ox + du, v - oy + dv));
        }
        if block_live(ls, e, ci, s, u - ox, v - oy) {
            let (du, dv) = choose|du: int, dv: int| 0 <= du < s && 0 <= dv < s && #[trigger] alive_in(ls, e, ci, u - ox + du, v - oy + dv);
            assert(alive_in(ls, d, i, u + du, v + dv));
        }
    }
}

/// Where the granularity depth is at most the node's, what the node reports
/// is exactly the direct statement `reports_block`.
pub proof fn lemma_reports_block(
    ls: Arena,
    d: nat,
    i: int,
    g: nat,
    x: int,
    y: int,
    b: CellBounds,
    px: int,
    py: int,
)
    requires
        arena_ok(ls),
        d < ls.len(),
        0 <= i < ls[d as int].len(),
        g <= d,
    ensures
        reports(ls, d, i, g, x, y, b, px, py) <==> reports_block(ls, d, i, g, x, y, b, px, py),
    decreases d,
{
    assert(slot_ok(ls, d as int, i));
    let s = pow2(g) as int;
    let (u, v) = (px - x, py - y);
    lemma_pow2_pos(g);
    if d == g {
        if in_square(d, u, v) {
            lemma_small_mod(u as nat, s as nat);
            lemma_small_mod(v as nat, s as nat);
        }
        if ls[d as int][i].spec_alive_count() > 0 {
            lemma_live_cell_exists(ls, d, i);
            let (a, c) = choose|a: int, c: int| in_square(d, a, c) && #[trigger] alive_in(ls, d, i, a, c);
            assert(alive_in(ls, d, i, 0 + a, 0 + c));
        } else if block_live(ls, d, i, s, u, v) {
            let (du, dv) = choose|du: int, dv: int| 0 <= du < s && 0 <= dv < s && #[trigger] alive_in(ls, d, i, u + du, v + dv);
            lemma_empty_is_dead(ls, d, i, u + du, v + dv);
        }
    } else {
        let c = ls[d as int][i]->Composite_0;
        let h = pow2((d - 1) as nat) as int;
        let e = (d - 1) as nat;
        lemma_pow2_unfold(d);
        lemma_reports_block(ls, e, c.nw.spec_index() as int, g, x, y, b, px, py);
        lemma_reports_block(ls, e, c.ne.spec_index() as int, g, x + h, y, b, px, py);
        lemma_reports_block(ls, e, c.sw.spec_index() as int, g, x, y + h, b, px, py);
        lemma_reports_block(ls, e, c.se.spec_index() as int, g, x + h, y + h, b, px, py);
        if in_square(d, u, v) {
            if u < h && v < h {
                lemma_block_quadrant(ls, d, i, g, x, y, b, px, py, c.nw.spec_index() as int, 0, 0);
            } else if v < h {
                lemma_block_quadrant(ls, d, i, g, x, y, b, px, py, c.ne.spec_index() as int, h, 0);
            } else if u < h {
                lemma_block_quadrant(ls, d, i, g, x, y, b, px, py, c.sw.spec_index() as int, 0, h);
            } else {
                lemma_block_quadrant(ls, d, i, g, x, y, b, px, py, c.se.spec_index() as int, h, h);
            }
        }
    }
}

/// Below depth `g`, a node reports exactly its live cells inside the
/// rectangle.
pub proof fn lemma_reports_exact(
    ls: Arena,
    d: nat,
    i: int,
    g: nat,
    x: int,
    y: int,
    b: CellBounds,
    px: int,
    py: int,
)
    requires
        arena_ok(ls),
        d < ls.len(),
        0 <= i < ls[d as int].len(),
        d < g,
    ensures
        reports(ls, d, i, g, x, y, b, px, py) <==> (in_square(d, px - x, py - y) && alive_in(
            ls,
            d,
            i,
            px - x,
            py - y,
        ) && in_bounds(b, px, py)),
    decreases d,
{
    assert(slot_ok(ls, d as int, i));
    lemma_pow2_pos(d);
    if d == 0 {
        lemma2_to64();
    } else {
        let c = ls[d as int][i]->Composite_0;
        let h = pow2((d - 1) as nat) as int;
        let e = (d - 1) as nat;
        lemma_pow2_unfold(d);
        lemma_reports_exact(ls, e, c.nw.spec_index() as int, g, x, y, b, px, py);
        lemma_reports_exact(ls, e, c.ne.spec_index() as int, g, x + h, y, b, px, py);
        lemma_reports_exact(ls, e, c.sw.spec_index() as int, g, x, y + h, b, px, py);
        lemma_reports_exact(ls, e, c.se.spec_index() as int, g, x + h, y + h, b, px, py);
    }
}

/// The square of side `s` with its north-west corner at `(x, y)` shares a
/// cell with the rectangle.
pub open spec fn box_meets(b: CellBounds, x: int, y: int, s: int) -> bool {
    &&& x <= b.max_x && b.min_x <= x + s - 1
    &&& y <= b.max_y && b.min_y <= y + s - 1
}

/// `(x, y)` is one of the points.
pub open spec fn has_point(pts: Seq<(i64, i64)>, x: int, y: int) -> bool {
    exists|j: int| 0 <= j < pts.len() && pts[j].0 == x && pts[j].1 == y
}

/// The distinct points, as a set.
pub open spec fn point_set(pts: Seq<(i64, i64)>) -> Set<(int, int)> {
    Set::new(|p: (int, int)| has_point(pts, p.0, p.1))
}

/// Every point lies in the square of side `2^k` at the origin.
pub open spec fn all_in_square(pts: Seq<(i64, i64)>, k: nat) -> bool {
    forall|j: int| 0 <= j < pts.len() ==> in_square(k, #[trigger] pts[j].0 as int, pts[j].1 as int)
}

/// No two points are `2^k` or more apart along either axis.
pub open spec fn spread_below(pts: Seq<(i64, i64)>, k: nat) -> bool {
    forall|i: int, j: int|
        0 <= i < pts.len() && 0 <= j < pts.len() ==> {
            &&& #[trigger] pts[i].0 - #[trigger] pts[j].0 < pow2(k)
            &&& pts[i].1 - pts[j].1 < pow2(k)
        }
}



/// The least x and the least y among the points; `(0, 0)` for none.
fn least_coordinates(points: &Vec<(i64, i64)>) -> (r: (i64, i64))
    ensures
        points@.len() == 0 ==> r == (0i64, 0i64),
        points@.len() > 0 ==> exists|j: int| 0 <= j < points@.len() && #[trigger] points@[j].0 == r.0,
        points@.len() > 0 ==> exists|j: int| 0 <= j < points@.len() && #[trigger] points@[j].1 == r.1,
        forall|j: int| 0 <= j < points@.len() ==> r.0 <= #[trigger] points@[j].0 && r.1 <= points@[j].1,
{
    if points.len() == 0 {
        return (0, 0);
    }
    let (mut min_x, mut min_y) = points[0];
    let mut i: usize = 0;
    while i < points.len()
        invariant
            i <= points@.len(),
            points@.len() > 0,
            exists|j: int| 0 <= j < points@.len() && #[trigger] points@[j].0 == min_x,
            exists|j: int| 0 <= j < points@.len() && #[trigger] points@[j].1 == min_y,
            forall|j: int| 0 <= j < i ==> min_x <= #[trigger] points@[j].0 && min_y <= points@[j].1,
        decreases points@.len() - i,
    {
        if points[i].0 < min_x {
            min_x = points[i].0;
        }
        if points[i].1 < min_y {
            min_y = points[i].1;
        }
        i = i + 1;
    }
    (min_x, min_y)
}

/// Whether no two points are `2^k` or more apart along either axis.
pub fn spread_fits(points: &Vec<(i64, i64)>, k: usize) -> (r: bool)
    requires
        k < 62,
    ensures
        r == spread_below(points@, k as nat),
{
    if points.len() == 0 {
        return true;
    }
    let limit = pow2_i64(k) as i128;
    let (mut min_x, mut min_y) = points[0];
    let (mut max_x, mut max_y) = points[0];
    let mut i: usize = 0;
    while i < points.len()
        invariant
            i <= points@.len(),
            points@.len() > 0,
            exists|j: int| 0 <= j < points@.len() && #[trigger] points@[j].0 == min_x,
            exists|j: int| 0 <= j < points@.len() && #[trigger] points@[j].1 == min_y,
            exists|j: int| 0 <= j < points@.len() && #[trigger] points@[j].0 == max_x,
            exists|j: int| 0 <= j < points@.len() && #[trigger] points@[j].1 == max_y,
            forall|j: int| 0 <= j < i ==> min_x <= #[trigger] points@[j].0 <= max_x && min_y <= points@[j].1 <= max_y,
        decreases points@.len() - i,
    {
        let (x, y) = points[i];
        if x < min_x {
            min_x = x;
        }
        if x > max_x {
            max_x = x;
        }
        if y < min_y {
            min_y = y;
        }
        if y > max_y {
            max_y = y;
        }
        i = i + 1;
    }
    let r = (max_x as i128 - min_x as i128) < limit && (max_y as i128 - min_y as i128) < limit;
    proof {
        let ja = choose|j: int| 0 <= j < points@.len() && #[trigger] points@[j].0 == min_x;
        let jb = choose|j: int| 0 <= j < points@.len() && #[trigger] points@[j].0 == max_x;
        let jc = choose|j: int| 0 <= j < points@.len() && #[trigger] points@[j].1 == min_y;
        let jd = choose|j: int| 0 <= j < points@.len() && #[trigger] points@[j].1 == max_y;
        if !r {
            if max_x as i128 - min_x as i128 >= limit {
                assert(points@[jb].0 - points@[ja].0 >= pow2(k as nat));
                assert(!spread_below(points@, k as nat));
            } else {
                assert(spread_below(points@, k as nat) ==> points@[jd].0 - points@[jc].0 < pow2(k as nat)
                    && points@[jd].1 - points@[jc].1 < pow2(k as nat));
                assert(!spread_below(points@, k as nat));
            }
        }
    }
    r
}

impl Life {
    /// An engine for the pattern text `rle` (see `rle_to_cell_positions`),
    /// with 32 arenas; `None` where the pattern is too wide for them.
    pub fn from_rle(rle: &str) -> (r: Option<Self>)
        ensures
            match r {
                Some(life) => {
                    &&& life.wf()
                    &&& life.layers@.len() == 32
                    &&& forall|x: int, y: int| #[trigger] life.live(x, y) <==> has_point(
                        decode(rle@, 0, 0).cells,
                        x,
                        y,
                    )
                    &&& spread_below(decode(rle@, 0, 0).cells, life.root.spec_layer())
                    &&& life.root.spec_layer() > 0 ==> !spread_below(
                        decode(rle@, 0, 0).cells,
                        (life.root.spec_layer() - 1) as nat,
                    )
                    &&& life.root.spec_alive() == point_set(decode(rle@, 0, 0).cells).len()
                },
                None => !spread_below(decode(rle@, 0, 0).cells, 31),
            },
    {
        let pattern = rle_to_cell_positions(rle.to_owned(), 0, 0);
        if spread_fits(&pattern, 31) {
            Some(Life::from_cell_positions(32, pattern))
        } else {
            None
        }
    }

    /// An engine with `max_depth` arenas whose live cells are exactly
    /// `points` (repeats allowed); the north-west corner of the smallest
    /// enclosing square is the least coordinate of the points.
    pub fn from_cell_positions(max_depth: u8, points: Vec<(i64, i64)>) -> (r: Self)
        requires
            1 <= max_depth <= 32,
            spread_below(points@, (max_depth - 1) as nat),
        ensures
            r.wf(),
            r.layers@.len() == max_depth,
            forall|x: int, y: int| #[trigger] r.live(x, y) <==> has_point(points@, x, y),
            r.root.spec_layer() < max_depth,
            spread_below(points@, r.root.spec_layer()),
            r.root.spec_layer() > 0 ==> !spread_below(points@, (r.root.spec_layer() - 1) as nat),
            points@.len() == 0 ==> r.root.spec_layer() == 0 && r.origin_x == 0 && r.origin_y == 0,
            points@.len() > 0 ==> exists|j: int| 0 <= j < points@.len() && #[trigger] points@[j].0 == r.origin_x,
            points@.len() > 0 ==> exists|j: int| 0 <= j < points@.len() && #[trigger] points@[j].1 == r.origin_y,
            forall|j: int| 0 <= j < points@.len() ==> r.origin_x <= #[trigger] points@[j].0 && r.origin_y <= points@[j].1,
            r.live_set() == point_set(points@),
            point_set(points@).finite(),
            r.root.spec_alive() == point_set(points@).len(),
    {
        let mut life = Self::new(max_depth);
        let (min_x, min_y) = least_coordinates(&points);
        let limit = pow2_i64((max_depth - 1) as usize);
        let mut rel: Vec<(i64, i64)> = Vec::new();
        let mut extent: i64 = 0;
        let mut i: usize = 0;
        while i < points.len()
            invariant
                i <= points@.len(),
                limit == pow2((max_depth - 1) as nat),
                spread_below(points@, (max_depth - 1) as nat),
                points@.len() > 0 ==> exists|j: int| 0 <= j < points@.len() && #[trigger] points@[j].0 == min_x,
                points@.len() > 0 ==> exists|j: int| 0 <= j < points@.len() && #[trigger] points@[j].1 == min_y,
                forall|j: int| 0 <= j < points@.len() ==> min_x <= #[trigger] points@[j].0 && min_y <= points@[j].1,
                rel@.len() == i,
                points@.len() == 0 ==> min_x == 0 && min_y == 0,
                0 <= extent < limit,
                forall|j: int| 0 <= j < i ==> #[trigger] rel@[j].0 == points@[j].0 - min_x && rel@[j].1 == points@[j].1 - min_y,
                forall|j: int| 0 <= j < i ==> 0 <= #[trigger] rel@[j].0 <= extent && 0 <= rel@[j].1 <= extent,
                extent == 0 || exists|j: int| 0 <= j < i && (#[trigger] points@[j].0 - min_x == extent || points@[j].1 - min_y == extent),
            decreases points@.len() - i,
        {
            let (x, y) = points[i];
            proof {
                let jx = choose|j: int| 0 <= j < points@.len() && #[trigger] points@[j].0 == min_x;
                let jy = choose|j: int| 0 <= j < points@.len() && #[trigger] points@[j].1 == min_y;
                assert(points@[i as int].0 - points@[jx].0 < pow2((max_depth - 1) as nat));
                assert(points@[i as int].0 - points@[jy].0 < pow2((max_depth - 1) as nat));
                assert(points@[i as int].1 - points@[jy].1 < pow2((max_depth - 1) as nat));
            }
            let (u, v) = (x - min_x, y - min_y);
            rel.push((u, v));
            if u > extent {
                extent = u;
            }
            if v > extent {
                extent = v;
            }
            i = i + 1;
        }
        let mut k: usize = 0;
        let mut side: i64 = 1;
        proof {
            lemma2_to64();
        }
        while side <= extent
            invariant
                side == pow2(k as nat),
                k <= max_depth - 1,
                0 <= extent < limit,
                limit == pow2((max_depth - 1) as nat),
                max_depth <= 32,
                k > 0 ==> pow2((k - 1) as nat) <= extent,
            decreases max_depth - 1 - k,
        {
            proof {
                if k >= max_depth - 1 {
                    lemma_pow2_mono_le((max_depth - 1) as nat, k as nat);
                }
                assert((k + 1 - 1) as nat == k as nat);
                lemma_pow2_unfold((k + 1) as nat);
                lemma_pow2_mono_le((k + 1) as nat, (max_depth - 1) as nat);
            }
            side = side * 2;
            k = k + 1;
        }
        proof {
            assert forall|j: int| 0 <= j < rel@.len() implies in_square(k as nat, #[trigger] rel@[j].0 as int, rel@[j].1 as int) by {}
            assert forall|a: int, b: int| 0 <= a < points@.len() && 0 <= b < points@.len() implies {
                &&& #[trigger] points@[a].0 - #[trigger] points@[b].0 < pow2(k as nat)
                &&& points@[a].1 - points@[b].1 < pow2(k as nat)
            } by {
                assert(rel@[a].0 == points@[a].0 - min_x && rel@[a].1 == points@[a].1 - min_y);
                assert(0 <= rel@[a].0 <= extent && 0 <= rel@[a].1 <= extent);
            }
            if k > 0 {
                lemma_pow2_pos((k - 1) as nat);
                let j = choose|j: int| 0 <= j < points@.len() && (#[trigger] points@[j].0 - min_x == extent || points@[j].1 - min_y == extent);
                let jx = choose|j: int| 0 <= j < points@.len() && #[trigger] points@[j].0 == min_x;
                let jy = choose|j: int| 0 <= j < points@.len() && #[trigger] points@[j].1 == min_y;
                if points@[j].0 - min_x == extent {
                    assert(points@[j].0 - points@[jx].0 >= pow2((k - 1) as nat));
                } else {
                    assert(points@[j].1 - points@[jy].1 >= pow2((k - 1) as nat));
                    if spread_below(points@, (k - 1) as nat) {
                        let (a, b) = (points@[j].0, points@[jy].0);
                        assert(a - b < pow2((k - 1) as nat));
                    }
                }
            }
        }
        let ghost relv = rel@;
        let root = life.build(k, rel);
        life.root = root;
        life.origin_x = min_x as i128;
        life.origin_y = min_y as i128;
        proof {
            assert forall|x: int, y: int| #[trigger] life.live(x, y) <==> has_point(points@, x, y) by {
                let (u, v) = (x - min_x, y - min_y);
                if has_point(points@, x, y) {
                    let j = choose|j: int| 0 <= j < points@.len() && points@[j].0 == x && points@[j].1 == y;
                    assert(0 <= j < relv.len());
                    assert(relv[j].0 == points@[j].0 - min_x);
                    assert(relv[j].1 == points@[j].1 - min_y);
                    assert(has_point(relv, u, v));
                }
                if in_square(k as nat, u, v) && has_point(relv, u, v) {
                    let j = choose|j: int| 0 <= j < relv.len() && relv[j].0 == u && relv[j].1 == v;
                    assert(points@[j].0 == x && points@[j].1 == y);
                }
            }
        }
        proof {
            assert(life.live_set() =~= point_set(points@));
            lemma_population_is_live_count(life);
        }
        life
    }

    /// The set of the board's live cells.
    pub open spec fn live_set(&self) -> Set<(int, int)> {
        Set::new(|p: (int, int)| self.live(p.0, p.1))
    }

    /// The live cells of the board in cell coordinates: those of the root,
    /// whose north-west corner is the origin.
    pub open spec fn live(&self, x: int, y: int) -> bool {
        let (u, v) = (x - self.origin_x, y - self.origin_y);
        &&& in_square(self.root.spec_layer(), u, v)
        &&& alive_at(self.arena(), self.root, u, v)
    }

    /// What listing the board at granularity depth `g` reports.
    pub open spec fn reported(&self, g: nat, b: CellBounds, px: int, py: int) -> bool {
        reports(
            self.arena(),
            self.root.spec_layer(),
            self.root.spec_index() as int,
            g,
            self.origin_x as int,
            self.origin_y as int,
            b,
            px,
            py,
        )
    }

    /// The live cells of the board that meet `bounds`, in cell coordinates,
    /// each once: a node of depth `min_depth` that holds a live cell and whose
    /// square meets `bounds` is reported at its north-west corner. Where
    /// `min_depth` exceeds the root's depth no node has that depth and every
    /// live cell in `bounds` is reported.
    pub fn cell_positions(&self, min_depth: u8, bounds: CellBounds) -> (r: Vec<(i64, i64)>)
        requires
            self.wf(),
        ensures
            forall|px: i64, py: i64| #[trigger] r@.contains((px, py)) <==> self.reported(
                min_depth as nat,
                bounds,
                px as int,
                py as int,
            ),
            min_depth > self.root.spec_layer() ==> forall|px: i64, py: i64| #[trigger] r@.contains(
                (px, py),
            ) <==> (self.live(px as int, py as int) && in_bounds(bounds, px as int, py as int)),
            min_depth <= self.root.spec_layer() ==> forall|px: i64, py: i64| #[trigger] r@.contains(
                (px, py),
            ) <==> reports_block(
                self.arena(),
                self.root.spec_layer(),
                self.root.spec_index() as int,
                min_depth as nat,
                self.origin_x as int,
                self.origin_y as int,
                bounds,
                px as int,
                py as int,
            ),
            r@.no_duplicates(),
    {
        let mut positions: Vec<(i64, i64)> = Vec::new();
        self.unpack_cells(min_depth, &mut positions, self.root, (self.origin_x, self.origin_y), bounds);
        proof {
            if min_depth <= self.root.spec_layer() {
                assert forall|px: i64, py: i64| #[trigger] positions@.contains((px, py)) <==> reports_block(
                    self.arena(),
                    self.root.spec_layer(),
                    self.root.spec_index() as int,
                    min_depth as nat,
                    self.origin_x as int,
                    self.origin_y as int,
                    bounds,
                    px as int,
                    py as int,
                ) by {
                    lemma_reports_block(
                        self.arena(),
                        self.root.spec_layer(),
                        self.root.spec_index() as int,
                        min_depth as nat,
                        self.origin_x as int,
                        self.origin_y as int,
                        bounds,
                        px as int,
                        py as int,
                    );
                }
            }
            assert forall|j: int, k: int| 0 <= j < positions@.len() && 0 <= k < positions@.len() && j != k
                implies positions@[j] != positions@[k] by {
                if j < k {
                    assert(positions@[j] != positions@[k]);
                } else {
                    assert(positions@[k] != positions@[j]);
                }
            }
            if min_depth > self.root.spec_layer() {
                assert forall|px: i64, py: i64| #[trigger] positions@.contains((px, py)) <==> (self.live(
                    px as int,
                    py as int,
                ) && in_bounds(bounds, px as int, py as int)) by {
                    lemma_reports_exact(
                        self.arena(),
                        self.root.spec_layer(),
                        self.root.spec_index() as int,
                        min_depth as nat,
                        self.origin_x as int,
                        self.origin_y as int,
                        bounds,
                        px as int,
                        py as int,
                    );
                }
            }
        }
        positions
    }

    /// Appends to `cells` what the node `cell` with its north-west corner at
    /// `(x, y)` reports.
    fn unpack_cells(
        &self,
        max_depth: u8,
        cells: &mut Vec<(i64, i64)>,
        cell: CellId,
        xy: (i128, i128),
        bounds: CellBounds,
    )
        requires
            self.wf(),
            valid_ref(self.arena(), cell),
            -0x1_0000_0000_0000_0000_0000_0000_0000 < xy.0 < 0x1_0000_0000_0000_0000_0000_0000_0000,
            -0x1_0000_0000_0000_0000_0000_0000_0000 < xy.1 < 0x1_0000_0000_0000_0000_0000_0000_0000,
        ensures
            forall|px: i64, py: i64| #[trigger] final(cells)@.contains((px, py)) <==> (old(
                cells,
            )@.contains((px, py)) || reports(
                self.arena(),
                cell.spec_layer(),
                cell.spec_index() as int,
                max_depth as nat,
                xy.0 as int,
                xy.1 as int,
                bounds,
                px as int,
                py as int,
            )),
            appends_reports(
                old(cells)@,
                final(cells)@,
                self.arena(),
                cell.spec_layer(),
                cell.spec_index() as int,
                max_depth as nat,
                xy.0 as int,
                xy.1 as int,
                bounds,
            ),
        decreases cell.spec_layer(),
    {
        let (x, y) = xy;
        let ls = Ghost(self.arena());
        let d = cell.layer();
        let width = pow2_i128(d);
        let ghost i = cell.spec_index() as int;
        proof {
            lemma2_to64();
            lemma_pow2_strictly_increases(d as nat, 32);
            assert(slot_ok(ls@, d as int, i));
        }
        if x > bounds.max_x as i128 || y > bounds.max_y as i128 || x + width - 1 < bounds.min_x as i128 || y
            + width - 1 < bounds.min_y as i128 {
            proof {
                assert forall|px: i64, py: i64| #[trigger] cells@.contains((px, py)) <==> (old(cells)@.contains(
                    (px, py),
                ) || reports(ls@, d as nat, i, max_depth as nat, x as int, y as int, bounds, px as int, py as int)) by {
                    if reports(ls@, d as nat, i, max_depth as nat, x as int, y as int, bounds, px as int, py as int) {
                        lemma_reports_range(ls@, d as nat, i, max_depth as nat, x as int, y as int, bounds, px as int, py as int);
                    }
                }
            }
            return;
        }
        if d == max_depth as usize || d == 0 {
            if cell.alive() > 0 && x >= i64::MIN as i128 && y >= i64::MIN as i128 {
                cells.push((x as i64, y as i64));
                proof {
                    assert forall|px: i64, py: i64| #[trigger] cells@.contains((px, py)) <==> (old(cells)@.contains(
                        (px, py),
                    ) || reports(ls@, d as nat, i, max_depth as nat, x as int, y as int, bounds, px as int, py as int)) by {
                        if (px, py) == (x as i64, y as i64) {
                            assert(cells@[cells@.len() - 1] == (px, py));
                        }
                        if cells@.contains((px, py)) && !old(cells)@.contains((px, py)) {
                            let j = choose|j: int| 0 <= j < cells@.len() && cells@[j] == (px, py);
                            if j < old(cells)@.len() {
                                assert(old(cells)@[j] == cells@[j]);
                            }
                        }
                        if old(cells)@.contains((px, py)) {
                            let j = choose|j: int| 0 <= j < old(cells)@.len() && old(cells)@[j] == (px, py);
                            assert(cells@[j] == old(cells)@[j]);
                        }
                    }
                }
            }
            return;
        }
        if cell.alive() == 0 {
            proof {
                assert forall|px: i64, py: i64| #[trigger] cells@.contains((px, py)) <==> (old(cells)@.contains(
                    (px, py),
                ) || reports(ls@, d as nat, i, max_depth as nat, x as int, y as int, bounds, px as int, py as int)) by {
                    if reports(ls@, d as nat, i, max_depth as nat, x as int, y as int, bounds, px as int, py as int) {
                        lemma_reports_range(ls@, d as nat, i, max_depth as nat, x as int, y as int, bounds, px as int, py as int);
                    }
                }
            }
            return;
        }
        let (nw, ne, sw, se) = self.quadrants(cell);
        let half = width / 2;
        proof {
            lemma_pow2_unfold(d as nat);
        }
        let ghost c0 = cells@;
        self.unpack_cells(max_depth, cells, nw, (x, y), bounds);
        let ghost c1 = cells@;
        self.unpack_cells(max_depth, cells, ne, (x + half, y), bounds);
        let ghost c2 = cells@;
        self.unpack_cells(max_depth, cells, sw, (x, y + half), bounds);
        let ghost c3 = cells@;
        self.unpack_cells(max_depth, cells, se, (x + half, y + half), bounds);
        proof {
            let c4 = cells@;
            let g = max_depth as nat;
            let e = (d - 1) as nat;
            let h = half as int;
            let (xi, yi) = (x as int, y as int);
            let parts = seq![
                (nw.spec_index() as int, xi, yi),
                (ne.spec_index() as int, xi + h, yi),
                (sw.spec_index() as int, xi, yi + h),
                (se.spec_index() as int, xi + h, yi + h),
            ];
            let bounds_seq = seq![c0.len(), c1.len(), c2.len(), c3.len(), c4.len()];
            // the segment of each appended position, and where it lies
            assert forall|j: int| #![trigger c4[j]] c0.len() <= j < c4.len() implies {
                let part = if j < c1.len() { 0int } else if j < c2.len() { 1int } else if j < c3.len() { 2int } else { 3int };
                let (ci, cx, cy) = parts[part];
                &&& reports(ls@, e, ci, g, cx, cy, bounds, c4[j].0 as int, c4[j].1 as int)
                &&& cx <= c4[j].0 < cx + h && cy <= c4[j].1 < cy + h
            } by {
                if j < c1.len() {
                    assert(c4[j] == c1[j]);
                    lemma_reports_range(ls@, e, nw.spec_index() as int, g, xi, yi, bounds, c4[j].0 as int, c4[j].1 as int);
                } else if j < c2.len() {
                    assert(c4[j] == c2[j]);
                    lemma_reports_range(ls@, e, ne.spec_index() as int, g, xi + h, yi, bounds, c4[j].0 as int, c4[j].1 as int);
                } else if j < c3.len() {
                    assert(c4[j] == c3[j]);
                    lemma_reports_range(ls@, e, sw.spec_index() as int, g, xi, yi + h, bounds, c4[j].0 as int, c4[j].1 as int);
                } else {
                    lemma_reports_range(ls@, e, se.spec_index() as int, g, xi + h, yi + h, bounds, c4[j].0 as int, c4[j].1 as int);
                }
            }
            assert forall|j: int| c0.len() <= j < c4.len() implies reports(
                ls@,
                d as nat,
                i,
                g,
                xi,
                yi,
                bounds,
                #[trigger] c4[j].0 as int,
                c4[j].1 as int,
            ) by {}
            assert forall|j: int, k: int| c0.len() <= j < k < c4.len() implies #[trigger] c4[j] != #[trigger] c4[k] by {
                if j < c1.len() && k < c1.len() {
                    assert(c4[j] == c1[j] && c4[k] == c1[k]);
                } else if c1.len() <= j && k < c2.len() {
                    assert(c4[j] == c2[j] && c4[k] == c2[k]);
                } else if c2.len() <= j && k < c3.len() {
                    assert(c4[j] == c3[j] && c4[k] == c3[k]);
                }
            }
            assert forall|j: int| 0 <= j < c0.len() implies #[trigger] c4[j] == c0[j] by {
                assert(c1[j] == c0[j]);
                assert(c2[j] == c1[j]);
                assert(c3[j] == c2[j]);
            }
        }
    }

    /// The canonical node of depth `k` whose live cells are exactly `pts`,
    /// which all lie in its square.
    fn build(&mut self, k: usize, pts: Vec<(i64, i64)>) -> (r: CellId)
        requires
            old(self).wf(),
            k < old(self).layers@.len(),
            all_in_square(pts@, k as nat),
        ensures
            final(self).wf(),
            Self::only_grows(*old(self), *final(self)),
            final(self).layers@.len() == old(self).layers@.len(),
            r.spec_layer() == k,
            valid_ref(final(self).arena(), r),
            forall|x: int, y: int|
                in_square(k as nat, x, y) ==> (#[trigger] alive_at(final(self).arena(), r, x, y)
                    <==> has_point(pts@, x, y)),
        decreases k,
    {
        if pts.len() == 0 {
            return self.empty_of_layer(k as u8);
        }
        if k == 0 {
            let r = self.base_alive;
            proof {
                Life::lemma_only_grows_refl(*self);
                lemma_leaf_alive(self.arena(), r);
                lemma2_to64();
                assert forall|x: int, y: int| in_square(0, x, y) implies (#[trigger] alive_at(self.arena(), r, x, y)
                    <==> has_point(pts@, x, y)) by {
                    assert(in_square(0, pts@[0].0 as int, pts@[0].1 as int));
                }
            }
            return r;
        }
        let h = pow2_i64(k - 1);
        let mut nw: Vec<(i64, i64)> = Vec::new();
        let mut ne: Vec<(i64, i64)> = Vec::new();
        let mut sw: Vec<(i64, i64)> = Vec::new();
        let mut se: Vec<(i64, i64)> = Vec::new();
        proof {
            lemma_pow2_unfold(k as nat);
        }
        let mut i: usize = 0;
        while i < pts.len()
            invariant
                i <= pts@.len(),
                h == pow2((k - 1) as nat),
                pow2(k as nat) == 2 * h,
                all_in_square(pts@, k as nat),
                all_in_square(nw@, (k - 1) as nat),
                all_in_square(ne@, (k - 1) as nat),
                all_in_square(sw@, (k - 1) as nat),
                all_in_square(se@, (k - 1) as nat),
                forall|x: int, y: int|
                    #[trigger] has_point(nw@, x, y) <==> (x < h && y < h && has_point(pts@.take(i as int), x, y)),
                forall|x: int, y: int|
                    #[trigger] has_point(ne@, x, y) <==> (0 <= x && y < h && has_point(pts@.take(i as int), x + h, y)),
                forall|x: int, y: int|
                    #[trigger] has_point(sw@, x, y) <==> (x < h && 0 <= y && has_point(pts@.take(i as int), x, y + h)),
                forall|x: int, y: int|
                    #[trigger] has_point(se@, x, y) <==> (0 <= x && 0 <= y && has_point(pts@.take(i as int), x + h, y + h)),
            decreases pts@.len() - i,
        {
            let (x, y) = pts[i];
            let ghost before = pts@.take(i as int);
            let ghost after = pts@.take(i + 1);
            proof {
                assert(after == before.push((x, y)));
                assert(in_square(k as nat, x as int, y as int));
            }
            let ghost (nw0, ne0, sw0, se0) = (nw@, ne@, sw@, se@);
            proof {
                lemma_has_point_push(before, x, y);
            }
            if x < h && y < h {
                nw.push((x, y));
                proof {
                    lemma_has_point_push(nw0, x, y);
                }
            } else if y < h {
                ne.push((x - h, y));
                proof {
                    lemma_has_point_push(ne0, (x - h) as i64, y);
                }
            } else if x < h {
                sw.push((x, y - h));
                proof {
                    lemma_has_point_push(sw0, x, (y - h) as i64);
                }
            } else {
                se.push((x - h, y - h));
                proof {
                    lemma_has_point_push(se0, (x - h) as i64, (y - h) as i64);
                }
            }
            i = i + 1;
        }
        proof {
            assert(pts@.take(pts@.len() as int) == pts@);
        }
        let ghost l0 = *self;
        let cnw = self.build(k - 1, nw);
        let ghost l1 = *self;
        proof {
            lemma_extends_valid_all(l0.arena(), l1.arena());
        }
        let cne = self.build(k - 1, ne);
        let ghost l2 = *self;
        proof {
            lemma_extends_valid_all(l1.arena(), l2.arena());
        }
        let csw = self.build(k - 1, sw);
        let ghost l3 = *self;
        proof {
            lemma_extends_valid_all(l2.arena(), l3.arena());
        }
        let cse = self.build(k - 1, se);
        let ghost l4 = *self;
        proof {
            lemma_extends_valid_all(l3.arena(), l4.arena());
        }
        let r = self.join(cnw, cne, csw, cse);
        proof {
            let lf = self.arena();
            lemma_extends_trans(l3.arena(), l4.arena(), lf);
            lemma_extends_trans(l2.arena(), l3.arena(), lf);
            lemma_extends_trans(l1.arena(), l2.arena(), lf);
            lemma_extends_trans(l0.arena(), l1.arena(), lf);
            assert forall|x: int, y: int| in_square(k as nat, x, y) implies (#[trigger] alive_at(lf, r, x, y)
                <==> has_point(pts@, x, y)) by {
                lemma_unfold_at(lf, r, x, y);
                let hh = h as int;
                if y < hh {
                    if x < hh {
                        lemma_extends_alive(l1.arena(), lf, (k - 1) as nat, cnw.spec_index() as int, x, y);
                        assert(in_square((k - 1) as nat, x, y));
                        assert(alive_at(l1.arena(), cnw, x, y) == has_point(nw@, x, y));
                        assert(has_point(nw@, x, y) == has_point(pts@, x, y));
                        assert(alive_at(lf, r, x, y) == alive_at(lf, cnw, x, y));
                    } else {
                        lemma_extends_alive(l2.arena(), lf, (k - 1) as nat, cne.spec_index() as int, x - hh, y);
                        assert(in_square((k - 1) as nat, x - hh, y));
                        assert(alive_at(l2.arena(), cne, x - hh, y) == has_point(ne@, x - hh, y));
                        assert(has_point(ne@, x - hh, y) == has_point(pts@, x, y));
                        assert(alive_at(lf, r, x, y) == alive_at(lf, cne, x - hh, y));
                    }
                } else {
                    if x < hh {
                        lemma_extends_alive(l3.arena(), lf, (k - 1) as nat, csw.spec_index() as int, x, y - hh);
                        assert(in_square((k - 1) as nat, x, y - hh));
                        assert(alive_at(l3.arena(), csw, x, y - hh) == has_point(sw@, x, y - hh));
                        assert(has_point(sw@, x, y - hh) == has_point(pts@, x, y));
                        assert(alive_at(lf, r, x, y) == alive_at(lf, csw, x, y - hh));
                    } else {
                        lemma_extends_alive(l4.arena(), lf, (k - 1) as nat, cse.spec_index() as int, x - hh, y - hh);
                        assert(in_square((k - 1) as nat, x - hh, y - hh));
                        assert(alive_at(l4.arena(), cse, x - hh, y - hh) == has_point(se@, x - hh, y - hh));
                        assert(has_point(se@, x - hh, y - hh) == has_point(pts@, x, y));
                        assert(alive_at(lf, r, x, y) == alive_at(lf, cse, x - hh, y - hh));
                    }
                }
            }
        }
        r
    }
}

pub proof fn lemma_pow2_mono_le(a: nat, b: nat)
    requires
        a <= b,
    ensures
        pow2(a) <= pow2(b),
{
    if a < b {
        lemma_pow2_strictly_increases(a, b);
    }
}

/// A point is in a sequence with one more point exactly when it is that
/// point or was in the sequence already.
pub proof fn lemma_has_point_push(s: Seq<(i64, i64)>, a: i64, b: i64)
    ensures
        forall|x: int, y: int|
            #[trigger] has_point(s.push((a, b)), x, y) <==> (has_point(s, x, y) || (x == a && y == b)),
{
    let t = s.push((a, b));
    assert forall|x: int, y: int| #[trigger] has_point(t, x, y) <==> (has_point(s, x, y) || (x == a && y == b)) by {
        if has_point(s, x, y) {
            let j = choose|j: int| 0 <= j < s.len() && s[j].0 == x && s[j].1 == y;
            assert(t[j] == s[j]);
        }
        if x == a && y == b {
            assert(t[s.len() as int] == (a, b));
        }
        if has_point(t, x, y) {
            let j = choose|j: int| 0 <= j < t.len() && t[j].0 == x && t[j].1 == y;
            if j < s.len() {
                assert(t[j] == s[j]);
            }
        }
    }
}

} // verus!
