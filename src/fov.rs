use crate::components::{Position, POV};
use crate::map::{Level, MAX_COORD};
use vstd::arithmetic::div_mod::{
    lemma_fundamental_div_mod, lemma_fundamental_div_mod_converse, lemma_mod_pos_bound,
};
use vstd::prelude::*;

verus! {

pub open spec fn abs(a: int) -> int {
    if a < 0 {
        -a
    } else {
        a
    }
}

/// The step along the minor axis: downwards for a negative difference, else upwards.
pub open spec fn step_of(a: int) -> int {
    if a < 0 {
        -1
    } else {
        1
    }
}

pub open spec fn manhattan(a: (int, int), b: (int, int)) -> int {
    abs(b.0 - a.0) + abs(b.1 - a.1)
}

pub open spec fn flip(p: (int, int)) -> (int, int) {
    (p.1, p.0)
}

/// How far along the minor axis the rasterised line has moved after `k`
/// steps along the major axis, for a major extent `dx > 0` and a minor
/// extent `0 <= dy <= dx`: the nearest integer to `k * dy / dx`, halves
/// rounded down.
pub open spec fn minor_offset(dx: int, dy: int, k: int) -> int {
    (2 * dy * k + dx - 1) / (2 * dx)
}

/// Cell `k` of the rasterised line from `s` to `e` that advances one column
/// per step (`e.0 > s.0`, `|e.1 - s.1| <= e.0 - s.0`).
pub open spec fn shallow_cell(s: (int, int), e: (int, int), k: int) -> (int, int) {
    (s.0 + k, s.1 + step_of(e.1 - s.1) * minor_offset(e.0 - s.0, abs(e.1 - s.1), k))
}

/// Cell `k` of the rasterised line from `s` to `e` that advances one row
/// per step (`e.1 > s.1`, `|e.0 - s.0| <= e.1 - s.1`).
pub open spec fn steep_cell(s: (int, int), e: (int, int), k: int) -> (int, int) {
    flip(shallow_cell(flip(s), flip(e), k))
}

/// Number of steps of the sightline between `o` and `t`.
pub open spec fn sight_len(o: (int, int), t: (int, int)) -> int {
    if abs(t.1 - o.1) < abs(t.0 - o.0) {
        abs(t.0 - o.0)
    } else {
        abs(t.1 - o.1)
    }
}

/// Cell `k` of the sightline between `o` and `t`. It advances along the axis
/// of the larger difference, from whichever endpoint is lower on that axis.
pub open spec fn sight_cell(o: (int, int), t: (int, int), k: int) -> (int, int) {
    if abs(t.1 - o.1) < abs(t.0 - o.0) {
        if o.0 > t.0 {
            shallow_cell(t, o, k)
        } else {
            shallow_cell(o, t, k)
        }
    } else if o.1 > t.1 {
        steep_cell(t, o, k)
    } else {
        steep_cell(o, t, k)
    }
}

/// No cell strictly between the endpoints of the sightline is a wall.
pub open spec fn sightline_clear(level: Level, o: (int, int), t: (int, int)) -> bool {
    forall|k: int| 0 < k < sight_len(o, t) ==> !level.is_wall(#[trigger] sight_cell(o, t, k))
}

/// `o` sees `t`: either of them is a wall, or nothing blocks the sightline.
pub open spec fn sees(level: Level, o: (int, int), t: (int, int)) -> bool {
    level.is_wall(o) || level.is_wall(t) || sightline_clear(level, o, t)
}

/// The candidate square `[o - range, o + range)` on both axes.
pub open spec fn in_view_square(o: (int, int), range: int, p: (int, int)) -> bool {
    o.0 - range <= p.0 < o.0 + range && o.1 - range <= p.1 < o.1 + range
}

/// Whether an observer at `o` with sight `range` sees cell `p`.
pub open spec fn visible(level: Level, o: (int, int), range: int, p: (int, int)) -> bool {
    &&& level.in_bounds(o)
    &&& level.in_bounds(p)
    &&& in_view_square(o, range, p)
    &&& sees(level, o, p)
}

/// The visible cells, each with its light level: its Manhattan distance from the observer.
pub open spec fn visible_map(level: Level, o: (int, int), range: int) -> Map<(int, int), int> {
    Map::new(|p: (int, int)| visible(level, o, range, p), |p: (int, int)| manhattan(o, p))
}

/// One step of the rasterisation: the decision value `d` says whether the
/// minor coordinate moves on the next step, and keeps it on `minor_offset`.
proof fn lemma_step(dx: int, dy: int, k: int)
    requires
        0 <= dy <= dx,
        0 < dx,
        0 <= k,
    ensures
        ({
            let e = minor_offset(dx, dy, k);
            let d = 2 * dy * (k + 1) - dx - 2 * dx * e;
            &&& 2 * dy - 2 * dx < d <= 2 * dy
            &&& d > 0 ==> minor_offset(dx, dy, k + 1) == e + 1
            &&& d <= 0 ==> minor_offset(dx, dy, k + 1) == e
            &&& k <= dx ==> 0 <= e <= dy
        }),
{
    let m = 2 * dx;
    let a = 2 * dy * k + dx - 1;
    let e = a / m;
    lemma_fundamental_div_mod(a, m);
    lemma_mod_pos_bound(a, m);
    let r = a % m;
    let p = m * e;
    assert(a == p + r);
    assert(2 * dy * (k + 1) == 2 * dy * k + 2 * dy) by (nonlinear_arith);
    assert(2 * dx * e == p) by (nonlinear_arith)
        requires
            m == 2 * dx,
            p == m * e,
    ;
    let d = 2 * dy * (k + 1) - dx - 2 * dx * e;
    assert(d == r + 2 * dy - m + 1);
    let a2 = 2 * dy * (k + 1) + dx - 1;
    if d > 0 {
        assert(a2 == (e + 1) * m + (r + 2 * dy - m)) by (nonlinear_arith)
            requires
                a2 == a + 2 * dy,
                a == p + r,
                p == m * e,
        ;
        lemma_fundamental_div_mod_converse(a2, m, e + 1, r + 2 * dy - m);
    } else {
        assert(a2 == e * m + (r + 2 * dy)) by (nonlinear_arith)
            requires
                a2 == a + 2 * dy,
                a == p + r,
                p == m * e,
        ;
        lemma_fundamental_div_mod_converse(a2, m, e, r + 2 * dy);
    }
    if k <= dx {
        assert(0 <= e <= dy) by (nonlinear_arith)
            requires
                p == m * e,
                0 <= a,
                a == p + r,
                0 <= r < m,
                m == 2 * dx,
                a == 2 * dy * k + dx - 1,
                0 <= k <= dx,
                0 <= dy,
        ;
    }
}

/// The first and the last cell of a rasterised line are its endpoints.
proof fn lemma_shallow_ends(s: (int, int), e: (int, int))
    requires
        s.0 < e.0,
        abs(e.1 - s.1) <= e.0 - s.0,
    ensures
        shallow_cell(s, e, 0) == s,
        shallow_cell(s, e, e.0 - s.0) == e,
{
    let dx = e.0 - s.0;
    let dy = abs(e.1 - s.1);
    lemma_fundamental_div_mod_converse(dx - 1, 2 * dx, 0, dx - 1);
    assert(2 * dy * dx + dx - 1 == dy * (2 * dx) + (dx - 1)) by (nonlinear_arith);
    lemma_fundamental_div_mod_converse(2 * dy * dx + dx - 1, 2 * dx, dy, dx - 1);
    assert(minor_offset(dx, dy, 0) == 0) by {
        assert(2 * dy * 0 + dx - 1 == dx - 1);
    }
    assert(minor_offset(dx, dy, dx) == dy);
    assert(step_of(e.1 - s.1) * dy == e.1 - s.1) by (nonlinear_arith)
        requires
            dy == abs(e.1 - s.1),
    ;
}

/// Cell `k` of the line traced along the major axis, in the grid's own coordinates.
pub open spec fn traced_cell(s: (int, int), e: (int, int), steep: bool, k: int) -> (int, int) {
    if steep {
        steep_cell(s, e, k)
    } else {
        shallow_cell(s, e, k)
    }
}

pub open spec fn as_cell(p: (i64, i64)) -> (int, int) {
    (p.0 as int, p.1 as int)
}

/// Number of steps of a traced line along its major axis.
pub open spec fn trace_len(s: (i64, i64), e: (i64, i64), steep: bool) -> int {
    if steep {
        e.1 - s.1
    } else {
        e.0 - s.0
    }
}

/// Traces the rasterised line from `s` to `e` along the x axis, or along the
/// y axis when `steep`, and says whether no cell on it, the endpoints too,
/// is a wall.
fn bresenham_trace(level: &Level, s: (i64, i64), e: (i64, i64), steep: bool) -> (r: bool)
    requires
        level.wf(),
        0 <= s.0 <= MAX_COORD,
        0 <= s.1 <= MAX_COORD,
        0 <= e.0 <= MAX_COORD,
        0 <= e.1 <= MAX_COORD,
        !steep ==> s.0 < e.0 && abs(e.1 - s.1) <= e.0 - s.0,
        steep ==> s.1 < e.1 && abs(e.0 - s.0) <= e.1 - s.1,
    ensures
        r == forall|k: int|
            0 <= k <= trace_len(s, e, steep) ==> !level.is_wall(
                #[trigger] traced_cell(as_cell(s), as_cell(e), steep, k),
            ),
{
    let ghost si = as_cell(s);
    let ghost ei = as_cell(e);
    // Coordinates along the major axis (a) and the minor axis (b).
    let (a0, b0, a1, b1) = if steep {
        (s.1, s.0, e.1, e.0)
    } else {
        (s.0, s.1, e.0, e.1)
    };
    let ghost fs = (a0 as int, b0 as int);
    let ghost fe = (a1 as int, b1 as int);
    assert(forall|k: int| #[trigger]
        traced_cell(si, ei, steep, k) == if steep {
            flip(shallow_cell(fs, fe, k))
        } else {
            shallow_cell(fs, fe, k)
        });
    let da: i64 = a1 - a0;
    let mut db: i64 = b1 - b0;
    let mut bi: i64 = 1;
    if db < 0 {
        bi = -1;
        db = -db;
    }
    let mut d: i64 = 2 * db - da;
    let mut b: i64 = b0;
    let mut a: i64 = a0;
    proof {
        lemma_fundamental_div_mod_converse(da - 1, 2 * da, 0, da - 1);
        assert(2 * db * 0 + da - 1 == da - 1);
        assert(minor_offset(da as int, db as int, 0) == 0);
        assert(d == 2 * db * (0 + 1) - da - 2 * da * 0) by (nonlinear_arith)
            requires
                d == 2 * db - da,
        ;
    }
    while a <= a1
        invariant
            level.wf(),
            si == as_cell(s),
            ei == as_cell(e),
            fs == (a0 as int, b0 as int),
            (a0, b0, a1, b1) == if steep {
                (s.1, s.0, e.1, e.0)
            } else {
                (s.0, s.1, e.0, e.1)
            },
            fe == (a1 as int, b1 as int),
            forall|k: int| #[trigger]
                traced_cell(si, ei, steep, k) == if steep {
                    flip(shallow_cell(fs, fe, k))
                } else {
                    shallow_cell(fs, fe, k)
                },
            a0 <= a <= a1 + 1,
            0 < da == a1 - a0 <= MAX_COORD,
            0 <= db <= da,
            db == abs(b1 - b0),
            bi == step_of(b1 - b0),
            0 <= a0 && 0 <= a1,
            0 <= b0 <= MAX_COORD,
            0 <= b1 <= MAX_COORD,
            a1 <= MAX_COORD,
            (b - b0) * bi == minor_offset(da as int, db as int, (a - a0) as int),
            d == 2 * db * (a - a0 + 1) - da - 2 * da * minor_offset(
                da as int,
                db as int,
                (a - a0) as int,
            ),
            forall|k: int|
                0 <= k < a - a0 ==> !level.is_wall(#[trigger] traced_cell(si, ei, steep, k)),
        decreases a1 + 1 - a,
    {
        let ghost k = (a - a0) as int;
        proof {
            lemma_step(da as int, db as int, k);
        }
        let ghost off = minor_offset(da as int, db as int, k);
        assert(b == b0 + bi * off) by (nonlinear_arith)
            requires
                (b - b0) * bi == off,
                bi == 1 || bi == -1,
        ;
        assert(0 <= off <= db);
        assert(bi == 1 ==> b0 <= b <= b1);
        assert(bi == -1 ==> b1 <= b <= b0);
        assert(abs(fe.1 - fs.1) == db);
        assert(fe.0 - fs.0 == da);
        assert(step_of(fe.1 - fs.1) == bi);
        assert(shallow_cell(fs, fe, k) == (a as int, b as int));
        let wall = if steep {
            level.wall_cell(b, a)
        } else {
            level.wall_cell(a, b)
        };
        if wall {
            assert(level.is_wall(traced_cell(si, ei, steep, k)));
            assert(0 <= k <= trace_len(s, e, steep));
            return false;
        }
        let ghost old_b = b as int;
        let ghost old_d = d as int;
        let ghost moved = d > 0;
        if d > 0 {
            b = b + bi;
            d = d + 2 * (db - da);
        } else {
            d = d + 2 * db;
        }
        a = a + 1;
        proof {
            let off2 = minor_offset(da as int, db as int, k + 1);
            assert((b - b0) * bi == off2) by (nonlinear_arith)
                requires
                    bi == 1 || bi == -1,
                    moved ==> off2 == off + 1 && b == old_b + bi,
                    !moved ==> off2 == off && b == old_b,
                    old_b == b0 + bi * off,
            ;
            assert(d == 2 * db * (k + 2) - da - 2 * da * off2) by (nonlinear_arith)
                requires
                    old_d == 2 * db * (k + 1) - da - 2 * da * off,
                    moved ==> off2 == off + 1 && d == old_d + 2 * (db - da),
                    !moved ==> off2 == off && d == old_d + 2 * db,
            ;
        }
    }
    true
}

/// The sightline between `o` and `t` is the traced line between them, taken
/// from the endpoint that is lower on the major axis.
proof fn lemma_sightline_is_trace(level: Level, o: (i64, i64), t: (i64, i64), s: (i64, i64), e: (i64, i64), steep: bool)
    requires
        o != t,
        steep == !(abs(t.1 - o.1) < abs(t.0 - o.0)),
        (s, e) == if steep {
            if o.1 > t.1 {
                (t, o)
            } else {
                (o, t)
            }
        } else if o.0 > t.0 {
            (t, o)
        } else {
            (o, t)
        },
        !level.is_wall(as_cell(o)),
        !level.is_wall(as_cell(t)),
    ensures
        !steep ==> s.0 < e.0 && abs(e.1 - s.1) <= e.0 - s.0,
        steep ==> s.1 < e.1 && abs(e.0 - s.0) <= e.1 - s.1,
        trace_len(s, e, steep) == sight_len(as_cell(o), as_cell(t)),
        (forall|k: int|
            0 <= k <= trace_len(s, e, steep) ==> !level.is_wall(
                #[trigger] traced_cell(as_cell(s), as_cell(e), steep, k),
            )) == sightline_clear(level, as_cell(o), as_cell(t)),
{
    let (oi, ti, si, ei) = (as_cell(o), as_cell(t), as_cell(s), as_cell(e));
    let n = trace_len(s, e, steep);
    if steep {
        lemma_shallow_ends(flip(si), flip(ei));
    } else {
        lemma_shallow_ends(si, ei);
    }
    assert(forall|k: int| #[trigger] traced_cell(si, ei, steep, k) == sight_cell(oi, ti, k));
    assert(traced_cell(si, ei, steep, 0) == si);
    assert(traced_cell(si, ei, steep, n) == ei);
    if sightline_clear(level, oi, ti) {
        assert forall|k: int| 0 <= k <= n implies !level.is_wall(
            #[trigger] traced_cell(si, ei, steep, k),
        ) by {
            if 0 < k < n {
                assert(!level.is_wall(sight_cell(oi, ti, k)));
            }
        }
    }
    if forall|k: int| 0 <= k <= n ==> !level.is_wall(#[trigger] traced_cell(si, ei, steep, k)) {
        assert forall|k: int| 0 < k < sight_len(oi, ti) implies !level.is_wall(
            #[trigger] sight_cell(oi, ti, k),
        ) by {
            assert(!level.is_wall(traced_cell(si, ei, steep, k)));
        }
    }
}

/// Both cells have no negative coordinate.
pub open spec fn both_nonneg(a: (int, int), b: (int, int)) -> bool {
    0 <= a.0 && 0 <= a.1 && 0 <= b.0 && 0 <= b.1
}

/// Whether the cell `tile` is seen from `position`, and if so its light
/// level: the Manhattan distance between the two. A cell with a negative
/// coordinate is never seen; cells beyond the grid count as open.
pub fn bresenham_line_enhanced(level: &Level, position: Position, tile: Position) -> (r: Option<
    i32,
>)
    requires
        level.wf(),
        position.x <= MAX_COORD,
        position.y <= MAX_COORD,
        tile.x <= MAX_COORD,
        tile.y <= MAX_COORD,
    ensures
        r == (if both_nonneg(position@, tile@) && sees(*level, position@, tile@) {
            Some(manhattan(position@, tile@) as i32)
        } else {
            None::<i32>
        }),
        both_nonneg(position@, tile@) ==> manhattan(position@, tile@) <= 2 * MAX_COORD,
{
    if position.x < 0 || position.y < 0 || tile.x < 0 || tile.y < 0 {
        return None;
    }
    let o: (i64, i64) = (position.x as i64, position.y as i64);
    let t: (i64, i64) = (tile.x as i64, tile.y as i64);
    let adx: i64 = if t.0 < o.0 {
        o.0 - t.0
    } else {
        t.0 - o.0
    };
    let ady: i64 = if t.1 < o.1 {
        o.1 - t.1
    } else {
        t.1 - o.1
    };
    let light = (adx + ady) as i32;
    if level.wall_cell(o.0, o.1) || level.wall_cell(t.0, t.1) || (adx == 0 && ady == 0) {
        return Some(light);
    }
    let steep = !(ady < adx);
    let (s, e) = if steep {
        if o.1 > t.1 {
            (t, o)
        } else {
            (o, t)
        }
    } else if o.0 > t.0 {
        (t, o)
    } else {
        (o, t)
    };
    proof {
        lemma_sightline_is_trace(*level, o, t, s, e, steep);
    }
    if bresenham_trace(level, s, e, steep) {
        Some(light)
    } else {
        None
    }
}

/// `v` lists each cell of `m` exactly once, with the value that `m` gives it.
pub open spec fn lists_map(v: Seq<(Position, i32)>, m: Map<(int, int), int>) -> bool {
    &&& forall|i: int| 0 <= i < v.len() ==> #[trigger] m.contains_key(v[i].0@) && m[v[i].0@] == v[i].1
    &&& forall|p: (int, int)| #[trigger] m.contains_key(p) ==> exists|i: int| 0 <= i < v.len() && #[trigger] v[i].0@ == p
    &&& forall|i: int, j: int| 0 <= i < j < v.len() ==> v[i].0 != v[j].0
}

/// `v` lists each cell of `s` exactly once.
pub open spec fn lists_set(v: Seq<Position>, s: Set<(int, int)>) -> bool {
    &&& forall|i: int| 0 <= i < v.len() ==> #[trigger] s.contains(v[i]@)
    &&& forall|p: (int, int)| #[trigger] s.contains(p) ==> exists|i: int| 0 <= i < v.len() && #[trigger] v[i]@ == p
    &&& forall|i: int, j: int| 0 <= i < j < v.len() ==> v[i] != v[j]
}

proof fn lemma_lists_map_push(v: Seq<(Position, i32)>, m: Map<(int, int), int>, q: Position, val: i32)
    requires
        lists_map(v, m),
        !m.contains_key(q@),
    ensures
        lists_map(v.push((q, val)), m.insert(q@, val as int)),
{
    let v2 = v.push((q, val));
    let m2 = m.insert(q@, val as int);
    assert forall|i: int| 0 <= i < v2.len() implies #[trigger] m2.contains_key(v2[i].0@) && m2[v2[i].0@] == v2[i].1 by {
        if i < v.len() {
            assert(m.contains_key(v[i].0@));
        }
    }
    assert forall|p: (int, int)| #[trigger] m2.contains_key(p) implies exists|i: int| 0 <= i < v2.len() && #[trigger] v2[i].0@ == p by {
        if p == q@ {
            assert(v2[v.len() as int].0@ == p);
        } else {
            let i = choose|i: int| 0 <= i < v.len() && #[trigger] v[i].0@ == p;
            assert(v2[i].0@ == p);
        }
    }
    assert forall|i: int, j: int| 0 <= i < j < v2.len() implies v2[i].0 != v2[j].0 by {
        if j == v.len() {
            assert(m.contains_key(v[i].0@));
        }
    }
}

proof fn lemma_lists_set_push(v: Seq<Position>, s: Set<(int, int)>, q: Position)
    requires
        lists_set(v, s),
        !s.contains(q@),
    ensures
        lists_set(v.push(q), s.insert(q@)),
{
    let v2 = v.push(q);
    let s2 = s.insert(q@);
    assert forall|i: int| 0 <= i < v2.len() implies #[trigger] s2.contains(v2[i]@) by {
        if i < v.len() {
            assert(s.contains(v[i]@));
        }
    }
    assert forall|p: (int, int)| #[trigger] s2.contains(p) implies exists|i: int| 0 <= i < v2.len() && #[trigger] v2[i]@ == p by {
        if p == q@ {
            assert(v2[v.len() as int]@ == p);
        } else {
            let i = choose|i: int| 0 <= i < v.len() && #[trigger] v[i]@ == p;
            assert(v2[i]@ == p);
        }
    }
    assert forall|i: int, j: int| 0 <= i < j < v2.len() implies v2[i] != v2[j] by {
        if j == v.len() {
            assert(s.contains(v[i]@));
        }
    }
}

/// Sight depends on the terrain alone, not on the ledger.
proof fn lemma_same_terrain(a: Level, b: Level, o: (int, int), t: (int, int))
    requires
        a.tiles == b.tiles,
        a.size == b.size,
    ensures
        sees(a, o, t) == sees(b, o, t),
{
    assert forall|q: (int, int)| a.is_wall(q) == b.is_wall(q) by {}
    if sightline_clear(a, o, t) {
        assert forall|k: int| 0 < k < sight_len(o, t) implies !b.is_wall(#[trigger] sight_cell(o, t, k)) by {
            assert(!a.is_wall(sight_cell(o, t, k)));
        }
    }
    if sightline_clear(b, o, t) {
        assert forall|k: int| 0 < k < sight_len(o, t) implies !a.is_wall(#[trigger] sight_cell(o, t, k)) by {
            assert(!b.is_wall(sight_cell(o, t, k)));
        }
    }
}

/// What an observer sees depends on the terrain alone, not on the ledger.
pub proof fn lemma_visible_map_terrain(a: Level, b: Level, o: (int, int), range: int)
    requires
        a.tiles == b.tiles,
        a.size == b.size,
    ensures
        visible_map(a, o, range) == visible_map(b, o, range),
{
    assert forall|p: (int, int)| visible(a, o, range, p) == visible(b, o, range, p) by {
        lemma_same_terrain(a, b, o, p);
    }
    assert(visible_map(a, o, range) =~= visible_map(b, o, range));
}

/// The cells of the candidate square already looked at, in column-major order,
/// when the scan stands at column `x`, row `y`.
spec fn scanned(lo: (int, int), hi: (int, int), x: int, y: int, p: (int, int)) -> bool {
    &&& lo.0 <= p.0 < hi.0
    &&& lo.1 <= p.1 < hi.1
    &&& p.0 < x || (p.0 == x && p.1 < y)
}

impl Level {
    /// What an observer at `observer` with sight `range` sees: `after` is the
    /// level once the seen cells are in its ledger, and `pov` lists them.
    pub open spec fn reveals(before: Level, observer: (int, int), range: int, pov: POV, after: Level) -> bool {
        let m = visible_map(before, observer, range);
        &&& after.wf()
        &&& after.tiles == before.tiles
        &&& after.size == before.size
        &&& after.mobs == before.mobs
        &&& pov.range == range
        &&& lists_map(pov.visible_tiles@, m)
        &&& lists_set(pov.newly_revealed_tiles@, m.dom().difference(before.revealed()))
        &&& after.revealed() == before.revealed().union(m.dom())
    }

    /// Computes what an observer at `observer` sees within `range`, adds
    /// every seen cell to the ledger, and reports which were new to it.
    pub fn compute_visibility(&mut self, observer: Position, range: i32) -> (pov: POV)
        requires
            old(self).wf(),
        ensures
            Level::reveals(*old(self), observer@, range as int, pov, *final(self)),
    {
        let ghost before = *self;
        let ghost o = observer@;
        let ghost m = visible_map(before, o, range as int);
        let mut visible_tiles: Vec<(Position, i32)> = Vec::new();
        let mut newly_revealed_tiles: Vec<Position> = Vec::new();
        let w = self.size.0 as i64;
        let h = self.size.1 as i64;
        let ox = observer.x as i64;
        let oy = observer.y as i64;
        if ox < 0 || oy < 0 || ox >= w || oy >= h {
            proof {
                assert(m.dom() =~= Set::empty());
                assert(before.revealed().union(m.dom()) =~= before.revealed());
            }
            return POV { visible_tiles, newly_revealed_tiles, range };
        }
        let r = range as i64;
        let x_lo: i64 = if ox - r > 0 { ox - r } else { 0 };
        let x_hi: i64 = if ox + r < w { ox + r } else { w };
        let y_lo: i64 = if oy - r > 0 { oy - r } else { 0 };
        let y_hi: i64 = if oy + r < h { oy + r } else { h };
        let ghost lo = (x_lo as int, y_lo as int);
        let ghost hi = (x_hi as int, y_hi as int);
        let mut x = x_lo;
        while x < x_hi
            invariant
                before.wf(),
                self.wf(),
                self.tiles == before.tiles,
                self.size == before.size,
                self.mobs == before.mobs,
                before.in_bounds(o),
                o == observer@,
                o == (ox as int, oy as int),
                w == before.width(),
                h == before.height(),
                lo == (x_lo as int, y_lo as int),
                hi == (x_hi as int, y_hi as int),
                0 <= x_lo,
                x_hi <= w,
                0 <= y_lo,
                y_hi <= h,
                m == visible_map(before, o, range as int),
                forall|p: (int, int)|
                    #[trigger] m.contains_key(p) <==> (lo.0 <= p.0 < hi.0 && lo.1 <= p.1 < hi.1 && sees(before, o, p)),
                x_lo <= x <= x_hi || x_hi <= x_lo == x,
                lists_map(visible_tiles@, m.restrict(Set::new(|p: (int, int)| scanned(lo, hi, x as int, y_lo as int, p)))),
                lists_set(newly_revealed_tiles@, m.dom().difference(before.revealed()).filter(|p: (int, int)| scanned(lo, hi, x as int, y_lo as int, p))),
                self.revealed() == before.revealed().union(m.dom().filter(|p: (int, int)| scanned(lo, hi, x as int, y_lo as int, p))),
            decreases x_hi - x,
        {
            let mut y = y_lo;
            while y < y_hi
                invariant
                    before.wf(),
                    self.wf(),
                    self.tiles == before.tiles,
                    self.size == before.size,
                    self.mobs == before.mobs,
                    before.in_bounds(o),
                    o == observer@,
                    o == (ox as int, oy as int),
                    w == before.width(),
                    h == before.height(),
                    lo == (x_lo as int, y_lo as int),
                    hi == (x_hi as int, y_hi as int),
                    0 <= x_lo <= x < x_hi <= w,
                    0 <= y_lo,
                    y_hi <= h,
                    y_lo <= y <= y_hi || y_hi <= y_lo == y,
                    m == visible_map(before, o, range as int),
                    forall|p: (int, int)|
                        #[trigger] m.contains_key(p) <==> (lo.0 <= p.0 < hi.0 && lo.1 <= p.1 < hi.1 && sees(before, o, p)),
                    lists_map(visible_tiles@, m.restrict(Set::new(|p: (int, int)| scanned(lo, hi, x as int, y as int, p)))),
                    lists_set(newly_revealed_tiles@, m.dom().difference(before.revealed()).filter(|p: (int, int)| scanned(lo, hi, x as int, y as int, p))),
                    self.revealed() == before.revealed().union(m.dom().filter(|p: (int, int)| scanned(lo, hi, x as int, y as int, p))),
                decreases y_hi - y,
            {
                let tile = Position { x: x as i32, y: y as i32 };
                let ghost p = tile@;
                let ghost sc = Set::new(|q: (int, int)| scanned(lo, hi, x as int, y as int, q));
                let ghost sc2 = Set::new(|q: (int, int)| scanned(lo, hi, x as int, y + 1, q));
                let ghost fresh = m.dom().difference(before.revealed());
                proof {
                    lemma_same_terrain(*self, before, o, p);
                    assert(sc2 =~= sc.insert(p));
                    assert(!sc.contains(p));
                }
                match bresenham_line_enhanced(self, observer, tile) {
                    Some(light) => {
                        proof {
                            assert(m.contains_key(p));
                            assert(m[p] == light as int);
                            lemma_lists_map_push(visible_tiles@, m.restrict(sc), tile, light);
                            assert(m.restrict(sc).insert(p, light as int) =~= m.restrict(sc2));
                        }
                        visible_tiles.push((tile, light));
                        let ghost led = self.revealed();
                        if self.mark_revealed(x as usize, y as usize) {
                            proof {
                                lemma_lists_set_push(newly_revealed_tiles@, fresh.filter(|q: (int, int)| scanned(lo, hi, x as int, y as int, q)), tile);
                            }
                            newly_revealed_tiles.push(tile);
                        }
                        proof {
                            assert(fresh.filter(|q: (int, int)| scanned(lo, hi, x as int, y + 1, q)) =~= if led.contains(p) {
                                fresh.filter(|q: (int, int)| scanned(lo, hi, x as int, y as int, q))
                            } else {
                                fresh.filter(|q: (int, int)| scanned(lo, hi, x as int, y as int, q)).insert(p)
                            });
                            assert(self.revealed() =~= before.revealed().union(m.dom().filter(|q: (int, int)| scanned(lo, hi, x as int, y + 1, q))));
                        }
                    },
                    None => {
                        proof {
                            assert(!m.contains_key(p));
                            assert(m.restrict(sc) =~= m.restrict(sc2));
                            assert(fresh.filter(|q: (int, int)| scanned(lo, hi, x as int, y as int, q)) =~= fresh.filter(|q: (int, int)| scanned(lo, hi, x as int, y + 1, q)));
                            assert(m.dom().filter(|q: (int, int)| scanned(lo, hi, x as int, y as int, q)) =~= m.dom().filter(|q: (int, int)| scanned(lo, hi, x as int, y + 1, q)));
                        }
                    },
                }
                y = y + 1;
            }
            proof {
                let ghost sa = Set::new(|q: (int, int)| scanned(lo, hi, x as int, y as int, q));
                let ghost sb = Set::new(|q: (int, int)| scanned(lo, hi, x + 1, y_lo as int, q));
                assert(sa =~= sb);
                assert(m.restrict(sa) =~= m.restrict(sb));
                let ghost fresh = m.dom().difference(before.revealed());
                assert(fresh.filter(|q: (int, int)| scanned(lo, hi, x as int, y as int, q)) =~= fresh.filter(|q: (int, int)| scanned(lo, hi, x + 1, y_lo as int, q)));
                assert(m.dom().filter(|q: (int, int)| scanned(lo, hi, x as int, y as int, q)) =~= m.dom().filter(|q: (int, int)| scanned(lo, hi, x + 1, y_lo as int, q)));
            }
            x = x + 1;
        }
        proof {
            let ghost sa = Set::new(|q: (int, int)| scanned(lo, hi, x as int, y_lo as int, q));
            assert(m.restrict(sa) =~= m);
            let ghost fresh = m.dom().difference(before.revealed());
            assert(fresh.filter(|q: (int, int)| scanned(lo, hi, x as int, y_lo as int, q)) =~= fresh);
            assert(m.dom().filter(|q: (int, int)| scanned(lo, hi, x as int, y_lo as int, q)) =~= m.dom());
        }
        POV { visible_tiles, newly_revealed_tiles, range }
    }
}

/// Every cell that a sight computation lists lies on the grid, inside the
/// candidate square around the observer (so its Manhattan distance from the
/// observer is at most twice the range), carries that distance as its light
/// level, and is seen: it is a wall, the observer stands on a wall, or no
/// wall lies strictly between them on the sightline.
pub proof fn lemma_visible_tiles_are_seen(before: Level, observer: (int, int), range: int, pov: POV, after: Level, i: int)
    requires
        Level::reveals(before, observer, range, pov, after),
        0 <= i < pov.visible_tiles@.len(),
    ensures
        ({
            let (p, light) = (pov.visible_tiles@[i].0@, pov.visible_tiles@[i].1 as int);
            &&& before.in_bounds(p)
            &&& in_view_square(observer, range, p)
            &&& light == manhattan(observer, p)
            &&& light <= 2 * range
            &&& before.is_wall(p) || before.is_wall(observer) || sightline_clear(before, observer, p)
        }),
{
    let m = visible_map(before, observer, range);
    assert(m.contains_key(pov.visible_tiles@[i].0@));
}

/// Computing sight twice from the same cell with the same range lists the
/// same cells with the same light levels, and the second time nothing is
/// new to the ledger, which stays as the first computation left it.
pub proof fn lemma_visibility_idempotent(
    l0: Level,
    observer: (int, int),
    range: int,
    pov1: POV,
    l1: Level,
    pov2: POV,
    l2: Level,
)
    requires
        Level::reveals(l0, observer, range, pov1, l1),
        Level::reveals(l1, observer, range, pov2, l2),
    ensures
        lists_map(pov1.visible_tiles@, visible_map(l0, observer, range)),
        lists_map(pov2.visible_tiles@, visible_map(l0, observer, range)),
        pov2.newly_revealed_tiles@.len() == 0,
        l2.revealed() == l1.revealed(),
{
    lemma_visible_map_terrain(l0, l1, observer, range);
    let m = visible_map(l0, observer, range);
    assert(m.dom().difference(l1.revealed()) =~= Set::empty());
    if pov2.newly_revealed_tiles@.len() > 0 {
        assert(m.dom().difference(l1.revealed()).contains(pov2.newly_revealed_tiles@[0]@));
    }
    assert(l2.revealed() =~= l1.revealed());
}

/// A sight computation only ever adds cells to the ledger.
pub proof fn lemma_reveal_keeps_ledger(before: Level, observer: (int, int), range: int, pov: POV, after: Level, p: (int, int))
    requires
        Level::reveals(before, observer, range, pov, after),
        before.revealed().contains(p),
    ensures
        after.revealed().contains(p),
{
}

} // verus!
