//! Waypoints: a way over the tiles as points of the map, pulled taut.

use vstd::prelude::*;
use crate::kind::TCELL;
use crate::num::{Num, V2};
use crate::path::{abs, lemma_xy, smooth, taut, taut_at, Grid};

verus! {

/// The widest and the highest grid whose tile middles are whole numbers that single precision
/// holds exactly.
pub const EXACT_TILES: usize = 250_000;

/// The middle of a tile.
pub open spec fn middle(t: (i32, i32)) -> V2 {
    V2 {
        x: Num::integer((TCELL * t.0 + 30) as i32),
        y: Num::integer((TCELL * t.1 + 30) as i32),
    }
}

/// The middle of a tile.
pub fn tile_middle(t: (i32, i32)) -> (r: V2)
    requires
        0 <= t.0 < EXACT_TILES,
        0 <= t.1 < EXACT_TILES,
    ensures
        r == middle(t),
{
    V2 { x: Num::integer(60 * t.0 + 30), y: Num::integer(60 * t.1 + 30) }
}

/// The waypoints of a way through `tiles` to a point: the middle of each tile, but for the
/// last, in whose place stands the point itself.
pub open spec fn waypoints(tiles: Seq<(i32, i32)>, goal: V2) -> Seq<V2> {
    Seq::new(
        tiles.len(),
        |i: int|
            if i == tiles.len() - 1 {
                goal
            } else {
                middle(tiles[i])
            },
    )
}

/// Whether a walk from a tile to a point on another may be given the waypoints `r`: those of a
/// way between the two, or none where there is no way.
pub open spec fn leads_to(
    g: Grid,
    from: (i32, i32),
    to: (i32, i32),
    goal: V2,
    r: Option<Vec<V2>>,
) -> bool {
    exists|way: Option<Vec<(i32, i32)>>| #[trigger]
        g@.found(from, to, way) && match (way, r) {
            (Some(tiles), Some(points)) => points@ == waypoints(tiles@, goal),
            (None, None) => true,
            _ => false,
        }
}

impl Grid {
    /// The waypoints from a tile to a point on another, if there is a way. There is at least
    /// one, and the last is the point itself, not the middle of its tile.
    pub fn route(&self, from: (i32, i32), to: (i32, i32), goal: V2) -> (r: Option<Vec<V2>>)
        requires
            self.wf(),
            self.tw <= EXACT_TILES,
            self.th <= EXACT_TILES,
            abs(from.0 as int) <= 1_000_000_000,
            abs(from.1 as int) <= 1_000_000_000,
            abs(to.0 as int) <= 1_000_000_000,
            abs(to.1 as int) <= 1_000_000_000,
        ensures
            leads_to(*self, from, to, goal, r),
            r is Some ==> r->0@.len() > 0 && r->0@.last() == goal,
    {
        let way = self.find_path(from, to);
        match &way {
            None => {
                assert(self@.found(from, to, way));
                None
            },
            Some(tiles) => {
                proof {
                    assert(self@.found(from, to, way));
                    lemma_ways_stay_on_the_map(*self, from, to, way);
                }
                let n: usize = tiles.len();
                let mut points: Vec<V2> = Vec::new();
                for i in 0..n
                    invariant
                        n == tiles@.len(),
                        self.tw <= EXACT_TILES,
                        self.th <= EXACT_TILES,
                        forall|j: int|
                            0 <= j < n ==> 0 <= (#[trigger] tiles@[j]).0 < self.tw && 0 <= tiles@[j].1 < self.th,
                        points@ == waypoints(tiles@, goal).take(i as int),
                {
                    if i + 1 == n {
                        points.push(goal);
                    } else {
                        points.push(tile_middle(tiles[i]));
                    }
                    assert(points@ =~= waypoints(tiles@, goal).take(i + 1));
                }
                assert(points@ =~= waypoints(tiles@, goal));
                Some(points)
            },
        }
    }
}

proof fn lemma_ways_stay_on_the_map(g: Grid, from: (i32, i32), to: (i32, i32), way: Option<Vec<(i32, i32)>>)
    requires
        g.wf(),
        g@.found(from, to, way),
        way is Some,
    ensures
        way->0@.len() > 0,
        forall|j: int|
            0 <= j < way->0@.len() ==> 0 <= (#[trigger] way->0@[j]).0 < g.tw && 0 <= way->0@[j].1 < g.th,
{
    let tiles = way->0@;
    let (sx, sy, tx, ty) = choose|sx: int, sy: int, tx: int, ty: int| #[trigger]
        g@.is_nearest(from.0 as int, from.1 as int, sx, sy) && #[trigger] g@.is_nearest(
            to.0 as int,
            to.1 as int,
            tx,
            ty,
        ) && g@.leads(tiles, sx, sy, tx, ty);
    assert(g@.passable(tx, ty));
    if !(sx == tx && sy == ty) {
        let p = choose|p: Seq<int>| #[trigger]
            g@.is_cheapest(p, g@.at(sx, sy), g@.at(tx, ty)) && g@.leads_along(tiles, p);
        assert(g@.is_route(p, g@.at(sx, sy), g@.at(tx, ty)));
        lemma_xy(g@, sx, sy);
        lemma_xy(g@, tx, ty);
        assert(p.len() > 1);
        assert forall|j: int| 0 <= j < tiles.len() implies 0 <= (#[trigger] tiles[j]).0 < g.tw && 0 <= tiles[j].1
            < g.th by {
            assert(g@.step(p[j], p[j + 1]));
            let (v, w, h) = (p[j + 1], g.tw as int, g.th as int);
            assert(0 <= v % w < w && 0 <= v / w < h) by (nonlinear_arith)
                requires
                    0 <= v < w * h,
                    0 < w,
            ;
        }
    }
}

/// Drops the waypoints that can be walked past in a straight line; `clear(a, j)` tells whether
/// waypoint `j` is in clear sight of anchor `a`, where 0 is the start and `k + 1` waypoint
/// `k`. The last waypoint always stays the last.
pub fn pull_taut<F: Fn(usize, usize) -> bool>(way: &Vec<V2>, clear: F) -> (r: Vec<V2>)
    requires
        forall|a: usize, j: usize| #[trigger] call_requires(clear, (a, j)),
    ensures
        exists|picks: Seq<usize>| #[trigger]
            taut(clear, way@.len() as int, picks) && r@ == picks.map_values(|k: usize| way@[k as int]),
        way@.len() == 0 ==> r@.len() == 0,
        way@.len() > 0 ==> r@.len() > 0 && r@.last() == way@.last(),
{
    let picks = smooth(way.len(), clear);
    let n: usize = picks.len();
    let mut r: Vec<V2> = Vec::new();
    for i in 0..n
        invariant
            n == picks@.len(),
            taut(clear, way@.len() as int, picks@),
            r@ == picks@.map_values(|k: usize| way@[k as int]).take(i as int),
    {
        assert(taut_at(clear, way@.len() as int, picks@, i as int));
        r.push(way[picks[i]]);
        assert(r@ =~= picks@.map_values(|k: usize| way@[k as int]).take(i + 1));
    }
    assert(r@ =~= picks@.map_values(|k: usize| way@[k as int]));
    r
}

} // verus!
