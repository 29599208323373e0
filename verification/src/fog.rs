//! Fog of war. Every faction has its own grid of cells, each unseen, explored or
//! visible; the grids lie end to end. A cell is visible while one of the faction's
//! entities sees it, and stays explored once it has been seen.

use vstd::prelude::*;
use crate::kind::{sight, Kind, Team};
use crate::path::{Grid, T_HIGH};

verus! {

/// Never seen.
pub const UNSEEN: u8 = 0;

/// Seen before, but not now.
pub const EXPLORED: u8 = 1;

/// In sight.
pub const VISIBLE: u8 = 2;

/// Most cells of all the grids together.
pub const MAX_CELLS: usize = 100_000_000;

/// Bound on the cell coordinates of a spotter.
pub const CELL_MAX: i32 = 1_000_000;

/// A spotter this many cells off sees nothing of any map.
pub const FAR_OFF: i32 = 2_000_000;

/// An entity that may see: its kind, the fog cell and the terrain tile it is in.
#[derive(Clone, Copy, PartialEq, Eq, Structural, Debug)]
pub struct Spotter {
    pub kind: Kind,
    pub cx: i32,
    pub cy: i32,
    pub tx: i32,
    pub ty: i32,
}

/// The grids of all factions.
pub struct Fog {
    pub w: usize,
    pub h: usize,
    pub factions: usize,
    pub vis: Vec<u8>,
}

/// Whether a sight radius reaches as far as squared distance `d2` in cells. A cell
/// is 40 units wide, and from high ground the radius is three tenths longer.
pub open spec fn in_range(k: Kind, high: bool, d2: int) -> bool {
    if high {
        d2 * 160_000 <= (13 * sight(k)) * (13 * sight(k))
    } else {
        d2 * 1600 <= sight(k) * sight(k)
    }
}

/// The terrain tile under the centre of a fog cell, along one axis.
pub open spec fn tile_of_cell(c: int) -> int {
    (2 * c + 1) / 3
}

/// Whether a spotter sees cell `(x, y)`: it is in range, and it is not on high ground
/// seen from below, unless right next to the spotter.
pub open spec fn sees(g: Grid, s: Spotter, x: int, y: int) -> bool {
    let high = g.tile(s.tx as int, s.ty as int) == T_HIGH;
    let d2 = (x - s.cx) * (x - s.cx) + (y - s.cy) * (y - s.cy);
    &&& sight(s.kind) > 0
    &&& in_range(s.kind, high, d2)
    &&& (high || d2 <= 2 || g.tile(tile_of_cell(x), tile_of_cell(y)) != T_HIGH)
}

/// Whether one of the spotters sees cell `(x, y)`.
pub open spec fn seen(g: Grid, srcs: Seq<Spotter>, x: int, y: int) -> bool {
    exists|i: int| 0 <= i < srcs.len() && #[trigger] sees(g, srcs[i], x, y)
}

/// What becomes of a cell: visible if it is seen now, and otherwise no more than
/// explored.
pub open spec fn fog_next(was: u8, now_seen: bool) -> u8 {
    if now_seen {
        VISIBLE
    } else if was == VISIBLE {
        EXPLORED
    } else {
        was
    }
}

/// From low ground nobody sees what is on top of a plateau until they are right under it.
pub proof fn plateaus_hide_their_tops(g: Grid, s: Spotter, x: int, y: int)
    requires
        g.tile(s.tx as int, s.ty as int) != T_HIGH,
        g.tile(tile_of_cell(x), tile_of_cell(y)) == T_HIGH,
        (x - s.cx) * (x - s.cx) + (y - s.cy) * (y - s.cy) > 2,
    ensures
        !sees(g, s, x, y),
{
}

/// High ground grants extra sight: what a spotter sees from below, it sees from a plateau in
/// the same cell.
pub proof fn high_ground_sees_farther(g: Grid, low: Spotter, high: Spotter, x: int, y: int)
    requires
        low.kind == high.kind,
        low.cx == high.cx,
        low.cy == high.cy,
        g.tile(high.tx as int, high.ty as int) == T_HIGH,
        sees(g, low, x, y),
    ensures
        sees(g, high, x, y),
{
    let d2 = (x - low.cx) * (x - low.cx) + (y - low.cy) * (y - low.cy);
    let r: int = sight(low.kind) as int;
    assert((13 * r) * (13 * r) == 169 * (r * r)) by (nonlinear_arith);
    assert(r * r >= 0) by (nonlinear_arith);
}

/// What a pass over faction `f`'s grid makes of entry `v` of all grids, `w` cells wide and
/// `h` high each.
pub open spec fn passed_over(
    vis: Seq<u8>,
    w: int,
    h: int,
    f: int,
    g: Grid,
    srcs: Seq<Spotter>,
    v: int,
) -> u8 {
    let u = v - f * (w * h);
    if 0 <= u < w * h {
        fog_next(vis[v], seen(g, srcs, u % w, u / w))
    } else {
        vis[v]
    }
}

/// After a pass a faction sees exactly the cells that one of its own sees: within its sight,
/// which high ground stretches by three tenths, and not on top of a plateau that it looks up
/// at from farther than the next cell. What it saw before and sees no longer is explored,
/// and stays so; the grids of the others are left alone.
pub proof fn a_pass_shows_what_is_seen(fog: Fog, f: int, g: Grid, srcs: Seq<Spotter>, x: int, y: int)
    requires
        fog.wf(),
        0 <= f < fog.factions,
        0 <= x < fog.w,
        0 <= y < fog.h,
    ensures
        ({
            let v = f * fog.cells() + y * fog.w + x;
            let was = fog.at(f, x, y);
            let now = passed_over(fog.vis@, fog.w as int, fog.h as int, f, g, srcs, v);
            &&& 0 <= v < fog.vis@.len()
            &&& now == VISIBLE <==> exists|i: int| 0 <= i < srcs.len() && #[trigger] sees(g, srcs[i], x, y)
            &&& now != VISIBLE ==> now == (if was < EXPLORED {
                was
            } else {
                EXPLORED
            })
            &&& was != UNSEEN ==> now != UNSEEN
        }),
{
    lemma_index(fog.w as int, fog.h as int, x, y);
    let c = fog.cells();
    let n = fog.factions as int;
    assert(0 <= f * c && f * c + c <= c * n) by (nonlinear_arith)
        requires
            0 <= f < n,
            0 <= c,
    ;
    let v = f * c + y * fog.w + x;
    assert(fog.vis@[v] <= VISIBLE);
}

/// A pass over one faction's grid changes no other's.
pub proof fn a_pass_concerns_one_faction(
    vis: Seq<u8>,
    w: int,
    h: int,
    f: int,
    g: Grid,
    srcs: Seq<Spotter>,
    k: int,
    x: int,
    y: int,
)
    requires
        0 <= x < w,
        0 <= y < h,
        k != f,
    ensures
        passed_over(vis, w, h, f, g, srcs, k * (w * h) + y * w + x) == vis[k * (w * h) + y * w + x],
{
    lemma_index(w, h, x, y);
    let c = w * h;
    let u = y * w + x;
    if k < f {
        assert(k * c + c <= f * c) by (nonlinear_arith)
            requires
                k + 1 <= f,
                0 <= c,
        ;
    } else {
        assert(f * c + c <= k * c) by (nonlinear_arith)
            requires
                f + 1 <= k,
                0 <= c,
        ;
    }
}

/// A cell once explored is never forgotten, and it is visible exactly while seen.
pub proof fn explored_stays_explored(was: u8, now_seen: bool)
    ensures
        was != UNSEEN ==> fog_next(was, now_seen) != UNSEEN,
        fog_next(was, now_seen) == VISIBLE <==> now_seen,
        was <= VISIBLE ==> fog_next(was, now_seen) <= VISIBLE,
{
}

impl Fog {
    pub open spec fn wf(&self) -> bool {
        &&& self.factions <= 4
        &&& self.w <= CELL_MAX
        &&& self.h <= CELL_MAX
        &&& self.w * self.h * 4 <= MAX_CELLS
        &&& self.vis@.len() == self.w * self.h * self.factions
        &&& forall|v: int| 0 <= v < self.vis@.len() ==> #[trigger] self.vis@[v] <= VISIBLE
    }

    /// Cells of one grid.
    pub open spec fn cells(&self) -> int {
        self.w * self.h
    }

    /// What faction `f` knows of cell `(x, y)`.
    pub open spec fn at(&self, f: int, x: int, y: int) -> u8 {
        self.vis@[f * self.cells() + y * self.w + x]
    }

    /// Unseen grids.
    pub fn new(w: usize, h: usize, factions: usize) -> (r: Fog)
        requires
            factions <= 4,
            w <= CELL_MAX,
            h <= CELL_MAX,
            w * h * 4 <= MAX_CELLS,
        ensures
            r.wf(),
            r.w == w,
            r.h == h,
            r.factions == factions,
            forall|v: int| 0 <= v < r.vis@.len() ==> r.vis@[v] == UNSEEN,
    {
        assert(w * h * factions <= w * h * 4) by (nonlinear_arith)
            requires
                factions <= 4,
                0 <= w * h,
        ;
        assert(0 <= w * h) by (nonlinear_arith);
        Fog { w, h, factions, vis: vec![0u8; w * h * factions] }
    }

    /// Lights up what one spotter sees.
    fn spot(&mut self, base: usize, g: &Grid, s: Spotter)
        requires
            old(self).wf(),
            g.wf(),
            base + old(self).cells() <= old(self).vis@.len(),
        ensures
            final(self).wf(),
            final(self).w == old(self).w,
            final(self).h == old(self).h,
            final(self).factions == old(self).factions,
            forall|v: int|
                0 <= v < final(self).vis@.len() ==> #[trigger] final(self).vis@[v] == (if base <= v < base
                    + old(self).cells() && sees(
                    *g,
                    s,
                    (v - base) % (old(self).w as int),
                    (v - base) / (old(self).w as int),
                ) {
                    VISIBLE
                } else {
                    old(self).vis@[v]
                }),
    {
        let ghost v0 = self.vis@;
        let ghost w = self.w as int;
        let reach: u32 = sight(s.kind);
        let elev: u8 = g.elev_at(s.tx, s.ty);
        let ghost high = g.tile(s.tx as int, s.ty as int) == T_HIGH;
        // Farther than this many cells nothing is in range.
        let rc: i32 = 10;
        if s.cx < -FAR_OFF || s.cx > FAR_OFF || s.cy < -FAR_OFF || s.cy > FAR_OFF {
            proof {
                assert forall|u: int| 0 <= u < self.cells() implies !sees(
                    *g,
                    s,
                    #[trigger] col(u, w),
                    u / w,
                ) by {
                    lemma_cell(w, self.h as int, u);
                    if sees(*g, s, u % w, u / w) {
                        lemma_in_range(s, high, u % w, u / w);
                    }
                }
                assert forall|v: int| 0 <= v < self.vis@.len() && base <= v < base + self.cells() implies !sees(
                    *g,
                    s,
                    (v - base) % w,
                    #[trigger] ((v - base) / w),
                ) by {
                    assert(!sees(*g, s, col(v - base, w), (v - base) / w));
                }
            }
            return;
        }
        let fw: i32 = self.w as i32;
        let fh: i32 = self.h as i32;
        let y0: i32 = if s.cy - rc < 0 { 0 } else { s.cy - rc };
        let y1: i32 = if s.cy + rc < fh { s.cy + rc + 1 } else { fh };
        let x0: i32 = if s.cx - rc < 0 { 0 } else { s.cx - rc };
        let x1: i32 = if s.cx + rc < fw { s.cx + rc + 1 } else { fw };
        proof {
            assert forall|u: int| 0 <= u < self.cells() && sees(*g, s, u % w, u / w) implies {
                &&& x0 <= #[trigger] col(u, w) < x1
                &&& y0 <= row(u, w) < y1
            } by {
                lemma_cell(w, self.h as int, u);
                lemma_in_range(s, high, u % w, u / w);
            }
        }
        if reach == 0 {
            return;
        }
        let mut gy: i32 = y0;
        while gy < y1
            invariant
                self.wf(),
                g.wf(),
                w == self.w,
                self.w == old(self).w,
                self.h == old(self).h,
                self.factions == old(self).factions,
                base + self.cells() <= self.vis@.len(),
                v0.len() == self.vis@.len(),
                -FAR_OFF <= s.cx <= FAR_OFF,
                -FAR_OFF <= s.cy <= FAR_OFF,
                s.cx - 10 <= x0,
                x1 <= s.cx + 11,
                s.cy - 10 <= y0,
                y1 <= s.cy + 11,
                0 <= x0,
                x1 <= w,
                0 <= y0 <= gy,
                y1 <= self.h,
                gy <= y1 || y1 < y0,
                reach == sight(s.kind),
                reach > 0,
                high == (g.tile(s.tx as int, s.ty as int) == T_HIGH),
                elev == (if high {
                    1u8
                } else {
                    0u8
                }),
                forall|v: int|
                    0 <= v < self.vis@.len() ==> #[trigger] self.vis@[v] == (if base <= v < base
                        + self.cells() && y0 <= row(v - base, w) < gy && x0 <= col(v - base, w) < x1
                        && sees(*g, s, (v - base) % w, (v - base) / w) {
                        VISIBLE
                    } else {
                        v0[v]
                    }),
            decreases y1 - gy,
        {
            let mut gx: i32 = x0;
            while gx < x1
                invariant
                    self.wf(),
                    g.wf(),
                    w == self.w,
                    self.w == old(self).w,
                    self.h == old(self).h,
                    self.factions == old(self).factions,
                    base + self.cells() <= self.vis@.len(),
                    v0.len() == self.vis@.len(),
                    -FAR_OFF <= s.cx <= FAR_OFF,
                    -FAR_OFF <= s.cy <= FAR_OFF,
                    s.cx - 10 <= x0,
                    x1 <= s.cx + 11,
                    s.cy - 10 <= y0,
                    y1 <= s.cy + 11,
                    0 <= x0 <= gx,
                    x1 <= w,
                    0 <= y0 <= gy < y1,
                    y1 <= self.h,
                    gx <= x1 || x1 < x0,
                    reach == sight(s.kind),
                    reach > 0,
                    high == (g.tile(s.tx as int, s.ty as int) == T_HIGH),
                    elev == (if high {
                        1u8
                    } else {
                        0u8
                    }),
                    forall|v: int|
                        0 <= v < self.vis@.len() ==> #[trigger] self.vis@[v] == (if base <= v < base
                            + self.cells() && (y0 <= row(v - base, w) < gy || (row(v - base, w) == gy
                            && col(v - base, w) < gx)) && x0 <= col(v - base, w) < x1 && sees(
                            *g,
                            s,
                            (v - base) % w,
                            (v - base) / w,
                        ) {
                            VISIBLE
                        } else {
                            v0[v]
                        }),
                decreases x1 - gx,
            {
                let dx: i32 = gx - s.cx;
                let dy: i32 = gy - s.cy;
                assert(0 <= dx * dx <= 100 && 0 <= dy * dy <= 100) by (nonlinear_arith)
                    requires
                        -10 <= dx <= 10,
                        -10 <= dy <= 10,
                ;
                let d2: u32 = (dx * dx + dy * dy) as u32;
                assert(reach * reach <= 90_000 && (13 * reach) * (13 * reach) <= 15_210_000) by (
                nonlinear_arith)
                    requires
                        0 <= reach <= 300,
                ;
                let near: bool = if elev == 1 {
                    d2 * 160_000 <= (13 * reach) * (13 * reach)
                } else {
                    d2 * 1600 <= reach * reach
                };
                let lit: bool = near && (elev == 1 || d2 <= 2 || g.tile_at(
                    (2 * gx + 1) / 3,
                    (2 * gy + 1) / 3,
                ) != T_HIGH);
                proof {
                    lemma_index(w, self.h as int, gx as int, gy as int);
                    assert(lit == sees(*g, s, gx as int, gy as int));
                    assert forall|v: int| base <= v < base + self.cells() implies (#[trigger] row(v - base, w)
                        == gy && #[trigger] col(v - base, w) == gx) == (v == base + gy * w + gx) by {
                        lemma_cell(w, self.h as int, v - base);
                    }
                    assert(0 <= gy * w) by (nonlinear_arith)
                        requires
                            0 <= gy,
                            0 <= w,
                    ;
                    assert(gy * w + gx < self.cells());
                }
                if lit {
                    let at: usize = gy as usize * self.w + gx as usize;
                    let len: usize = self.vis.len();
                    assert(at == gy * w + gx);
                    assert(base + at < len);
                    self.vis[base + at] = VISIBLE;
                }
                gx = gx + 1;
            }
            gy = gy + 1;
        }
        proof {
            assert forall|v: int| 0 <= v < self.vis@.len() implies #[trigger] self.vis@[v] == (if base
                <= v < base + self.cells() && sees(*g, s, (v - base) % w, (v - base) / w) {
                VISIBLE
            } else {
                v0[v]
            }) by {
                if base <= v < base + self.cells() && sees(*g, s, (v - base) % w, (v - base) / w) {
                    assert(x0 <= col(v - base, w) < x1 && y0 <= row(v - base, w) < y1);
                }
            }
        }
    }

    /// Brings one faction's grid up to date with what its entities see.
    pub fn fog_pass(&mut self, team: Team, g: &Grid, srcs: &Vec<Spotter>)
        requires
            old(self).wf(),
            g.wf(),
            team.idx() < old(self).factions,
        ensures
            final(self).wf(),
            final(self).w == old(self).w,
            final(self).h == old(self).h,
            final(self).factions == old(self).factions,
            final(self).vis@.len() == old(self).vis@.len(),
            forall|v: int|
                0 <= v < final(self).vis@.len() ==> #[trigger] final(self).vis@[v] == passed_over(
                    old(self).vis@,
                    old(self).w as int,
                    old(self).h as int,
                    team.idx() as int,
                    *g,
                    srcs@,
                    v,
                ),
    {
        let ghost v0 = self.vis@;
        let ghost w = self.w as int;
        let idx: usize = team.idx();
        proof {
            let c = self.cells();
            let f = self.factions as int;
            assert(0 <= c) by (nonlinear_arith)
                requires
                    c == self.w * self.h,
            ;
            assert(idx * c + c <= c * f) by (nonlinear_arith)
                requires
                    0 <= idx < f,
                    0 <= c,
            ;
            assert(0 <= idx * c) by (nonlinear_arith)
                requires
                    0 <= idx,
                    0 <= c,
            ;
            assert(c * f <= c * 4) by (nonlinear_arith)
                requires
                    f <= 4,
                    0 <= c,
            ;
        }
        let cells: usize = self.w * self.h;
        let base: usize = idx * cells;
        for v in base..base + cells
            invariant
                self.wf(),
                w == self.w,
                self.w == old(self).w,
                self.h == old(self).h,
                self.factions == old(self).factions,
                cells == self.cells(),
                base + cells <= self.vis@.len(),
                self.vis@.len() == v0.len(),
                forall|u: int|
                    0 <= u < self.vis@.len() ==> #[trigger] self.vis@[u] == (if base <= u < v {
                        fog_next(v0[u], false)
                    } else {
                        v0[u]
                    }),
        {
            if self.vis[v] == VISIBLE {
                self.vis[v] = EXPLORED;
            }
        }
        let mut i: usize = 0;
        while i < srcs.len()
            invariant
                self.wf(),
                g.wf(),
                w == self.w,
                self.w == old(self).w,
                self.h == old(self).h,
                self.factions == old(self).factions,
                cells == self.cells(),
                base == idx * cells,
                base + cells <= self.vis@.len(),
                self.vis@.len() == v0.len(),
                i <= srcs@.len(),
                forall|u: int|
                    0 <= u < self.vis@.len() ==> #[trigger] self.vis@[u] == (if base <= u < base + cells {
                        fog_next(
                            v0[u],
                            seen(*g, srcs@.take(i as int), (u - base) % w, (u - base) / w),
                        )
                    } else {
                        v0[u]
                    }),
            decreases srcs@.len() - i,
        {
            let s = srcs[i];
            proof {
                assert forall|x: int, y: int| #[trigger]
                    seen(*g, srcs@.take(i + 1), x, y) == (seen(*g, srcs@.take(i as int), x, y) || sees(
                        *g,
                        s,
                        x,
                        y,
                    )) by {
                    lemma_seen_step(*g, srcs@, i as int, x, y);
                }
            }
            self.spot(base, g, s);
            i = i + 1;
        }
        proof {
            assert(srcs@.take(i as int) =~= srcs@);
        }
    }

    /// What a faction knows of a cell; nothing off the map, and nothing for those who
    /// are not playing.
    pub fn team_vis_at(&self, team: Team, gx: i32, gy: i32) -> (r: u8)
        requires
            self.wf(),
        ensures
            r == (if team.idx() < self.factions && 0 <= gx < self.w && 0 <= gy < self.h {
                self.at(team.idx() as int, gx as int, gy as int)
            } else {
                UNSEEN
            }),
    {
        let idx: usize = team.idx();
        if idx >= self.factions {
            return UNSEEN;
        }
        if gx < 0 || gy < 0 || gx as usize >= self.w || gy as usize >= self.h {
            return UNSEEN;
        }
        proof {
            let c = self.cells();
            let f = self.factions as int;
            lemma_index(self.w as int, self.h as int, gx as int, gy as int);
            assert(idx * c + c <= c * f && 0 <= idx * c) by (nonlinear_arith)
                requires
                    0 <= idx < f,
                    0 <= c,
            ;
            assert(c * f <= c * 4) by (nonlinear_arith)
                requires
                    f <= 4,
                    0 <= c,
            ;
            assert(0 <= gy * self.w) by (nonlinear_arith)
                requires
                    0 <= gy,
            ;
        }
        let cells: usize = self.w * self.h;
        self.vis[idx * cells + gy as usize * self.w + gx as usize]
    }
}

spec fn col(u: int, w: int) -> int {
    u % w
}

spec fn row(u: int, w: int) -> int {
    u / w
}

proof fn lemma_seen_step(g: Grid, srcs: Seq<Spotter>, i: int, x: int, y: int)
    requires
        0 <= i < srcs.len(),
    ensures
        seen(g, srcs.take(i + 1), x, y) == (seen(g, srcs.take(i), x, y) || sees(g, srcs[i], x, y)),
{
    let a = srcs.take(i);
    let b = srcs.take(i + 1);
    if seen(g, a, x, y) {
        let k = choose|k: int| 0 <= k < a.len() && #[trigger] sees(g, a[k], x, y);
        assert(sees(g, b[k], x, y));
    }
    if sees(g, srcs[i], x, y) {
        assert(sees(g, b[i], x, y));
    }
    if seen(g, b, x, y) {
        let k = choose|k: int| 0 <= k < b.len() && #[trigger] sees(g, b[k], x, y);
        if k < i {
            assert(sees(g, a[k], x, y));
        }
    }
}

/// Nothing is in range beyond ten cells.
proof fn lemma_in_range(s: Spotter, high: bool, x: int, y: int)
    requires
        in_range(s.kind, high, (x - s.cx) * (x - s.cx) + (y - s.cy) * (y - s.cy)),
    ensures
        s.cx - 10 <= x <= s.cx + 10,
        s.cy - 10 <= y <= s.cy + 10,
{
    let dx = x - s.cx;
    let dy = y - s.cy;
    let r = sight(s.kind) as int;
    assert(r * r <= 90_000 && (13 * r) * (13 * r) <= 15_210_000) by (nonlinear_arith)
        requires
            0 <= r <= 300,
    ;
    assert(dx * dx + dy * dy <= 100);
    assert(-10 <= dx <= 10 && -10 <= dy <= 10) by (nonlinear_arith)
        requires
            dx * dx + dy * dy <= 100,
    ;
}

proof fn lemma_index(w: int, h: int, x: int, y: int)
    requires
        0 <= x < w,
        0 <= y < h,
    ensures
        0 <= y * w + x < w * h,
        (y * w + x) % w == x,
        (y * w + x) / w == y,
{
    assert(0 <= y * w + x < w * h) by (nonlinear_arith)
        requires
            0 <= x < w,
            0 <= y < h,
    ;
    vstd::arithmetic::div_mod::lemma_fundamental_div_mod_converse(y * w + x, w, y, x);
}

proof fn lemma_cell(w: int, h: int, u: int)
    requires
        0 <= w,
        0 <= u < w * h,
    ensures
        0 < w,
        0 <= u % w < w,
        0 <= u / w < h,
        (u / w) * w + u % w == u,
{
    assert(0 < w) by (nonlinear_arith)
        requires
            0 <= w,
            0 < w * h,
    ;
    vstd::arithmetic::div_mod::lemma_fundamental_div_mod(u, w);
    assert(u / w * w == w * (u / w)) by (nonlinear_arith);
    assert(0 <= u / w < h) by (nonlinear_arith)
        requires
            0 <= u < w * h,
            0 < w,
    ;
}

// ---- what holds of sight ----------------------------------------------------------------------

/// Sight by the numbers: after a pass a cell is visible exactly if one of the faction's own is
/// near enough. A cell is 40 units wide. From below one sees as far as one's sight goes,
/// whichever way, but not up a plateau farther than the next cell; from a plateau one sees
/// three tenths farther, and everything.
pub proof fn sight_goes_by_distance(fog: Fog, f: int, g: Grid, srcs: Seq<Spotter>, x: int, y: int)
    requires
        fog.wf(),
        0 <= f < fog.factions,
        0 <= x < fog.w,
        0 <= y < fog.h,
    ensures
        passed_over(
            fog.vis@,
            fog.w as int,
            fog.h as int,
            f,
            g,
            srcs,
            f * (fog.w * fog.h) + y * fog.w + x,
        ) == VISIBLE <==> exists|i: int|
            0 <= i < srcs.len() && ({
                let s = #[trigger] srcs[i];
                let d2 = (x - s.cx) * (x - s.cx) + (y - s.cy) * (y - s.cy);
                let r = sight(s.kind);
                if g.tile(s.tx as int, s.ty as int) == T_HIGH {
                    r > 0 && d2 * 160_000 <= 169 * (r * r)
                } else {
                    r > 0 && d2 * 1600 <= r * r && (d2 <= 2 || g.tile((2 * x + 1) / 3, (2 * y + 1) / 3) != T_HIGH)
                }
            }),
{
    a_pass_shows_what_is_seen(fog, f, g, srcs, x, y);
    let v = f * (fog.w * fog.h) + y * fog.w + x;
    let now = passed_over(fog.vis@, fog.w as int, fog.h as int, f, g, srcs, v);
    if now == VISIBLE {
        let i = choose|i: int| 0 <= i < srcs.len() && #[trigger] sees(g, srcs[i], x, y);
        lemma_thirteen_tenths(sight(srcs[i].kind) as int);
        assert(sees(g, srcs[i], x, y));
    }
    if exists|i: int|
        0 <= i < srcs.len() && ({
            let s = #[trigger] srcs[i];
            let d2 = (x - s.cx) * (x - s.cx) + (y - s.cy) * (y - s.cy);
            let r = sight(s.kind);
            if g.tile(s.tx as int, s.ty as int) == T_HIGH {
                r > 0 && d2 * 160_000 <= 169 * (r * r)
            } else {
                r > 0 && d2 * 1600 <= r * r && (d2 <= 2 || g.tile((2 * x + 1) / 3, (2 * y + 1) / 3) != T_HIGH)
            }
        }) {
        let i = choose|i: int|
            0 <= i < srcs.len() && ({
                let s = #[trigger] srcs[i];
                let d2 = (x - s.cx) * (x - s.cx) + (y - s.cy) * (y - s.cy);
                let r = sight(s.kind);
                if g.tile(s.tx as int, s.ty as int) == T_HIGH {
                    r > 0 && d2 * 160_000 <= 169 * (r * r)
                } else {
                    r > 0 && d2 * 1600 <= r * r && (d2 <= 2 || g.tile((2 * x + 1) / 3, (2 * y + 1) / 3) != T_HIGH)
                }
            });
        lemma_thirteen_tenths(sight(srcs[i].kind) as int);
        assert(sees(g, srcs[i], x, y));
    }
}

proof fn lemma_thirteen_tenths(r: int)
    ensures
        (13 * r) * (13 * r) == 169 * (r * r),
{
    assert((13 * r) * (13 * r) == 169 * (r * r)) by (nonlinear_arith);
}

/// Where there are no plateaus one sees a full disc round oneself, the same on all sides, and
/// nothing outside it.
pub proof fn on_the_plain_sight_is_a_disc(fog: Fog, f: int, g: Grid, srcs: Seq<Spotter>, x: int, y: int)
    requires
        fog.wf(),
        0 <= f < fog.factions,
        0 <= x < fog.w,
        0 <= y < fog.h,
        forall|a: int, b: int| #[trigger] g.tile(a, b) != T_HIGH,
    ensures
        passed_over(
            fog.vis@,
            fog.w as int,
            fog.h as int,
            f,
            g,
            srcs,
            f * (fog.w * fog.h) + y * fog.w + x,
        ) == VISIBLE <==> exists|i: int|
            0 <= i < srcs.len() && sight((#[trigger] srcs[i]).kind) > 0 && ((x - srcs[i].cx) * (x - srcs[i].cx) + (y
                - srcs[i].cy) * (y - srcs[i].cy)) * 1600 <= sight(srcs[i].kind) * sight(srcs[i].kind),
{
    sight_goes_by_distance(fog, f, g, srcs, x, y);
}

/// More eyes never see less.
pub proof fn more_eyes_see_no_less(g: Grid, few: Seq<Spotter>, more: Seq<Spotter>, x: int, y: int)
    requires
        forall|i: int| 0 <= i < few.len() ==> more.contains(#[trigger] few[i]),
        seen(g, few, x, y),
    ensures
        seen(g, more, x, y),
{
    let i = choose|i: int| 0 <= i < few.len() && #[trigger] sees(g, few[i], x, y);
    assert(more.contains(few[i]));
    let j = choose|j: int| 0 <= j < more.len() && more[j] == few[i];
    assert(sees(g, more[j], x, y));
}

/// What a cell was decides only what is remembered of it: out of sight, a cell once seen is
/// explored, and one never seen is not.
pub proof fn memory_is_of_what_was_seen(was: u8)
    requires
        was <= VISIBLE,
    ensures
        fog_next(was, true) == VISIBLE,
        fog_next(was, false) == UNSEEN <==> was == UNSEEN,
        fog_next(was, false) == EXPLORED <==> was == EXPLORED || was == VISIBLE,
{
}

/// Every faction's cells lie row by row in a grid of its own, and no two share a place.
pub proof fn every_cell_has_its_place(fog: Fog, f: int, x: int, y: int, g: int, a: int, b: int)
    requires
        0 <= x < fog.w,
        0 <= y < fog.h,
        0 <= a < fog.w,
        0 <= b < fog.h,
    ensures
        fog.at(f, x, y) == fog.vis@[f * (fog.w * fog.h) + y * fog.w + x],
        f * (fog.w * fog.h) + y * fog.w + x == g * (fog.w * fog.h) + b * fog.w + a ==> f == g && x == a && y == b,
{
    let (w, h) = (fog.w as int, fog.h as int);
    let u = y * w + x;
    let v = b * w + a;
    assert(0 <= u < w * h && 0 <= v < w * h) by (nonlinear_arith)
        requires
            0 <= x < w,
            0 <= y < h,
            0 <= a < w,
            0 <= b < h,
            u == y * w + x,
            v == b * w + a,
    ;
    if f * (w * h) + u == g * (w * h) + v {
        let n = w * h;
        assert(f == g) by (nonlinear_arith)
            requires
                f * n + u == g * n + v,
                0 <= u < n,
                0 <= v < n,
        ;
        assert(y == b) by (nonlinear_arith)
            requires
                y * w + x == b * w + a,
                0 <= x < w,
                0 <= a < w,
        ;
    }
}

} // verus!
