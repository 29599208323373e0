//! The battlefield: point-symmetric plateaus of high ground ringed by cliffs, each
//! with a ramp; open ground around bases and mineral patches; and a corridor cut
//! wherever a base would otherwise be walled off from the first one.

use vstd::prelude::*;
use crate::path::{
    abs, connected_is_symmetric, connected_is_transitive, Grid, Lattice, MAX_TILES, T_CLIFF, T_HIGH, T_OPEN, T_RAMP,
};

verus! {

/// Bound on tile coordinates and sizes handed to the generator.
pub const COORD_MAX: i32 = 100_000_000;

/// Squared clearance around a base, in units of a sixtieth of a tile.
pub const BASE_CLEAR_SQ: i64 = 44_100;

/// Squared clearance around a mineral patch, in units of a sixtieth of a tile.
pub const PATCH_CLEAR_SQ: i64 = 9_025;

/// A plateau: its centre tile, how far it extends from it along x and along y, and
/// the side its ramp is on (below, above, right, left; only the last two bits count).
#[derive(Clone, Copy, PartialEq, Eq, Structural, Debug)]
pub struct Plateau {
    pub cx: i32,
    pub cy: i32,
    pub hw: i32,
    pub hh: i32,
    pub side: i32,
}

impl Plateau {
    pub open spec fn bounded(self) -> bool {
        &&& -COORD_MAX <= self.cx <= COORD_MAX
        &&& -COORD_MAX <= self.cy <= COORD_MAX
        &&& -COORD_MAX <= self.hw <= COORD_MAX
        &&& -COORD_MAX <= self.hh <= COORD_MAX
    }

    /// Whether the plateau centred on `(mx, my)` covers `(x, y)`.
    pub open spec fn covers_from(self, mx: int, my: int, x: int, y: int) -> bool {
        my - self.hh <= y <= my + self.hh && mx - self.hw <= x <= mx + self.hw
    }

    /// Whether the plateau or its mirror image covers `(x, y)`.
    pub open spec fn covers(self, tw: int, th: int, x: int, y: int) -> bool {
        self.covers_from(self.cx as int, self.cy as int, x, y) || self.covers_from(
            tw - 1 - self.cx,
            th - 1 - self.cy,
            x,
            y,
        )
    }

    /// Whether the plateau centred on `(mx, my)` has its ramp at `(x, y)`.
    pub open spec fn ramps_from(self, mx: int, my: int, x: int, y: int) -> bool {
        let side = self.side % 4;
        if side == 0 {
            x == mx && y == my + self.hh + 1
        } else if side == 1 {
            x == mx && y == my - self.hh - 1
        } else if side == 2 {
            x == mx + self.hw + 1 && y == my
        } else {
            x == mx - self.hw - 1 && y == my
        }
    }

    /// Whether the plateau or its mirror image has its ramp at `(x, y)`.
    pub open spec fn ramps(self, tw: int, th: int, x: int, y: int) -> bool {
        self.ramps_from(self.cx as int, self.cy as int, x, y) || self.ramps_from(
            tw - 1 - self.cx,
            th - 1 - self.cy,
            x,
            y,
        )
    }
}

/// What the terrain is made from.
pub struct Layout {
    pub plateaus: Vec<Plateau>,
    /// Tiles that bases stand on.
    pub bases: Vec<(i32, i32)>,
    /// Tiles that mineral patches stand on.
    pub patches: Vec<(i32, i32)>,
}

pub open spec fn bounded_tiles(s: Seq<(i32, i32)>) -> bool {
    forall|i: int|
        0 <= i < s.len() ==> -COORD_MAX <= (#[trigger] s[i]).0 <= COORD_MAX && -COORD_MAX <= s[i].1
            <= COORD_MAX
}

/// Whether one of the tiles is within a clearance of `(x, y)`.
pub open spec fn near(s: Seq<(i32, i32)>, clear_sq: int, x: int, y: int) -> bool {
    exists|i: int| 0 <= i < s.len() && #[trigger] within(s[i], clear_sq, x, y)
}

/// Whether a tile is within a clearance of `(x, y)`.
pub open spec fn within(t: (i32, i32), clear_sq: int, x: int, y: int) -> bool {
    3600 * ((x - t.0) * (x - t.0) + (y - t.1) * (y - t.1)) <= clear_sq
}

impl Layout {
    pub open spec fn wf(&self) -> bool {
        &&& forall|i: int| 0 <= i < self.plateaus@.len() ==> (#[trigger] self.plateaus@[i]).bounded()
        &&& bounded_tiles(self.bases@)
        &&& bounded_tiles(self.patches@)
    }

    /// Whether `(x, y)` is high ground before anything is cut out of it.
    pub open spec fn high(&self, tw: int, th: int, x: int, y: int) -> bool {
        &&& 0 <= x < tw
        &&& 0 <= y < th
        &&& exists|i: int|
            0 <= i < self.plateaus@.len() && (#[trigger] self.plateaus@[i]).covers(tw, th, x, y)
    }

    /// Whether `(x, y)` is a ramp.
    pub open spec fn ramp(&self, tw: int, th: int, x: int, y: int) -> bool {
        exists|i: int|
            0 <= i < self.plateaus@.len() && (#[trigger] self.plateaus@[i]).ramps(tw, th, x, y)
    }

    /// Whether `(x, y)` touches high ground on one of its four sides.
    pub open spec fn ringed(&self, tw: int, th: int, x: int, y: int) -> bool {
        ||| self.high(tw, th, x + 1, y)
        ||| self.high(tw, th, x - 1, y)
        ||| self.high(tw, th, x, y + 1)
        ||| self.high(tw, th, x, y - 1)
    }

    /// Terrain code of `(x, y)` before corridors are cut.
    pub open spec fn code(&self, tw: int, th: int, x: int, y: int) -> u8 {
        if near(self.bases@, BASE_CLEAR_SQ as int, x, y) || near(
            self.patches@,
            PATCH_CLEAR_SQ as int,
            x,
            y,
        ) {
            T_OPEN
        } else if self.ramp(tw, th, x, y) {
            T_RAMP
        } else if self.high(tw, th, x, y) {
            T_HIGH
        } else if self.ringed(tw, th, x, y) {
            T_CLIFF
        } else {
            T_OPEN
        }
    }

    /// The terrain of a whole map before corridors are cut.
    pub open spec fn map(&self, tw: int, th: int) -> Seq<u8> {
        Seq::new((tw * th) as nat, |v: int| self.code(tw, th, v % tw, v / tw))
    }

    fn high_at(&self, tw: i32, th: i32, x: i32, y: i32) -> (r: bool)
        requires
            self.wf(),
            0 <= tw <= COORD_MAX,
            0 <= th <= COORD_MAX,
            -1 <= x <= tw,
            -1 <= y <= th,
        ensures
            r == self.high(tw as int, th as int, x as int, y as int),
    {
        if x < 0 || y < 0 || x >= tw || y >= th {
            return false;
        }
        let mut i: usize = 0;
        while i < self.plateaus.len()
            invariant
                self.wf(),
                0 <= tw <= COORD_MAX,
                0 <= th <= COORD_MAX,
                0 <= x < tw,
                0 <= y < th,
                i <= self.plateaus@.len(),
                forall|j: int|
                    0 <= j < i ==> !(#[trigger] self.plateaus@[j]).covers(
                        tw as int,
                        th as int,
                        x as int,
                        y as int,
                    ),
            decreases self.plateaus@.len() - i,
        {
            let p = self.plateaus[i];
            assert(self.plateaus@[i as int].bounded());
            let mx: i32 = tw - 1 - p.cx;
            let my: i32 = th - 1 - p.cy;
            let here: bool = p.cy - p.hh <= y && y <= p.cy + p.hh && p.cx - p.hw <= x && x <= p.cx + p.hw;
            let there: bool = my - p.hh <= y && y <= my + p.hh && mx - p.hw <= x && x <= mx + p.hw;
            if here || there {
                assert(self.plateaus@[i as int].covers(tw as int, th as int, x as int, y as int));
                return true;
            }
            i = i + 1;
        }
        false
    }

    fn ramp_at(&self, tw: i32, th: i32, x: i32, y: i32) -> (r: bool)
        requires
            self.wf(),
            0 <= tw <= COORD_MAX,
            0 <= th <= COORD_MAX,
        ensures
            r == self.ramp(tw as int, th as int, x as int, y as int),
    {
        let mut i: usize = 0;
        while i < self.plateaus.len()
            invariant
                self.wf(),
                0 <= tw <= COORD_MAX,
                0 <= th <= COORD_MAX,
                i <= self.plateaus@.len(),
                forall|j: int|
                    0 <= j < i ==> !(#[trigger] self.plateaus@[j]).ramps(
                        tw as int,
                        th as int,
                        x as int,
                        y as int,
                    ),
            decreases self.plateaus@.len() - i,
        {
            let p = self.plateaus[i];
            assert(self.plateaus@[i as int].bounded());
            let mx: i32 = tw - 1 - p.cx;
            let my: i32 = th - 1 - p.cy;
            let side: i32 = p.side & 3;
            proof {
                let s = p.side;
                assert(0 <= (s & 3) < 4) by (bit_vector);
                lemma_low_bits(s);
            }
            let ((ax, ay), (bx, by)) = if side == 0 {
                ((p.cx, p.cy + p.hh + 1), (mx, my + p.hh + 1))
            } else if side == 1 {
                ((p.cx, p.cy - p.hh - 1), (mx, my - p.hh - 1))
            } else if side == 2 {
                ((p.cx + p.hw + 1, p.cy), (mx + p.hw + 1, my))
            } else {
                ((p.cx - p.hw - 1, p.cy), (mx - p.hw - 1, my))
            };
            if (x == ax && y == ay) || (x == bx && y == by) {
                assert(self.plateaus@[i as int].ramps(tw as int, th as int, x as int, y as int));
                return true;
            }
            i = i + 1;
        }
        false
    }

    fn code_at(&self, tw: i32, th: i32, x: i32, y: i32) -> (r: u8)
        requires
            self.wf(),
            0 <= tw <= COORD_MAX,
            0 <= th <= COORD_MAX,
            0 <= x < tw,
            0 <= y < th,
        ensures
            r == self.code(tw as int, th as int, x as int, y as int),
    {
        if near_at(&self.bases, BASE_CLEAR_SQ, x, y) || near_at(&self.patches, PATCH_CLEAR_SQ, x, y) {
            T_OPEN
        } else if self.ramp_at(tw, th, x, y) {
            T_RAMP
        } else if self.high_at(tw, th, x, y) {
            T_HIGH
        } else if self.high_at(tw, th, x + 1, y) || self.high_at(tw, th, x - 1, y) || self.high_at(
            tw,
            th,
            x,
            y + 1,
        ) || self.high_at(tw, th, x, y - 1) {
            T_CLIFF
        } else {
            T_OPEN
        }
    }
}

proof fn lemma_low_bits(s: i32)
    ensures
        (s & 3) == s % 4,
{
    if s >= 0 {
        let u = s as u32;
        assert(u & 3 == u % 4) by (bit_vector);
        assert(s & 3 == u & 3) by (bit_vector)
            requires
                s >= 0,
                u == s as u32,
        ;
    } else {
        let u = s as u32;
        assert(u & 3 == u % 4) by (bit_vector);
        assert((s & 3) as u32 == u & 3) by (bit_vector)
            requires
                u == s as u32,
        ;
        assert(0 <= (s & 3) < 4) by (bit_vector);
        assert(u == s + 0x1_0000_0000) by (bit_vector)
            requires
                u == s as u32,
                s < 0,
        ;
        assert((s + 0x1_0000_0000) % 4 == s % 4);
    }
}

fn near_at(s: &Vec<(i32, i32)>, clear_sq: i64, x: i32, y: i32) -> (r: bool)
    requires
        bounded_tiles(s@),
        -COORD_MAX <= x <= COORD_MAX,
        -COORD_MAX <= y <= COORD_MAX,
    ensures
        r == near(s@, clear_sq as int, x as int, y as int),
{
    let mut i: usize = 0;
    while i < s.len()
        invariant
            bounded_tiles(s@),
            -COORD_MAX <= x <= COORD_MAX,
            -COORD_MAX <= y <= COORD_MAX,
            i <= s@.len(),
            forall|j: int| 0 <= j < i ==> !#[trigger] within(s@[j], clear_sq as int, x as int, y as int),
        decreases s@.len() - i,
    {
        let t = s[i];
        assert(-COORD_MAX <= s@[i as int].0 <= COORD_MAX);
        let dx: i128 = x as i128 - t.0 as i128;
        let dy: i128 = y as i128 - t.1 as i128;
        assert(0 <= dx * dx <= 40_000_000_000_000_000 && 0 <= dy * dy <= 40_000_000_000_000_000)
            by (nonlinear_arith)
            requires
                -200_000_000 <= dx <= 200_000_000,
                -200_000_000 <= dy <= 200_000_000,
        ;
        if 3600 * (dx * dx + dy * dy) <= clear_sq as i128 {
            assert(within(s@[i as int], clear_sq as int, x as int, y as int));
            return true;
        }
        i = i + 1;
    }
    false
}

/// Whether `(x, y)` is one of the tiles, or next to one.
pub open spec fn beside(tiles: Seq<(i32, i32)>, x: int, y: int) -> bool {
    exists|i: int| 0 <= i < tiles.len() && #[trigger] touches(tiles[i], x, y)
}

/// Whether two tiles are the same, or share a side or a corner.
pub open spec fn touches(t: (i32, i32), x: int, y: int) -> bool {
    abs(x - t.0) <= 1 && abs(y - t.1) <= 1
}

/// Terrain with every cliff opened along a line of tiles and to its sides.
pub open spec fn carved(t: Seq<u8>, tw: int, tiles: Seq<(i32, i32)>) -> Seq<u8> {
    Seq::new(
        t.len(),
        |v: int|
            if t[v] == T_CLIFF && beside(tiles, v % tw, v / tw) {
                T_OPEN
            } else {
                t[v]
            },
    )
}

/// What the searches see of some terrain on which nothing stands.
pub open spec fn bare(t: Seq<u8>, tw: int, th: int) -> Lattice {
    Lattice { tw, th, free: Seq::new((tw * th) as nat, |v: int| t[v] != T_CLIFF) }
}

/// Index of a tile.
pub open spec fn tile_index(tw: int, t: (i32, i32)) -> int {
    t.1 * tw + t.0
}

/// Terrain after the first `k` bases have been joined to the first one: where no
/// way leads there yet, the line of tiles to it is cut open.
pub open spec fn joined(
    t: Seq<u8>,
    tw: int,
    th: int,
    hubs: Seq<(i32, i32)>,
    lines: Seq<Seq<(i32, i32)>>,
    k: int,
) -> Seq<u8>
    decreases k,
{
    if k <= 1 {
        t
    } else {
        let before = joined(t, tw, th, hubs, lines, k - 1);
        if bare(before, tw, th).connected(tile_index(tw, hubs[0]), tile_index(tw, hubs[k - 1])) {
            before
        } else {
            carved(before, tw, lines[k - 1])
        }
    }
}

/// Whether a line of tiles goes from `a` to `b` on the map without skipping a tile.
pub open spec fn is_line(tw: int, th: int, tiles: Seq<(i32, i32)>, a: (i32, i32), b: (i32, i32)) -> bool {
    &&& tiles.len() > 0
    &&& tiles[0] == a
    &&& tiles.last() == b
    &&& forall|i: int|
        0 <= i < tiles.len() ==> 0 <= (#[trigger] tiles[i]).0 < tw && 0 <= tiles[i].1 < th
    &&& forall|i: int, j: int|
        0 <= i && j == i + 1 && j < tiles.len() ==> #[trigger] touches(
            tiles[i],
            (#[trigger] tiles[j]).0 as int,
            tiles[j].1 as int,
        )
}

proof fn lemma_tile(tw: int, th: int, x: int, y: int)
    requires
        0 <= x < tw,
        0 <= y < th,
    ensures
        0 <= y * tw + x < tw * th,
        (y * tw + x) % tw == x,
        (y * tw + x) / tw == y,
{
    assert(0 <= y * tw + x < tw * th) by (nonlinear_arith)
        requires
            0 <= x < tw,
            0 <= y < th,
    ;
    vstd::arithmetic::div_mod::lemma_fundamental_div_mod_converse(y * tw + x, tw, y, x);
}

proof fn lemma_back(tw: int, th: int, v: int)
    requires
        0 < tw,
        0 <= v < tw * th,
    ensures
        0 <= v % tw < tw,
        0 <= v / tw < th,
        (v / tw) * tw + v % tw == v,
{
    vstd::arithmetic::div_mod::lemma_fundamental_div_mod(v, tw);
    assert(v / tw * tw == tw * (v / tw)) by (nonlinear_arith);
    assert(0 <= v / tw < th) by (nonlinear_arith)
        requires
            0 <= v < tw * th,
            0 < tw,
    ;
}

/// A cut line joins its two ends.
pub proof fn carving_connects(
    t: Seq<u8>,
    tw: int,
    th: int,
    tiles: Seq<(i32, i32)>,
    a: (i32, i32),
    b: (i32, i32),
)
    requires
        0 < tw,
        0 < th,
        t.len() == tw * th,
        is_line(tw, th, tiles, a, b),
    ensures
        bare(carved(t, tw, tiles), tw, th).connected(tile_index(tw, a), tile_index(tw, b)),
    decreases tiles.len(),
{
    let g = bare(carved(t, tw, tiles), tw, th);
    lemma_line_connects(t, tw, th, tiles, tiles.len() - 1);
}

proof fn lemma_line_connects(t: Seq<u8>, tw: int, th: int, tiles: Seq<(i32, i32)>, k: int)
    requires
        0 < tw,
        0 < th,
        t.len() == tw * th,
        0 <= k < tiles.len(),
        is_line(tw, th, tiles, tiles[0], tiles.last()),
    ensures
        bare(carved(t, tw, tiles), tw, th).connected(
            tile_index(tw, tiles[0]),
            tile_index(tw, tiles[k]),
        ),
    decreases k,
{
    let g = bare(carved(t, tw, tiles), tw, th);
    let s = tile_index(tw, tiles[0]);
    lemma_tile(tw, th, tiles[0].0 as int, tiles[0].1 as int);
    if k == 0 {
        assert(g.is_route(seq![s], s, s));
    } else {
        lemma_line_connects(t, tw, th, tiles, k - 1);
        let u = tile_index(tw, tiles[k - 1]);
        let v = tile_index(tw, tiles[k]);
        let (ux, uy) = (tiles[k - 1].0 as int, tiles[k - 1].1 as int);
        let (vx, vy) = (tiles[k].0 as int, tiles[k].1 as int);
        lemma_tile(tw, th, ux, uy);
        lemma_tile(tw, th, vx, vy);
        lemma_tile(tw, th, vx, uy);
        lemma_tile(tw, th, ux, vy);
        assert(touches(tiles[k - 1], vx, vy));
        if u != v {
            assert(touches(tiles[k - 1], vx, uy));
            assert(touches(tiles[k - 1], ux, vy));
            assert(g.free[v]);
            assert(g.free[uy * tw + vx]);
            assert(g.free[vy * tw + ux]);
            assert(g.step(u, v));
            let p = seq![u, v];
            assert(g.is_route(p, u, v));
            connected_is_transitive(g, s, u, v);
        }
    }
}

/// Opening cliffs never cuts a way.
pub proof fn carving_keeps_ways(t: Seq<u8>, tw: int, th: int, tiles: Seq<(i32, i32)>, a: int, b: int)
    requires
        t.len() == tw * th,
        bare(t, tw, th).connected(a, b),
    ensures
        bare(carved(t, tw, tiles), tw, th).connected(a, b),
{
    let g = bare(t, tw, th);
    let g2 = bare(carved(t, tw, tiles), tw, th);
    let p = choose|p: Seq<int>| g.is_route(p, a, b);
    assert forall|i: int, j: int| 0 <= i && j == i + 1 && j < p.len() implies #[trigger] g2.step(
        p[i],
        #[trigger] p[j],
    ) by {
        assert(g.step(p[i], p[j]));
        let u = p[i];
        let v = p[j];
        assert(g2.free[v]);
        if g.x(u) != g.x(v) && g.y(u) != g.y(v) {
            assert(g.passable(g.x(v), g.y(u)));
            assert(g.passable(g.x(u), g.y(v)));
            lemma_tile(tw, th, g.x(v), g.y(u));
            lemma_tile(tw, th, g.x(u), g.y(v));
        }
    }
    assert(g2.is_route(p, a, b));
}

proof fn lemma_joined_len(
    t: Seq<u8>,
    tw: int,
    th: int,
    hubs: Seq<(i32, i32)>,
    lines: Seq<Seq<(i32, i32)>>,
    k: int,
)
    ensures
        joined(t, tw, th, hubs, lines, k).len() == t.len(),
    decreases k,
{
    if k > 1 {
        lemma_joined_len(t, tw, th, hubs, lines, k - 1);
    }
}

/// Every base that a line of tiles leads to can be reached from the first base,
/// whatever the plateaus.
pub proof fn bases_are_connected(
    t: Seq<u8>,
    tw: int,
    th: int,
    hubs: Seq<(i32, i32)>,
    lines: Seq<Seq<(i32, i32)>>,
    i: int,
    k: int,
)
    requires
        0 < tw,
        0 < th,
        t.len() == tw * th,
        1 <= i < k <= hubs.len(),
        lines.len() == hubs.len(),
        is_line(tw, th, lines[i], hubs[0], hubs[i]),
    ensures
        bare(joined(t, tw, th, hubs, lines, k), tw, th).connected(
            tile_index(tw, hubs[0]),
            tile_index(tw, hubs[i]),
        ),
    decreases k,
{
    let before = joined(t, tw, th, hubs, lines, k - 1);
    lemma_joined_len(t, tw, th, hubs, lines, k - 1);
    let a = tile_index(tw, hubs[0]);
    let b = tile_index(tw, hubs[i]);
    if i < k - 1 {
        bases_are_connected(t, tw, th, hubs, lines, i, k - 1);
        carving_keeps_ways(before, tw, th, lines[k - 1], a, b);
    } else {
        carving_connects(before, tw, th, lines[i], hubs[0], hubs[i]);
    }
}

/// The plateaus are point-symmetric: turning the map by half a turn maps high
/// ground to high ground.
pub proof fn plateaus_are_symmetric(l: Layout, tw: int, th: int, x: int, y: int)
    requires
        l.high(tw, th, x, y),
    ensures
        l.high(tw, th, tw - 1 - x, th - 1 - y),
{
    let i = choose|i: int|
        0 <= i < l.plateaus@.len() && (#[trigger] l.plateaus@[i]).covers(tw, th, x, y);
    assert(l.plateaus@[i].covers(tw, th, tw - 1 - x, th - 1 - y));
}

/// Bases and patches always stand on open ground.
pub proof fn bases_stand_on_open_ground(l: Layout, tw: int, th: int, i: int, j: int)
    requires
        0 <= i < l.bases@.len(),
        0 <= j < l.patches@.len(),
    ensures
        l.code(tw, th, l.bases@[i].0 as int, l.bases@[i].1 as int) == T_OPEN,
        l.code(tw, th, l.patches@[j].0 as int, l.patches@[j].1 as int) == T_OPEN,
{
    assert(within(l.bases@[i], BASE_CLEAR_SQ as int, l.bases@[i].0 as int, l.bases@[i].1 as int));
    assert(within(
        l.patches@[j],
        PATCH_CLEAR_SQ as int,
        l.patches@[j].0 as int,
        l.patches@[j].1 as int,
    ));
}

impl Grid {
    /// Opens every cliff along a line of tiles and to its immediate sides.
    pub fn carve_corridor(&mut self, tiles: &Vec<(i32, i32)>)
        requires
            old(self).wf(),
            bounded_tiles(tiles@),
        ensures
            final(self).wf(),
            final(self).tw == old(self).tw,
            final(self).th == old(self).th,
            final(self).block@ == old(self).block@,
            final(self).terrain@ == carved(old(self).terrain@, old(self).tw as int, tiles@),
    {
        let ghost t0 = self.terrain@;
        let ghost tw = self.tw as int;
        let n: usize = self.terrain.len();
        for v in 0..n
            invariant
                n == t0.len(),
                n == tw * self.th,
                n <= MAX_TILES,
                tw == self.tw,
                tw > 0,
                self.tw == old(self).tw,
                self.th == old(self).th,
                self.block@ == old(self).block@,
                self.terrain@.len() == n,
                bounded_tiles(tiles@),
                forall|w: int| v <= w < n ==> self.terrain@[w] == t0[w],
                forall|w: int| 0 <= w < v ==> #[trigger] self.terrain@[w] == carved(t0, tw, tiles@)[w],
        {
            if self.terrain[v] == T_CLIFF {
                proof {
                    lemma_back(tw, self.th as int, v as int);
                    assert(tw <= n && self.th <= n) by (nonlinear_arith)
                        requires
                            n == tw * self.th,
                            tw > 0,
                            self.th > 0,
                            n > 0,
                    ;
                }
                if beside_at(tiles, (v % self.tw) as i32, (v / self.tw) as i32) {
                    self.terrain[v] = T_OPEN;
                }
            }
        }
        proof {
            assert(self.terrain@ =~= carved(t0, tw, tiles@));
        }
    }

    /// Generates the terrain on a map on which nothing stands yet: plateaus, ramps
    /// and clearings, then a corridor to every later base that the first one cannot
    /// reach. `lines` holds the tiles on the straight line from the first base to
    /// each base. Returns whether any cliff is left.
    pub fn gen_terrain(
        &mut self,
        layout: &Layout,
        hubs: &Vec<(i32, i32)>,
        lines: &Vec<Vec<(i32, i32)>>,
    ) -> (has_cliffs: bool)
        requires
            old(self).wf(),
            forall|v: int| 0 <= v < old(self).block@.len() ==> old(self).block@[v] == 0,
            layout.wf(),
            lines@.len() == hubs@.len(),
            forall|i: int| 0 <= i < lines@.len() ==> bounded_tiles((#[trigger] lines@[i])@),
            forall|i: int|
                0 <= i < hubs@.len() ==> 0 <= (#[trigger] hubs@[i]).0 < old(self).tw && 0 <= hubs@[i].1
                    < old(self).th && layout.bases@.contains(hubs@[i]),
        ensures
            final(self).wf(),
            final(self).tw == old(self).tw,
            final(self).th == old(self).th,
            final(self).block@ == old(self).block@,
            final(self).terrain@ == joined(
                layout.map(old(self).tw as int, old(self).th as int),
                old(self).tw as int,
                old(self).th as int,
                hubs@,
                lines@.map_values(|l: Vec<(i32, i32)>| l@),
                hubs@.len() as int,
            ),
            has_cliffs == exists|v: int|
                0 <= v < final(self).terrain@.len() && final(self).terrain@[v] == T_CLIFF,
            keeps_clear(*layout, old(self).tw as int, old(self).th as int, final(self).terrain@),
            gapless(
                old(self).tw as int,
                old(self).th as int,
                hubs@,
                lines@.map_values(|l: Vec<(i32, i32)>| l@),
            ) ==> playable(final(self).terrain@, old(self).tw as int, old(self).th as int, hubs@),
    {
        let ghost tw = self.tw as int;
        let ghost th = self.th as int;
        let ghost block0 = self.block@;
        proof {
            assert(tw <= tw * th && th <= tw * th) by (nonlinear_arith)
                requires
                    tw > 0,
                    th > 0,
            ;
        }
        let n: usize = self.terrain.len();
        let mut t: Vec<u8> = Vec::new();
        for v in 0..n
            invariant
                self.wf(),
                tw == self.tw,
                th == self.th,
                n == tw * th,
                tw <= n,
                th <= n,
                layout.wf(),
                t@.len() == v,
                forall|w: int| 0 <= w < v ==> #[trigger] t@[w] == layout.map(tw, th)[w],
        {
            proof {
                lemma_back(tw, th, v as int);
            }
            let c: u8 = layout.code_at(
                self.tw as i32,
                self.th as i32,
                (v % self.tw) as i32,
                (v / self.tw) as i32,
            );
            t.push(c);
        }
        self.terrain = t;
        let ghost t0 = layout.map(tw, th);
        let ghost ls = lines@.map_values(|l: Vec<(i32, i32)>| l@);
        let m: usize = hubs.len();
        proof {
            assert(self.terrain@ =~= t0);
            assert(self.terrain@ == joined(t0, tw, th, hubs@, ls, 1));
            assert(joined(t0, tw, th, hubs@, ls, 0) == joined(t0, tw, th, hubs@, ls, 1));
        }
        let mut k: usize = 1;
        while k < m
            invariant
                self.wf(),
                tw == self.tw,
                th == self.th,
                self.block@ == block0,
                forall|v: int| 0 <= v < block0.len() ==> block0[v] == 0,
                m == hubs@.len(),
                lines@.len() == m,
                ls == lines@.map_values(|l: Vec<(i32, i32)>| l@),
                forall|i: int| 0 <= i < lines@.len() ==> bounded_tiles((#[trigger] lines@[i])@),
                forall|i: int|
                    0 <= i < m ==> 0 <= (#[trigger] hubs@[i]).0 < tw && 0 <= hubs@[i].1 < th
                        && layout.bases@.contains(hubs@[i]),
                t0 == layout.map(tw, th),
                1 <= k,
                k <= m || (m == 0 && k == 1),
                self.terrain@ == joined(t0, tw, th, hubs@, ls, k as int),
                self.tw == old(self).tw,
                self.th == old(self).th,
            decreases m - k,
        {
            let hub = hubs[0];
            let base = hubs[k];
            let ghost before = self.terrain@;
            let ghost g = bare(before, tw, th);
            proof {
                assert(0 <= hubs@[0].0 < tw);
                assert(0 <= hubs@[k as int].0 < tw);
                assert(tw <= tw * th && th <= tw * th) by (nonlinear_arith)
                    requires
                        tw > 0,
                        th > 0,
                ;
                assert(self@ =~= g);
                lemma_hub_is_open(*layout, tw, th, hubs@, ls, k as int, 0);
                lemma_hub_is_open(*layout, tw, th, hubs@, ls, k as int, k as int);
                lemma_nearest_self(g, hub.0 as int, hub.1 as int);
                lemma_nearest_self(g, base.0 as int, base.1 as int);
                assert(ls[k as int] == lines@[k as int]@);
            }
            let way = self.find_path(hub, base);
            proof {
                lemma_found(g, hub, base, way);
            }
            if way.is_none() {
                self.carve_corridor(&lines[k]);
            }
            k = k + 1;
        }
        proof {
            assert(joined(t0, tw, th, hubs@, ls, 0) == joined(t0, tw, th, hubs@, ls, 1));
            lemma_new_map(*layout, tw, th, hubs@, ls);
        }
        self.any_cliff()
    }

    /// Whether any cliff is on the map.
    pub fn any_cliff(&self) -> (r: bool)
        ensures
            r == exists|v: int| 0 <= v < self.terrain@.len() && self.terrain@[v] == T_CLIFF,
    {
        let mut v: usize = 0;
        while v < self.terrain.len()
            invariant
                v <= self.terrain@.len(),
                forall|w: int| 0 <= w < v ==> self.terrain@[w] != T_CLIFF,
            decreases self.terrain@.len() - v,
        {
            if self.terrain[v] == T_CLIFF {
                return true;
            }
            v = v + 1;
        }
        false
    }

    /// Wipes the terrain back to open ground.
    pub fn flatten_terrain(&mut self)
        requires
            old(self).wf(),
        ensures
            final(self).wf(),
            final(self).tw == old(self).tw,
            final(self).th == old(self).th,
            final(self).block@ == old(self).block@,
            forall|v: int| 0 <= v < final(self).terrain@.len() ==> final(self).terrain@[v] == T_OPEN,
    {
        let n: usize = self.terrain.len();
        self.terrain = vec![T_OPEN; n];
    }
}

fn beside_at(tiles: &Vec<(i32, i32)>, x: i32, y: i32) -> (r: bool)
    requires
        bounded_tiles(tiles@),
        0 <= x <= COORD_MAX,
        0 <= y <= COORD_MAX,
    ensures
        r == beside(tiles@, x as int, y as int),
{
    let mut i: usize = 0;
    while i < tiles.len()
        invariant
            bounded_tiles(tiles@),
            0 <= x <= COORD_MAX,
            0 <= y <= COORD_MAX,
            i <= tiles@.len(),
            forall|j: int| 0 <= j < i ==> !#[trigger] touches(tiles@[j], x as int, y as int),
        decreases tiles@.len() - i,
    {
        let (tx, ty) = tiles[i];
        assert(-COORD_MAX <= tiles@[i as int].0 <= COORD_MAX);
        if tx - 1 <= x && x <= tx + 1 && ty - 1 <= y && y <= ty + 1 {
            assert(touches(tiles@[i as int], x as int, y as int));
            return true;
        }
        i = i + 1;
    }
    false
}

/// A passable tile is its own nearest one.
proof fn lemma_nearest_self(g: Lattice, x: int, y: int)
    requires
        g.passable(x, y),
    ensures
        g.is_nearest(x, y, x, y),
        !g.walled_in(x, y),
{
}

/// Cutting lines leaves base tiles open.
proof fn lemma_hub_is_open(
    l: Layout,
    tw: int,
    th: int,
    hubs: Seq<(i32, i32)>,
    lines: Seq<Seq<(i32, i32)>>,
    k: int,
    i: int,
)
    requires
        0 < tw,
        0 < th,
        0 <= i < hubs.len(),
        0 <= hubs[i].0 < tw,
        0 <= hubs[i].1 < th,
        l.bases@.contains(hubs[i]),
    ensures
        bare(joined(l.map(tw, th), tw, th, hubs, lines, k), tw, th).passable(
            hubs[i].0 as int,
            hubs[i].1 as int,
        ),
    decreases k,
{
    let v = tile_index(tw, hubs[i]);
    lemma_tile(tw, th, hubs[i].0 as int, hubs[i].1 as int);
    lemma_joined_len(l.map(tw, th), tw, th, hubs, lines, k);
    if k > 1 {
        lemma_hub_is_open(l, tw, th, hubs, lines, k - 1, i);
        lemma_joined_len(l.map(tw, th), tw, th, hubs, lines, k - 1);
        assert(joined(l.map(tw, th), tw, th, hubs, lines, k - 1)[v] != T_CLIFF);
        assert(joined(l.map(tw, th), tw, th, hubs, lines, k)[v] != T_CLIFF);
    } else {
        let j = choose|j: int| 0 <= j < l.bases@.len() && l.bases@[j] == hubs[i];
        let b = l.bases@[j];
        assert(within(b, BASE_CLEAR_SQ as int, b.0 as int, b.1 as int));
        assert(within(l.bases@[j], BASE_CLEAR_SQ as int, hubs[i].0 as int, hubs[i].1 as int));
        assert(l.map(tw, th)[v] == T_OPEN);
    }
}

/// Between passable tiles a way is found exactly when there is one.
proof fn lemma_found(g: Lattice, a: (i32, i32), b: (i32, i32), way: Option<Vec<(i32, i32)>>)
    requires
        g.wf(),
        g.passable(a.0 as int, a.1 as int),
        g.passable(b.0 as int, b.1 as int),
        g.found(a, b, way),
    ensures
        way is Some <==> g.connected(tile_index(g.tw, a), tile_index(g.tw, b)),
{
    let (ax, ay, bx, by) = (a.0 as int, a.1 as int, b.0 as int, b.1 as int);
    lemma_nearest_self(g, ax, ay);
    lemma_nearest_self(g, bx, by);
    lemma_tile(g.tw, g.th, ax, ay);
    match way {
        Some(tiles) => {
            let (sx, sy, tx, ty) = choose|sx: int, sy: int, tx: int, ty: int| #[trigger]
                g.is_nearest(ax, ay, sx, sy) && #[trigger] g.is_nearest(bx, by, tx, ty) && g.leads(
                    tiles@,
                    sx,
                    sy,
                    tx,
                    ty,
                );
            crate::path::nearest_passable_is_unique(g, ax, ay, ax, ay, sx, sy);
            crate::path::nearest_passable_is_unique(g, bx, by, bx, by, tx, ty);
            if ax == bx && ay == by {
                let v = g.at(ax, ay);
                assert(g.is_route(seq![v], v, v));
            } else {
                let p = choose|p: Seq<int>| #[trigger]
                    g.is_cheapest(p, g.at(sx, sy), g.at(tx, ty)) && g.leads_along(tiles@, p);
                assert(g.is_route(p, g.at(ax, ay), g.at(bx, by)));
            }
        },
        None => {
            let (sx, sy, tx, ty) = choose|sx: int, sy: int, tx: int, ty: int| #[trigger]
                g.is_nearest(ax, ay, sx, sy) && #[trigger] g.is_nearest(bx, by, tx, ty)
                    && !g.connected(g.at(sx, sy), g.at(tx, ty));
            crate::path::nearest_passable_is_unique(g, ax, ay, ax, ay, sx, sy);
            crate::path::nearest_passable_is_unique(g, bx, by, bx, by, tx, ty);
        },
    }
}

// ---- a new map ------------------------------------------------------------------------------

/// The terrain that a layout makes, all bases joined.
pub open spec fn new_map(
    l: Layout,
    tw: int,
    th: int,
    hubs: Seq<(i32, i32)>,
    lines: Seq<Seq<(i32, i32)>>,
) -> Seq<u8> {
    joined(l.map(tw, th), tw, th, hubs, lines, hubs.len() as int)
}

/// Whether the line of tiles from the first start to each other goes all the way.
pub open spec fn gapless(tw: int, th: int, hubs: Seq<(i32, i32)>, lines: Seq<Seq<(i32, i32)>>) -> bool {
    &&& lines.len() == hubs.len()
    &&& forall|k: int| 1 <= k < hubs.len() ==> is_line(tw, th, #[trigger] lines[k], hubs[0], hubs[k])
}

/// Whether a way leads from every start to every other, and each can be stood on.
pub open spec fn playable(t: Seq<u8>, tw: int, th: int, hubs: Seq<(i32, i32)>) -> bool {
    &&& forall|i: int, j: int|
        0 <= i < hubs.len() && 0 <= j < hubs.len() ==> bare(t, tw, th).connected(
            tile_index(tw, #[trigger] hubs[i]),
            tile_index(tw, #[trigger] hubs[j]),
        )
    &&& forall|i: int|
        0 <= i < hubs.len() ==> bare(t, tw, th).passable((#[trigger] hubs[i]).0 as int, hubs[i].1 as int)
}

/// Whether every tile has a terrain, and bases and patches are on open ground.
pub open spec fn keeps_clear(l: Layout, tw: int, th: int, t: Seq<u8>) -> bool {
    &&& forall|v: int| 0 <= v < tw * th ==> #[trigger] t[v] <= T_RAMP
    &&& forall|p: (i32, i32)|
        0 <= p.0 < tw && 0 <= p.1 < th && #[trigger] l.bases@.contains(p) ==> t[tile_index(tw, p)] == T_OPEN
    &&& forall|p: (i32, i32)|
        0 <= p.0 < tw && 0 <= p.1 < th && #[trigger] l.patches@.contains(p) ==> t[tile_index(tw, p)] == T_OPEN
}

proof fn lemma_new_map(l: Layout, tw: int, th: int, hubs: Seq<(i32, i32)>, lines: Seq<Seq<(i32, i32)>>)
    requires
        0 < tw && 0 < th && tw * th <= MAX_TILES,
        forall|k: int|
            0 <= k < hubs.len() ==> 0 <= (#[trigger] hubs[k]).0 < tw && 0 <= hubs[k].1 < th
                && l.bases@.contains(hubs[k]),
    ensures
        keeps_clear(l, tw, th, new_map(l, tw, th, hubs, lines)),
        gapless(tw, th, hubs, lines) ==> playable(new_map(l, tw, th, hubs, lines), tw, th, hubs),
{
    let t = new_map(l, tw, th, hubs, lines);
    lemma_codes(l, tw, th, hubs, lines, hubs.len() as int);
    assert forall|p: (i32, i32)| 0 <= p.0 < tw && 0 <= p.1 < th && #[trigger] l.bases@.contains(p) implies t[tile_index(
        tw,
        p,
    )] == T_OPEN by {
        new_maps_keep_bases_and_patches_clear(l, tw, th, hubs, lines, p);
    }
    assert forall|p: (i32, i32)| 0 <= p.0 < tw && 0 <= p.1 < th && #[trigger] l.patches@.contains(p) implies t[tile_index(
        tw,
        p,
    )] == T_OPEN by {
        new_maps_keep_bases_and_patches_clear(l, tw, th, hubs, lines, p);
    }
    if gapless(tw, th, hubs, lines) {
        assert forall|i: int, j: int| 0 <= i < hubs.len() && 0 <= j < hubs.len() implies bare(
            t,
            tw,
            th,
        ).connected(tile_index(tw, #[trigger] hubs[i]), tile_index(tw, #[trigger] hubs[j])) by {
            new_maps_are_playable(l, tw, th, hubs, lines, i, j);
        }
        assert forall|i: int| 0 <= i < hubs.len() implies bare(t, tw, th).passable(
            (#[trigger] hubs[i]).0 as int,
            hubs[i].1 as int,
        ) by {
            new_maps_are_playable(l, tw, th, hubs, lines, i, i);
        }
    }
}

/// Whether a line of tiles goes from one tile to another on a map of `tw` by `th` tiles
/// without skipping one.
pub fn unbroken(tw: usize, th: usize, tiles: &Vec<(i32, i32)>, a: (i32, i32), b: (i32, i32)) -> (r: bool)
    ensures
        r == is_line(tw as int, th as int, tiles@, a, b),
{
    let n: usize = tiles.len();
    if n == 0 {
        return false;
    }
    if tiles[0].0 != a.0 || tiles[0].1 != a.1 || tiles[n - 1].0 != b.0 || tiles[n - 1].1 != b.1 {
        return false;
    }
    for i in 0..n
        invariant
            n == tiles@.len(),
            n > 0,
            tiles@[0] == a,
            tiles@.last() == b,
            forall|k: int| 0 <= k < i ==> 0 <= (#[trigger] tiles@[k]).0 < tw && 0 <= tiles@[k].1 < th,
            forall|k: int, j: int|
                0 <= k && j == k + 1 && j < i ==> #[trigger] touches(
                    tiles@[k],
                    (#[trigger] tiles@[j]).0 as int,
                    tiles@[j].1 as int,
                ),
    {
        let (x, y) = tiles[i];
        if x < 0 || y < 0 || x as usize >= tw || y as usize >= th {
            assert(!(0 <= tiles@[i as int].0 < tw && 0 <= tiles@[i as int].1 < th));
            return false;
        }
        if i > 0 {
            let (u, v) = tiles[i - 1];
            assert(0 <= tiles@[i - 1].0 < tw && 0 <= tiles@[i - 1].1 < th);
            if x - u > 1 || u - x > 1 || y - v > 1 || v - y > 1 {
                assert(!touches(tiles@[i - 1], tiles@[i as int].0 as int, tiles@[i as int].1 as int));
                return false;
            }
            assert(touches(tiles@[i - 1], x as int, y as int));
        }
    }
    true
}

impl Grid {
    /// Whether the line of tiles from the first start to each other goes all the way.
    pub fn lines_are_gapless(&self, hubs: &Vec<(i32, i32)>, lines: &Vec<Vec<(i32, i32)>>) -> (r: bool)
        ensures
            r == gapless(
                self.tw as int,
                self.th as int,
                hubs@,
                lines@.map_values(|l: Vec<(i32, i32)>| l@),
            ),
    {
        let ghost ls = lines@.map_values(|l: Vec<(i32, i32)>| l@);
        let n: usize = hubs.len();
        if lines.len() != n {
            return false;
        }
        let mut k: usize = 1;
        while k < n
            invariant
                n == hubs@.len(),
                n == lines@.len(),
                ls == lines@.map_values(|l: Vec<(i32, i32)>| l@),
                1 <= k,
                forall|j: int|
                    1 <= j < k && j < n ==> is_line(
                        self.tw as int,
                        self.th as int,
                        #[trigger] ls[j],
                        hubs@[0],
                        hubs@[j],
                    ),
            decreases n - k,
        {
            assert(ls[k as int] == lines@[k as int]@);
            if !unbroken(self.tw, self.th, &lines[k], hubs[0], hubs[k]) {
                return false;
            }
            k = k + 1;
        }
        true
    }
}

/// Whether the starts of a match are on the map, each on a base of its own, with a line of
/// tiles from the first to each.
pub open spec fn laid_out(
    l: Layout,
    tw: int,
    th: int,
    hubs: Seq<(i32, i32)>,
    lines: Seq<Seq<(i32, i32)>>,
) -> bool {
    &&& 0 < tw && 0 < th && tw * th <= MAX_TILES
    &&& forall|k: int|
        0 <= k < hubs.len() ==> 0 <= (#[trigger] hubs[k]).0 < tw && 0 <= hubs[k].1 < th && l.bases@.contains(
            hubs[k],
        )
    &&& gapless(tw, th, hubs, lines)
}

proof fn lemma_codes(
    l: Layout,
    tw: int,
    th: int,
    hubs: Seq<(i32, i32)>,
    lines: Seq<Seq<(i32, i32)>>,
    k: int,
)
    ensures
        forall|v: int|
            0 <= v < tw * th ==> #[trigger] joined(l.map(tw, th), tw, th, hubs, lines, k)[v] <= T_RAMP,
        forall|v: int|
            0 <= v < tw * th && l.map(tw, th)[v] == T_OPEN ==> #[trigger] joined(
                l.map(tw, th),
                tw,
                th,
                hubs,
                lines,
                k,
            )[v] == T_OPEN,
    decreases k,
{
    lemma_joined_len(l.map(tw, th), tw, th, hubs, lines, k);
    if k > 1 {
        lemma_codes(l, tw, th, hubs, lines, k - 1);
        lemma_joined_len(l.map(tw, th), tw, th, hubs, lines, k - 1);
        let before = joined(l.map(tw, th), tw, th, hubs, lines, k - 1);
        let after = joined(l.map(tw, th), tw, th, hubs, lines, k);
        assert forall|v: int| 0 <= v < tw * th implies #[trigger] after[v] <= T_RAMP by {
            assert(before[v] <= T_RAMP);
        }
        assert forall|v: int| 0 <= v < tw * th && l.map(tw, th)[v] == T_OPEN implies #[trigger] after[v]
            == T_OPEN by {
            assert(before[v] == T_OPEN);
        }
    }
}

/// No map is unplayable: on a new one every tile has a terrain, and a route leads from every
/// start to every other.
pub proof fn new_maps_are_playable(
    l: Layout,
    tw: int,
    th: int,
    hubs: Seq<(i32, i32)>,
    lines: Seq<Seq<(i32, i32)>>,
    i: int,
    j: int,
)
    requires
        laid_out(l, tw, th, hubs, lines),
        0 <= i < hubs.len(),
        0 <= j < hubs.len(),
    ensures
        new_map(l, tw, th, hubs, lines).len() == tw * th,
        forall|v: int| 0 <= v < tw * th ==> #[trigger] new_map(l, tw, th, hubs, lines)[v] <= T_RAMP,
        bare(new_map(l, tw, th, hubs, lines), tw, th).connected(
            tile_index(tw, hubs[i]),
            tile_index(tw, hubs[j]),
        ),
        bare(new_map(l, tw, th, hubs, lines), tw, th).passable(hubs[i].0 as int, hubs[i].1 as int),
{
    let n = hubs.len() as int;
    let t = l.map(tw, th);
    let g = bare(new_map(l, tw, th, hubs, lines), tw, th);
    assert(0 <= tw * th) by (nonlinear_arith)
        requires
            0 < tw,
            0 < th,
    ;
    lemma_codes(l, tw, th, hubs, lines, n);
    lemma_joined_len(t, tw, th, hubs, lines, n);
    lemma_hub_is_open(l, tw, th, hubs, lines, n, i);
    lemma_hub_is_open(l, tw, th, hubs, lines, n, j);
    lemma_hub_is_open(l, tw, th, hubs, lines, n, 0);
    lemma_from_first(l, tw, th, hubs, lines, i);
    lemma_from_first(l, tw, th, hubs, lines, j);
    let (a, b, c) = (tile_index(tw, hubs[0]), tile_index(tw, hubs[i]), tile_index(tw, hubs[j]));
    lemma_tile(tw, th, hubs[0].0 as int, hubs[0].1 as int);
    lemma_tile(tw, th, hubs[i].0 as int, hubs[i].1 as int);
    assert(g.free[a]);
    connected_is_symmetric(g, a, b);
    connected_is_transitive(g, b, a, c);
}

proof fn lemma_from_first(
    l: Layout,
    tw: int,
    th: int,
    hubs: Seq<(i32, i32)>,
    lines: Seq<Seq<(i32, i32)>>,
    i: int,
)
    requires
        laid_out(l, tw, th, hubs, lines),
        0 <= i < hubs.len(),
    ensures
        bare(new_map(l, tw, th, hubs, lines), tw, th).connected(
            tile_index(tw, hubs[0]),
            tile_index(tw, hubs[i]),
        ),
{
    let n = hubs.len() as int;
    let g = bare(new_map(l, tw, th, hubs, lines), tw, th);
    assert(0 <= tw * th) by (nonlinear_arith)
        requires
            0 < tw,
            0 < th,
    ;
    if i == 0 {
        let v = tile_index(tw, hubs[0]);
        lemma_tile(tw, th, hubs[0].0 as int, hubs[0].1 as int);
        lemma_hub_is_open(l, tw, th, hubs, lines, n, 0);
        assert(g.is_route(seq![v], v, v));
    } else {
        assert(is_line(tw, th, lines[i], hubs[0], hubs[i]));
        bases_are_connected(l.map(tw, th), tw, th, hubs, lines, i, n);
    }
}

/// Bases and mineral patches of a new map are kept clear, whatever was cut later.
pub proof fn new_maps_keep_bases_and_patches_clear(
    l: Layout,
    tw: int,
    th: int,
    hubs: Seq<(i32, i32)>,
    lines: Seq<Seq<(i32, i32)>>,
    p: (i32, i32),
)
    requires
        0 <= p.0 < tw,
        0 <= p.1 < th,
        l.bases@.contains(p) || l.patches@.contains(p),
    ensures
        new_map(l, tw, th, hubs, lines)[tile_index(tw, p)] == T_OPEN,
{
    let v = tile_index(tw, p);
    lemma_tile(tw, th, p.0 as int, p.1 as int);
    lemma_codes(l, tw, th, hubs, lines, hubs.len() as int);
    if l.bases@.contains(p) {
        let k = choose|k: int| 0 <= k < l.bases@.len() && l.bases@[k] == p;
        let b = l.bases@[k];
        assert(within(b, BASE_CLEAR_SQ as int, b.0 as int, b.1 as int));
        assert(within(l.bases@[k], BASE_CLEAR_SQ as int, p.0 as int, p.1 as int));
    } else {
        let k = choose|k: int| 0 <= k < l.patches@.len() && l.patches@[k] == p;
        let b = l.patches@[k];
        assert(within(b, PATCH_CLEAR_SQ as int, b.0 as int, b.1 as int));
        assert(within(l.patches@[k], PATCH_CLEAR_SQ as int, p.0 as int, p.1 as int));
    }
    assert(l.map(tw, th)[v] == T_OPEN);
}

/// The pathfinder finds a way between any two starts of a new map: whatever it may return
/// there, it is not that there is none.
pub proof fn a_way_is_found_between_starts(
    l: Layout,
    tw: int,
    th: int,
    hubs: Seq<(i32, i32)>,
    lines: Seq<Seq<(i32, i32)>>,
    i: int,
    j: int,
    way: Option<Vec<(i32, i32)>>,
)
    requires
        laid_out(l, tw, th, hubs, lines),
        0 <= i < hubs.len(),
        0 <= j < hubs.len(),
        bare(new_map(l, tw, th, hubs, lines), tw, th).found(hubs[i], hubs[j], way),
    ensures
        way is Some,
{
    new_maps_are_playable(l, tw, th, hubs, lines, i, j);
    new_maps_are_playable(l, tw, th, hubs, lines, j, i);
    lemma_found(bare(new_map(l, tw, th, hubs, lines), tw, th), hubs[i], hubs[j], way);
}

// ---- what holds of the ground -------------------------------------------------------------------

/// Whether a tile is kept open for what stands on the map: within three and a half tiles of a
/// base, or one and seven twelfths of a patch.
pub open spec fn kept_open(l: Layout, x: int, y: int) -> bool {
    ||| exists|i: int|
        0 <= i < l.bases@.len() && 3600 * ((x - (#[trigger] l.bases@[i]).0) * (x - l.bases@[i].0) + (y
            - l.bases@[i].1) * (y - l.bases@[i].1)) <= 44_100
    ||| exists|i: int|
        0 <= i < l.patches@.len() && 3600 * ((x - (#[trigger] l.patches@[i]).0) * (x - l.patches@[i].0) + (y
            - l.patches@[i].1) * (y - l.patches@[i].1)) <= 9_025
}

proof fn lemma_kept_open(l: Layout, x: int, y: int)
    ensures
        kept_open(l, x, y) <==> near(l.bases@, BASE_CLEAR_SQ as int, x, y) || near(
            l.patches@,
            PATCH_CLEAR_SQ as int,
            x,
            y,
        ),
{
    if near(l.bases@, BASE_CLEAR_SQ as int, x, y) {
        let i = choose|i: int| 0 <= i < l.bases@.len() && #[trigger] within(l.bases@[i], BASE_CLEAR_SQ as int, x, y);
        assert(3600 * ((x - l.bases@[i].0) * (x - l.bases@[i].0) + (y - l.bases@[i].1) * (y - l.bases@[i].1))
            <= 44_100);
    }
    if near(l.patches@, PATCH_CLEAR_SQ as int, x, y) {
        let i = choose|i: int|
            0 <= i < l.patches@.len() && #[trigger] within(l.patches@[i], PATCH_CLEAR_SQ as int, x, y);
        assert(3600 * ((x - l.patches@[i].0) * (x - l.patches@[i].0) + (y - l.patches@[i].1) * (y - l.patches@[i].1))
            <= 9_025);
    }
    if kept_open(l, x, y) {
        if exists|i: int|
            0 <= i < l.bases@.len() && 3600 * ((x - (#[trigger] l.bases@[i]).0) * (x - l.bases@[i].0) + (y
                - l.bases@[i].1) * (y - l.bases@[i].1)) <= 44_100 {
            let i = choose|i: int|
                0 <= i < l.bases@.len() && 3600 * ((x - (#[trigger] l.bases@[i]).0) * (x - l.bases@[i].0) + (y
                    - l.bases@[i].1) * (y - l.bases@[i].1)) <= 44_100;
            assert(within(l.bases@[i], BASE_CLEAR_SQ as int, x, y));
        } else {
            let i = choose|i: int|
                0 <= i < l.patches@.len() && 3600 * ((x - (#[trigger] l.patches@[i]).0) * (x - l.patches@[i].0) + (y
                    - l.patches@[i].1) * (y - l.patches@[i].1)) <= 9_025;
            assert(within(l.patches@[i], PATCH_CLEAR_SQ as int, x, y));
        }
    }
}

/// High ground is walled in: a neighbour of high ground on any of the four sides is high
/// ground too, or a ramp, or a cliff, unless it is kept open for a base or a patch. So a ramp
/// is the only way up.
pub proof fn plateaus_are_walled_in(l: Layout, tw: int, th: int, x: int, y: int, nx: int, ny: int)
    requires
        0 <= x < tw,
        0 <= y < th,
        0 <= nx < tw,
        0 <= ny < th,
        abs(nx - x) + abs(ny - y) == 1,
        l.map(tw, th)[y * tw + x] == T_HIGH,
        !kept_open(l, nx, ny),
    ensures
        l.map(tw, th)[ny * tw + nx] == T_HIGH || l.map(tw, th)[ny * tw + nx] == T_RAMP || l.map(tw, th)[ny * tw + nx]
            == T_CLIFF,
        l.map(tw, th)[ny * tw + nx] != T_OPEN,
{
    lemma_tile(tw, th, x, y);
    lemma_tile(tw, th, nx, ny);
    lemma_kept_open(l, nx, ny);
    assert(l.high(tw, th, x, y));
    assert((nx == x - 1 && ny == y) || (nx == x + 1 && ny == y) || (nx == x && ny == y - 1) || (nx == x && ny == y
        + 1));
    if nx == x - 1 {
        assert(l.high(tw, th, nx + 1, ny));
    } else if nx == x + 1 {
        assert(l.high(tw, th, nx - 1, ny));
    } else if ny == y - 1 {
        assert(l.high(tw, th, nx, ny + 1));
    } else {
        assert(l.high(tw, th, nx, ny - 1));
    }
}

/// Whether a tile is on a plateau of the layout, or on the mirror image of one.
pub open spec fn on_a_plateau(l: Layout, tw: int, th: int, x: int, y: int) -> bool {
    exists|i: int|
        0 <= i < l.plateaus@.len() && ({
            let p = #[trigger] l.plateaus@[i];
            ||| -p.hw <= x - p.cx <= p.hw && -p.hh <= y - p.cy <= p.hh
            ||| -p.hw <= tw - 1 - x - p.cx <= p.hw && -p.hh <= th - 1 - y - p.cy <= p.hh
        })
}

/// A map is what its layout says: open round bases and patches; elsewhere a ramp, or high on
/// its plateaus, which reach as far as they are wide and high; a cliff exactly where a plain
/// tile has a plateau on one of its four sides; and open everywhere else.
pub proof fn maps_follow_their_layout(l: Layout, tw: int, th: int, x: int, y: int)
    requires
        0 <= x < tw,
        0 <= y < th,
    ensures
        ({
            let c = l.map(tw, th)[y * tw + x];
            let kept = kept_open(l, x, y);
            let up = on_a_plateau(l, tw, th, x, y);
            let ringed = (x + 1 < tw && on_a_plateau(l, tw, th, x + 1, y)) || (x > 0 && on_a_plateau(l, tw, th, x - 1, y))
                || (y + 1 < th && on_a_plateau(l, tw, th, x, y + 1)) || (y > 0 && on_a_plateau(l, tw, th, x, y - 1));
            &&& kept ==> c == T_OPEN
            &&& !kept ==> (c == T_RAMP <==> l.ramp(tw, th, x, y))
            &&& c == T_HIGH <==> !kept && !l.ramp(tw, th, x, y) && up
            &&& c == T_CLIFF <==> !kept && !l.ramp(tw, th, x, y) && !up && ringed
            &&& c == T_OPEN || c == T_HIGH || c == T_CLIFF || c == T_RAMP
        }),
{
    lemma_tile(tw, th, x, y);
    lemma_kept_open(l, x, y);
    lemma_plateau(l, tw, th, x, y);
    lemma_plateau(l, tw, th, x + 1, y);
    lemma_plateau(l, tw, th, x - 1, y);
    lemma_plateau(l, tw, th, x, y + 1);
    lemma_plateau(l, tw, th, x, y - 1);
}

proof fn lemma_plateau(l: Layout, tw: int, th: int, x: int, y: int)
    ensures
        l.high(tw, th, x, y) <==> 0 <= x < tw && 0 <= y < th && on_a_plateau(l, tw, th, x, y),
{
    if l.high(tw, th, x, y) {
        let i = choose|i: int| 0 <= i < l.plateaus@.len() && (#[trigger] l.plateaus@[i]).covers(tw, th, x, y);
        let p = l.plateaus@[i];
        assert((-p.hw <= x - p.cx <= p.hw && -p.hh <= y - p.cy <= p.hh) || (-p.hw <= tw - 1 - x - p.cx <= p.hw && -p.hh
            <= th - 1 - y - p.cy <= p.hh));
    }
    if 0 <= x < tw && 0 <= y < th && on_a_plateau(l, tw, th, x, y) {
        let i = choose|i: int|
            0 <= i < l.plateaus@.len() && ({
                let p = #[trigger] l.plateaus@[i];
                ||| -p.hw <= x - p.cx <= p.hw && -p.hh <= y - p.cy <= p.hh
                ||| -p.hw <= tw - 1 - x - p.cx <= p.hw && -p.hh <= th - 1 - y - p.cy <= p.hh
            });
        assert(l.plateaus@[i].covers(tw, th, x, y));
    }
}

/// Every plateau has its ramp, in the middle of one of its sides and one step off it: below,
/// above, to the right or to the left; and a ramp is nowhere else.
pub proof fn ramps_lead_up_one_side(l: Layout, tw: int, th: int, x: int, y: int)
    ensures
        l.ramp(tw, th, x, y) <==> exists|i: int|
            0 <= i < l.plateaus@.len() && ({
                let p = #[trigger] l.plateaus@[i];
                let dx = if p.side % 4 == 2 {
                    p.hw + 1
                } else if p.side % 4 == 3 {
                    -p.hw - 1
                } else {
                    0
                };
                let dy = if p.side % 4 == 0 {
                    p.hh + 1
                } else if p.side % 4 == 1 {
                    -p.hh - 1
                } else {
                    0
                };
                ||| x == p.cx + dx && y == p.cy + dy
                ||| x == tw - 1 - p.cx + dx && y == th - 1 - p.cy + dy
            }),
{
    if l.ramp(tw, th, x, y) {
        let i = choose|i: int| 0 <= i < l.plateaus@.len() && (#[trigger] l.plateaus@[i]).ramps(tw, th, x, y);
        let p = l.plateaus@[i];
        assert(p.ramps(tw, th, x, y));
    }
    assert forall|i: int|
        0 <= i < l.plateaus@.len() && ({
            let p = #[trigger] l.plateaus@[i];
            let dx = if p.side % 4 == 2 {
                p.hw + 1
            } else if p.side % 4 == 3 {
                -p.hw - 1
            } else {
                0
            };
            let dy = if p.side % 4 == 0 {
                p.hh + 1
            } else if p.side % 4 == 1 {
                -p.hh - 1
            } else {
                0
            };
            ||| x == p.cx + dx && y == p.cy + dy
            ||| x == tw - 1 - p.cx + dx && y == th - 1 - p.cy + dy
        }) implies l.plateaus@[i].ramps(tw, th, x, y) by {
    }
}

/// A cut opens every cliff on the line and right beside it, and touches nothing else: no
/// high ground, no ramp, and no cliff farther off.
pub proof fn cuts_open_cliffs_only(t: Seq<u8>, tw: int, th: int, tiles: Seq<(i32, i32)>, x: int, y: int)
    requires
        0 <= x < tw,
        0 <= y < th,
        t.len() == tw * th,
    ensures
        ({
            let v = y * tw + x;
            let c = carved(t, tw, tiles);
            let beside = exists|i: int|
                0 <= i < tiles.len() && -1 <= x - (#[trigger] tiles[i]).0 <= 1 && -1 <= y - tiles[i].1 <= 1;
            &&& c.len() == t.len()
            &&& t[v] == T_CLIFF && beside ==> c[v] == T_OPEN
            &&& !(t[v] == T_CLIFF && beside) ==> c[v] == t[v]
        }),
{
    lemma_tile(tw, th, x, y);
    if beside(tiles, x, y) {
        let i = choose|i: int| 0 <= i < tiles.len() && #[trigger] touches(tiles[i], x, y);
        assert(-1 <= x - tiles[i].0 <= 1 && -1 <= y - tiles[i].1 <= 1);
    }
    if exists|i: int| 0 <= i < tiles.len() && -1 <= x - (#[trigger] tiles[i]).0 <= 1 && -1 <= y - tiles[i].1 <= 1 {
        let i = choose|i: int|
            0 <= i < tiles.len() && -1 <= x - (#[trigger] tiles[i]).0 <= 1 && -1 <= y - tiles[i].1 <= 1;
        assert(touches(tiles[i], x, y));
    }
}

/// A corridor is cut to a base only if it could not be reached.
pub proof fn reachable_bases_need_no_corridor(
    t: Seq<u8>,
    tw: int,
    th: int,
    hubs: Seq<(i32, i32)>,
    lines: Seq<Seq<(i32, i32)>>,
)
    requires
        forall|k: int|
            1 <= k < hubs.len() ==> bare(t, tw, th).connected(
                hubs[0].1 * tw + hubs[0].0,
                (#[trigger] hubs[k]).1 * tw + hubs[k].0,
            ),
    ensures
        joined(t, tw, th, hubs, lines, hubs.len() as int) == t,
{
    lemma_no_corridor(t, tw, th, hubs, lines, hubs.len() as int);
}

proof fn lemma_no_corridor(t: Seq<u8>, tw: int, th: int, hubs: Seq<(i32, i32)>, lines: Seq<Seq<(i32, i32)>>, k: int)
    requires
        k <= hubs.len(),
        forall|k: int|
            1 <= k < hubs.len() ==> bare(t, tw, th).connected(
                hubs[0].1 * tw + hubs[0].0,
                (#[trigger] hubs[k]).1 * tw + hubs[k].0,
            ),
    ensures
        joined(t, tw, th, hubs, lines, k) == t,
    decreases k,
{
    if k > 1 {
        lemma_no_corridor(t, tw, th, hubs, lines, k - 1);
        assert(bare(t, tw, th).connected(hubs[0].1 * tw + hubs[0].0, hubs[k - 1].1 * tw + hubs[k - 1].0));
    }
}

/// Ground on which nothing stands can be walked on wherever it is no cliff.
pub proof fn all_but_cliffs_can_be_walked_on(t: Seq<u8>, tw: int, th: int, x: int, y: int)
    ensures
        bare(t, tw, th).passable(x, y) <==> 0 <= x < tw && 0 <= y < th && t[y * tw + x] != T_CLIFF,
{
    if 0 <= x < tw && 0 <= y < th {
        lemma_tile(tw, th, x, y);
    }
}

} // verus!
