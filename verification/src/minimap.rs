//! The minimap: terrain, everyone in sight, the fog, the part of the map in view, and
//! where orders were given.

use vstd::prelude::*;
use crate::fog::{Fog, UNSEEN, VISIBLE};
use crate::gfx::rgb;
use crate::kind::{Kind, Team};
use crate::path::{lemma_sides, Grid, T_CLIFF, T_HIGH, T_RAMP};
use crate::scene::{fill, frame, gather, lemma_gather, near, ring, veil, Shape, SPAN};
use crate::screen::{mm_x, mm_y, spec_mm_x, spec_mm_y, MM_H, MM_W};
use crate::theme::{edge_of, fill_of, INK, MINERAL};
use crate::world::{EntV, World, WorldV};

verus! {

/// A command's echo on the minimap: where, how wide its ring has grown, and the colour
/// that it has faded to.
#[derive(Clone, Copy, PartialEq, Eq, Structural, Debug)]
pub struct Echo {
    pub x: i32,
    pub y: i32,
    pub r: i32,
    pub fade: u32,
}

/// A map scaled down to the minimap, in pixels from its corner: the left and upper edges
/// of the terrain tiles and their size, the edges of the fog cells, the place of each
/// entity, the part in view, and the echoes of commands.
pub struct Chart {
    pub tile_x: Vec<i32>,
    pub tile_y: Vec<i32>,
    pub tile_w: i32,
    pub tile_h: i32,
    pub cell_x: Vec<i32>,
    pub cell_y: Vec<i32>,
    pub spots: Vec<(i32, i32)>,
    pub view_x: i32,
    pub view_y: i32,
    pub view_w: i32,
    pub view_h: i32,
    pub echoes: Vec<Echo>,
}

pub open spec fn all_near(s: Seq<i32>) -> bool {
    forall|i: int| 0 <= i < s.len() ==> near(#[trigger] s[i] as int)
}

impl Chart {
    /// Whether a chart is drawn from a map.
    pub open spec fn wf(&self, w: WorldV, g: Grid, fog: Fog) -> bool {
        &&& self.tile_x@.len() >= g.tw
        &&& self.tile_y@.len() >= g.th
        &&& all_near(self.tile_x@)
        &&& all_near(self.tile_y@)
        &&& self.cell_x@.len() > fog.w
        &&& self.cell_y@.len() > fog.h
        &&& all_near(self.cell_x@)
        &&& all_near(self.cell_y@)
        &&& self.spots@.len() == w.ents.len()
        &&& forall|i: int|
            0 <= i < self.spots@.len() ==> near((#[trigger] self.spots@[i]).0 as int) && near(
                self.spots@[i].1 as int,
            )
        &&& near(self.view_x as int)
        &&& near(self.view_y as int)
        &&& self.echoes@.len() == w.pings.len()
        &&& forall|i: int|
            0 <= i < self.echoes@.len() ==> near((#[trigger] self.echoes@[i]).x as int) && near(
                self.echoes@[i].y as int,
            ) && near(self.echoes@[i].r as int)
    }
}

/// The panel that the minimap is laid on.
pub open spec fn board_shapes(mx: int, my: int) -> Seq<Shape> {
    seq![
        veil(mx - 4, my - 4, MM_W + 8, MM_H + 8, INK, 85),
        frame(mx - 4, my - 4, MM_W + 8, MM_H + 8, rgb(60, 66, 56)),
        fill(mx, my, MM_W as int, MM_H as int, rgb(16, 18, 14)),
    ]
}

/// Colour of a terrain tile; open ground has none.
pub open spec fn tile_color(code: u8) -> Option<u32> {
    if code == T_HIGH {
        Some(rgb(40, 48, 36))
    } else if code == T_CLIFF {
        Some(rgb(8, 9, 8))
    } else if code == T_RAMP {
        Some(rgb(44, 42, 31))
    } else {
        None
    }
}

pub open spec fn mini_tile(g: Grid, c: Chart, mx: int, my: int, x: int, y: int) -> Seq<Shape> {
    match tile_color(g.terrain@[y * g.tw + x]) {
        Some(color) => seq![
            fill(mx + c.tile_x@[x], my + c.tile_y@[y], c.tile_w as int, c.tile_h as int, color),
        ],
        None => seq![],
    }
}

pub open spec fn mini_row(g: Grid, c: Chart, mx: int, my: int, y: int) -> spec_fn(int) -> Seq<Shape> {
    |x: int| mini_tile(g, c, mx, my, x, y)
}

pub open spec fn mini_rows(g: Grid, c: Chart, mx: int, my: int) -> spec_fn(int) -> Seq<Shape> {
    |y: int| gather(g.tw as int, mini_row(g, c, mx, my, y))
}

/// The terrain; nothing on a map without cliffs.
pub open spec fn relief_shapes(g: Grid, has_cliffs: bool, c: Chart, mx: int, my: int) -> Seq<Shape> {
    if has_cliffs {
        gather(g.th as int, mini_rows(g, c, mx, my))
    } else {
        seq![]
    }
}

/// Whether an entity is on the minimap: one's own always, others while they are seen, and
/// minerals only where the ground was explored.
pub open spec fn on_minimap(w: WorldV, e: EntV, vis: u8) -> bool {
    &&& (e.team == w.my_team || vis == VISIBLE)
    &&& !(e.kind == Kind::Mineral && vis == UNSEEN)
}

/// Colour and size of an entity on the minimap.
pub open spec fn blip(kind: Kind, team: Team) -> (u32, int) {
    match kind {
        Kind::Mineral => (MINERAL, 1),
        Kind::Base => (edge_of(team), 3),
        Kind::Barracks | Kind::Factory | Kind::Depot => (edge_of(team), 2),
        Kind::Tank | Kind::Mortar => (fill_of(team), 2),
        _ => (fill_of(team), 1),
    }
}

pub open spec fn blip_shapes(w: WorldV, c: Chart, vis: Seq<u8>, mx: int, my: int, i: int) -> Seq<Shape> {
    let e = w.ents[i];
    let (color, size) = blip(e.kind, e.team);
    if on_minimap(w, e, vis[i]) {
        seq![
            fill(
                mx + c.spots@[i].0 - size / 2,
                my + c.spots@[i].1 - size / 2,
                size + 1,
                size + 1,
                color,
            ),
        ]
    } else {
        seq![]
    }
}

pub open spec fn blips(w: WorldV, c: Chart, vis: Seq<u8>, mx: int, my: int) -> spec_fn(int) -> Seq<
    Shape,
> {
    |i: int| blip_shapes(w, c, vis, mx, my, i)
}

/// The distance between two edges, one pixel at least.
pub open spec fn between(a: i32, b: i32) -> int {
    if b - a < 1 {
        1
    } else {
        b - a
    }
}

/// What covers a fog cell of a faction: what was never seen is black, what is only
/// remembered is dimmed.
pub open spec fn mini_cell(fog: Fog, t: Team, c: Chart, mx: int, my: int, x: int, y: int) -> Seq<Shape> {
    let v = fog.at(t.idx() as int, x, y);
    let bx = mx + c.cell_x@[x];
    let by = my + c.cell_y@[y];
    let bw = between(c.cell_x@[x], c.cell_x@[x + 1]);
    let bh = between(c.cell_y@[y], c.cell_y@[y + 1]);
    if v == VISIBLE {
        seq![]
    } else if v == UNSEEN {
        seq![fill(bx, by, bw, bh, rgb(11, 12, 15))]
    } else {
        seq![veil(bx, by, bw, bh, rgb(11, 12, 15), 50)]
    }
}

pub open spec fn mini_fog_row(fog: Fog, t: Team, c: Chart, mx: int, my: int, y: int) -> spec_fn(
    int,
) -> Seq<Shape> {
    |x: int| mini_cell(fog, t, c, mx, my, x, y)
}

pub open spec fn mini_fog(fog: Fog, t: Team, c: Chart, mx: int, my: int) -> spec_fn(int) -> Seq<Shape> {
    |y: int| gather(fog.w as int, mini_fog_row(fog, t, c, mx, my, y))
}

/// A command's echo: two fading rings round a bright core, if it is within the minimap.
pub open spec fn echo_shapes(w: WorldV, c: Chart, mx: int, my: int, i: int) -> Seq<Shape> {
    let e = c.echoes@[i];
    if 0 <= e.x <= MM_W && 0 <= e.y <= MM_H {
        seq![
            ring(mx + e.x, my + e.y, e.r as int, e.fade),
            ring(mx + e.x, my + e.y, e.r + 1, e.fade),
            fill(mx + e.x - 1, my + e.y - 1, 3, 3, w.pings[i].color),
        ]
    } else {
        seq![]
    }
}

pub open spec fn echoes(w: WorldV, c: Chart, mx: int, my: int) -> spec_fn(int) -> Seq<Shape> {
    |i: int| echo_shapes(w, c, mx, my, i)
}

/// The minimap in the lower right corner of a screen of `cw` by `ch` pixels, bottom first.
/// `vis` is what the local player knows of the place of each entity.
pub open spec fn minimap_shapes(
    w: WorldV,
    g: Grid,
    has_cliffs: bool,
    fog: Fog,
    c: Chart,
    vis: Seq<u8>,
    cw: i32,
    ch: i32,
) -> Seq<Shape> {
    let mx = spec_mm_x(cw);
    let my = spec_mm_y(ch);
    board_shapes(mx, my) + relief_shapes(g, has_cliffs, c, mx, my) + gather(
        w.ents.len() as int,
        blips(w, c, vis, mx, my),
    ) + gather(fog.h as int, mini_fog(fog, w.my_team, c, mx, my)) + seq![
        frame(mx + c.view_x, my + c.view_y, c.view_w as int, c.view_h as int, rgb(230, 230, 240)),
    ] + gather(w.pings.len() as int, echoes(w, c, mx, my))
}

fn draw_relief(out: &mut Vec<Shape>, g: &Grid, has_cliffs: bool, c: &Chart, mx: i32, my: i32)
    requires
        g.wf(),
        c.tile_x@.len() >= g.tw,
        c.tile_y@.len() >= g.th,
        all_near(c.tile_x@),
        all_near(c.tile_y@),
        -2 * SPAN <= mx <= 2 * SPAN,
        -2 * SPAN <= my <= 2 * SPAN,
    ensures
        final(out)@ == old(out)@ + relief_shapes(*g, has_cliffs, *c, mx as int, my as int),
{
    let ghost o = out@;
    if !has_cliffs {
        assert(out@ =~= o + seq![]);
        return;
    }
    let ghost (x0, y0) = (mx as int, my as int);
    let ghost fy = mini_rows(*g, *c, x0, y0);
    let mut y: usize = 0;
    let mut at: usize = 0;
    proof {
        lemma_gather(o, 0, fy);
        lemma_sides(g@);
    }
    while y < g.th
        invariant
            g.wf(),
            c.tile_x@.len() >= g.tw,
            c.tile_y@.len() >= g.th,
            all_near(c.tile_x@),
            all_near(c.tile_y@),
            -2 * SPAN <= mx <= 2 * SPAN,
            -2 * SPAN <= my <= 2 * SPAN,
            x0 == mx,
            y0 == my,
            y <= g.th,
            at == y * g.tw,
            fy == mini_rows(*g, *c, x0, y0),
            out@ == o + gather(y as int, fy),
        decreases g.th - y,
    {
        let ghost was = out@;
        let ghost fx = mini_row(*g, *c, x0, y0, y as int);
        let mut x: usize = 0;
        proof {
            lemma_gather(was, 0, fx);
            assert((y + 1) * g.tw == y * g.tw + g.tw) by (nonlinear_arith);
            assert((y + 1) * g.tw <= g.tw * g.th) by (nonlinear_arith)
                requires
                    y + 1 <= g.th,
            ;
        }
        while x < g.tw
            invariant
                g.wf(),
                c.tile_x@.len() >= g.tw,
                c.tile_y@.len() >= g.th,
                all_near(c.tile_x@),
                all_near(c.tile_y@),
                -2 * SPAN <= mx <= 2 * SPAN,
                -2 * SPAN <= my <= 2 * SPAN,
                x0 == mx,
                y0 == my,
                x <= g.tw,
                y < g.th,
                at == y * g.tw,
                at + g.tw <= g.terrain@.len(),
                fx == mini_row(*g, *c, x0, y0, y as int),
                out@ == was + gather(x as int, fx),
            decreases g.tw - x,
        {
            let ghost now = out@;
            let code: u8 = g.terrain[at + x];
            let color: Option<u32> = if code == T_HIGH {
                Some(rgb(40, 48, 36))
            } else if code == T_CLIFF {
                Some(rgb(8, 9, 8))
            } else if code == T_RAMP {
                Some(rgb(44, 42, 31))
            } else {
                None
            };
            if let Some(color) = color {
                let tx: i32 = c.tile_x[x];
                let ty: i32 = c.tile_y[y];
                out.push(Shape::Fill { x: mx + tx, y: my + ty, w: c.tile_w, h: c.tile_h, color });
            }
            proof {
                assert(out@ =~= now + mini_tile(*g, *c, x0, y0, x as int, y as int));
                assert(fx(x as int) == mini_tile(*g, *c, x0, y0, x as int, y as int));
                lemma_gather(was, x as int, fx);
            }
            x = x + 1;
        }
        proof {
            assert(fy(y as int) == gather(g.tw as int, fx));
            lemma_gather(o, y as int, fy);
        }
        at = at + g.tw;
        y = y + 1;
    }
}

fn draw_blips(out: &mut Vec<Shape>, w: &World, c: &Chart, vis: &Vec<u8>, mx: i32, my: i32)
    requires
        w.wf(),
        c.spots@.len() == w.ents@.len(),
        vis@.len() == w.ents@.len(),
        forall|i: int|
            0 <= i < c.spots@.len() ==> near((#[trigger] c.spots@[i]).0 as int) && near(
                c.spots@[i].1 as int,
            ),
        -2 * SPAN <= mx <= 2 * SPAN,
        -2 * SPAN <= my <= 2 * SPAN,
    ensures
        final(out)@ == old(out)@ + gather(
            w@.ents.len() as int,
            blips(w@, *c, vis@, mx as int, my as int),
        ),
{
    let ghost o = out@;
    let ghost f = blips(w@, *c, vis@, mx as int, my as int);
    let n: usize = w.ents.len();
    proof {
        lemma_gather(o, 0, f);
    }
    for i in 0..n
        invariant
            w.wf(),
            n == w.ents@.len(),
            c.spots@.len() == n,
            vis@.len() == n,
            forall|i: int|
                0 <= i < c.spots@.len() ==> near((#[trigger] c.spots@[i]).0 as int) && near(
                    c.spots@[i].1 as int,
                ),
            -2 * SPAN <= mx <= 2 * SPAN,
            -2 * SPAN <= my <= 2 * SPAN,
            f == blips(w@, *c, vis@, mx as int, my as int),
            out@ == o + gather(i as int, f),
    {
        let ghost now = out@;
        let e = &w.ents[i];
        assert(w@.ents[i as int] == e@);
        let v: u8 = vis[i];
        if (e.team == w.my_team || v == VISIBLE) && !(e.kind == Kind::Mineral && v == UNSEEN) {
            let (color, size): (u32, i32) = match e.kind {
                Kind::Mineral => (MINERAL, 1),
                Kind::Base => (edge_of(e.team), 3),
                Kind::Barracks | Kind::Factory | Kind::Depot => (edge_of(e.team), 2),
                Kind::Tank | Kind::Mortar => (fill_of(e.team), 2),
                _ => (fill_of(e.team), 1),
            };
            let (x, y) = c.spots[i];
            out.push(
                Shape::Fill {
                    x: mx + x - size / 2,
                    y: my + y - size / 2,
                    w: size + 1,
                    h: size + 1,
                    color,
                },
            );
        }
        proof {
            assert(out@ =~= now + blip_shapes(w@, *c, vis@, mx as int, my as int, i as int));
            assert(f(i as int) == blip_shapes(w@, *c, vis@, mx as int, my as int, i as int));
            lemma_gather(o, i as int, f);
        }
    }
}

fn draw_mini_fog(out: &mut Vec<Shape>, fog: &Fog, t: Team, c: &Chart, mx: i32, my: i32)
    requires
        fog.wf(),
        t.idx() < fog.factions,
        c.cell_x@.len() > fog.w,
        c.cell_y@.len() > fog.h,
        all_near(c.cell_x@),
        all_near(c.cell_y@),
        -2 * SPAN <= mx <= 2 * SPAN,
        -2 * SPAN <= my <= 2 * SPAN,
    ensures
        final(out)@ == old(out)@ + gather(fog.h as int, mini_fog(*fog, t, *c, mx as int, my as int)),
{
    let ghost o = out@;
    let ghost (x0, y0) = (mx as int, my as int);
    let ghost fy = mini_fog(*fog, t, *c, x0, y0);
    let mut y: usize = 0;
    proof {
        lemma_gather(o, 0, fy);
    }
    while y < fog.h
        invariant
            fog.wf(),
            t.idx() < fog.factions,
            c.cell_x@.len() > fog.w,
            c.cell_y@.len() > fog.h,
            all_near(c.cell_x@),
            all_near(c.cell_y@),
            -2 * SPAN <= mx <= 2 * SPAN,
            -2 * SPAN <= my <= 2 * SPAN,
            x0 == mx,
            y0 == my,
            y <= fog.h,
            fy == mini_fog(*fog, t, *c, x0, y0),
            out@ == o + gather(y as int, fy),
        decreases fog.h - y,
    {
        let ghost was = out@;
        let ghost fx = mini_fog_row(*fog, t, *c, x0, y0, y as int);
        let mut x: usize = 0;
        proof {
            lemma_gather(was, 0, fx);
        }
        while x < fog.w
            invariant
                fog.wf(),
                t.idx() < fog.factions,
                c.cell_x@.len() > fog.w,
                c.cell_y@.len() > fog.h,
                all_near(c.cell_x@),
                all_near(c.cell_y@),
                -2 * SPAN <= mx <= 2 * SPAN,
                -2 * SPAN <= my <= 2 * SPAN,
                x0 == mx,
                y0 == my,
                x <= fog.w,
                y < fog.h,
                fx == mini_fog_row(*fog, t, *c, x0, y0, y as int),
                out@ == was + gather(x as int, fx),
            decreases fog.w - x,
        {
            let ghost now = out@;
            let v: u8 = fog.team_vis_at(t, x as i32, y as i32);
            let (ax, bx) = (c.cell_x[x], c.cell_x[x + 1]);
            let (ay, by) = (c.cell_y[y], c.cell_y[y + 1]);
            let w: i32 = if bx - ax < 1 {
                1
            } else {
                bx - ax
            };
            let h: i32 = if by - ay < 1 {
                1
            } else {
                by - ay
            };
            let color: u32 = rgb(11, 12, 15);
            if v == VISIBLE {
            } else if v == UNSEEN {
                out.push(Shape::Fill { x: mx + ax, y: my + ay, w, h, color });
            } else {
                out.push(Shape::Veil { x: mx + ax, y: my + ay, w, h, color, share: 50 });
            }
            proof {
                assert(out@ =~= now + mini_cell(*fog, t, *c, x0, y0, x as int, y as int));
                assert(fx(x as int) == mini_cell(*fog, t, *c, x0, y0, x as int, y as int));
                lemma_gather(was, x as int, fx);
            }
            x = x + 1;
        }
        proof {
            assert(fy(y as int) == gather(fog.w as int, fx));
            lemma_gather(o, y as int, fy);
        }
        y = y + 1;
    }
}

fn draw_echoes(out: &mut Vec<Shape>, w: &World, c: &Chart, mx: i32, my: i32)
    requires
        c.echoes@.len() == w.pings@.len(),
        forall|i: int|
            0 <= i < c.echoes@.len() ==> near((#[trigger] c.echoes@[i]).x as int) && near(
                c.echoes@[i].y as int,
            ) && near(c.echoes@[i].r as int),
        -2 * SPAN <= mx <= 2 * SPAN,
        -2 * SPAN <= my <= 2 * SPAN,
    ensures
        final(out)@ == old(out)@ + gather(
            w@.pings.len() as int,
            echoes(w@, *c, mx as int, my as int),
        ),
{
    let ghost o = out@;
    let ghost f = echoes(w@, *c, mx as int, my as int);
    let n: usize = w.pings.len();
    proof {
        lemma_gather(o, 0, f);
    }
    for i in 0..n
        invariant
            n == w.pings@.len(),
            c.echoes@.len() == n,
            forall|i: int|
                0 <= i < c.echoes@.len() ==> near((#[trigger] c.echoes@[i]).x as int) && near(
                    c.echoes@[i].y as int,
                ) && near(c.echoes@[i].r as int),
            -2 * SPAN <= mx <= 2 * SPAN,
            -2 * SPAN <= my <= 2 * SPAN,
            f == echoes(w@, *c, mx as int, my as int),
            out@ == o + gather(i as int, f),
    {
        let ghost now = out@;
        let e = c.echoes[i];
        if e.x >= 0 && e.x <= MM_W && e.y >= 0 && e.y <= MM_H {
            out.push(Shape::Ring { x: mx + e.x, y: my + e.y, r: e.r, color: e.fade });
            out.push(Shape::Ring { x: mx + e.x, y: my + e.y, r: e.r + 1, color: e.fade });
            out.push(
                Shape::Fill { x: mx + e.x - 1, y: my + e.y - 1, w: 3, h: 3, color: w.pings[i].color },
            );
        }
        proof {
            assert(out@ =~= now + echo_shapes(w@, *c, mx as int, my as int, i as int));
            assert(f(i as int) == echo_shapes(w@, *c, mx as int, my as int, i as int));
            lemma_gather(o, i as int, f);
        }
    }
}

fn draw_board(out: &mut Vec<Shape>, mx: i32, my: i32)
    requires
        -2 * SPAN <= mx <= 2 * SPAN,
        -2 * SPAN <= my <= 2 * SPAN,
    ensures
        final(out)@ == old(out)@ + board_shapes(mx as int, my as int),
{
    let ghost o = out@;
    out.push(
        Shape::Veil { x: mx - 4, y: my - 4, w: MM_W + 8, h: MM_H + 8, color: INK, share: 85 },
    );
    out.push(
        Shape::Frame { x: mx - 4, y: my - 4, w: MM_W + 8, h: MM_H + 8, color: rgb(60, 66, 56) },
    );
    out.push(Shape::Fill { x: mx, y: my, w: MM_W, h: MM_H, color: rgb(16, 18, 14) });
    assert(out@ =~= o + board_shapes(mx as int, my as int));
}

/// The minimap of a screen of `cw` by `ch` pixels, bottom first. `vis` is what the local
/// player knows of the place of each entity.
pub fn draw_minimap(
    w: &World,
    g: &Grid,
    has_cliffs: bool,
    fog: &Fog,
    c: &Chart,
    vis: &Vec<u8>,
    cw: i32,
    ch: i32,
) -> (out: Vec<Shape>)
    requires
        w.wf(),
        g.wf(),
        fog.wf(),
        w.my_team.idx() < fog.factions,
        c.wf(w@, *g, *fog),
        vis@.len() == w.ents@.len(),
        near(cw as int),
        near(ch as int),
    ensures
        out@ == minimap_shapes(w@, *g, has_cliffs, *fog, *c, vis@, cw, ch),
{
    let mut out: Vec<Shape> = Vec::new();
    let mx: i32 = mm_x(cw);
    let my: i32 = mm_y(ch);
    let ghost (x0, y0) = (mx as int, my as int);
    let ghost e = Seq::<Shape>::empty();
    draw_board(&mut out, mx, my);
    let ghost a = board_shapes(x0, y0);
    assert(e + a =~= a);
    draw_relief(&mut out, g, has_cliffs, c, mx, my);
    draw_blips(&mut out, w, c, vis, mx, my);
    draw_mini_fog(&mut out, fog, w.my_team, c, mx, my);
    let ghost was = out@;
    out.push(
        Shape::Frame {
            x: mx + c.view_x,
            y: my + c.view_y,
            w: c.view_w,
            h: c.view_h,
            color: rgb(230, 230, 240),
        },
    );
    assert(out@ =~= was + seq![
        frame(x0 + c.view_x, y0 + c.view_y, c.view_w as int, c.view_h as int, rgb(230, 230, 240)),
    ]);
    draw_echoes(&mut out, w, c, mx, my);
    out
}

/// An enemy that is not in sight leaves no trace on the minimap.
pub proof fn hidden_enemies_are_not_shown(w: WorldV, c: Chart, vis: Seq<u8>, mx: int, my: int, i: int)
    requires
        0 <= i < w.ents.len(),
        w.ents[i].team != w.my_team,
        vis[i] != VISIBLE,
    ensures
        blips(w, c, vis, mx, my)(i) == Seq::<Shape>::empty(),
{
}

/// The minimap shows one's own and what is in sight, each as one spot in its place, larger for
/// what is larger: three for a base, two for other buildings and for heavy units, one for the
/// rest; and nothing of what is not seen.
pub proof fn what_is_seen_is_on_the_minimap(w: WorldV, c: Chart, vis: Seq<u8>, mx: int, my: int, i: int)
    requires
        0 <= i < w.ents.len(),
    ensures
        ({
            let e = w.ents[i];
            let s = blips(w, c, vis, mx, my)(i);
            let size = match e.kind {
                Kind::Base => 3int,
                Kind::Barracks | Kind::Factory | Kind::Depot | Kind::Tank | Kind::Mortar => 2int,
                _ => 1int,
            };
            let shown = (e.team == w.my_team || vis[i] == 2) && !(e.kind == Kind::Mineral && vis[i] == 0);
            &&& !shown ==> s.len() == 0
            &&& shown ==> s.len() == 1 && s[0] is Fill && s[0]->Fill_x == (mx + c.spots@[i].0 - size / 2) as i32
                && s[0]->Fill_y == (my + c.spots@[i].1 - size / 2) as i32 && s[0]->Fill_w == size + 1 && s[0]->Fill_h
                == size + 1 && s[0]->Fill_color == (match e.kind {
                Kind::Mineral => MINERAL,
                Kind::Base | Kind::Barracks | Kind::Factory | Kind::Depot => edge_of(e.team),
                _ => fill_of(e.team),
            })
        }),
{
}

/// On the minimap too, a cell in sight is left alone, one never seen is black, and one only
/// remembered is dimmed.
pub proof fn the_minimap_has_its_fog(fog: Fog, t: Team, c: Chart, mx: int, my: int, x: int, y: int)
    ensures
        ({
            let v = fog.at(t.idx() as int, x, y);
            let s = mini_cell(fog, t, c, mx, my, x, y);
            &&& v == 2 ==> s.len() == 0
            &&& v == 0 ==> s.len() == 1 && s[0] is Fill
            &&& v == 1 ==> s.len() == 1 && s[0] is Veil
        }),
{
}

} // verus!
