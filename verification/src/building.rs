//! What buildings look like: a bevelled panel with the details of its kind, scaffolding
//! while it is being raised, and bars for its health and for the unit in training.

use vstd::prelude::*;
use crate::gfx::rgb;
use crate::kind::{radius, Kind, Team};
use crate::num::Num;
use crate::scene::{
    disc, fill, frame, gem, glow, lemma_join, line, near, plain, veil, Label, LabelV, Setting, Shape,
    SPAN,
};
use crate::text::{dec, decimal};
use crate::theme::{edge_of, SELECT};
use crate::world::Ent;

verus! {

/// The shades of a building. They are mixed from its faction's colours.
#[derive(Clone, Copy, PartialEq, Eq, Structural, Debug)]
pub struct Shades {
    pub body: u32,
    pub light: u32,
    pub dark: u32,
    /// Doors and windows.
    pub hole: u32,
    /// The light in a barracks' door and windows.
    pub door: u32,
    pub window: u32,
    /// The bright part of a factory's stack.
    pub stack: u32,
    pub foundation: u32,
    pub scaffold: u32,
    pub rung: u32,
    pub beam: u32,
}

/// How much of a bar is filled: the share, and the pixels that it comes to.
#[derive(Clone, Copy, PartialEq, Eq, Structural, Debug)]
pub struct Gauge {
    pub share: Num,
    pub filled: i32,
}

/// One half and one quarter.
pub const HALF_BITS: u32 = 0x3F00_0000;

pub const QUARTER_BITS: u32 = 0x3E80_0000;

/// Colour of a warm light.
pub open spec fn warm() -> u32 {
    rgb(255, 200, 110)
}

/// Colour of the filled part of a health bar: the first faction's fades from green over
/// yellow to red, all others are red.
pub open spec fn health_color(share: Num, team: Team) -> u32 {
    if team != Team::Player {
        rgb(228, 90, 80)
    } else if (Num { bits: HALF_BITS }).less(share) {
        rgb(90, 220, 110)
    } else if (Num { bits: QUARTER_BITS }).less(share) {
        rgb(235, 200, 70)
    } else {
        rgb(230, 80, 70)
    }
}

/// A health bar, centred on `cx`.
pub open spec fn hpbar_shapes(cx: int, top: int, width: int, g: Gauge, team: Team) -> Seq<Shape> {
    let x = cx - width / 2;
    seq![
        fill(x - 1, top - 1, width + 2, 5, rgb(8, 10, 12)),
        fill(x, top, g.filled as int, 3, health_color(g.share, team)),
    ]
}

/// Appends a health bar.
pub fn draw_hpbar(out: &mut Vec<Shape>, cx: i32, top: i32, width: i32, g: &Gauge, team: Team)
    requires
        near(cx as int),
        -2 * SPAN <= top <= 2 * SPAN,
        0 <= width <= SPAN,
    ensures
        final(out)@ == old(out)@ + hpbar_shapes(cx as int, top as int, width as int, *g, team),
{
    let ghost o = out@;
    let x: i32 = cx - width / 2;
    let half = Num { bits: HALF_BITS };
    let quarter = Num { bits: QUARTER_BITS };
    let fg: u32 = if team != Team::Player {
        rgb(228, 90, 80)
    } else if half.less(g.share) {
        rgb(90, 220, 110)
    } else if quarter.less(g.share) {
        rgb(235, 200, 70)
    } else {
        rgb(230, 80, 70)
    };
    out.push(Shape::Fill { x: x - 1, y: top - 1, w: width + 2, h: 5, color: rgb(8, 10, 12) });
    out.push(Shape::Fill { x, y: top, w: g.filled, h: 3, color: fg });
    assert(out@ =~= o + hpbar_shapes(cx as int, top as int, width as int, *g, team));
}

/// The mark of a selected building.
pub open spec fn mark_shapes(sx: int, sy: int, r: int, selected: bool) -> Seq<Shape> {
    if selected {
        seq![frame(sx - r - 4, sy - r - 4, (r + 4) * 2, (r + 4) * 2, SELECT)]
    } else {
        seq![]
    }
}

/// The light round a building's foot and its bevelled panel.
pub open spec fn panel_shapes(sx: int, sy: int, r: int, edge: u32, s: Shades) -> Seq<Shape> {
    seq![
        glow(sx, sy, r + 2, edge, 7),
        fill(sx - r, sy - r, r * 2, r * 2, s.dark),
        fill(sx - r + 1, sy - r + 1, r * 2 - 2, r * 2 - 2, s.body),
        fill(sx - r + 1, sy - r + 1, r * 2 - 2, 2, s.light),
        fill(sx - r + 1, sy + r - 3, r * 2 - 2, 2, s.dark),
        frame(sx - r, sy - r, r * 2, r * 2, edge),
    ]
}

/// One corner pylon of a command center.
pub open spec fn pylon_shapes(cx: int, cy: int, edge: u32, s: Shades) -> Seq<Shape> {
    seq![fill(cx - 3, cy - 3, 6, 6, edge), fill(cx - 2, cy - 2, 4, 4, s.light)]
}

/// A command center's pylons round its core.
pub open spec fn base_shapes(sx: int, sy: int, edge: u32, s: Shades) -> Seq<Shape> {
    pylon_shapes(sx - 26, sy - 26, edge, s) + pylon_shapes(sx + 26, sy - 26, edge, s)
        + pylon_shapes(sx - 26, sy + 26, edge, s) + pylon_shapes(sx + 26, sy + 26, edge, s) + seq![
        disc(sx, sy, 11, s.dark),
        disc(sx, sy, 9, edge),
        glow(sx, sy, 11, rgb(150, 220, 255), 30),
        gem(sx, sy, 3, rgb(225, 245, 255)),
    ]
}

/// A barracks' ridge, door, windows and antenna.
pub open spec fn barracks_shapes(sx: int, sy: int, edge: u32, s: Shades) -> Seq<Shape> {
    seq![
        fill(sx - 18, sy - 18, 36, 2, s.light),
        fill(sx - 7, sy + 1, 14, 21, s.hole),
        fill(sx - 6, sy + 2, 12, 19, s.door),
        fill(sx - 17, sy - 14, 3, 4, s.window),
        fill(sx - 11, sy - 14, 3, 4, s.window),
        line(sx + 15, sy - 22, sx + 15, sy - 28, edge),
        glow(sx + 15, sy - 28, 2, edge, 85),
    ]
}

/// A factory's slatted door and smoking stack.
pub open spec fn factory_shapes(sx: int, sy: int, edge: u32, s: Shades) -> Seq<Shape> {
    seq![
        fill(sx - 20, sy, 40, 21, s.hole),
        fill(sx - 19, sy + 1, 1, 19, s.dark),
        fill(sx - 9, sy + 1, 1, 19, s.dark),
        fill(sx + 1, sy + 1, 1, 19, s.dark),
        fill(sx + 11, sy + 1, 1, 19, s.dark),
        fill(sx - 20, sy - 2, 40, 2, edge),
        fill(sx - 19, sy - 30, 5, 8, s.dark),
        fill(sx - 18, sy - 29, 3, 7, s.stack),
        glow(sx - 17, sy - 31, 3, warm(), 45),
    ]
}

/// One crate of a supply depot.
pub open spec fn crate_shapes(cx: int, cy: int, s: Shades) -> Seq<Shape> {
    seq![
        fill(cx - 7, cy - 7, 14, 14, s.dark),
        fill(cx - 6, cy - 6, 12, 12, s.body),
        fill(cx - 6, cy - 6, 12, 1, s.light),
    ]
}

/// A depot's crates and status light.
pub open spec fn depot_shapes(sx: int, sy: int, s: Shades) -> Seq<Shape> {
    crate_shapes(sx - 8, sy - 8, s) + crate_shapes(sx + 8, sy - 8, s) + crate_shapes(
        sx - 8,
        sy + 8,
        s,
    ) + crate_shapes(sx + 8, sy + 8, s) + seq![
        glow(sx, sy, 3, rgb(150, 255, 180), 50),
        disc(sx, sy, 1, rgb(210, 255, 220)),
    ]
}

/// The details of each kind.
pub open spec fn detail_shapes(k: Kind, sx: int, sy: int, edge: u32, s: Shades) -> Seq<Shape> {
    match k {
        Kind::Base => base_shapes(sx, sy, edge, s),
        Kind::Barracks => barracks_shapes(sx, sy, edge, s),
        Kind::Factory => factory_shapes(sx, sy, edge, s),
        Kind::Depot => depot_shapes(sx, sy, s),
        _ => seq![],
    }
}

/// The rungs of a scaffold, nine pixels apart from `y` down to the build front.
pub open spec fn rung_shapes(x: int, y: int, w: int, front: int, color: u32) -> Seq<Shape>
    decreases (if y < front {
        front - y
    } else {
        0
    }),
{
    if y < front {
        seq![fill(x, y, w, 1, color)] + rung_shapes(x, y + 9, w, front, color)
    } else {
        seq![]
    }
}

/// The part of a building that is not raised yet: bare foundation behind a scaffold.
pub open spec fn unbuilt_shapes(sx: int, sy: int, r: int, front: int, s: Shades) -> Seq<Shape> {
    let h = front - (sy - r);
    if h > 0 {
        seq![
            fill(sx - r, sy - r, r * 2, h, s.foundation),
            fill(sx - r, sy - r, 2, h, s.scaffold),
            fill(sx + r - 2, sy - r, 2, h, s.scaffold),
        ] + rung_shapes(sx - r, sy - r + 5, r * 2, front, s.rung)
    } else {
        seq![]
    }
}

/// What covers a building that is being raised: it rises from the bottom up to the
/// height `front`, behind a glowing beam.
pub open spec fn site_shapes(sx: int, sy: int, r: int, front: Option<i32>, s: Shades) -> Seq<Shape> {
    match front {
        Some(f) => unbuilt_shapes(sx, sy, r, f as int, s) + seq![
            veil(sx - r, f - 3, r * 2, 6, warm(), 30),
            fill(sx - r, f - 1, r * 2, 2, s.beam),
            frame(sx - r, sy - r, r * 2, r * 2, s.scaffold),
        ],
        None => seq![],
    }
}

/// The bar that shows how far the unit in training is.
pub open spec fn training_shapes(sx: int, sy: int, r: int, waiting: int, trained: int) -> Seq<Shape> {
    if waiting > 0 {
        seq![
            fill(sx - r, sy + r + 4, r * 2, 4, rgb(20, 24, 30)),
            fill(sx - r, sy + r + 4, trained, 4, rgb(120, 220, 250)),
        ]
    } else {
        seq![]
    }
}

/// Everything that a building consists of, bottom first. `front` is the height of the
/// build front while it is being raised, `trained` the filled part of its training bar.
pub open spec fn building_shapes(
    kind: Kind,
    team: Team,
    selected: bool,
    waiting: int,
    sx: int,
    sy: int,
    s: Shades,
    front: Option<i32>,
    health: Gauge,
    trained: int,
) -> Seq<Shape> {
    let r = radius(kind) as int;
    let edge = edge_of(team);
    mark_shapes(sx, sy, r, selected) + panel_shapes(sx, sy, r, edge, s) + detail_shapes(
        kind,
        sx,
        sy,
        edge,
        s,
    ) + site_shapes(sx, sy, r, front, s) + hpbar_shapes(sx, sy - r - 8, r * 2, health, team)
        + training_shapes(sx, sy, r, waiting, trained)
}

fn draw_panel(out: &mut Vec<Shape>, sx: i32, sy: i32, r: i32, edge: u32, s: &Shades)
    requires
        near(sx as int),
        near(sy as int),
        0 <= r <= 30,
    ensures
        final(out)@ == old(out)@ + panel_shapes(sx as int, sy as int, r as int, edge, *s),
{
    let ghost o = out@;
    out.push(Shape::Glow { x: sx, y: sy, r: r + 2, color: edge, share: 7 });
    out.push(Shape::Fill { x: sx - r, y: sy - r, w: r * 2, h: r * 2, color: s.dark });
    out.push(Shape::Fill { x: sx - r + 1, y: sy - r + 1, w: r * 2 - 2, h: r * 2 - 2, color: s.body });
    out.push(Shape::Fill { x: sx - r + 1, y: sy - r + 1, w: r * 2 - 2, h: 2, color: s.light });
    out.push(Shape::Fill { x: sx - r + 1, y: sy + r - 3, w: r * 2 - 2, h: 2, color: s.dark });
    out.push(Shape::Frame { x: sx - r, y: sy - r, w: r * 2, h: r * 2, color: edge });
    assert(out@ =~= o + panel_shapes(sx as int, sy as int, r as int, edge, *s));
}

fn draw_pylon(out: &mut Vec<Shape>, cx: i32, cy: i32, edge: u32, s: &Shades)
    requires
        -SPAN - 100 <= cx <= SPAN + 100,
        -SPAN - 100 <= cy <= SPAN + 100,
    ensures
        final(out)@ == old(out)@ + pylon_shapes(cx as int, cy as int, edge, *s),
{
    let ghost o = out@;
    out.push(Shape::Fill { x: cx - 3, y: cy - 3, w: 6, h: 6, color: edge });
    out.push(Shape::Fill { x: cx - 2, y: cy - 2, w: 4, h: 4, color: s.light });
    assert(out@ =~= o + pylon_shapes(cx as int, cy as int, edge, *s));
}

fn draw_base(out: &mut Vec<Shape>, sx: i32, sy: i32, edge: u32, s: &Shades)
    requires
        near(sx as int),
        near(sy as int),
    ensures
        final(out)@ == old(out)@ + base_shapes(sx as int, sy as int, edge, *s),
{
    let ghost o = out@;
    draw_pylon(out, sx - 26, sy - 26, edge, s);
    draw_pylon(out, sx + 26, sy - 26, edge, s);
    draw_pylon(out, sx - 26, sy + 26, edge, s);
    draw_pylon(out, sx + 26, sy + 26, edge, s);
    out.push(Shape::Disc { x: sx, y: sy, r: 11, color: s.dark });
    out.push(Shape::Disc { x: sx, y: sy, r: 9, color: edge });
    out.push(Shape::Glow { x: sx, y: sy, r: 11, color: rgb(150, 220, 255), share: 30 });
    out.push(Shape::Gem { x: sx, y: sy, r: 3, color: rgb(225, 245, 255) });
    assert(out@ =~= o + base_shapes(sx as int, sy as int, edge, *s));
}

fn draw_barracks(out: &mut Vec<Shape>, sx: i32, sy: i32, edge: u32, s: &Shades)
    requires
        near(sx as int),
        near(sy as int),
    ensures
        final(out)@ == old(out)@ + barracks_shapes(sx as int, sy as int, edge, *s),
{
    let ghost o = out@;
    out.push(Shape::Fill { x: sx - 18, y: sy - 18, w: 36, h: 2, color: s.light });
    out.push(Shape::Fill { x: sx - 7, y: sy + 1, w: 14, h: 21, color: s.hole });
    out.push(Shape::Fill { x: sx - 6, y: sy + 2, w: 12, h: 19, color: s.door });
    out.push(Shape::Fill { x: sx - 17, y: sy - 14, w: 3, h: 4, color: s.window });
    out.push(Shape::Fill { x: sx - 11, y: sy - 14, w: 3, h: 4, color: s.window });
    out.push(Shape::Line { x0: sx + 15, y0: sy - 22, x1: sx + 15, y1: sy - 28, color: edge });
    out.push(Shape::Glow { x: sx + 15, y: sy - 28, r: 2, color: edge, share: 85 });
    assert(out@ =~= o + barracks_shapes(sx as int, sy as int, edge, *s));
}

fn draw_factory(out: &mut Vec<Shape>, sx: i32, sy: i32, edge: u32, s: &Shades)
    requires
        near(sx as int),
        near(sy as int),
    ensures
        final(out)@ == old(out)@ + factory_shapes(sx as int, sy as int, edge, *s),
{
    let ghost o = out@;
    out.push(Shape::Fill { x: sx - 20, y: sy, w: 40, h: 21, color: s.hole });
    out.push(Shape::Fill { x: sx - 19, y: sy + 1, w: 1, h: 19, color: s.dark });
    out.push(Shape::Fill { x: sx - 9, y: sy + 1, w: 1, h: 19, color: s.dark });
    out.push(Shape::Fill { x: sx + 1, y: sy + 1, w: 1, h: 19, color: s.dark });
    out.push(Shape::Fill { x: sx + 11, y: sy + 1, w: 1, h: 19, color: s.dark });
    out.push(Shape::Fill { x: sx - 20, y: sy - 2, w: 40, h: 2, color: edge });
    out.push(Shape::Fill { x: sx - 19, y: sy - 30, w: 5, h: 8, color: s.dark });
    out.push(Shape::Fill { x: sx - 18, y: sy - 29, w: 3, h: 7, color: s.stack });
    out.push(Shape::Glow { x: sx - 17, y: sy - 31, r: 3, color: rgb(255, 200, 110), share: 45 });
    assert(out@ =~= o + factory_shapes(sx as int, sy as int, edge, *s));
}

fn draw_crate(out: &mut Vec<Shape>, cx: i32, cy: i32, s: &Shades)
    requires
        -SPAN - 100 <= cx <= SPAN + 100,
        -SPAN - 100 <= cy <= SPAN + 100,
    ensures
        final(out)@ == old(out)@ + crate_shapes(cx as int, cy as int, *s),
{
    let ghost o = out@;
    out.push(Shape::Fill { x: cx - 7, y: cy - 7, w: 14, h: 14, color: s.dark });
    out.push(Shape::Fill { x: cx - 6, y: cy - 6, w: 12, h: 12, color: s.body });
    out.push(Shape::Fill { x: cx - 6, y: cy - 6, w: 12, h: 1, color: s.light });
    assert(out@ =~= o + crate_shapes(cx as int, cy as int, *s));
}

fn draw_depot(out: &mut Vec<Shape>, sx: i32, sy: i32, s: &Shades)
    requires
        near(sx as int),
        near(sy as int),
    ensures
        final(out)@ == old(out)@ + depot_shapes(sx as int, sy as int, *s),
{
    let ghost o = out@;
    draw_crate(out, sx - 8, sy - 8, s);
    draw_crate(out, sx + 8, sy - 8, s);
    draw_crate(out, sx - 8, sy + 8, s);
    draw_crate(out, sx + 8, sy + 8, s);
    out.push(Shape::Glow { x: sx, y: sy, r: 3, color: rgb(150, 255, 180), share: 50 });
    out.push(Shape::Disc { x: sx, y: sy, r: 1, color: rgb(210, 255, 220) });
    assert(out@ =~= o + depot_shapes(sx as int, sy as int, *s));
}

fn draw_site(out: &mut Vec<Shape>, sx: i32, sy: i32, r: i32, front: Option<i32>, s: &Shades)
    requires
        near(sx as int),
        near(sy as int),
        0 <= r <= 30,
        front is Some ==> sy - r <= front->Some_0 <= sy + r,
    ensures
        final(out)@ == old(out)@ + site_shapes(sx as int, sy as int, r as int, front, *s),
{
    let ghost o = out@;
    if let Some(f) = front {
        let h: i32 = f - (sy - r);
        if h > 0 {
            out.push(Shape::Fill { x: sx - r, y: sy - r, w: r * 2, h, color: s.foundation });
            out.push(Shape::Fill { x: sx - r, y: sy - r, w: 2, h, color: s.scaffold });
            out.push(Shape::Fill { x: sx + r - 2, y: sy - r, w: 2, h, color: s.scaffold });
            let ghost b = out@;
            let mut y: i32 = sy - r + 5;
            let ghost rungs = rung_shapes(sx - r, y as int, r * 2, f as int, s.rung);
            assert(out@ + rungs =~= b + rungs);
            while y < f
                invariant
                    near(sx as int),
                    near(sy as int),
                    0 <= r <= 30,
                    f <= sy + r,
                    sy - r <= y <= f + 9,
                    out@ + rung_shapes(sx - r, y as int, r * 2, f as int, s.rung) == b + rungs,
                decreases f + 9 - y,
            {
                let ghost was = out@;
                out.push(Shape::Fill { x: sx - r, y, w: r * 2, h: 1, color: s.rung });
                assert(out@ + rung_shapes(sx - r, y + 9, r * 2, f as int, s.rung) =~= was
                    + rung_shapes(sx - r, y as int, r * 2, f as int, s.rung));
                y = y + 9;
            }
            assert(out@ =~= out@ + rung_shapes(sx - r, y as int, r * 2, f as int, s.rung));
            assert(out@ =~= o + unbuilt_shapes(sx as int, sy as int, r as int, f as int, *s));
        }
        assert(out@ =~= o + unbuilt_shapes(sx as int, sy as int, r as int, f as int, *s));
        out.push(
            Shape::Veil { x: sx - r, y: f - 3, w: r * 2, h: 6, color: rgb(255, 200, 110), share: 30 },
        );
        out.push(Shape::Fill { x: sx - r, y: f - 1, w: r * 2, h: 2, color: s.beam });
        out.push(Shape::Frame { x: sx - r, y: sy - r, w: r * 2, h: r * 2, color: s.scaffold });
    }
    assert(out@ =~= o + site_shapes(sx as int, sy as int, r as int, front, *s));
}

fn draw_detail(out: &mut Vec<Shape>, k: Kind, sx: i32, sy: i32, edge: u32, s: &Shades)
    requires
        near(sx as int),
        near(sy as int),
    ensures
        final(out)@ == old(out)@ + detail_shapes(k, sx as int, sy as int, edge, *s),
{
    let ghost o = out@;
    match k {
        Kind::Base => draw_base(out, sx, sy, edge, s),
        Kind::Barracks => draw_barracks(out, sx, sy, edge, s),
        Kind::Factory => draw_factory(out, sx, sy, edge, s),
        Kind::Depot => draw_depot(out, sx, sy, s),
        _ => {
            assert(out@ =~= o + seq![]);
        },
    }
}

fn draw_training(out: &mut Vec<Shape>, sx: i32, sy: i32, r: i32, waiting: usize, trained: i32)
    requires
        near(sx as int),
        near(sy as int),
        0 <= r <= 30,
    ensures
        final(out)@ == old(out)@ + training_shapes(
            sx as int,
            sy as int,
            r as int,
            waiting as int,
            trained as int,
        ),
{
    let ghost o = out@;
    if waiting > 0 {
        out.push(Shape::Fill { x: sx - r, y: sy + r + 4, w: r * 2, h: 4, color: rgb(20, 24, 30) });
        out.push(
            Shape::Fill { x: sx - r, y: sy + r + 4, w: trained, h: 4, color: rgb(120, 220, 250) },
        );
    }
    assert(out@ =~= o + training_shapes(sx as int, sy as int, r as int, waiting as int, trained as int));
}

/// Appends everything that a building consists of, bottom first. Whether it is being
/// raised is told by `front`, the height of the build front.
pub fn draw_building(
    out: &mut Vec<Shape>,
    e: &Ent,
    sx: i32,
    sy: i32,
    s: &Shades,
    front: Option<i32>,
    health: &Gauge,
    trained: i32,
)
    requires
        near(sx as int),
        near(sy as int),
        front is Some ==> sy - radius(e.kind) <= front->Some_0 <= sy + radius(e.kind),
    ensures
        final(out)@ == old(out)@ + building_shapes(
            e@.kind,
            e@.team,
            e@.selected,
            e@.queue.len() as int,
            sx as int,
            sy as int,
            *s,
            front,
            *health,
            trained as int,
        ),
{
    let ghost o = out@;
    let r: i32 = radius(e.kind) as i32;
    let edge: u32 = edge_of(e.team);
    if e.selected {
        out.push(
            Shape::Frame { x: sx - r - 4, y: sy - r - 4, w: (r + 4) * 2, h: (r + 4) * 2, color: SELECT },
        );
    }
    let ghost a = mark_shapes(sx as int, sy as int, r as int, e.selected);
    assert(out@ =~= o + a);
    draw_panel(out, sx, sy, r, edge, s);
    let ghost b = a + panel_shapes(sx as int, sy as int, r as int, edge, *s);
    proof {
        lemma_join(o, a, panel_shapes(sx as int, sy as int, r as int, edge, *s));
    }
    draw_detail(out, e.kind, sx, sy, edge, s);
    let ghost c = b + detail_shapes(e.kind, sx as int, sy as int, edge, *s);
    proof {
        lemma_join(o, b, detail_shapes(e.kind, sx as int, sy as int, edge, *s));
    }
    draw_site(out, sx, sy, r, front, s);
    let ghost d = c + site_shapes(sx as int, sy as int, r as int, front, *s);
    proof {
        lemma_join(o, c, site_shapes(sx as int, sy as int, r as int, front, *s));
    }
    draw_hpbar(out, sx, sy - r - 8, r * 2, health, e.team);
    let ghost f = d + hpbar_shapes(sx as int, sy - r - 8, r * 2, *health, e.team);
    proof {
        lemma_join(o, d, hpbar_shapes(sx as int, sy - r - 8, r * 2, *health, e.team));
    }
    draw_training(out, sx, sy, r, e.queue.len(), trained);
    proof {
        lemma_join(
            o,
            f,
            training_shapes(sx as int, sy as int, r as int, e.queue@.len() as int, trained as int),
        );
    }
}

/// The number of units waiting in a building, shown beside it if there are several.
pub open spec fn waiting_label(waiting: int, sx: int, sy: int, r: int) -> Option<LabelV> {
    if waiting > 1 {
        Some(plain(sx + r + 2, sy + r, decimal(waiting as nat), rgb(220, 220, 230), 1))
    } else {
        None
    }
}

/// The number of units waiting in a building.
pub fn draw_waiting(e: &Ent, sx: i32, sy: i32) -> (l: Option<Label>)
    requires
        near(sx as int),
        near(sy as int),
        e.queue@.len() <= u32::MAX,
    ensures
        match l {
            Some(l) => waiting_label(e@.queue.len() as int, sx as int, sy as int, radius(e.kind) as int)
                == Some(l@),
            None => e@.queue.len() <= 1,
        },
{
    let r: i32 = radius(e.kind) as i32;
    let n: usize = e.queue.len();
    if n > 1 {
        Some(
            Label {
                x: sx + r + 2,
                y: sy + r,
                text: dec(n as u32),
                color: rgb(220, 220, 230),
                scale: 1,
                setting: Setting::Plain,
            },
        )
    } else {
        None
    }
}

} // verus!
