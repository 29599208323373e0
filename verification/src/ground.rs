//! The ground: a faint grid, and terrain with sunlit plateaus, rock walls and hatched
//! ramps.

use vstd::prelude::*;
use crate::gfx::{in_rect, lemma_grow, lemma_paint_nothing, lemma_same_paint, rgb, Canvas, Mask};
use crate::path::{lemma_sides, Grid, T_CLIFF, T_HIGH, T_OPEN, T_RAMP};
use crate::scene::{fill, lemma_join, line, near, Shape, SPAN};

verus! {

/// The pixels on the grid when the view starts at `(camx, camy)`: every 128th column and
/// row of the world.
pub open spec fn on_grid(camx: int, camy: int) -> Mask {
    |x: int, y: int| (x + camx) % 128 == 0 || (y + camy) % 128 == 0
}

spec fn columns(cam: int, upto: int) -> Mask {
    |x: int, y: int| (x + cam) % 128 == 0 && 0 <= x < upto
}

spec fn rows(cam: int, upto: int) -> Mask {
    |x: int, y: int| (y + cam) % 128 == 0 && 0 <= y < upto
}

/// The first column at or right of the left edge whose place in the world is a multiple
/// of 128, or one before the left edge.
fn first_line(cam: i32) -> (g: i32)
    requires
        near(cam as int),
    ensures
        -128 < g < 128,
        (g + cam) % 128 == 0,
{
    if cam >= 0 {
        -(cam % 128)
    } else {
        (-cam) % 128
    }
}

fn draw_columns(c: &mut Canvas, cam: i32, col: u32)
    requires
        old(c).wf(),
        near(cam as int),
    ensures
        final(c).wf(),
        final(c)@ == old(c)@.paint(columns(cam as int, old(c).w as int), col),
{
    let ghost p = c@;
    let ghost k = cam as int;
    let (w, h) = (c.w, c.h);
    let mut g: i32 = first_line(cam);
    proof {
        let none = columns(k, g as int);
        assert forall|x: int, y: int| p.has(x, y) implies !#[trigger] none(x, y) by {
            if 0 <= x < g {
                assert((x + k) % 128 != 0);
            }
        }
        lemma_paint_nothing(p, none, col);
    }
    while g < w
        invariant
            c.wf(),
            c.w == w,
            c.h == h,
            p.w == w,
            p.h == h,
            p.px.len() == p.w * p.h,
            -128 < g <= w + 128,
            (g + k) % 128 == 0,
            c@ == p.paint(columns(k, g as int), col),
        decreases w + 128 - g,
    {
        let ghost was = columns(k, g as int);
        let ghost next = columns(k, g + 128);
        let ghost r = in_rect(g as int, 0, 1, h as int);
        if g >= 0 {
            c.fill_rect(g, 0, 1, h, col);
            proof {
                assert forall|x: int, y: int| p.has(x, y) implies #[trigger] next(x, y) == (was(x, y)
                    || r(x, y)) by {
                    if g < x < g + 128 {
                        assert((x + k) % 128 != 0);
                    }
                }
                lemma_grow(p, was, r, next, col);
            }
        } else {
            proof {
                assert forall|x: int, y: int| p.has(x, y) implies #[trigger] was(x, y) == next(x, y) by {
                    if 0 <= x < g + 128 {
                        assert((x + k) % 128 != 0);
                    }
                }
                lemma_same_paint(p, was, next, col);
            }
        }
        g = g + 128;
    }
    proof {
        let was = columns(k, g as int);
        let next = columns(k, w as int);
        assert forall|x: int, y: int| p.has(x, y) implies #[trigger] was(x, y) == next(x, y) by {}
        lemma_same_paint(p, was, next, col);
    }
}

fn draw_rows(c: &mut Canvas, cam: i32, col: u32)
    requires
        old(c).wf(),
        near(cam as int),
    ensures
        final(c).wf(),
        final(c)@ == old(c)@.paint(rows(cam as int, old(c).h as int), col),
{
    let ghost p = c@;
    let ghost k = cam as int;
    let (w, h) = (c.w, c.h);
    let mut g: i32 = first_line(cam);
    proof {
        let none = rows(k, g as int);
        assert forall|x: int, y: int| p.has(x, y) implies !#[trigger] none(x, y) by {
            if 0 <= y < g {
                assert((y + k) % 128 != 0);
            }
        }
        lemma_paint_nothing(p, none, col);
    }
    while g < h
        invariant
            c.wf(),
            c.w == w,
            c.h == h,
            p.w == w,
            p.h == h,
            p.px.len() == p.w * p.h,
            -128 < g <= h + 128,
            (g + k) % 128 == 0,
            c@ == p.paint(rows(k, g as int), col),
        decreases h + 128 - g,
    {
        let ghost was = rows(k, g as int);
        let ghost next = rows(k, g + 128);
        let ghost r = in_rect(0, g as int, w as int, 1);
        if g >= 0 {
            c.fill_rect(0, g, w, 1, col);
            proof {
                assert forall|x: int, y: int| p.has(x, y) implies #[trigger] next(x, y) == (was(x, y)
                    || r(x, y)) by {
                    if g < y < g + 128 {
                        assert((y + k) % 128 != 0);
                    }
                }
                lemma_grow(p, was, r, next, col);
            }
        } else {
            proof {
                assert forall|x: int, y: int| p.has(x, y) implies #[trigger] was(x, y) == next(x, y) by {
                    if 0 <= y < g + 128 {
                        assert((y + k) % 128 != 0);
                    }
                }
                lemma_same_paint(p, was, next, col);
            }
        }
        g = g + 128;
    }
    proof {
        let was = rows(k, g as int);
        let next = rows(k, h as int);
        assert forall|x: int, y: int| p.has(x, y) implies #[trigger] was(x, y) == next(x, y) by {}
        lemma_same_paint(p, was, next, col);
    }
}

/// Paints the grid.
pub fn draw_grid(c: &mut Canvas, camx: i32, camy: i32)
    requires
        old(c).wf(),
        near(camx as int),
        near(camy as int),
    ensures
        final(c).wf(),
        final(c)@ == old(c)@.paint(on_grid(camx as int, camy as int), rgb(28, 32, 26)),
{
    let ghost p = c@;
    let col: u32 = rgb(28, 32, 26);
    draw_columns(c, camx, col);
    draw_rows(c, camy, col);
    proof {
        let a = columns(camx as int, p.w);
        let b = rows(camy as int, p.h);
        let m = on_grid(camx as int, camy as int);
        assert forall|x: int, y: int| p.has(x, y) implies #[trigger] m(x, y) == (a(x, y) || b(x, y)) by {}
        lemma_grow(p, a, b, m, col);
    }
}

/// Side of a tile in pixels.
pub const TILE: i32 = 60;

/// Which cell of a given size a coordinate lies in, rounded towards zero.
pub open spec fn cell_of(a: int, size: int) -> int {
    if a < 0 {
        -((-a) / size)
    } else {
        a / size
    }
}

/// The cell that a coordinate lies in, rounded towards zero.
pub fn to_cell(a: i32, size: i32) -> (r: i32)
    requires
        size > 0,
        a > i32::MIN,
    ensures
        r == cell_of(a as int, size as int),
        -SPAN * 4 <= a <= SPAN * 4 ==> -SPAN * 4 <= r <= SPAN * 4,
{
    proof {
        let b = if a < 0 {
            -(a as int)
        } else {
            a as int
        };
        assert(0 <= b / size as int <= b) by (nonlinear_arith)
            requires
                b >= 0,
                size >= 1,
        ;
    }
    if a < 0 {
        -((-a) / size)
    } else {
        a / size
    }
}

/// The first and the last of `n` cells in view, when the view starts at `cam` and is
/// `span` pixels long. There are none if the last comes before the first.
pub open spec fn first_cell(cam: int, size: int) -> int {
    if cell_of(cam, size) < 0 {
        0
    } else {
        cell_of(cam, size)
    }
}

pub open spec fn last_cell(cam: int, span: int, size: int, n: int) -> int {
    let c = cell_of(cam + span, size) + 1;
    if c < n - 1 {
        c
    } else {
        n - 1
    }
}

/// The first and the last of `n` cells in view.
pub fn cells_in_view(cam: i32, span: i32, size: i32, n: usize) -> (r: (i32, i32))
    requires
        near(cam as int),
        near(span as int),
        size > 0,
        n <= i32::MAX,
    ensures
        r.0 == first_cell(cam as int, size as int),
        r.1 == last_cell(cam as int, span as int, size as int, n as int),
        0 <= r.0 <= SPAN,
        r.1 < n,
        r.1 <= 4 * SPAN,
{
    let a: i32 = to_cell(cam, size);
    let b: i32 = to_cell(cam + span, size) + 1;
    proof {
        assert(cam >= 0 ==> cam as int / size as int <= cam) by (nonlinear_arith)
            requires
                size >= 1,
        ;
        let s = cam + span;
        assert(s >= 0 ==> s / size as int <= s) by (nonlinear_arith)
            requires
                size >= 1,
        ;
        assert(cam < 0 ==> (-cam) / size as int >= 0) by (nonlinear_arith)
            requires
                size >= 1,
        ;
        assert(s < 0 ==> (-s) / size as int >= 0) by (nonlinear_arith)
            requires
                size >= 1,
        ;
    }
    let last: i32 = n as i32 - 1;
    (
        if a < 0 {
            0
        } else {
            a
        },
        if b < last {
            b
        } else {
            last
        },
    )
}

/// Terrain code of a tile as drawn: beyond the map the ground is open.
pub open spec fn shown_tile(g: Grid, x: int, y: int) -> u8 {
    if 0 <= x < g.tw && 0 <= y < g.th {
        g.terrain@[y * g.tw + x]
    } else {
        T_OPEN
    }
}

fn tile_shown(g: &Grid, x: i32, y: i32) -> (r: u8)
    requires
        g.wf(),
    ensures
        r == shown_tile(*g, x as int, y as int),
{
    if x < 0 || y < 0 || x as usize >= g.tw || y as usize >= g.th {
        T_OPEN
    } else {
        g.tile_at(x, y)
    }
}

/// What a tile at `(sx, sy)` on the screen looks like, with its neighbours above and
/// below: high ground has a sunlit rim and a shadow where it ends, a cliff is a wall of
/// rock, a ramp is hatched.
pub open spec fn tile_shapes(code: u8, above: u8, below: u8, sx: int, sy: int) -> Seq<Shape> {
    if code == T_HIGH {
        seq![fill(sx, sy, 60, 60, rgb(54, 62, 44))] + (if above != T_HIGH {
            seq![fill(sx, sy, 60, 2, rgb(96, 112, 76))]
        } else {
            seq![]
        }) + (if below != T_HIGH {
            seq![fill(sx, sy + 58, 60, 2, rgb(34, 39, 29))]
        } else {
            seq![]
        })
    } else if code == T_CLIFF {
        seq![
            fill(sx, sy, 60, 60, rgb(40, 44, 53)),
            fill(sx, sy, 60, 3, rgb(92, 99, 113)),
            fill(sx, sy + 57, 60, 3, rgb(23, 25, 32)),
            fill(sx + 20, sy + 4, 1, 52, rgb(30, 33, 41)),
            fill(sx + 40, sy + 4, 1, 52, rgb(30, 33, 41)),
        ]
    } else if code == T_RAMP {
        seq![
            fill(sx, sy, 60, 60, rgb(58, 52, 34)),
            line(sx + 8, sy + 58, sx + 22, sy + 2, rgb(92, 84, 56)),
            line(sx + 28, sy + 58, sx + 42, sy + 2, rgb(92, 84, 56)),
            line(sx + 48, sy + 58, sx + 62, sy + 2, rgb(92, 84, 56)),
        ]
    } else {
        seq![]
    }
}

fn draw_tile(out: &mut Vec<Shape>, code: u8, above: u8, below: u8, sx: i32, sy: i32)
    requires
        -242 * SPAN <= sx <= 242 * SPAN,
        -242 * SPAN <= sy <= 242 * SPAN,
    ensures
        final(out)@ == old(out)@ + tile_shapes(code, above, below, sx as int, sy as int),
{
    let ghost o = out@;
    if code == T_HIGH {
        out.push(Shape::Fill { x: sx, y: sy, w: 60, h: 60, color: rgb(54, 62, 44) });
        if above != T_HIGH {
            out.push(Shape::Fill { x: sx, y: sy, w: 60, h: 2, color: rgb(96, 112, 76) });
        }
        if below != T_HIGH {
            out.push(Shape::Fill { x: sx, y: sy + 58, w: 60, h: 2, color: rgb(34, 39, 29) });
        }
    } else if code == T_CLIFF {
        out.push(Shape::Fill { x: sx, y: sy, w: 60, h: 60, color: rgb(40, 44, 53) });
        out.push(Shape::Fill { x: sx, y: sy, w: 60, h: 3, color: rgb(92, 99, 113) });
        out.push(Shape::Fill { x: sx, y: sy + 57, w: 60, h: 3, color: rgb(23, 25, 32) });
        out.push(Shape::Fill { x: sx + 20, y: sy + 4, w: 1, h: 52, color: rgb(30, 33, 41) });
        out.push(Shape::Fill { x: sx + 40, y: sy + 4, w: 1, h: 52, color: rgb(30, 33, 41) });
    } else if code == T_RAMP {
        let hatch: u32 = rgb(92, 84, 56);
        out.push(Shape::Fill { x: sx, y: sy, w: 60, h: 60, color: rgb(58, 52, 34) });
        out.push(Shape::Line { x0: sx + 8, y0: sy + 58, x1: sx + 22, y1: sy + 2, color: hatch });
        out.push(Shape::Line { x0: sx + 28, y0: sy + 58, x1: sx + 42, y1: sy + 2, color: hatch });
        out.push(Shape::Line { x0: sx + 48, y0: sy + 58, x1: sx + 62, y1: sy + 2, color: hatch });
    }
    assert(out@ =~= o + tile_shapes(code, above, below, sx as int, sy as int));
}

/// What stands on tile `(x, y)` of the map.
pub open spec fn tile_of(g: Grid, x: int, y: int, camx: int, camy: int) -> Seq<Shape> {
    tile_shapes(
        shown_tile(g, x, y),
        shown_tile(g, x, y - 1),
        shown_tile(g, x, y + 1),
        x * 60 - camx,
        y * 60 - camy,
    )
}

/// The tiles of row `y` from column `x0` up to, not including, `x1`.
pub open spec fn row_of(g: Grid, y: int, x0: int, x1: int, camx: int, camy: int) -> Seq<Shape>
    decreases x1 - x0,
{
    if x0 < x1 {
        row_of(g, y, x0, x1 - 1, camx, camy) + tile_of(g, x1 - 1, y, camx, camy)
    } else {
        seq![]
    }
}

/// The rows from `y0` up to, not including, `y1`.
pub open spec fn rows_of(g: Grid, y0: int, y1: int, x0: int, x1: int, camx: int, camy: int) -> Seq<
    Shape,
>
    decreases y1 - y0,
{
    if y0 < y1 {
        rows_of(g, y0, y1 - 1, x0, x1, camx, camy) + row_of(g, y1 - 1, x0, x1, camx, camy)
    } else {
        seq![]
    }
}

/// The terrain in view, row by row; nothing on a map without cliffs.
pub open spec fn terrain_shapes(
    g: Grid,
    has_cliffs: bool,
    camx: int,
    camy: int,
    w: int,
    h: int,
) -> Seq<Shape> {
    if has_cliffs {
        rows_of(
            g,
            first_cell(camy, 60),
            last_cell(camy, h, 60, g.th as int) + 1,
            first_cell(camx, 60),
            last_cell(camx, w, 60, g.tw as int) + 1,
            camx,
            camy,
        )
    } else {
        seq![]
    }
}

/// The terrain in view of a screen of `w` by `h` pixels, bottom first.
pub fn draw_terrain(g: &Grid, has_cliffs: bool, camx: i32, camy: i32, w: i32, h: i32) -> (out: Vec<
    Shape,
>)
    requires
        g.wf(),
        near(camx as int),
        near(camy as int),
        near(w as int),
        near(h as int),
    ensures
        out@ == terrain_shapes(*g, has_cliffs, camx as int, camy as int, w as int, h as int),
{
    let mut out: Vec<Shape> = Vec::new();
    if !has_cliffs {
        assert(out@ =~= seq![]);
        return out;
    }
    proof {
        lemma_sides(g@);
    }
    let (tx0, tx1) = cells_in_view(camx, w, TILE, g.tw);
    let (ty0, ty1) = cells_in_view(camy, h, TILE, g.th);
    let ghost (cx, cy) = (camx as int, camy as int);
    let ghost end = tx1 + 1;
    let mut ty: i32 = ty0;
    assert(out@ =~= seq![]);
    while ty <= ty1
        invariant
            g.wf(),
            near(cx),
            near(cy),
            cx == camx,
            cy == camy,
            end == tx1 + 1,
            0 <= tx0,
            tx1 <= 4 * SPAN,
            ty1 <= 4 * SPAN,
            0 <= ty0 <= ty,
            ty <= ty1 + 1 || ty == ty0,
            out@ == rows_of(*g, ty0 as int, ty as int, tx0 as int, end, cx, cy),
        decreases ty1 - ty + 1,
    {
        let ghost before = out@;
        let mut tx: i32 = tx0;
        assert(out@ =~= before + row_of(*g, ty as int, tx0 as int, tx as int, cx, cy));
        while tx <= tx1
            invariant
                g.wf(),
                near(cx),
                near(cy),
                cx == camx,
                cy == camy,
                end == tx1 + 1,
                0 <= tx0 <= tx,
                tx <= end || tx == tx0,
                tx1 <= 4 * SPAN,
                0 <= ty <= 4 * SPAN,
                out@ == before + row_of(*g, ty as int, tx0 as int, tx as int, cx, cy),
            decreases tx1 - tx + 1,
        {
            let code: u8 = tile_shown(g, tx, ty);
            let above: u8 = tile_shown(g, tx, ty - 1);
            let below: u8 = tile_shown(g, tx, ty + 1);
            draw_tile(&mut out, code, above, below, tx * TILE - camx, ty * TILE - camy);
            proof {
                lemma_join(
                    before,
                    row_of(*g, ty as int, tx0 as int, tx as int, cx, cy),
                    tile_of(*g, tx as int, ty as int, cx, cy),
                );
            }
            tx = tx + 1;
        }
        proof {
            if end < tx0 {
                assert(row_of(*g, ty as int, tx0 as int, tx as int, cx, cy) =~= seq![]);
                assert(row_of(*g, ty as int, tx0 as int, end, cx, cy) =~= seq![]);
            }
        }
        ty = ty + 1;
    }
    proof {
        if ty1 + 1 < ty0 {
            assert(rows_of(*g, ty0 as int, ty1 + 1, tx0 as int, end, cx, cy) =~= seq![]);
        }
    }
    out
}

} // verus!
