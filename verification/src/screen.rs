//! The window and the canvas behind it. The game is drawn onto a canvas of fixed
//! height, as wide as the window's shape asks for, and blown up to the window pixel
//! by pixel.

use vstd::prelude::*;
use crate::gfx::{Canvas, Pic, GFX_MAX};

verus! {

/// Height of the canvas that the game is drawn onto.
pub const DESIGN_H: i32 = 720;

/// Height of the bar along the top.
pub const HUD_H: i32 = 30;

/// Size of the minimap.
pub const MM_W: i32 = 220;

pub const MM_H: i32 = 138;

/// Largest side of a window.
pub const SIDE_MAX: i32 = 32_767;

/// Width of the canvas for a window: the same shape, but never narrower than 640, and
/// 1280 for a window without height.
pub open spec fn width_for(sw: int, sh: int) -> int {
    if sh <= 0 {
        1280
    } else if DESIGN_H * sw / sh < 640 {
        640
    } else {
        DESIGN_H * sw / sh
    }
}

/// Width of the canvas for a window.
pub fn design_width(sw: i32, sh: i32) -> (r: i32)
    requires
        0 <= sw <= SIDE_MAX,
    ensures
        r == width_for(sw as int, sh as int),
        640 <= r <= DESIGN_H * SIDE_MAX,
{
    if sh <= 0 {
        return 1280;
    }
    proof {
        assert(0 <= 720 * sw / sh as int <= 720 * sw) by (nonlinear_arith)
            requires
                0 <= sw,
                sh >= 1,
        ;
    }
    let w: i32 = DESIGN_H * sw / sh;
    if w < 640 {
        640
    } else {
        w
    }
}

/// The canvas column shown in each window column.
pub open spec fn source_column(x: int, screen_w: int, design_w: int) -> int {
    x * design_w / screen_w
}

/// Which canvas column each window column shows.
pub fn build_x_map(screen_w: i32, design_w: i32) -> (r: Vec<u32>)
    requires
        0 <= design_w,
        screen_w * design_w <= i32::MAX,
    ensures
        r@.len() == (if screen_w < 1 {
            1
        } else {
            screen_w as int
        }),
        forall|x: int|
            0 <= x < r@.len() ==> #[trigger] r@[x] == source_column(
                x,
                r@.len() as int,
                design_w as int,
            ),
{
    let n: i32 = if screen_w < 1 {
        1
    } else {
        screen_w
    };
    let mut r: Vec<u32> = Vec::new();
    let mut x: i32 = 0;
    while x < n
        invariant
            0 <= x <= n,
            1 <= n,
            0 <= design_w,
            n == 1 || n == screen_w,
            screen_w * design_w <= i32::MAX,
            r@.len() == x,
            forall|k: int|
                0 <= k < x ==> #[trigger] r@[k] == source_column(k, n as int, design_w as int),
        decreases n - x,
    {
        proof {
            assert(0 <= x * design_w <= i32::MAX) by (nonlinear_arith)
                requires
                    0 <= x < n,
                    0 <= design_w <= i32::MAX,
                    n == 1 || n * design_w <= i32::MAX,
            ;
            assert(0 <= x * design_w / n as int <= x * design_w) by (nonlinear_arith)
                requires
                    0 <= x * design_w,
                    1 <= n,
            ;
        }
        r.push((x * design_w / n) as u32);
        x = x + 1;
    }
    r
}

/// A window column shows a column that the canvas has, and the columns are shown in
/// order.
pub proof fn columns_stay_on_the_canvas(x: int, y: int, screen_w: int, design_w: int)
    requires
        0 <= x <= y < screen_w,
        0 < design_w,
    ensures
        0 <= source_column(x, screen_w, design_w) < design_w,
        source_column(x, screen_w, design_w) <= source_column(y, screen_w, design_w),
{
    let a = source_column(x, screen_w, design_w);
    assert(0 <= a < design_w && a <= y * design_w / screen_w) by (nonlinear_arith)
        requires
            a == x * design_w / screen_w,
            0 <= x <= y < screen_w,
            0 < design_w,
    ;
}

/// The window after the canvas was blown up onto it: pixel `(x, y)` shows canvas column
/// `x_map[x]` of the canvas row at the same height.
pub open spec fn blown_up(design: Pic, screen: Pic, x_map: Seq<u32>) -> Pic {
    Pic {
        px: Seq::new(
            screen.px.len(),
            |v: int|
                design.at(
                    x_map[v % screen.w] as int,
                    source_column(v / screen.w, screen.h, design.h),
                ),
        ),
        ..screen
    }
}

proof fn lemma_cell(v: int, y: int, x: int, w: int)
    requires
        0 <= x < w,
        v == y * w + x,
    ensures
        v % w == x,
        v / w == y,
{
    vstd::arithmetic::div_mod::lemma_fundamental_div_mod_converse(v, w, y, x);
}

/// Blows the canvas up onto the window. Nothing happens if there is no canvas, or if the
/// column map is too short for the window.
pub fn blit_scaled(design: &Canvas, screen: &mut Canvas, x_map: &Vec<u32>)
    requires
        design.wf(),
        old(screen).wf(),
        forall|x: int|
            0 <= x < old(screen).w && x < x_map@.len() ==> #[trigger] x_map@[x] < design.w,
    ensures
        final(screen).wf(),
        final(screen)@ == (if design.w == 0 || design.h == 0 || x_map@.len() < old(screen).w {
            old(screen)@
        } else {
            blown_up(design@, old(screen)@, x_map@)
        }),
{
    let dw: usize = design.w as usize;
    let dh: usize = design.h as usize;
    let sw: usize = screen.w as usize;
    let sh: usize = screen.h as usize;
    if dw == 0 || dh == 0 || x_map.len() < sw {
        return;
    }
    let ghost s0 = screen@;
    let ghost goal = blown_up(design@, s0, x_map@);
    let mut y: usize = 0;
    let mut at: usize = 0;
    while y < sh
        invariant
            design.wf(),
            screen.wf(),
            screen.w == sw,
            screen.h == sh,
            dw == design.w,
            dh == design.h,
            0 < dw,
            0 < dh,
            sh <= GFX_MAX,
            dh <= GFX_MAX,
            sw <= x_map@.len(),
            forall|x: int| 0 <= x < sw ==> #[trigger] x_map@[x] < dw,
            s0.w == sw,
            s0.h == sh,
            s0.px.len() == screen@.px.len(),
            screen@.px.len() == sw * sh,
            goal == blown_up(design@, s0, x_map@),
            y <= sh,
            at == y * sw,
            forall|v: int| 0 <= v < at ==> #[trigger] screen@.px[v] == goal.px[v],
        decreases sh - y,
    {
        proof {
            assert(0 <= y * dh <= GFX_MAX * GFX_MAX) by (nonlinear_arith)
                requires
                    0 <= y <= GFX_MAX,
                    0 < dh <= GFX_MAX,
            ;
            assert(y * dh / sh as int <= dh - 1) by (nonlinear_arith)
                requires
                    0 <= y < sh,
                    0 < dh,
            ;
            assert((y + 1) * sw == y * sw + sw) by (nonlinear_arith);
            assert((y + 1) * sw <= sh * sw) by (nonlinear_arith)
                requires
                    y + 1 <= sh,
                    0 <= sw,
            ;
            assert(sh * sw == sw * sh) by (nonlinear_arith);
        }
        let sy: usize = (y as u64 * dh as u64 / sh as u64) as usize;
        proof {
            assert(0 <= sy * dw && sy * dw + dw <= dw * dh) by (nonlinear_arith)
                requires
                    sy + 1 <= dh,
                    0 < dw,
            ;
        }
        let row: usize = sy * dw;
        let mut x: usize = 0;
        while x < sw
            invariant
                design.wf(),
                screen.wf(),
                screen.w == sw,
                screen.h == sh,
                dw == design.w,
                dh == design.h,
                0 < sh,
                row == sy * dw,
                sy == source_column(y as int, sh as int, dh as int),
                row + dw <= design.buf@.len(),
                sw <= x_map@.len(),
                forall|k: int| 0 <= k < sw ==> #[trigger] x_map@[k] < dw,
                s0.w == sw,
                s0.h == sh,
                s0.px.len() == screen@.px.len(),
                screen@.px.len() == sw * sh,
                goal == blown_up(design@, s0, x_map@),
                x <= sw,
                at == y * sw,
                at + sw <= screen@.px.len(),
                forall|v: int| 0 <= v < at + x ==> #[trigger] screen@.px[v] == goal.px[v],
            decreases sw - x,
        {
            proof {
                lemma_cell(at + x, y as int, x as int, sw as int);
            }
            let c: u32 = x_map[x];
            screen.buf[at + x] = design.buf[row + c as usize];
            x = x + 1;
        }
        at = at + sw;
        y = y + 1;
    }
    proof {
        assert(sh * sw == sw * sh) by (nonlinear_arith);
        assert(screen@ =~= goal);
    }
}

/// Left edge of the minimap, in the lower right corner.
pub open spec fn spec_mm_x(screen_w: i32) -> int {
    screen_w - MM_W - 10
}

/// Left edge of the minimap.
pub fn mm_x(screen_w: i32) -> (r: i32)
    requires
        -GFX_MAX <= screen_w <= GFX_MAX,
    ensures
        r == spec_mm_x(screen_w),
{
    screen_w - MM_W - 10
}

/// Top edge of the minimap, clear of the bar along the bottom.
pub open spec fn spec_mm_y(screen_h: i32) -> int {
    screen_h - MM_H - 34
}

/// Top edge of the minimap.
pub fn mm_y(screen_h: i32) -> (r: i32)
    requires
        -GFX_MAX <= screen_h <= GFX_MAX,
    ensures
        r == spec_mm_y(screen_h),
{
    screen_h - MM_H - 34
}

/// Whether the window manager is asked for the whole screen on a frame: a few times over
/// the first seconds, since the window has to be up before it can be found.
pub fn fullscreen_tick(frame: u64) -> (ask: bool)
    ensures
        ask == (frame == 10 || frame == 45 || frame == 90 || frame == 160),
{
    frame == 10 || frame == 45 || frame == 90 || frame == 160
}

/// One line of a list of screens: whether it tells of a connected one, whether of the
/// primary one, and the geometry in it, if any.
#[derive(Clone, Copy, Debug)]
pub struct ScreenLine {
    pub connected: bool,
    pub primary: bool,
    pub geometry: Option<(usize, usize, i32, i32)>,
}

/// A screen that can be used.
pub open spec fn usable(l: ScreenLine) -> bool {
    l.connected && l.geometry is Some
}

/// The last of the lines that tell of a primary screen, or one past the last.
pub open spec fn last_primary(lines: Seq<ScreenLine>) -> int
    decreases lines.len(),
{
    if lines.len() == 0 {
        0
    } else if usable(lines.last()) && lines.last().primary {
        lines.len() - 1
    } else {
        let k = last_primary(lines.drop_last());
        if k == lines.len() - 1 {
            lines.len() as int
        } else {
            k
        }
    }
}

/// The first of the lines that tell of a screen, or one past the last.
pub open spec fn first_usable(lines: Seq<ScreenLine>) -> int
    decreases lines.len(),
{
    if lines.len() == 0 {
        0
    } else {
        let k = first_usable(lines.drop_last());
        if k < lines.len() - 1 || usable(lines.last()) {
            k
        } else {
            lines.len() as int
        }
    }
}

/// The screen to fill: the primary one, or else the first, or else a plain window.
pub open spec fn chosen_screen(lines: Seq<ScreenLine>) -> (usize, usize, i32, i32) {
    if last_primary(lines) < lines.len() {
        lines[last_primary(lines)].geometry->0
    } else if first_usable(lines) < lines.len() {
        lines[first_usable(lines)].geometry->0
    } else {
        (1280usize, 720usize, 0i32, 0i32)
    }
}

proof fn lemma_screen_bounds(lines: Seq<ScreenLine>)
    ensures
        0 <= last_primary(lines) <= lines.len(),
        0 <= first_usable(lines) <= lines.len(),
    decreases lines.len(),
{
    if lines.len() > 0 {
        lemma_screen_bounds(lines.drop_last());
    }
}

/// The screen to fill.
pub fn detect_screen(lines: &Vec<ScreenLine>) -> (r: (usize, usize, i32, i32))
    ensures
        r == chosen_screen(lines@),
{
    let mut first: Option<usize> = None;
    let mut primary: Option<usize> = None;
    let n: usize = lines.len();
    for i in 0..n
        invariant
            n == lines@.len(),
            match first {
                Some(k) => k < i && first_usable(lines@.take(i as int)) == k && usable(lines@[k as int]),
                None => first_usable(lines@.take(i as int)) == i,
            },
            match primary {
                Some(k) => k < i && last_primary(lines@.take(i as int)) == k && usable(lines@[k as int]),
                None => last_primary(lines@.take(i as int)) == i,
            },
    {
        let l = lines[i];
        proof {
            let t = lines@.take(i + 1);
            assert(t.drop_last() =~= lines@.take(i as int));
            assert(t.last() == l);
            lemma_screen_bounds(lines@.take(i as int));
        }
        if l.connected && l.geometry.is_some() {
            if l.primary {
                primary = Some(i);
            }
            if first.is_none() {
                first = Some(i);
            }
        }
    }
    assert(lines@.take(n as int) =~= lines@);
    let pick: Option<usize> = match primary {
        Some(k) => Some(k),
        None => first,
    };
    match pick {
        Some(k) => match lines[k].geometry {
            Some(g) => g,
            None => (1280, 720, 0, 0),
        },
        None => (1280, 720, 0, 0),
    }
}

/// The last connected primary screen is taken; without one the first connected screen whose
/// size is known; and without any, 1280 by 720.
pub proof fn the_primary_screen_is_taken(lines: Seq<ScreenLine>, j: int)
    requires
        0 <= j < lines.len(),
    ensures
        ({
            let (p, f) = (last_primary(lines), first_usable(lines));
            let l = lines[j];
            &&& 0 <= p <= lines.len() && 0 <= f <= lines.len()
            &&& l.connected && l.geometry is Some && l.primary ==> j <= p < lines.len()
            &&& p < lines.len() ==> lines[p].connected && lines[p].geometry is Some && lines[p].primary
                && chosen_screen(lines) == lines[p].geometry->0
            &&& l.connected && l.geometry is Some ==> f <= j
            &&& f < lines.len() ==> lines[f].connected && lines[f].geometry is Some
            &&& p == lines.len() && f < lines.len() ==> chosen_screen(lines) == lines[f].geometry->0
            &&& p == lines.len() && f == lines.len() ==> chosen_screen(lines) == (1280usize, 720usize, 0i32, 0i32)
        }),
    decreases lines.len(),
{
    let front = lines.drop_last();
    if front.len() > 0 {
        let k = if j < front.len() {
            j
        } else {
            0
        };
        the_primary_screen_is_taken(front, k);
        if j < front.len() {
            assert(front[j] == lines[j]);
        }
        let (p, f) = (last_primary(front), first_usable(front));
        if p < front.len() {
            assert(front[p] == lines[p]);
        }
        if f < front.len() {
            assert(front[f] == lines[f]);
        }
    } else {
        assert(last_primary(front) == 0 && first_usable(front) == 0);
    }
}

/// The picture keeps its shape: 720 lines high, and as wide as the screen is for its height, but
/// at least 640.
pub proof fn the_picture_keeps_its_shape(sw: int, sh: int)
    requires
        sw >= 0,
    ensures
        width_for(sw, sh) >= 640,
        sh > 0 && 720 * sw >= 640 * sh ==> width_for(sw, sh) * sh <= 720 * sw < (width_for(sw, sh) + 1) * sh,
        sh <= 0 ==> width_for(sw, sh) == 1280,
{
    if sh > 0 {
        let q = 720 * sw / sh;
        assert(q * sh <= 720 * sw < (q + 1) * sh) by (nonlinear_arith)
            requires
                sh > 0,
                q == 720 * sw / sh,
        ;
        if 720 * sw >= 640 * sh {
            assert(q >= 640) by (nonlinear_arith)
                requires
                    720 * sw >= 640 * sh,
                    720 * sw < (q + 1) * sh,
                    sh > 0,
            ;
        }
    }
}

/// The minimap sits in the lower right corner, ten pixels off the edge and above the hint.
pub proof fn the_minimap_sits_in_its_corner(sw: i32, sh: i32)
    ensures
        spec_mm_x(sw) + 220 + 10 == sw,
        spec_mm_y(sh) + 138 + 34 == sh,
{
}

} // verus!
