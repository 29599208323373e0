//! A software canvas: a flat buffer of packed colours, and rectangles, discs, circles,
//! diamonds, triangles, lines and text drawn into it. Whatever lies off the canvas is
//! left out. Each drawing paints one colour onto a set of pixels; the contracts say
//! which.

use vstd::prelude::*;
use vstd::string::*;
use crate::font::{glyph, glyph_lit, lit, ADVANCE, GLYPH_H, GLYPH_W};

verus! {

/// Bound on the coordinates and sizes that shapes are given in.
pub const GFX_MAX: i32 = 100_000_000;

/// A buffer of packed colours, row by row.
pub struct Canvas {
    pub w: i32,
    pub h: i32,
    pub buf: Vec<u32>,
}

/// A picture.
#[verifier::ext_equal]
pub struct Pic {
    pub w: int,
    pub h: int,
    pub px: Seq<u32>,
}

impl View for Canvas {
    type V = Pic;

    open spec fn view(&self) -> Pic {
        Pic { w: self.w as int, h: self.h as int, px: self.buf@ }
    }
}

/// A packed opaque colour.
pub open spec fn spec_rgb(r: u8, g: u8, b: u8) -> u32 {
    (0xFF00_0000 + r * 0x1_0000 + g * 0x100 + b) as u32
}

/// A packed opaque colour.
#[verifier::when_used_as_spec(spec_rgb)]
pub fn rgb(r: u8, g: u8, b: u8) -> (c: u32)
    ensures
        c == spec_rgb(r, g, b),
{
    0xFF00_0000 + r as u32 * 0x1_0000 + g as u32 * 0x100 + b as u32
}

pub open spec fn abs(a: int) -> int {
    if a < 0 {
        -a
    } else {
        a
    }
}

pub open spec fn max(a: int, b: int) -> int {
    if a < b {
        b
    } else {
        a
    }
}

pub open spec fn min(a: int, b: int) -> int {
    if a < b {
        a
    } else {
        b
    }
}

/// A set of pixels.
pub type Mask = spec_fn(int, int) -> bool;

impl Pic {
    /// The picture with a colour on every pixel of a set.
    pub open spec fn paint(self, mask: Mask, color: u32) -> Pic {
        Pic {
            px: Seq::new(
                self.px.len(),
                |v: int|
                    if mask(v % self.w, v / self.w) {
                        color
                    } else {
                        self.px[v]
                    },
            ),
            ..self
        }
    }

    /// The colour of pixel `(x, y)`.
    pub open spec fn at(self, x: int, y: int) -> u32 {
        self.px[y * self.w + x]
    }

    pub open spec fn has(self, x: int, y: int) -> bool {
        0 <= x < self.w && 0 <= y < self.h
    }

    pub open spec fn put(self, x: int, y: int, color: u32) -> Pic {
        self.paint(only(x, y), color)
    }

    pub open spec fn fill_rect(self, x: int, y: int, w: int, h: int, color: u32) -> Pic {
        self.paint(in_rect(x, y, w, h), color)
    }

    pub open spec fn rect(self, x: int, y: int, w: int, h: int, color: u32) -> Pic {
        self.fill_rect(x, y, w, 1, color).fill_rect(x, y + h - 1, w, 1, color).fill_rect(
            x,
            y,
            1,
            h,
            color,
        ).fill_rect(x + w - 1, y, 1, h, color)
    }

    pub open spec fn fill_circle(self, cx: int, cy: int, r: int, color: u32) -> Pic {
        self.paint(in_disc(cx, cy, r), color)
    }

    pub open spec fn circle(self, cx: int, cy: int, r: int, color: u32) -> Pic {
        self.paint(on_circle(cx, cy, r), color)
    }

    pub open spec fn fill_diamond(self, cx: int, cy: int, r: int, color: u32) -> Pic {
        self.paint(in_diamond(cx, cy, r), color)
    }

    pub open spec fn fill_tri(
        self,
        x0: int,
        y0: int,
        x1: int,
        y1: int,
        x2: int,
        y2: int,
        color: u32,
    ) -> Pic {
        self.paint(in_tri(x0, y0, x1, y1, x2, y2), color)
    }

    pub open spec fn line(self, x0: int, y0: int, x1: int, y1: int, color: u32) -> Pic {
        self.paint(on_line(x0, y0, x1, y1), color)
    }

    pub open spec fn glyph(self, x: int, y: int, c: char, color: u32, scale: int) -> Pic {
        self.paint(in_glyph(x, y, c, scale), color)
    }

    /// Text drawn from left to right.
    pub open spec fn text(self, x: int, y: int, s: Seq<char>, color: u32, scale: int) -> Pic
        decreases s.len(),
    {
        if s.len() == 0 {
            self
        } else {
            self.text(x, y, s.drop_last(), color, scale).glyph(
                x + ADVANCE * scale * (s.len() - 1),
                y,
                s.last(),
                color,
                scale,
            )
        }
    }

    /// Text over its own shadow.
    pub open spec fn text_sh(self, x: int, y: int, s: Seq<char>, color: u32, scale: int) -> Pic {
        self.text(x + scale, y + scale, s, rgb(0, 0, 0), scale).text(x, y, s, color, scale)
    }

    pub open spec fn text_center(self, cx: int, y: int, s: Seq<char>, color: u32, scale: int) -> Pic {
        self.text_sh(cx - half(width_of(s, scale)), y, s, color, scale)
    }
}

/// Half of a number, rounded toward zero.
pub open spec fn half(a: int) -> int {
    if a < 0 {
        -((-a) / 2)
    } else {
        a / 2
    }
}

/// Width of a text in pixels.
pub open spec fn width_of(s: Seq<char>, scale: int) -> int {
    s.len() * ADVANCE * scale
}

pub open spec fn only(x: int, y: int) -> Mask {
    |px: int, py: int| px == x && py == y
}

pub open spec fn in_rect(x: int, y: int, w: int, h: int) -> Mask {
    |px: int, py: int| x <= px < x + w && y <= py < y + h
}

/// A disc: every pixel within `r` of the centre; just the centre for no radius.
pub open spec fn in_disc(cx: int, cy: int, r: int) -> Mask {
    |px: int, py: int|
        if r <= 0 {
            px == cx && py == cy
        } else {
            (px - cx) * (px - cx) + (py - cy) * (py - cy) <= r * r
        }
}

/// A circle outline: with `a` the larger and `b` the smaller offset from the centre,
/// the one `a` for each `b` that brings the pixel closest to the circle.
pub open spec fn on_circle(cx: int, cy: int, r: int) -> Mask {
    |px: int, py: int| ring(r, abs(px - cx), abs(py - cy))
}

pub open spec fn ring(r: int, dx: int, dy: int) -> bool {
    let a = max(dx, dy);
    let b = min(dx, dy);
    if r == 0 {
        a == 0
    } else {
        r > 0 && b * b + a * (a - 1) < r * r <= b * b + a * (a + 1)
    }
}

pub open spec fn in_diamond(cx: int, cy: int, r: int) -> Mask {
    |px: int, py: int| abs(px - cx) + abs(py - cy) <= r
}

/// Twice the signed area of the triangle from `(x, y)` to an edge.
pub open spec fn edge(x: int, y: int, ax: int, ay: int, bx: int, by: int) -> int {
    (ax - x) * (by - y) - (bx - x) * (ay - y)
}

/// A triangle with its border: the pixels on no two edges' opposite sides, within the
/// bounding box.
pub open spec fn in_tri(x0: int, y0: int, x1: int, y1: int, x2: int, y2: int) -> Mask {
    |px: int, py: int|
        {
            let w0 = edge(px, py, x1, y1, x2, y2);
            let w1 = edge(px, py, x2, y2, x0, y0);
            let w2 = edge(px, py, x0, y0, x1, y1);
            &&& min(min(x0, x1), x2) <= px <= max(max(x0, x1), x2)
            &&& min(min(y0, y1), y2) <= py <= max(max(y0, y1), y2)
            &&& ((w0 >= 0 && w1 >= 0 && w2 >= 0) || (w0 <= 0 && w1 <= 0 && w2 <= 0))
        }
}

pub open spec fn sign(a: int) -> int {
    if a > 0 {
        1
    } else {
        -1
    }
}

/// How far a line has moved along its shorter side after `i` of `a` steps along its
/// longer one: rounded to the nearest, halves up.
pub open spec fn shift(a: int, b: int, i: int) -> int {
    if a == 0 {
        0
    } else {
        (2 * b * i + a) / (2 * a)
    }
}

/// A line with both its ends: one pixel for each step along its longer side.
pub open spec fn on_line(x0: int, y0: int, x1: int, y1: int) -> Mask {
    |px: int, py: int| line_at(x0, y0, x1, y1, px, py)
}

pub open spec fn line_at(x0: int, y0: int, x1: int, y1: int, px: int, py: int) -> bool {
    let a = abs(x1 - x0);
    let b = abs(y1 - y0);
    let sx = sign(x1 - x0);
    let sy = sign(y1 - y0);
    if a >= b {
        let i = sx * (px - x0);
        0 <= i <= a && py == y0 + sy * shift(a, b, i)
    } else {
        let j = sy * (py - y0);
        0 <= j <= b && px == x0 + sx * shift(b, a, j)
    }
}

/// The lit cells of a glyph, each `scale` pixels wide and high.
pub open spec fn in_glyph(x: int, y: int, c: char, scale: int) -> Mask {
    |px: int, py: int|
        scale > 0 && 0 <= px - x < GLYPH_W * scale && 0 <= py - y < GLYPH_H * scale && glyph_lit(
            c,
            (py - y) / scale,
            (px - x) / scale,
        )
}

proof fn lemma_pixel(w: int, h: int, x: int, y: int)
    requires
        0 <= x < w,
        0 <= y < h,
    ensures
        0 <= y * w + x < w * h,
        (y * w + x) % w == x,
        (y * w + x) / w == y,
{
    assert(0 <= y * w + x < w * h) by (nonlinear_arith)
        requires
            0 <= x < w,
            0 <= y < h,
    ;
    vstd::arithmetic::div_mod::lemma_fundamental_div_mod_converse(y * w + x, w, y, x);
}

proof fn lemma_back(w: int, h: int, v: int)
    requires
        0 <= w,
        0 <= v < w * h,
    ensures
        0 < w,
        0 <= v % w < w,
        0 <= v / w < h,
        (v / w) * w + v % w == v,
{
    assert(0 < w) by (nonlinear_arith)
        requires
            0 <= w,
            0 < w * h,
    ;
    vstd::arithmetic::div_mod::lemma_fundamental_div_mod(v, w);
    assert(v / w * w == w * (v / w)) by (nonlinear_arith);
    assert(0 <= v / w < h) by (nonlinear_arith)
        requires
            0 <= v < w * h,
            0 < w,
    ;
}

/// Painting with two sets that hold the same pixels of the canvas is the same.
pub proof fn lemma_same_paint(p: Pic, a: Mask, b: Mask, color: u32)
    requires
        0 <= p.w,
        0 <= p.h,
        p.px.len() == p.w * p.h,
        forall|x: int, y: int| p.has(x, y) ==> #[trigger] a(x, y) == b(x, y),
    ensures
        p.paint(a, color) == p.paint(b, color),
{
    assert forall|v: int| 0 <= v < p.px.len() implies p.paint(a, color).px[v] == p.paint(b, color).px[v] by {
        lemma_back(p.w, p.h, v);
        assert(p.has(v % p.w, v / p.w));
        assert(a(v % p.w, v / p.w) == b(v % p.w, v / p.w));
    }
    assert(p.paint(a, color) =~= p.paint(b, color));
}

/// Painting twice with one colour paints both sets.
pub proof fn lemma_paint_twice(p: Pic, a: Mask, b: Mask, color: u32)
    ensures
        p.paint(a, color).paint(b, color) == p.paint(|x: int, y: int| a(x, y) || b(x, y), color),
{
    assert(p.paint(a, color).paint(b, color) =~= p.paint(|x: int, y: int| a(x, y) || b(x, y), color));
}

/// Painting onto no pixel of the canvas changes nothing.
pub proof fn lemma_paint_nothing(p: Pic, a: Mask, color: u32)
    requires
        0 <= p.w,
        0 <= p.h,
        p.px.len() == p.w * p.h,
        forall|x: int, y: int| p.has(x, y) ==> !#[trigger] a(x, y),
    ensures
        p.paint(a, color) == p,
{
    assert forall|v: int| 0 <= v < p.px.len() implies p.paint(a, color).px[v] == p.px[v] by {
        lemma_back(p.w, p.h, v);
        assert(p.has(v % p.w, v / p.w));
        assert(!a(v % p.w, v / p.w));
    }
    assert(p.paint(a, color) =~= p);
}

/// Drawing changes only pixels of the set, and those to the colour; and it never
/// changes the size of the picture.
pub proof fn painting_is_local(p: Pic, mask: Mask, color: u32, x: int, y: int)
    requires
        p.has(x, y),
        p.px.len() == p.w * p.h,
    ensures
        p.paint(mask, color).at(x, y) == (if mask(x, y) {
            color
        } else {
            p.at(x, y)
        }),
        p.paint(mask, color).w == p.w,
        p.paint(mask, color).h == p.h,
        p.paint(mask, color).px.len() == p.px.len(),
{
    lemma_pixel(p.w, p.h, x, y);
}

impl Canvas {
    /// One colour per pixel.
    pub open spec fn wf(&self) -> bool {
        &&& 0 <= self.w <= GFX_MAX
        &&& 0 <= self.h <= GFX_MAX
        &&& self.w * self.h <= i32::MAX
        &&& self.buf@.len() == self.w * self.h
    }

    /// A black canvas.
    pub fn new(w: i32, h: i32) -> (r: Canvas)
        requires
            0 <= w <= GFX_MAX,
            0 <= h <= GFX_MAX,
            w * h <= i32::MAX,
        ensures
            r.wf(),
            r@.w == w,
            r@.h == h,
            forall|v: int| 0 <= v < w * h ==> #[trigger] r@.px[v] == rgb(0, 0, 0),
    {
        assert(0 <= w * h) by (nonlinear_arith)
            requires
                0 <= w,
                0 <= h,
        ;
        Canvas { w, h, buf: vec![0xFF00_0000u32; (w * h) as usize] }
    }

    /// Paints the whole canvas.
    pub fn clear(&mut self, color: u32)
        requires
            old(self).wf(),
        ensures
            final(self).wf(),
            final(self)@ == old(self)@.paint(|x: int, y: int| true, color),
    {
        let n: usize = self.buf.len();
        self.buf = vec![color; n];
        assert(self@ =~= old(self)@.paint(|x: int, y: int| true, color));
    }

    /// Paints one pixel, if it is on the canvas.
    pub fn put(&mut self, x: i32, y: i32, color: u32)
        requires
            old(self).wf(),
        ensures
            final(self).wf(),
            final(self)@ == old(self)@.put(x as int, y as int, color),
    {
        let ghost p = self@;
        if x >= 0 && y >= 0 && x < self.w && y < self.h {
            proof {
                lemma_pixel(self.w as int, self.h as int, x as int, y as int);
                assert(0 <= y * self.w) by (nonlinear_arith)
                    requires
                        0 <= y,
                        0 <= self.w,
                ;
            }
            self.buf[(y * self.w + x) as usize] = color;
            proof {
                assert forall|v: int| 0 <= v < p.px.len() implies self@.px[v] == p.put(
                    x as int,
                    y as int,
                    color,
                ).px[v] by {
                    lemma_back(p.w, p.h, v);
                }
                assert(self@ =~= p.put(x as int, y as int, color));
            }
        } else {
            proof {
                lemma_paint_nothing(p, only(x as int, y as int), color);
            }
        }
    }

    /// Paints a run of pixels in one row.
    fn fill_row(&mut self, y: i32, x0: i32, x1: i32, color: u32)
        requires
            old(self).wf(),
            0 <= y < old(self).h,
            0 <= x0,
            x1 <= old(self).w,
            x0 <= GFX_MAX,
            -GFX_MAX <= x1,
        ensures
            final(self).wf(),
            final(self)@ == old(self)@.paint(in_rect(x0 as int, y as int, x1 - x0, 1), color),
    {
        let ghost p = self@;
        if x0 >= x1 {
            proof {
                lemma_paint_nothing(p, in_rect(x0 as int, y as int, x1 - x0, 1), color);
            }
            return;
        }
        let mut x: i32 = x0;
        proof {
            lemma_paint_nothing(p, in_rect(x0 as int, y as int, 0, 1), color);
        }
        while x < x1
            invariant
                self.wf(),
                self.w == p.w,
                self.h == p.h,
                p.px.len() == p.w * p.h,
                0 <= y < self.h,
                0 <= x0 <= x <= x1 <= self.w,
                self@ == p.paint(in_rect(x0 as int, y as int, x - x0, 1), color),
            decreases x1 - x,
        {
            self.put(x, y, color);
            proof {
                lemma_grow(
                    p,
                    in_rect(x0 as int, y as int, x - x0, 1),
                    only(x as int, y as int),
                    in_rect(x0 as int, y as int, x + 1 - x0, 1),
                    color,
                );
            }
            x = x + 1;
        }
    }

    /// Paints a rectangle.
    pub fn fill_rect(&mut self, x: i32, y: i32, w: i32, h: i32, color: u32)
        requires
            old(self).wf(),
            i32::MIN <= x + w <= i32::MAX,
            i32::MIN <= y + h <= i32::MAX,
        ensures
            final(self).wf(),
            final(self)@ == old(self)@.fill_rect(x as int, y as int, w as int, h as int, color),
    {
        let ghost p = self@;
        let ghost m = in_rect(x as int, y as int, w as int, h as int);
        let x0: i32 = if x < 0 { 0 } else { x };
        let y0: i32 = if y < 0 { 0 } else { y };
        let x1: i32 = if x + w < self.w { x + w } else { self.w };
        let y1: i32 = if y + h < self.h { y + h } else { self.h };
        if x0 >= x1 || y0 >= y1 {
            proof {
                lemma_paint_nothing(p, m, color);
            }
            return;
        }
        let mut yy: i32 = y0;
        let ghost cut = |k: int| (|px: int, py: int| m(px, py) && py < k);
        proof {
            lemma_paint_nothing(p, cut(y0 as int), color);
        }
        while yy < y1
            invariant
                self.wf(),
                self.w == p.w,
                self.h == p.h,
                p.px.len() == p.w * p.h,
                m == in_rect(x as int, y as int, w as int, h as int),
                cut == (|k: int| (|px: int, py: int| m(px, py) && py < k)),
                x0 == max(x as int, 0),
                y0 == max(y as int, 0),
                x1 == min(x + w, p.w),
                y1 == min(y + h, p.h),
                x0 < x1,
                y0 <= yy <= y1,
                self@ == p.paint(cut(yy as int), color),
            decreases y1 - yy,
        {
            self.fill_row(yy, x0, x1, color);
            proof {
                lemma_grow(
                    p,
                    cut(yy as int),
                    in_rect(x0 as int, yy as int, x1 - x0, 1),
                    cut(yy + 1),
                    color,
                );
            }
            yy = yy + 1;
        }
        proof {
            lemma_same_paint(p, cut(y1 as int), m, color);
        }
    }

    /// Paints the border of a rectangle.
    pub fn rect(&mut self, x: i32, y: i32, w: i32, h: i32, color: u32)
        requires
            old(self).wf(),
            i32::MIN < x + w <= i32::MAX,
            i32::MIN < y + h <= i32::MAX,
            x < i32::MAX,
            y < i32::MAX,
        ensures
            final(self).wf(),
            final(self)@ == old(self)@.rect(x as int, y as int, w as int, h as int, color),
    {
        self.fill_rect(x, y, w, 1, color);
        self.fill_rect(x, y + h - 1, w, 1, color);
        self.fill_rect(x, y, 1, h, color);
        self.fill_rect(x + w - 1, y, 1, h, color);
    }

    /// Paints a disc.
    pub fn fill_circle(&mut self, cx: i32, cy: i32, r: i32, color: u32)
        requires
            old(self).wf(),
            -GFX_MAX <= cx <= GFX_MAX,
            -GFX_MAX <= cy <= GFX_MAX,
            r <= 46_340,
        ensures
            final(self).wf(),
            final(self)@ == old(self)@.fill_circle(cx as int, cy as int, r as int, color),
    {
        let ghost p = self@;
        let ghost m = in_disc(cx as int, cy as int, r as int);
        if r <= 0 {
            self.put(cx, cy, color);
            proof {
                lemma_same_paint(p, only(cx as int, cy as int), m, color);
            }
            return;
        }
        assert(r * r <= i32::MAX && 0 < r * r) by (nonlinear_arith)
            requires
                0 < r <= 46_340,
        ;
        let r2: i32 = r * r;
        let mut dy: i32 = -r;
        let ghost cut = |k: int| (|px: int, py: int| m(px, py) && py < k);
        proof {
            assert forall|px: int, py: int| p.has(px, py) implies !#[trigger] cut(cy - r)(px, py) by {
                if py < cy - r {
                    let d = py - cy;
                    let e = px - cx;
                    assert(e * e + d * d > r * r) by (nonlinear_arith)
                        requires
                            d < -r,
                            r > 0,
                    ;
                }
            }
            lemma_paint_nothing(p, cut(cy - r), color);
        }
        while dy <= r
            invariant
                self.wf(),
                self.w == p.w,
                self.h == p.h,
                p.px.len() == p.w * p.h,
                m == in_disc(cx as int, cy as int, r as int),
                cut == (|k: int| (|px: int, py: int| m(px, py) && py < k)),
                -GFX_MAX <= cx <= GFX_MAX,
                -GFX_MAX <= cy <= GFX_MAX,
                0 < r <= 46_340,
                r2 == r * r,
                -r <= dy <= r + 1,
                self@ == p.paint(cut(cy + dy), color),
            decreases r + 1 - dy,
        {
            let yy: i32 = cy + dy;
            if yy >= 0 && yy < self.h {
                assert(0 <= dy * dy <= r2) by (nonlinear_arith)
                    requires
                        -r <= dy <= r,
                        r2 == r * r,
                ;
                let span: i32 = isqrt(r2 - dy * dy);
                let x0: i32 = if cx - span < 0 { 0 } else { cx - span };
                let x1: i32 = if cx + span < self.w { cx + span + 1 } else { self.w };
                self.fill_row(yy, x0, x1, color);
                proof {
                    assert forall|px: int, py: int| p.has(px, py) implies #[trigger] cut(cy + dy + 1)(px, py)
                        == (cut(cy + dy)(px, py) || in_rect(x0 as int, yy as int, x1 - x0, 1)(px, py)) by {
                        if py == yy {
                            let e = px - cx;
                            lemma_span(e, r2 - dy * dy, span as int);
                        }
                    }
                    lemma_grow(
                        p,
                        cut(cy + dy),
                        in_rect(x0 as int, yy as int, x1 - x0, 1),
                        cut(cy + dy + 1),
                        color,
                    );
                }
            } else {
                proof {
                    lemma_same_paint(p, cut(cy + dy), cut(cy + dy + 1), color);
                }
            }
            dy = dy + 1;
        }
        proof {
            assert forall|px: int, py: int| p.has(px, py) implies #[trigger] cut(cy + dy)(px, py) == m(
                px,
                py,
            ) by {
                if py > cy + r {
                    let d = py - cy;
                    let e = px - cx;
                    assert(e * e + d * d > r * r) by (nonlinear_arith)
                        requires
                            d > r,
                            r > 0,
                    ;
                }
            }
            lemma_same_paint(p, cut(cy + dy), m, color);
        }
    }

    /// Paints a diamond.
    pub fn fill_diamond(&mut self, cx: i32, cy: i32, r: i32, color: u32)
        requires
            old(self).wf(),
            -GFX_MAX <= cx <= GFX_MAX,
            -GFX_MAX <= cy <= GFX_MAX,
            r <= GFX_MAX,
        ensures
            final(self).wf(),
            final(self)@ == old(self)@.fill_diamond(cx as int, cy as int, r as int, color),
    {
        let ghost p = self@;
        let ghost m = in_diamond(cx as int, cy as int, r as int);
        if r < 0 {
            proof {
                lemma_paint_nothing(p, m, color);
            }
            return;
        }
        let mut dy: i32 = -r;
        let ghost cut = |k: int| (|px: int, py: int| m(px, py) && py < k);
        proof {
            lemma_paint_nothing(p, cut(cy - r), color);
        }
        while dy <= r
            invariant
                self.wf(),
                self.w == p.w,
                self.h == p.h,
                p.px.len() == p.w * p.h,
                m == in_diamond(cx as int, cy as int, r as int),
                cut == (|k: int| (|px: int, py: int| m(px, py) && py < k)),
                -GFX_MAX <= cx <= GFX_MAX,
                -GFX_MAX <= cy <= GFX_MAX,
                0 <= r <= GFX_MAX,
                -r <= dy <= r + 1,
                self@ == p.paint(cut(cy + dy), color),
            decreases r + 1 - dy,
        {
            let yy: i32 = cy + dy;
            if yy >= 0 && yy < self.h {
                let span: i32 = r - (if dy < 0 { -dy } else { dy });
                let x0: i32 = if cx - span < 0 { 0 } else { cx - span };
                let x1: i32 = if cx + span < self.w { cx + span + 1 } else { self.w };
                self.fill_row(yy, x0, x1, color);
                proof {
                    lemma_grow(
                        p,
                        cut(cy + dy),
                        in_rect(x0 as int, yy as int, x1 - x0, 1),
                        cut(cy + dy + 1),
                        color,
                    );
                }
            } else {
                proof {
                    lemma_same_paint(p, cut(cy + dy), cut(cy + dy + 1), color);
                }
            }
            dy = dy + 1;
        }
        proof {
            lemma_same_paint(p, cut(cy + dy), m, color);
        }
    }

    /// Paints a triangle with its border.
    pub fn fill_tri(&mut self, x0: i32, y0: i32, x1: i32, y1: i32, x2: i32, y2: i32, color: u32)
        requires
            old(self).wf(),
            -GFX_MAX <= x0 <= GFX_MAX,
            -GFX_MAX <= y0 <= GFX_MAX,
            -GFX_MAX <= x1 <= GFX_MAX,
            -GFX_MAX <= y1 <= GFX_MAX,
            -GFX_MAX <= x2 <= GFX_MAX,
            -GFX_MAX <= y2 <= GFX_MAX,
        ensures
            final(self).wf(),
            final(self)@ == old(self)@.fill_tri(
                x0 as int,
                y0 as int,
                x1 as int,
                y1 as int,
                x2 as int,
                y2 as int,
                color,
            ),
    {
        let ghost p = self@;
        let ghost m = in_tri(x0 as int, y0 as int, x1 as int, y1 as int, x2 as int, y2 as int);
        let minx: i32 = max0(least(least(x0, x1), x2));
        let miny: i32 = max0(least(least(y0, y1), y2));
        let maxx: i32 = least(most(most(x0, x1), x2), self.w - 1);
        let maxy: i32 = least(most(most(y0, y1), y2), self.h - 1);
        let ghost cut = |k: int| (|px: int, py: int| m(px, py) && py < k);
        let mut y: i32 = miny;
        proof {
            lemma_paint_nothing(p, cut(miny as int), color);
        }
        while y <= maxy
            invariant
                self.wf(),
                self.w == p.w,
                self.h == p.h,
                p.px.len() == p.w * p.h,
                m == in_tri(x0 as int, y0 as int, x1 as int, y1 as int, x2 as int, y2 as int),
                cut == (|k: int| (|px: int, py: int| m(px, py) && py < k)),
                -GFX_MAX <= x0 <= GFX_MAX,
                -GFX_MAX <= y0 <= GFX_MAX,
                -GFX_MAX <= x1 <= GFX_MAX,
                -GFX_MAX <= y1 <= GFX_MAX,
                -GFX_MAX <= x2 <= GFX_MAX,
                -GFX_MAX <= y2 <= GFX_MAX,
                minx == max(0, min(min(x0 as int, x1 as int), x2 as int)),
                miny == max(0, min(min(y0 as int, y1 as int), y2 as int)),
                maxx == min(max(max(x0 as int, x1 as int), x2 as int), p.w - 1),
                maxy == min(max(max(y0 as int, y1 as int), y2 as int), p.h - 1),
                miny <= y,
                y <= maxy + 1 || maxy + 1 < miny,
                self@ == p.paint(cut(y as int), color),
            decreases maxy + 1 - y,
        {
            let mut x: i32 = minx;
            let ghost upto = |k: int|
                (|px: int, py: int| m(px, py) && (py < y || (py == y && px < k)));
            proof {
                lemma_same_paint(p, cut(y as int), upto(minx as int), color);
            }
            while x <= maxx
                invariant
                    self.wf(),
                    self.w == p.w,
                    self.h == p.h,
                    p.px.len() == p.w * p.h,
                    m == in_tri(x0 as int, y0 as int, x1 as int, y1 as int, x2 as int, y2 as int),
                    upto == (|k: int|
                        (|px: int, py: int| m(px, py) && (py < y || (py == y && px < k)))),
                    -GFX_MAX <= x0 <= GFX_MAX,
                    -GFX_MAX <= y0 <= GFX_MAX,
                    -GFX_MAX <= x1 <= GFX_MAX,
                    -GFX_MAX <= y1 <= GFX_MAX,
                    -GFX_MAX <= x2 <= GFX_MAX,
                    -GFX_MAX <= y2 <= GFX_MAX,
                    minx == max(0, min(min(x0 as int, x1 as int), x2 as int)),
                    miny == max(0, min(min(y0 as int, y1 as int), y2 as int)),
                    maxx == min(max(max(x0 as int, x1 as int), x2 as int), p.w - 1),
                    maxy == min(max(max(y0 as int, y1 as int), y2 as int), p.h - 1),
                    miny <= y <= maxy,
                    minx <= x,
                    x <= maxx + 1 || maxx + 1 < minx,
                    self@ == p.paint(upto(x as int), color),
                decreases maxx + 1 - x,
            {
                let w0: i64 = edge_at(x, y, x1, y1, x2, y2);
                let w1: i64 = edge_at(x, y, x2, y2, x0, y0);
                let w2: i64 = edge_at(x, y, x0, y0, x1, y1);
                let neg: bool = w0 < 0 || w1 < 0 || w2 < 0;
                let pos: bool = w0 > 0 || w1 > 0 || w2 > 0;
                if !(neg && pos) {
                    self.put(x, y, color);
                    proof {
                        assert(m(x as int, y as int));
                        lemma_grow(
                            p,
                            upto(x as int),
                            only(x as int, y as int),
                            upto(x + 1),
                            color,
                        );
                    }
                } else {
                    proof {
                        assert(!m(x as int, y as int));
                        lemma_same_paint(p, upto(x as int), upto(x + 1), color);
                    }
                }
                x = x + 1;
            }
            proof {
                lemma_same_paint(p, upto(x as int), cut(y + 1), color);
            }
            y = y + 1;
        }
        proof {
            lemma_same_paint(p, cut(y as int), m, color);
        }
    }
}

impl Canvas {
    /// Paints the eight mirror images of an offset from a centre.
    fn put8(&mut self, cx: i32, cy: i32, x: i32, y: i32, color: u32)
        requires
            old(self).wf(),
            -GFX_MAX <= cx <= GFX_MAX,
            -GFX_MAX <= cy <= GFX_MAX,
            0 <= y <= x <= GFX_MAX,
        ensures
            final(self).wf(),
            final(self)@ == old(self)@.paint(
                mirrored(cx as int, cy as int, x as int, y as int),
                color,
            ),
    {
        let ghost p = self@;
        self.put(cx + x, cy + y, color);
        self.put(cx + y, cy + x, color);
        self.put(cx - y, cy + x, color);
        self.put(cx - x, cy + y, color);
        self.put(cx - x, cy - y, color);
        self.put(cx - y, cy - x, color);
        self.put(cx + y, cy - x, color);
        self.put(cx + x, cy - y, color);
        proof {
            let q = p.paint(mirrored(cx as int, cy as int, x as int, y as int), color);
            assert forall|v: int| 0 <= v < p.px.len() implies self@.px[v] == q.px[v] by {
                lemma_back(p.w, p.h, v);
            }
            assert(self@ =~= q);
        }
    }

    /// Paints a circle outline.
    pub fn circle(&mut self, cx: i32, cy: i32, r: i32, color: u32)
        requires
            old(self).wf(),
            -GFX_MAX <= cx <= GFX_MAX,
            -GFX_MAX <= cy <= GFX_MAX,
            -GFX_MAX <= r <= GFX_MAX,
        ensures
            final(self).wf(),
            final(self)@ == old(self)@.circle(cx as int, cy as int, r as int, color),
    {
        let ghost p = self@;
        let ghost m = on_circle(cx as int, cy as int, r as int);
        if r < 0 {
            proof {
                lemma_paint_nothing(p, m, color);
            }
            return;
        }
        if r == 0 {
            self.put(cx, cy, color);
            proof {
                lemma_same_paint(p, only(cx as int, cy as int), m, color);
            }
            return;
        }
        let ghost upto = |k: int|
            (|px: int, py: int| m(px, py) && min(abs(px - cx), abs(py - cy)) < k);
        let mut x: i32 = r;
        let mut y: i32 = 0;
        let mut err: i32 = 1 - r;
        proof {
            lemma_paint_nothing(p, upto(0), color);
            let a = r as int;
            assert(0 * 0 + a * (a - 1) < a * a <= 0 * 0 + a * (a + 1)) by (nonlinear_arith)
                requires
                    a > 0,
            ;
            assert(1 - a == (0 + 1) * (0 + 1) + a * a - a - a * a) by (nonlinear_arith);
        }
        while x >= y
            invariant
                self.wf(),
                self.w == p.w,
                self.h == p.h,
                p.px.len() == p.w * p.h,
                m == on_circle(cx as int, cy as int, r as int),
                upto == (|k: int|
                    (|px: int, py: int| m(px, py) && min(abs(px - cx), abs(py - cy)) < k)),
                -GFX_MAX <= cx <= GFX_MAX,
                -GFX_MAX <= cy <= GFX_MAX,
                0 < r <= GFX_MAX,
                0 <= y <= r + 1,
                -1 <= x <= r,
                x >= y ==> ring(r as int, x as int, y as int),
                x < y ==> y * y + y * (y - 1) >= r * r,
                err == (y + 1) * (y + 1) + x * x - x - r * r,
                x >= y ==> -2 * GFX_MAX <= err <= 2 * GFX_MAX,
                self@ == p.paint(upto(y as int), color),
            decreases r + 2 - y,
        {
            self.put8(cx, cy, x, y, color);
            let ghost x0 = x as int;
            let ghost y0 = y as int;
            let ghost rr = r as int;
            proof {
                assert forall|px: int, py: int| p.has(px, py) implies #[trigger] upto(y0 + 1)(px, py) == (
                upto(y0)(px, py) || mirrored(cx as int, cy as int, x0, y0)(px, py)) by {
                    let a = max(abs(px - cx), abs(py - cy));
                    let b = min(abs(px - cx), abs(py - cy));
                    if m(px, py) && b == y0 {
                        lemma_ring_unique(rr, a, x0, y0);
                    }
                }
                lemma_grow(
                    p,
                    upto(y0),
                    mirrored(cx as int, cy as int, x0, y0),
                    upto(y0 + 1),
                    color,
                );
                lemma_circle_step(rr, x0, y0, err as int);
            }
            y = y + 1;
            if err < 0 {
                err = err + 2 * y + 1;
            } else {
                x = x - 1;
                err = err + 2 * (y - x) + 1;
            }
        }
        proof {
            assert forall|px: int, py: int| p.has(px, py) implies #[trigger] upto(y as int)(px, py) == m(
                px,
                py,
            ) by {
                let a = max(abs(px - cx), abs(py - cy));
                let b = min(abs(px - cx), abs(py - cy));
                if m(px, py) && b >= y {
                    lemma_past_end(r as int, a, b, y as int);
                }
            }
            lemma_same_paint(p, upto(y as int), m, color);
        }
    }

    /// Paints a line with both its ends.
    pub fn line(&mut self, x0: i32, y0: i32, x1: i32, y1: i32, color: u32)
        requires
            old(self).wf(),
            -GFX_MAX <= x0 <= GFX_MAX,
            -GFX_MAX <= y0 <= GFX_MAX,
            -GFX_MAX <= x1 <= GFX_MAX,
            -GFX_MAX <= y1 <= GFX_MAX,
        ensures
            final(self).wf(),
            final(self)@ == old(self)@.line(x0 as int, y0 as int, x1 as int, y1 as int, color),
    {
        let ghost p = self@;
        let ghost m = on_line(x0 as int, y0 as int, x1 as int, y1 as int);
        let dx: i32 = if x1 < x0 { x0 - x1 } else { x1 - x0 };
        let dy: i32 = if y1 < y0 { y1 - y0 } else { y0 - y1 };
        let sx: i32 = if x0 < x1 { 1 } else { -1 };
        let sy: i32 = if y0 < y1 { 1 } else { -1 };
        let ghost a = dx as int;
        let ghost b = -(dy as int);
        let ghost (x0g, y0g, x1g, y1g) = (x0 as int, y0 as int, x1 as int, y1 as int);
        let mut err: i32 = dx + dy;
        let mut x: i32 = x0;
        let mut y: i32 = y0;
        let ghost upto = |k: int|
            (|px: int, py: int| m(px, py) && progress(x0g, y0g, x1g, y1g, px, py) < k);
        let ghost mut k: int = 0;
        proof {
            assert forall|px: int, py: int| p.has(px, py) implies !#[trigger] upto(0)(px, py) by {
                if m(px, py) {
                    lemma_progress(x0g, y0g, x1g, y1g, px, py);
                }
            }
            lemma_paint_nothing(p, upto(0), color);
            lemma_shift_ends(a, b);
            lemma_shift_ends(b, a);
            assert(a * (1 + 0) == a && b * (1 + 0) == b) by (nonlinear_arith);
        }
        loop
            invariant_except_break
                0 <= k <= max(a, b),
                x == x0 + sx * line_i(a, b, k),
                y == y0 + sy * line_j(a, b, k),
                err == a * (1 + line_j(a, b, k)) - b * (1 + line_i(a, b, k)),
                self@ == p.paint(upto(k), color),
            invariant
                self.wf(),
                self.w == p.w,
                self.h == p.h,
                p.px.len() == p.w * p.h,
                a == dx,
                b == -dy,
                a == abs(x1 - x0),
                b == abs(y1 - y0),
                sx == sign(x1 - x0),
                sy == sign(y1 - y0),
                x0g == x0,
                y0g == y0,
                x1g == x1,
                y1g == y1,
                m == on_line(x0g, y0g, x1g, y1g),
                upto == (|k: int|
                    (|px: int, py: int| m(px, py) && progress(x0g, y0g, x1g, y1g, px, py) < k)),
                -GFX_MAX <= x0 <= GFX_MAX,
                -GFX_MAX <= y0 <= GFX_MAX,
                -GFX_MAX <= x1 <= GFX_MAX,
                -GFX_MAX <= y1 <= GFX_MAX,
            ensures
                self@ == p.paint(m, color),
            decreases max(a, b) - k,
        {
            proof {
                lemma_line_bounds(a, b, k);
                assert(sx == 1 || sx == -1);
                assert(sy == 1 || sy == -1);
                assert(sx * line_i(a, b, k) == (if sx == 1 {
                    line_i(a, b, k)
                } else {
                    -line_i(a, b, k)
                })) by (nonlinear_arith)
                    requires
                        sx == 1 || sx == -1,
                ;
                assert(sy * line_j(a, b, k) == (if sy == 1 {
                    line_j(a, b, k)
                } else {
                    -line_j(a, b, k)
                })) by (nonlinear_arith)
                    requires
                        sy == 1 || sy == -1,
                ;
            }
            self.put(x, y, color);
            proof {
                assert forall|px: int, py: int| p.has(px, py) implies #[trigger] upto(k + 1)(px, py) == (
                upto(k)(px, py) || only(x as int, y as int)(px, py)) by {
                    lemma_on_line(x0g, y0g, x1g, y1g, px, py, k);
                }
                lemma_grow(p, upto(k), only(x as int, y as int), upto(k + 1), color);
            }
            if x == x1 && y == y1 {
                proof {
                    if k < max(a, b) {
                        lemma_line_step(a, b, k);
                    }
                    assert(k == max(a, b));
                    assert forall|px: int, py: int| p.has(px, py) implies #[trigger] upto(k + 1)(px, py)
                        == m(px, py) by {
                        if m(px, py) {
                            lemma_progress(x0g, y0g, x1g, y1g, px, py);
                        }
                    }
                    lemma_same_paint(p, upto(k + 1), m, color);
                }
                break;
            }
            proof {
                assert(k < max(a, b));
                lemma_line_step(a, b, k);
                let i0 = line_i(a, b, k);
                let j0 = line_j(a, b, k);
                assert(a * (1 + (j0 + 1)) == a * (1 + j0) + a) by (nonlinear_arith);
                assert(b * (1 + (i0 + 1)) == b * (1 + i0) + b) by (nonlinear_arith);
                assert(sx * (i0 + 1) == sx * i0 + sx) by (nonlinear_arith);
                assert(sy * (j0 + 1) == sy * j0 + sy) by (nonlinear_arith);
            }
            let e2: i32 = 2 * err;
            if e2 >= dy {
                err = err + dy;
                x = x + sx;
            }
            if e2 <= dx {
                err = err + dx;
                y = y + sy;
            }
            proof {
                k = k + 1;
            }
        }
    }

    /// Paints the dashes of a dashed line: of its points, runs of `dash` are painted and
    /// left out in turn.
    pub fn dashed_line(&mut self, points: &Vec<(i32, i32)>, color: u32, dash: i32)
        requires
            old(self).wf(),
            dash > 0,
            points@.len() <= i32::MAX,
        ensures
            final(self).wf(),
            final(self)@ == old(self)@.paint(in_dashes(points@, dash as int), color),
    {
        let ghost p = self@;
        let n: usize = points.len();
        let ghost upto = |k: int| in_dashes(points@.take(k), dash as int);
        proof {
            lemma_paint_nothing(p, upto(0), color);
        }
        for i in 0..n
            invariant
                self.wf(),
                self.w == p.w,
                self.h == p.h,
                p.px.len() == p.w * p.h,
                n == points@.len(),
                n <= i32::MAX,
                dash > 0,
                upto == (|k: int| in_dashes(points@.take(k), dash as int)),
                self@ == p.paint(upto(i as int), color),
        {
            let on: bool = (i as i32 / dash) % 2 == 0;
            if on {
                let (x, y) = points[i];
                self.put(x, y, color);
                proof {
                    assert forall|px: int, py: int| p.has(px, py) implies #[trigger] upto(i + 1)(px, py)
                        == (upto(i as int)(px, py) || only(x as int, y as int)(px, py)) by {
                        lemma_dash_step(points@, dash as int, i as int, px, py);
                    }
                    lemma_grow(p, upto(i as int), only(x as int, y as int), upto(i + 1), color);
                }
            } else {
                proof {
                    assert forall|px: int, py: int| p.has(px, py) implies #[trigger] upto(i as int)(px, py)
                        == upto(i + 1)(px, py) by {
                        lemma_dash_step(points@, dash as int, i as int, px, py);
                    }
                    lemma_same_paint(p, upto(i as int), upto(i + 1), color);
                }
            }
        }
        proof {
            assert(points@.take(n as int) =~= points@);
            assert(upto(n as int) == in_dashes(points@, dash as int));
        }
    }

    /// Paints a character.
    pub fn glyph(&mut self, x: i32, y: i32, c: char, color: u32, scale: i32)
        requires
            old(self).wf(),
            glyph_fits(x as int, y as int, scale as int),
        ensures
            final(self).wf(),
            final(self)@ == old(self)@.glyph(x as int, y as int, c, color, scale as int),
    {
        let ghost p = self@;
        let ghost m = in_glyph(x as int, y as int, c, scale as int);
        if scale <= 0 {
            proof {
                lemma_paint_nothing(p, m, color);
            }
            return;
        }
        let bits: u64 = glyph(c);
        let ghost upto = |k: int|
            (|px: int, py: int|
                m(px, py) && (py - y) / (scale as int) * 5 + (px - x) / (scale as int) < k);
        proof {
            assert forall|px: int, py: int| p.has(px, py) implies !#[trigger] upto(0)(px, py) by {
                if m(px, py) {
                    vstd::arithmetic::div_mod::lemma_div_pos_is_pos(py - y, scale as int);
                    vstd::arithmetic::div_mod::lemma_div_pos_is_pos(px - x, scale as int);
                }
            }
            lemma_paint_nothing(p, upto(0), color);
        }
        let mut row: i32 = 0;
        while row < GLYPH_H
            invariant
                self.wf(),
                self.w == p.w,
                self.h == p.h,
                p.px.len() == p.w * p.h,
                glyph_fits(x as int, y as int, scale as int),
                0 < scale,
                m == in_glyph(x as int, y as int, c, scale as int),
                upto == (|k: int|
                    (|px: int, py: int|
                        m(px, py) && (py - y) / (scale as int) * 5 + (px - x) / (scale as int) < k)),
                bits == crate::font::glyph_bits(crate::font::upper_of(c)),
                0 <= row <= GLYPH_H,
                self@ == p.paint(upto(row * 5), color),
            decreases GLYPH_H - row,
        {
            let mut col: i32 = 0;
            while col < GLYPH_W
                invariant
                    self.wf(),
                    self.w == p.w,
                    self.h == p.h,
                    p.px.len() == p.w * p.h,
                    glyph_fits(x as int, y as int, scale as int),
                    0 < scale,
                    m == in_glyph(x as int, y as int, c, scale as int),
                    upto == (|k: int|
                        (|px: int, py: int|
                            m(px, py) && (py - y) / (scale as int) * 5 + (px - x) / (scale as int) < k)),
                    bits == crate::font::glyph_bits(crate::font::upper_of(c)),
                    0 <= row < GLYPH_H,
                    0 <= col <= GLYPH_W,
                    self@ == p.paint(upto(row * 5 + col), color),
                decreases GLYPH_W - col,
            {
                let ghost k = row * 5 + col;
                let ghost sc = scale as int;
                let on: bool = lit(bits, row, col);
                proof {
                    assert(0 <= col * sc <= 4 * sc && 0 <= row * sc <= 6 * sc) by (nonlinear_arith)
                        requires
                            0 <= col <= 4,
                            0 <= row <= 6,
                            0 < sc,
                    ;
                }
                if on {
                    let gx: i32 = (x as i64 + col as i64 * scale as i64) as i32;
                    let gy: i32 = (y as i64 + row as i64 * scale as i64) as i32;
                    self.fill_rect(gx, gy, scale, scale, color);
                    proof {
                        assert forall|px: int, py: int| p.has(px, py) implies #[trigger] upto(k + 1)(px, py)
                            == (upto(k)(px, py) || in_rect(gx as int, gy as int, sc, sc)(px, py)) by {
                            lemma_glyph_cell(px - x, py - y, sc, row as int, col as int);
                        }
                        lemma_grow(
                            p,
                            upto(k),
                            in_rect(gx as int, gy as int, sc, sc),
                            upto(k + 1),
                            color,
                        );
                    }
                } else {
                    proof {
                        assert forall|px: int, py: int| p.has(px, py) implies #[trigger] upto(k)(px, py)
                            == upto(k + 1)(px, py) by {
                            lemma_glyph_cell(px - x, py - y, sc, row as int, col as int);
                        }
                        lemma_same_paint(p, upto(k), upto(k + 1), color);
                    }
                }
                col = col + 1;
            }
            row = row + 1;
        }
        proof {
            let sc = scale as int;
            assert forall|px: int, py: int| p.has(px, py) implies #[trigger] upto(35)(px, py) == m(
                px,
                py,
            ) by {
                if m(px, py) {
                    lemma_glyph_range(px - x, py - y, sc);
                }
            }
            lemma_same_paint(p, upto(35), m, color);
        }
    }

    /// Paints a text.
    pub fn text(&mut self, x: i32, y: i32, s: &str, color: u32, scale: i32)
        requires
            old(self).wf(),
            text_fits(x as int, y as int, s@, scale as int),
        ensures
            final(self).wf(),
            final(self)@ == old(self)@.text(x as int, y as int, s@, color, scale as int),
    {
        let ghost p = self@;
        let n: usize = s.unicode_len();
        let mut i: usize = 0;
        let mut cx: i32 = x;
        proof {
            assert(s@.take(0) =~= Seq::<char>::empty());
            assert(ADVANCE * scale * 0 == 0);
        }
        while i < n
            invariant
                self.wf(),
                n == s@.len(),
                i <= n,
                text_fits(x as int, y as int, s@, scale as int),
                cx == x + ADVANCE * scale * i,
                self@ == p.text(x as int, y as int, s@.take(i as int), color, scale as int),
            decreases n - i,
        {
            let c: char = s.get_char(i);
            proof {
                lemma_text_step(x as int, s@.len() as int, scale as int, i as int);
                assert(s@.take(i + 1).drop_last() =~= s@.take(i as int));
                assert(s@.take(i + 1).last() == c);
            }
            self.glyph(cx, y, c, color, scale);
            cx = (cx as i64 + ADVANCE as i64 * scale as i64) as i32;
            i = i + 1;
        }
        proof {
            assert(s@.take(n as int) =~= s@);
        }
    }

    /// Paints a text over its own shadow.
    pub fn text_sh(&mut self, x: i32, y: i32, s: &str, color: u32, scale: i32)
        requires
            old(self).wf(),
            i32::MIN <= x + scale <= i32::MAX,
            i32::MIN <= y + scale <= i32::MAX,
            text_fits(x as int, y as int, s@, scale as int),
            text_fits(x + scale, y + scale, s@, scale as int),
        ensures
            final(self).wf(),
            final(self)@ == old(self)@.text_sh(x as int, y as int, s@, color, scale as int),
    {
        self.text(x + scale, y + scale, s, rgb(0, 0, 0), scale);
        self.text(x, y, s, color, scale);
    }

    /// Width of a text in pixels.
    pub fn text_width(s: &str, scale: i32) -> (r: i32)
        requires
            i32::MIN <= width_of(s@, scale as int) <= i32::MAX,
        ensures
            r == width_of(s@, scale as int),
    {
        let n: usize = s.unicode_len();
        proof {
            let (k, sc) = (n as int, scale as int);
            assert(-0x8000_0000 * (6 * k) <= k * 6 * sc <= 0x8000_0000 * (6 * k)) by (nonlinear_arith)
                requires
                    0 <= k,
                    -0x8000_0000 <= sc <= 0x8000_0000,
            ;
        }
        (n as i128 * ADVANCE as i128 * scale as i128) as i32
    }

    /// Paints a text centred on a column.
    pub fn text_center(&mut self, cx: i32, y: i32, s: &str, color: u32, scale: i32)
        requires
            old(self).wf(),
            i32::MIN <= width_of(s@, scale as int) <= i32::MAX,
            ({
                let x = cx - half(width_of(s@, scale as int));
                &&& i32::MIN <= x <= i32::MAX
                &&& i32::MIN <= x + scale <= i32::MAX
                &&& i32::MIN <= y + scale <= i32::MAX
                &&& text_fits(x, y as int, s@, scale as int)
                &&& text_fits(x + scale, y + scale, s@, scale as int)
            }),
        ensures
            final(self).wf(),
            final(self)@ == old(self)@.text_center(cx as int, y as int, s@, color, scale as int),
    {
        let w: i64 = Canvas::text_width(s, scale) as i64;
        let h: i64 = if w < 0 { -((-w) / 2) } else { w / 2 };
        self.text_sh((cx as i64 - h) as i32, y, s, color, scale);
    }
}

/// Whether the far edges of a character that starts at `(x, y)` have coordinates.
pub open spec fn glyph_fits(x: int, y: int, scale: int) -> bool {
    scale > 0 ==> x + GLYPH_W * scale <= i32::MAX && y + GLYPH_H * scale <= i32::MAX
}

/// Whether the pen that writes a text, and every pixel below it, has coordinates.
pub open spec fn text_fits(x: int, y: int, s: Seq<char>, scale: int) -> bool {
    s.len() > 0 ==> {
        &&& i32::MIN <= ADVANCE * scale <= i32::MAX
        &&& i32::MIN <= x + ADVANCE * scale * s.len() <= i32::MAX
        &&& scale > 0 ==> y + GLYPH_H * scale <= i32::MAX
    }
}

/// The width of a text is how far the pen advances, so a text may be written in two: the
/// second part starts where the first ends. An empty text paints nothing.
pub proof fn writing_goes_on(p: Pic, x: int, y: int, s: Seq<char>, t: Seq<char>, color: u32, scale: int)
    ensures
        p.text(x, y, s + t, color, scale) == p.text(x, y, s, color, scale).text(
            x + width_of(s, scale),
            y,
            t,
            color,
            scale,
        ),
        width_of(s + t, scale) == width_of(s, scale) + width_of(t, scale),
        p.text(x, y, Seq::empty(), color, scale) == p,
    decreases t.len(),
{
    let (n, m) = (s.len() as int, t.len() as int);
    assert((n + m) * ADVANCE * scale == n * ADVANCE * scale + m * ADVANCE * scale) by (nonlinear_arith);
    if m == 0 {
        assert(s + t =~= s);
    } else {
        writing_goes_on(p, x, y, s, t.drop_last(), color, scale);
        assert((s + t).drop_last() =~= s + t.drop_last());
        assert(ADVANCE * scale * (n + m - 1) == n * ADVANCE * scale + ADVANCE * scale * (m - 1)) by (
        nonlinear_arith);
    }
}

/// Every character makes a text wider by the same amount.
pub proof fn characters_are_equally_wide(s: Seq<char>, c: char, scale: int)
    ensures
        width_of(s.push(c), scale) == width_of(s, scale) + ADVANCE * scale,
        width_of(Seq::empty(), scale) == 0,
{
    let n = s.len() as int;
    assert((n + 1) * ADVANCE * scale == n * ADVANCE * scale + ADVANCE * scale) by (nonlinear_arith);
    assert(0 * ADVANCE * scale == 0) by (nonlinear_arith);
}

proof fn lemma_text_step(x: int, n: int, scale: int, i: int)
    requires
        0 <= i < n,
        i32::MIN <= x <= i32::MAX,
        i32::MIN <= x + ADVANCE * scale * n <= i32::MAX,
    ensures
        i32::MIN <= x + ADVANCE * scale * i <= i32::MAX,
        ADVANCE * scale * (i + 1) == ADVANCE * scale * i + ADVANCE * scale,
        i32::MIN <= x + ADVANCE * scale * (i + 1) <= i32::MAX,
{
    let a = ADVANCE * scale;
    assert(a * (i + 1) == a * i + a) by (nonlinear_arith);
    if a >= 0 {
        assert(0 <= a * i <= a * n && 0 <= a * (i + 1) <= a * n) by (nonlinear_arith)
            requires
                0 <= i < n,
                0 <= a,
        ;
    } else {
        assert(a * n <= a * i <= 0 && a * n <= a * (i + 1) <= 0) by (nonlinear_arith)
            requires
                0 <= i < n,
                a < 0,
        ;
    }
}

/// A cell of a glyph covers the pixels whose offset falls into it.
proof fn lemma_glyph_cell(dx: int, dy: int, s: int, row: int, col: int)
    requires
        0 < s,
        0 <= row < 7,
        0 <= col < 5,
    ensures
        (0 <= dx < 5 * s && 0 <= dy < 7 * s && dy / s * 5 + dx / s == row * 5 + col) <==> (col * s <= dx
            < col * s + s && row * s <= dy < row * s + s),
        col * s <= dx < col * s + s ==> dx / s == col && 0 <= dx < 5 * s,
        row * s <= dy < row * s + s ==> dy / s == row && 0 <= dy < 7 * s,
{
    if col * s <= dx < col * s + s {
        vstd::arithmetic::div_mod::lemma_fundamental_div_mod_converse(dx, s, col, dx - col * s);
        assert(0 <= col * s && col * s + s <= 5 * s) by (nonlinear_arith)
            requires
                0 <= col <= 4,
                0 < s,
        ;
    }
    if row * s <= dy < row * s + s {
        vstd::arithmetic::div_mod::lemma_fundamental_div_mod_converse(dy, s, row, dy - row * s);
        assert(0 <= row * s && row * s + s <= 7 * s) by (nonlinear_arith)
            requires
                0 <= row <= 6,
                0 < s,
        ;
    }
    if 0 <= dx < 5 * s && 0 <= dy < 7 * s && dy / s * 5 + dx / s == row * 5 + col {
        lemma_glyph_range(dx, dy, s);
        vstd::arithmetic::div_mod::lemma_fundamental_div_mod(dx, s);
        vstd::arithmetic::div_mod::lemma_fundamental_div_mod(dy, s);
        assert(dx / s == col && dy / s == row);
        assert(s * (dx / s) == col * s && s * (dy / s) == row * s) by (nonlinear_arith)
            requires
                dx / s == col,
                dy / s == row,
        ;
    }
}

proof fn lemma_glyph_range(dx: int, dy: int, s: int)
    requires
        0 < s,
        0 <= dx < 5 * s,
        0 <= dy < 7 * s,
    ensures
        0 <= dx / s < 5,
        0 <= dy / s < 7,
{
    assert(0 <= dx / s < 5 && 0 <= dy / s < 7) by (nonlinear_arith)
        requires
            0 < s,
            0 <= dx < 5 * s,
            0 <= dy < 7 * s,
    ;
}

/// The points of a dashed line that are painted.
pub open spec fn in_dashes(points: Seq<(i32, i32)>, dash: int) -> Mask {
    |px: int, py: int|
        exists|i: int|
            0 <= i < points.len() && (i / dash) % 2 == 0 && (#[trigger] points[i]).0 == px && points[i].1
                == py
}

proof fn lemma_dash_step(points: Seq<(i32, i32)>, dash: int, i: int, px: int, py: int)
    requires
        0 <= i < points.len(),
        dash > 0,
    ensures
        in_dashes(points.take(i + 1), dash)(px, py) == (in_dashes(points.take(i), dash)(px, py) || ((i
            / dash) % 2 == 0 && points[i].0 == px && points[i].1 == py)),
{
    let a = points.take(i);
    let b = points.take(i + 1);
    if in_dashes(a, dash)(px, py) {
        let k = choose|k: int|
            0 <= k < a.len() && (k / dash) % 2 == 0 && (#[trigger] a[k]).0 == px && a[k].1 == py;
        assert(b[k] == a[k]);
    }
    if (i / dash) % 2 == 0 && points[i].0 == px && points[i].1 == py {
        assert(b[i] == points[i]);
    }
    if in_dashes(b, dash)(px, py) {
        let k = choose|k: int|
            0 <= k < b.len() && (k / dash) % 2 == 0 && (#[trigger] b[k]).0 == px && b[k].1 == py;
        if k < i {
            assert(a[k] == b[k]);
        }
    }
}

/// Steps along x after `k` steps of a line.
spec fn line_i(a: int, b: int, k: int) -> int {
    if a >= b {
        k
    } else {
        shift(b, a, k)
    }
}

/// Steps along y after `k` steps of a line.
spec fn line_j(a: int, b: int, k: int) -> int {
    if a >= b {
        shift(a, b, k)
    } else {
        k
    }
}

proof fn lemma_shift_ends(l: int, s: int)
    requires
        0 <= l,
        0 <= s,
    ensures
        shift(l, s, 0) == 0,
        l >= s ==> shift(l, s, l) == s,
{
    if l > 0 {
        assert(2 * s * 0 == 0);
        assert((0 + l) / (2 * l) == 0) by (nonlinear_arith)
            requires
                l > 0,
        ;
        assert(2 * s * l + l == s * (2 * l) + l) by (nonlinear_arith);
        vstd::arithmetic::div_mod::lemma_fundamental_div_mod_converse(2 * s * l + l, 2 * l, s, l);
    }
}

/// One step along the longer side: the shorter side follows when the error says so.
proof fn lemma_shift_step(l: int, s: int, k: int)
    requires
        0 <= s <= l,
        0 < l,
        0 <= k < l,
    ensures
        ({
            let q = shift(l, s, k);
            let e = 2 * (l * (1 + q) - s * (1 + k));
            &&& 0 <= q <= s
            &&& e >= -s
            &&& shift(l, s, k + 1) == (if e <= l {
                q + 1
            } else {
                q
            })
        }),
{
    let n = 2 * s * k + l;
    let d = 2 * l;
    let q = n / d;
    vstd::arithmetic::div_mod::lemma_fundamental_div_mod(n, d);
    assert(0 <= s * k) by (nonlinear_arith)
        requires
            0 <= s,
            0 <= k,
    ;
    assert(2 * s * k == 2 * (s * k)) by (nonlinear_arith);
    assert(0 <= n % d < d) by (nonlinear_arith)
        requires
            d > 0,
    ;
    let r = n % d;
    assert(n == d * q + r);
    assert(d * q == 2 * (l * q)) by (nonlinear_arith)
        requires
            d == 2 * l,
    ;
    assert(l * (1 + q) == l + l * q) by (nonlinear_arith);
    assert(s * (1 + k) == s + s * k) by (nonlinear_arith);
    let n2 = 2 * s * (k + 1) + l;
    assert(n2 == n + 2 * s) by (nonlinear_arith)
        requires
            n2 == 2 * s * (k + 1) + l,
            n == 2 * s * k + l,
    ;
    let e = 2 * (l * (1 + q) - s * (1 + k));
    if e <= l {
        assert(d * (q + 1) == d * q + d) by (nonlinear_arith);
        vstd::arithmetic::div_mod::lemma_fundamental_div_mod_converse(n2, d, q + 1, n2 - (q + 1) * d);
    } else {
        assert(d * q == q * d) by (nonlinear_arith);
        vstd::arithmetic::div_mod::lemma_fundamental_div_mod_converse(n2, d, q, n2 - q * d);
    }
    assert(0 <= q) by (nonlinear_arith)
        requires
            n == d * q + r,
            0 <= n,
            0 <= r < d,
    ;
    assert(s * k <= s * (l - 1)) by (nonlinear_arith)
        requires
            0 <= s,
            k <= l - 1,
    ;
    assert(q <= s) by (nonlinear_arith)
        requires
            2 * (s * k) + l == 2 * (l * q) + r,
            s * k <= s * (l - 1),
            0 <= r,
            0 <= s <= l,
            0 < l,
    ;
}

proof fn lemma_line_bounds(a: int, b: int, k: int)
    requires
        0 <= a,
        0 <= b,
        0 <= k <= max(a, b),
    ensures
        0 <= line_i(a, b, k) <= a,
        0 <= line_j(a, b, k) <= b,
        k == max(a, b) ==> line_i(a, b, k) == a && line_j(a, b, k) == b,
        k < max(a, b) ==> line_i(a, b, k) != a || line_j(a, b, k) != b,
{
    lemma_shift_ends(a, b);
    lemma_shift_ends(b, a);
    if k < max(a, b) {
        if a >= b {
            lemma_shift_step(a, b, k);
        } else {
            lemma_shift_step(b, a, k);
        }
    }
}

proof fn lemma_line_step(a: int, b: int, k: int)
    requires
        0 <= a <= 2 * GFX_MAX,
        0 <= b <= 2 * GFX_MAX,
        0 <= k < max(a, b),
    ensures
        ({
            let i = line_i(a, b, k);
            let j = line_j(a, b, k);
            let e = 2 * (a * (1 + j) - b * (1 + i));
            &&& -1_000_000_000 <= e <= 1_000_000_000
            &&& line_i(a, b, k + 1) == (if e >= -b {
                i + 1
            } else {
                i
            })
            &&& line_j(a, b, k + 1) == (if e <= a {
                j + 1
            } else {
                j
            })
            &&& (i != a || j != b)
        }),
{
    lemma_line_bounds(a, b, k);
    if a >= b {
        lemma_shift_step(a, b, k);
        lemma_shift_error(a, b, k);
    } else {
        lemma_shift_step(b, a, k);
        lemma_shift_error(b, a, k);
        let i = shift(b, a, k);
        assert(2 * (a * (1 + k) - b * (1 + i)) == -(2 * (b * (1 + i) - a * (1 + k)))) by (nonlinear_arith);
    }
}

/// The error of a line stays small.
proof fn lemma_shift_error(l: int, s: int, k: int)
    requires
        0 <= s <= l,
        0 < l,
        0 <= k < l,
    ensures
        ({
            let q = shift(l, s, k);
            let e = 2 * (l * (1 + q) - s * (1 + k));
            -l <= e <= 3 * l
        }),
{
    lemma_shift_step(l, s, k);
    let n = 2 * s * k + l;
    let d = 2 * l;
    let q = n / d;
    vstd::arithmetic::div_mod::lemma_fundamental_div_mod(n, d);
    assert(0 <= n % d) by (nonlinear_arith)
        requires
            d > 0,
    ;
    assert(d * q == 2 * (l * q)) by (nonlinear_arith)
        requires
            d == 2 * l,
    ;
    assert(2 * s * k == 2 * (s * k)) by (nonlinear_arith);
    assert(l * (1 + q) == l + l * q) by (nonlinear_arith);
    assert(s * (1 + k) == s + s * k) by (nonlinear_arith);
}

/// A pixel of a line is between its ends.
proof fn lemma_progress(x0: int, y0: int, x1: int, y1: int, px: int, py: int)
    requires
        line_at(x0, y0, x1, y1, px, py),
    ensures
        0 <= progress(x0, y0, x1, y1, px, py) <= max(abs(x1 - x0), abs(y1 - y0)),
{
}

/// The pixel of a line after `k` steps, and no other, is `k` steps from its start.
proof fn lemma_on_line(x0: int, y0: int, x1: int, y1: int, px: int, py: int, k: int)
    requires
        0 <= k <= max(abs(x1 - x0), abs(y1 - y0)),
    ensures
        ({
            let a = abs(x1 - x0);
            let b = abs(y1 - y0);
            (line_at(x0, y0, x1, y1, px, py) && progress(x0, y0, x1, y1, px, py) == k) <==> (px == x0
                + sign(x1 - x0) * line_i(a, b, k) && py == y0 + sign(y1 - y0) * line_j(a, b, k))
        }),
{
    let a = abs(x1 - x0);
    let b = abs(y1 - y0);
    let sx = sign(x1 - x0);
    let sy = sign(y1 - y0);
    if a >= b {
        let i = sx * (px - x0);
        assert((i == k) == (px == x0 + sx * k)) by (nonlinear_arith)
            requires
                i == sx * (px - x0),
                sx == 1 || sx == -1,
        ;
    } else {
        let j = sy * (py - y0);
        assert((j == k) == (py == y0 + sy * k)) by (nonlinear_arith)
            requires
                j == sy * (py - y0),
                sy == 1 || sy == -1,
        ;
    }
}

/// How many steps a pixel of a line is from its start.
spec fn progress(x0: int, y0: int, x1: int, y1: int, px: int, py: int) -> int {
    if abs(x1 - x0) >= abs(y1 - y0) {
        sign(x1 - x0) * (px - x0)
    } else {
        sign(y1 - y0) * (py - y0)
    }
}

/// The eight mirror images of an offset from a centre.
pub open spec fn mirrored(cx: int, cy: int, x: int, y: int) -> Mask {
    |px: int, py: int|
        (abs(px - cx) == x && abs(py - cy) == y) || (abs(px - cx) == y && abs(py - cy) == x)
}

/// For each smaller offset only one larger offset lies on a circle.
proof fn lemma_ring_unique(r: int, a: int, x: int, b: int)
    requires
        r > 0,
        a >= b >= 0,
        x >= b,
        ring(r, a, b),
        ring(r, x, b),
    ensures
        a == x,
{
    if a < x {
        assert(a * (a + 1) <= x * (x - 1)) by (nonlinear_arith)
            requires
                0 <= a < x,
        ;
    } else if x < a {
        assert(x * (x + 1) <= a * (a - 1)) by (nonlinear_arith)
            requires
                0 <= x < a,
        ;
    }
}

/// What one step of the walk round a circle keeps.
proof fn lemma_circle_step(r: int, x: int, y: int, err: int)
    requires
        0 < r <= GFX_MAX,
        0 <= y <= x <= r,
        ring(r, x, y),
        err == (y + 1) * (y + 1) + x * x - x - r * r,
    ensures
        -2 * GFX_MAX <= err <= 2 * GFX_MAX,
        y + 1 <= r + 1,
        err < 0 ==> {
            let e2 = err + 2 * (y + 1) + 1;
            &&& e2 == (y + 2) * (y + 2) + x * x - x - r * r
            &&& x >= y + 1 ==> ring(r, x, y + 1) && -2 * GFX_MAX <= e2 <= 2 * GFX_MAX
            &&& x < y + 1 ==> (y + 1) * (y + 1) + (y + 1) * y >= r * r
        },
        err >= 0 ==> {
            let e2 = err + 2 * (y + 1 - (x - 1)) + 1;
            &&& e2 == (y + 2) * (y + 2) + (x - 1) * (x - 1) - (x - 1) - r * r
            &&& x - 1 >= y + 1 ==> ring(r, x - 1, y + 1) && -2 * GFX_MAX <= e2 <= 2 * GFX_MAX
            &&& x - 1 < y + 1 ==> (y + 1) * (y + 1) + (y + 1) * y >= r * r
        },
{
    assert(y * y + x * (x - 1) < r * r <= y * y + x * (x + 1));
    assert((y + 1) * (y + 1) == y * y + 2 * y + 1) by (nonlinear_arith);
    assert(x * (x - 1) == x * x - x && x * (x + 1) == x * x + x) by (nonlinear_arith);
    assert((y + 2) * (y + 2) == y * y + 4 * y + 4) by (nonlinear_arith);
    assert((x - 1) * (x - 1) == x * x - 2 * x + 1) by (nonlinear_arith);
    assert((x - 1) * (x - 2) == x * x - 3 * x + 2) by (nonlinear_arith);
    assert((x - 1) * x == x * x - x) by (nonlinear_arith);
    assert((y + 1) * y == y * y + y) by (nonlinear_arith);
    if x < y + 1 {
        assert(x == y);
    }
    if err >= 0 && x - 1 < y + 1 {
        assert(x == y || x == y + 1);
        assert((y + 1) * (y + 1) + (y + 1) * y >= r * r) by {
            if x == y + 1 {
                assert(x * x - x == (y + 1) * y) by (nonlinear_arith)
                    requires
                        x == y + 1,
                ;
            } else {
                assert(x * x - x <= y * y + y) by (nonlinear_arith)
                    requires
                        x == y,
                        y >= 0,
                ;
            }
        }
    }
}

/// Beyond the diagonal no offset lies on a circle.
proof fn lemma_past_end(r: int, a: int, b: int, y: int)
    requires
        r > 0,
        a >= b >= y >= 0,
        y * y + y * (y - 1) >= r * r,
    ensures
        !ring(r, a, b),
{
    assert(b * b + a * (a - 1) >= y * y + y * (y - 1)) by (nonlinear_arith)
        requires
            a >= b >= y >= 0,
    ;
}

fn least(a: i32, b: i32) -> (r: i32)
    ensures
        r == min(a as int, b as int),
{
    if a < b {
        a
    } else {
        b
    }
}

fn most(a: i32, b: i32) -> (r: i32)
    ensures
        r == max(a as int, b as int),
{
    if a < b {
        b
    } else {
        a
    }
}

fn max0(a: i32) -> (r: i32)
    ensures
        r == max(0, a as int),
{
    if a < 0 {
        0
    } else {
        a
    }
}

fn edge_at(x: i32, y: i32, ax: i32, ay: i32, bx: i32, by: i32) -> (r: i64)
    requires
        -GFX_MAX <= x <= GFX_MAX,
        -GFX_MAX <= y <= GFX_MAX,
        -GFX_MAX <= ax <= GFX_MAX,
        -GFX_MAX <= ay <= GFX_MAX,
        -GFX_MAX <= bx <= GFX_MAX,
        -GFX_MAX <= by <= GFX_MAX,
    ensures
        r == edge(x as int, y as int, ax as int, ay as int, bx as int, by as int),
{
    let a: i64 = ax as i64 - x as i64;
    let b: i64 = by as i64 - y as i64;
    let c: i64 = bx as i64 - x as i64;
    let d: i64 = ay as i64 - y as i64;
    assert(-40_000_000_000_000_000 <= a * b <= 40_000_000_000_000_000 && -40_000_000_000_000_000 <= c * d
        <= 40_000_000_000_000_000) by (nonlinear_arith)
        requires
            -200_000_000 <= a <= 200_000_000,
            -200_000_000 <= b <= 200_000_000,
            -200_000_000 <= c <= 200_000_000,
            -200_000_000 <= d <= 200_000_000,
    ;
    a * b - c * d
}

/// Integer square root.
fn isqrt(n: i32) -> (r: i32)
    requires
        0 <= n,
    ensures
        0 <= r <= 46_340,
        r * r <= n < (r + 1) * (r + 1),
{
    let mut lo: i32 = 0;
    let mut hi: i32 = 46_341;
    while hi - lo > 1
        invariant
            0 <= lo < hi <= 46_341,
            lo * lo <= n < hi * hi,
        decreases hi - lo,
    {
        let mid: i32 = lo + (hi - lo) / 2;
        assert(0 <= mid * mid <= i32::MAX) by (nonlinear_arith)
            requires
                0 <= mid <= 46_340,
        ;
        if mid * mid <= n {
            lo = mid;
        } else {
            hi = mid;
        }
    }
    lo
}

/// A number is within the root of `n` of zero exactly when its square is at most `n`.
proof fn lemma_span(e: int, n: int, s: int)
    requires
        0 <= s,
        s * s <= n < (s + 1) * (s + 1),
    ensures
        e * e <= n <==> -s <= e <= s,
{
    if -s <= e <= s {
        assert(e * e <= s * s) by (nonlinear_arith)
            requires
                -s <= e <= s,
                0 <= s,
        ;
    } else {
        assert(e * e >= (s + 1) * (s + 1)) by (nonlinear_arith)
            requires
                e < -s || e > s,
                0 <= s,
        ;
    }
}

/// Painting more pixels onto what is painted already.
pub proof fn lemma_grow(p: Pic, a: Mask, b: Mask, c: Mask, color: u32)
    requires
        0 <= p.w,
        0 <= p.h,
        p.px.len() == p.w * p.h,
        forall|x: int, y: int| p.has(x, y) ==> #[trigger] c(x, y) == (a(x, y) || b(x, y)),
    ensures
        p.paint(a, color).paint(b, color) == p.paint(c, color),
{
    let m = |x: int, y: int| a(x, y) || b(x, y);
    lemma_paint_twice(p, a, b, color);
    assert forall|x: int, y: int| p.has(x, y) implies #[trigger] m(x, y) == c(x, y) by {
        assert(c(x, y) == (a(x, y) || b(x, y)));
    }
    lemma_same_paint(p, m, c, color);
}

// ---- triangles ----------------------------------------------------------------------------

/// Whether a point is a mean of three corners, weighted by `a`, `b` and `c`.
pub open spec fn mean_of(
    x0: int,
    y0: int,
    x1: int,
    y1: int,
    x2: int,
    y2: int,
    px: int,
    py: int,
    a: int,
    b: int,
    c: int,
) -> bool {
    &&& a >= 0 && b >= 0 && c >= 0 && a + b + c > 0
    &&& a * x0 + b * x1 + c * x2 == (a + b + c) * px
    &&& a * y0 + b * y1 + c * y2 == (a + b + c) * py
}

/// The hull of three corners: all their weighted means.
pub open spec fn in_hull(x0: int, y0: int, x1: int, y1: int, x2: int, y2: int) -> Mask {
    |px: int, py: int|
        exists|a: int, b: int, c: int| #[trigger] mean_of(x0, y0, x1, y1, x2, y2, px, py, a, b, c)
}

/// A weighted mean of three offsets, all taken from the point itself.
spec fn balanced(ux: int, uy: int, vx: int, vy: int, wx: int, wy: int, a: int, b: int, c: int) -> bool {
    &&& a >= 0 && b >= 0 && c >= 0 && a + b + c > 0
    &&& a * ux + b * vx + c * wx == 0
    &&& a * uy + b * vy + c * wy == 0
}

proof fn lemma_balanced(
    x0: int,
    y0: int,
    x1: int,
    y1: int,
    x2: int,
    y2: int,
    px: int,
    py: int,
    a: int,
    b: int,
    c: int,
)
    ensures
        balanced(x0 - px, y0 - py, x1 - px, y1 - py, x2 - px, y2 - py, a, b, c) <==> mean_of(
            x0,
            y0,
            x1,
            y1,
            x2,
            y2,
            px,
            py,
            a,
            b,
            c,
        ),
{
    assert(a * (x0 - px) + b * (x1 - px) + c * (x2 - px) == a * x0 + b * x1 + c * x2 - (a + b + c) * px)
        by (nonlinear_arith);
    assert(a * (y0 - py) + b * (y1 - py) + c * (y2 - py) == a * y0 + b * y1 + c * y2 - (a + b + c) * py)
        by (nonlinear_arith);
}

/// Two offsets on opposite sides of a line through the point balance each other.
proof fn lemma_opposite(ux: int, uy: int, vx: int, vy: int)
    requires
        ux < 0 < vx || uy < 0 < vy,
        ux * vy - vx * uy == 0,
    ensures
        exists|a: int, b: int|
            a >= 0 && b >= 0 && a + b > 0 && #[trigger] (a * ux) + #[trigger] (b * vx) == 0 && a * uy + b * vy
                == 0,
{
    if ux < 0 < vx {
        assert(vx * ux + (-ux) * vx == 0) by (nonlinear_arith);
        assert(vx * uy + (-ux) * vy == 0) by (nonlinear_arith)
            requires
                ux * vy - vx * uy == 0,
        ;
    } else {
        assert(vy * ux + (-uy) * vx == 0) by (nonlinear_arith)
            requires
                ux * vy - vx * uy == 0,
        ;
        assert(vy * uy + (-uy) * vy == 0) by (nonlinear_arith);
    }
}

proof fn lemma_pair_balances(ux: int, uy: int, vx: int, vy: int, wx: int, wy: int)
    requires
        ux < 0 < vx || uy < 0 < vy,
        ux * vy - vx * uy == 0,
    ensures
        exists|a: int, b: int| #[trigger] balanced(ux, uy, vx, vy, wx, wy, a, b, 0),
        exists|a: int, b: int| #[trigger] balanced(ux, uy, wx, wy, vx, vy, a, 0, b),
        exists|a: int, b: int| #[trigger] balanced(wx, wy, ux, uy, vx, vy, 0, a, b),
        exists|a: int, b: int| #[trigger] balanced(vx, vy, ux, uy, wx, wy, b, a, 0),
        exists|a: int, b: int| #[trigger] balanced(vx, vy, wx, wy, ux, uy, b, 0, a),
        exists|a: int, b: int| #[trigger] balanced(wx, wy, vx, vy, ux, uy, 0, b, a),
{
    lemma_opposite(ux, uy, vx, vy);
    let (a, b) = choose|a: int, b: int|
        a >= 0 && b >= 0 && a + b > 0 && #[trigger] (a * ux) + #[trigger] (b * vx) == 0 && a * uy + b * vy
            == 0;
    assert(0 * wx == 0 && 0 * wy == 0);
    assert(balanced(ux, uy, vx, vy, wx, wy, a, b, 0));
    assert(balanced(ux, uy, wx, wy, vx, vy, a, 0, b));
    assert(balanced(wx, wy, ux, uy, vx, vy, 0, a, b));
    assert(balanced(vx, vy, ux, uy, wx, wy, b, a, 0));
    assert(balanced(vx, vy, wx, wy, ux, uy, b, 0, a));
    assert(balanced(wx, wy, vx, vy, ux, uy, 0, b, a));
}

/// Offsets that are all along one line, with the point in their box, balance each other.
proof fn lemma_flat(ux: int, uy: int, vx: int, vy: int, wx: int, wy: int)
    requires
        ux * vy - vx * uy == 0,
        vx * wy - wx * vy == 0,
        wx * uy - ux * wy == 0,
        min(min(ux, vx), wx) <= 0 <= max(max(ux, vx), wx),
        min(min(uy, vy), wy) <= 0 <= max(max(uy, vy), wy),
    ensures
        exists|a: int, b: int, c: int| #[trigger] balanced(ux, uy, vx, vy, wx, wy, a, b, c),
{
    if ux == 0 && uy == 0 {
        assert(balanced(ux, uy, vx, vy, wx, wy, 1, 0, 0));
    } else if vx == 0 && vy == 0 {
        assert(balanced(ux, uy, vx, vy, wx, wy, 0, 1, 0));
    } else if wx == 0 && wy == 0 {
        assert(balanced(ux, uy, vx, vy, wx, wy, 0, 0, 1));
    } else {
        lemma_upright(ux, uy, vx, vy);
        lemma_upright(vx, vy, wx, wy);
        if ux < 0 < vx || uy < 0 < vy {
            lemma_pair_balances(ux, uy, vx, vy, wx, wy);
        } else if vx < 0 < ux || vy < 0 < uy {
            assert(vx * uy - ux * vy == 0);
            lemma_pair_balances(vx, vy, ux, uy, wx, wy);
        } else if vx < 0 < wx || vy < 0 < wy {
            lemma_pair_balances(vx, vy, wx, wy, ux, uy);
        } else if wx < 0 < vx || wy < 0 < vy {
            assert(wx * vy - vx * wy == 0);
            lemma_pair_balances(wx, wy, vx, vy, ux, uy);
        } else if ux < 0 < wx || uy < 0 < wy {
            assert(ux * wy - wx * uy == 0);
            lemma_pair_balances(ux, uy, wx, wy, vx, vy);
        } else {
            lemma_pair_balances(wx, wy, ux, uy, vx, vy);
        }
    }
}

/// Parallel offsets, neither of them nothing, are upright together.
proof fn lemma_upright(ux: int, uy: int, vx: int, vy: int)
    requires
        ux * vy - vx * uy == 0,
        ux != 0 || uy != 0,
        vx != 0 || vy != 0,
    ensures
        ux == 0 <==> vx == 0,
{
    if ux == 0 && vx != 0 {
        assert(vx * uy != 0) by (nonlinear_arith)
            requires
                vx != 0,
                uy != 0,
        ;
    }
    if vx == 0 && ux != 0 {
        assert(ux * vy != 0) by (nonlinear_arith)
            requires
                ux != 0,
                vy != 0,
        ;
    }
}

proof fn lemma_scaled_sign(a: int, b: int, u: int, v: int)
    requires
        a > 0,
        b >= 0,
        a * v == b * u,
    ensures
        u >= 0 ==> v >= 0,
        u <= 0 ==> v <= 0,
{
    assert((u >= 0 ==> v >= 0) && (u <= 0 ==> v <= 0)) by (nonlinear_arith)
        requires
            a > 0,
            b >= 0,
            a * v == b * u,
    ;
}

proof fn lemma_spread(k: int, a: int, b: int, c: int)
    ensures
        k * (a + b + c) == k * a + k * b + k * c,
{
    assert(k * (a + b + c) == k * a + k * b + k * c) by (nonlinear_arith);
}

/// What balances two offsets against a third is as their turns from it.
proof fn lemma_cross(ux: int, uy: int, vx: int, vy: int, wx: int, wy: int, a: int, b: int, c: int)
    requires
        a * ux + b * vx + c * wx == 0,
        a * uy + b * vy + c * wy == 0,
    ensures
        a * (wx * uy - ux * wy) == b * (vx * wy - wx * vy),
{
    let sx = a * ux + b * vx + c * wx;
    let sy = a * uy + b * vy + c * wy;
    lemma_spread(wx, a * uy, b * vy, c * wy);
    lemma_spread(wy, a * ux, b * vx, c * wx);
    assert(wx * (a * uy) == a * (wx * uy) && wx * (b * vy) == b * (wx * vy) && wx * (c * wy) == c * (wx * wy))
        by (nonlinear_arith);
    assert(wy * (a * ux) == a * (ux * wy) && wy * (b * vx) == b * (vx * wy) && wy * (c * wx) == c * (wx * wy))
        by (nonlinear_arith);
    assert(wx * sy == 0 && wy * sx == 0) by (nonlinear_arith)
        requires
            sx == 0,
            sy == 0,
    ;
    assert(a * (wx * uy - ux * wy) == a * (wx * uy) - a * (ux * wy)) by (nonlinear_arith);
    assert(b * (vx * wy - wx * vy) == b * (vx * wy) - b * (wx * vy)) by (nonlinear_arith);
}

/// The offsets that a mean balances see their corners all on one side.
proof fn lemma_sides(ux: int, uy: int, vx: int, vy: int, wx: int, wy: int, a: int, b: int, c: int)
    requires
        balanced(ux, uy, vx, vy, wx, wy, a, b, c),
    ensures
        ({
            let w0 = vx * wy - wx * vy;
            let w1 = wx * uy - ux * wy;
            let w2 = ux * vy - vx * uy;
            (w0 >= 0 && w1 >= 0 && w2 >= 0) || (w0 <= 0 && w1 <= 0 && w2 <= 0)
        }),
        min(min(ux, vx), wx) <= 0 <= max(max(ux, vx), wx),
        min(min(uy, vy), wy) <= 0 <= max(max(uy, vy), wy),
{
    let w0 = vx * wy - wx * vy;
    let w1 = wx * uy - ux * wy;
    let w2 = ux * vy - vx * uy;
    lemma_cross(ux, uy, vx, vy, wx, wy, a, b, c);
    lemma_cross(vx, vy, wx, wy, ux, uy, b, c, a);
    lemma_cross(wx, wy, ux, uy, vx, vy, c, a, b);
    if a > 0 {
        lemma_scaled_sign(a, b, w0, w1);
        lemma_scaled_sign(a, c, w0, w2);
    } else if b > 0 {
        lemma_scaled_sign(b, a, w1, w0);
        lemma_scaled_sign(b, c, w1, w2);
    } else {
        lemma_scaled_sign(c, a, w2, w0);
        lemma_scaled_sign(c, b, w2, w1);
    }
    lemma_middle(ux, vx, wx, a, b, c);
    lemma_middle(uy, vy, wy, a, b, c);
}

proof fn lemma_middle(u: int, v: int, w: int, a: int, b: int, c: int)
    requires
        a >= 0 && b >= 0 && c >= 0 && a + b + c > 0,
        a * u + b * v + c * w == 0,
    ensures
        min(min(u, v), w) <= 0 <= max(max(u, v), w),
{
    if u > 0 && v > 0 && w > 0 {
        assert(a * u >= a && b * v >= b && c * w >= c) by (nonlinear_arith)
            requires
                a >= 0 && b >= 0 && c >= 0,
                u > 0 && v > 0 && w > 0,
        ;
    }
    if u < 0 && v < 0 && w < 0 {
        assert(a * u <= -a && b * v <= -b && c * w <= -c) by (nonlinear_arith)
            requires
                a >= 0 && b >= 0 && c >= 0,
                u < 0 && v < 0 && w < 0,
        ;
    }
}

/// A filled triangle is the hull of its corners, border and all: a segment if they are in
/// line, and a point if they are one.
pub proof fn triangles_are_hulls(x0: int, y0: int, x1: int, y1: int, x2: int, y2: int, px: int, py: int)
    ensures
        in_tri(x0, y0, x1, y1, x2, y2)(px, py) == in_hull(x0, y0, x1, y1, x2, y2)(px, py),
{
    let (ux, uy, vx, vy, wx, wy) = (x0 - px, y0 - py, x1 - px, y1 - py, x2 - px, y2 - py);
    let w0 = edge(px, py, x1, y1, x2, y2);
    let w1 = edge(px, py, x2, y2, x0, y0);
    let w2 = edge(px, py, x0, y0, x1, y1);
    assert(w0 == vx * wy - wx * vy && w1 == wx * uy - ux * wy && w2 == ux * vy - vx * uy);
    if in_tri(x0, y0, x1, y1, x2, y2)(px, py) {
        assert((vx * wy - wx * vy) * ux + (wx * uy - ux * wy) * vx + (ux * vy - vx * uy) * wx == 0) by (
        nonlinear_arith);
        assert((vx * wy - wx * vy) * uy + (wx * uy - ux * wy) * vy + (ux * vy - vx * uy) * wy == 0) by (
        nonlinear_arith);
        assert(w0 * ux + w1 * vx + w2 * wx == 0 && w0 * uy + w1 * vy + w2 * wy == 0);
        if w0 == 0 && w1 == 0 && w2 == 0 {
            lemma_flat(ux, uy, vx, vy, wx, wy);
        } else if w0 >= 0 && w1 >= 0 && w2 >= 0 {
            assert(balanced(ux, uy, vx, vy, wx, wy, w0, w1, w2));
        } else {
            assert((-w0) * ux + (-w1) * vx + (-w2) * wx == 0 && (-w0) * uy + (-w1) * vy + (-w2) * wy == 0)
                by (nonlinear_arith)
                requires
                    w0 * ux + w1 * vx + w2 * wx == 0 && w0 * uy + w1 * vy + w2 * wy == 0,
            ;
            assert(balanced(ux, uy, vx, vy, wx, wy, -w0, -w1, -w2));
        }
        let (a, b, c) = choose|a: int, b: int, c: int| #[trigger] balanced(ux, uy, vx, vy, wx, wy, a, b, c);
        lemma_balanced(x0, y0, x1, y1, x2, y2, px, py, a, b, c);
        assert(mean_of(x0, y0, x1, y1, x2, y2, px, py, a, b, c));
    }
    if in_hull(x0, y0, x1, y1, x2, y2)(px, py) {
        let (a, b, c) = choose|a: int, b: int, c: int| #[trigger]
            mean_of(x0, y0, x1, y1, x2, y2, px, py, a, b, c);
        lemma_balanced(x0, y0, x1, y1, x2, y2, px, py, a, b, c);
        lemma_sides(ux, uy, vx, vy, wx, wy, a, b, c);
    }
}

/// The corners of a triangle may come in any order and either way round: swapping two and
/// turning all three give every order.
pub proof fn corners_come_in_any_order(
    p: Pic,
    x0: int,
    y0: int,
    x1: int,
    y1: int,
    x2: int,
    y2: int,
    color: u32,
)
    requires
        0 <= p.w,
        0 <= p.h,
        p.px.len() == p.w * p.h,
    ensures
        p.fill_tri(x0, y0, x1, y1, x2, y2, color) == p.fill_tri(x1, y1, x0, y0, x2, y2, color),
        p.fill_tri(x0, y0, x1, y1, x2, y2, color) == p.fill_tri(x1, y1, x2, y2, x0, y0, color),
{
    let m = in_tri(x0, y0, x1, y1, x2, y2);
    let swapped = in_tri(x1, y1, x0, y0, x2, y2);
    let turned = in_tri(x1, y1, x2, y2, x0, y0);
    assert forall|px: int, py: int| p.has(px, py) implies #[trigger] m(px, py) == swapped(px, py) && m(
        px,
        py,
    ) == turned(px, py) by {
        assert(edge(px, py, x0, y0, x1, y1) == -edge(px, py, x1, y1, x0, y0)) by (nonlinear_arith);
        assert(edge(px, py, x1, y1, x2, y2) == -edge(px, py, x2, y2, x1, y1)) by (nonlinear_arith);
        assert(edge(px, py, x2, y2, x0, y0) == -edge(px, py, x0, y0, x2, y2)) by (nonlinear_arith);
    }
    lemma_same_paint(p, m, swapped, color);
    lemma_same_paint(p, m, turned, color);
}

// ---- what is painted --------------------------------------------------------------------------------------

/// Shapes are painted where they are and nowhere else: a rectangle over its pixels, a disc as far
/// as its radius, a diamond as far as it is from its middle by steps.
pub proof fn shapes_are_painted_in_place(p: Pic, x: int, y: int, a: int, b: int, w: int, h: int, r: int, color: u32)
    requires
        p.has(x, y),
        p.px.len() == p.w * p.h,
        r > 0,
    ensures
        p.fill_rect(a, b, w, h, color).at(x, y) == (if a <= x < a + w && b <= y < b + h {
            color
        } else {
            p.at(x, y)
        }),
        p.fill_circle(a, b, r, color).at(x, y) == (if (x - a) * (x - a) + (y - b) * (y - b) <= r * r {
            color
        } else {
            p.at(x, y)
        }),
        p.fill_diamond(a, b, r, color).at(x, y) == (if abs(x - a) + abs(y - b) <= r {
            color
        } else {
            p.at(x, y)
        }),
        p.put(a, b, color).at(x, y) == (if x == a && y == b {
            color
        } else {
            p.at(x, y)
        }),
{
    painting_is_local(p, in_rect(a, b, w, h), color, x, y);
    painting_is_local(p, in_disc(a, b, r), color, x, y);
    painting_is_local(p, in_diamond(a, b, r), color, x, y);
    painting_is_local(p, only(a, b), color, x, y);
}

/// A circle goes through its four outermost points, looks the same from all sides, and no pixel
/// of it is more than half a step off its radius.
pub proof fn circles_are_round(cx: int, cy: int, r: int, x: int, y: int)
    requires
        r > 0,
    ensures
        on_circle(cx, cy, r)(cx + r, cy) && on_circle(cx, cy, r)(cx - r, cy) && on_circle(cx, cy, r)(cx, cy + r)
            && on_circle(cx, cy, r)(cx, cy - r),
        on_circle(cx, cy, r)(cx + x, cy + y) == on_circle(cx, cy, r)(cx - x, cy + y),
        on_circle(cx, cy, r)(cx + x, cy + y) == on_circle(cx, cy, r)(cx + x, cy - y),
        on_circle(cx, cy, r)(cx + x, cy + y) == on_circle(cx, cy, r)(cx + y, cy + x),
        on_circle(cx, cy, r)(cx + x, cy + y) ==> abs(x * x + y * y - r * r) <= max(abs(x), abs(y)),
{
    assert(r * (r - 1) < r * r <= r * (r + 1)) by (nonlinear_arith)
        requires
            r > 0,
    ;
    lemma_ring_ends(cx, cy, r);
    let (a, b) = (max(abs(x), abs(y)), min(abs(x), abs(y)));
    assert(a * a == x * x && b * b == y * y || a * a == y * y && b * b == x * x) by (nonlinear_arith)
        requires
            a == abs(x) && b == abs(y) || a == abs(y) && b == abs(x),
            abs(x) == x || abs(x) == -x,
            abs(y) == y || abs(y) == -y,
    ;
    assert(a * (a - 1) == a * a - a && a * (a + 1) == a * a + a) by (nonlinear_arith);
}

proof fn lemma_ring_ends(cx: int, cy: int, r: int)
    requires
        r > 0,
        r * (r - 1) < r * r <= r * (r + 1),
    ensures
        ring(r, r, 0),
        ring(r, 0, r),
        on_circle(cx, cy, r)(cx + r, cy),
        on_circle(cx, cy, r)(cx - r, cy),
        on_circle(cx, cy, r)(cx, cy + r),
        on_circle(cx, cy, r)(cx, cy - r),
{
    assert(max(r, 0) == r && min(r, 0) == 0 && max(0, r) == r && min(0, r) == 0);
    assert(0 * 0 == 0);
    assert(ring(r, r, 0) && ring(r, 0, r));
    assert(abs(cx + r - cx) == r && abs(cx - r - cx) == r && abs(cy - cy) == 0 && abs(cx - cx) == 0 && abs(cy + r - cy)
        == r && abs(cy - r - cy) == r);
}

/// A line starts at one end and ends at the other, and has one pixel in each column, or, when it
/// is steep, in each row.
pub proof fn lines_join_their_ends(x0: int, y0: int, x1: int, y1: int, px: int, py: int, qx: int, qy: int)
    ensures
        line_at(x0, y0, x1, y1, x0, y0),
        line_at(x0, y0, x1, y1, x1, y1),
        abs(x1 - x0) >= abs(y1 - y0) && line_at(x0, y0, x1, y1, px, py) && line_at(x0, y0, x1, y1, px, qy) ==> py == qy,
        abs(x1 - x0) < abs(y1 - y0) && line_at(x0, y0, x1, y1, px, py) && line_at(x0, y0, x1, y1, qx, py) ==> px == qx,
        line_at(x0, y0, x1, y1, px, py) ==> min(x0, x1) <= px <= max(x0, x1) || abs(x1 - x0) < abs(y1 - y0),
{
    let (a, b) = (abs(x1 - x0), abs(y1 - y0));
    let (sx, sy) = (sign(x1 - x0), sign(y1 - y0));
    assert(sx * 0 == 0 && sy * 0 == 0);
    if a >= b {
        assert(sx * (x1 - x0) == a) by (nonlinear_arith)
            requires
                sx == 1 && a == x1 - x0 || sx == -1 && a == x0 - x1,
        ;
        lemma_shift_ends(a, b);
        assert(sy * b == y1 - y0) by (nonlinear_arith)
            requires
                sy == 1 && b == y1 - y0 || sy == -1 && b == y0 - y1,
        ;
        assert(sx * (px - x0) == px - x0 || sx * (px - x0) == x0 - px) by (nonlinear_arith)
            requires
                sx == 1 || sx == -1,
        ;
        if x1 > x0 {
            assert(sx * (px - x0) == px - x0) by (nonlinear_arith)
                requires
                    sx == 1,
            ;
        } else {
            assert(sx * (px - x0) == x0 - px) by (nonlinear_arith)
                requires
                    sx == -1,
            ;
        }
    } else {
        assert(sy * (y1 - y0) == b) by (nonlinear_arith)
            requires
                sy == 1 && b == y1 - y0 || sy == -1 && b == y0 - y1,
        ;
        lemma_shift_ends(b, a);
        assert(sx * a == x1 - x0) by (nonlinear_arith)
            requires
                sx == 1 && a == x1 - x0 || sx == -1 && a == x0 - x1,
        ;
    }
}

/// A text is as wide as its characters, six pixels each, and centred it lies evenly on both
/// sides.
pub proof fn texts_are_as_wide_as_their_characters(s: Seq<char>, scale: int)
    requires
        scale >= 0,
    ensures
        width_of(s, scale) == 6 * scale * s.len(),
        0 <= width_of(s, scale) - 2 * half(width_of(s, scale)) <= 1,
{
    assert(s.len() * ADVANCE * scale == 6 * scale * s.len()) by (nonlinear_arith)
        requires
            ADVANCE == 6,
    ;
    assert(0 <= 6 * scale * s.len()) by (nonlinear_arith)
        requires
            scale >= 0,
    ;
}

} // verus!
