//! Lists of shapes to be drawn one over the other, and texts on top. The opaque shapes
//! are painted by the canvas; those that mix with what lies under them are left to
//! whoever can do the arithmetic.

use vstd::prelude::*;
use vstd::string::*;
use crate::gfx::{text_fits, Canvas, Pic};

verus! {

/// Bound on the coordinates and sizes of shapes: as far as sums of two are whole numbers that
/// single precision holds exactly.
pub const SPAN: i32 = 8_000_000;

/// One shape. Shares are in hundredths.
#[derive(Clone, Copy, PartialEq, Eq, Structural, Debug)]
pub enum Shape {
    /// A filled rectangle.
    Fill { x: i32, y: i32, w: i32, h: i32, color: u32 },
    /// The border of a rectangle.
    Frame { x: i32, y: i32, w: i32, h: i32, color: u32 },
    /// A disc.
    Disc { x: i32, y: i32, r: i32, color: u32 },
    /// A circle.
    Ring { x: i32, y: i32, r: i32, color: u32 },
    /// A filled diamond.
    Gem { x: i32, y: i32, r: i32, color: u32 },
    /// A line.
    Line { x0: i32, y0: i32, x1: i32, y1: i32, color: u32 },
    /// A rectangle through which some of what lies under it shows.
    Veil { x: i32, y: i32, w: i32, h: i32, color: u32, share: u32 },
    /// A disc of light.
    Glow { x: i32, y: i32, r: i32, color: u32, share: u32 },
    /// A dashed line.
    Dashes { x0: i32, y0: i32, x1: i32, y1: i32, color: u32, dash: i32 },
}

pub open spec fn near(a: int) -> bool {
    -SPAN <= a <= SPAN
}

pub open spec fn fill(x: int, y: int, w: int, h: int, color: u32) -> Shape {
    Shape::Fill { x: x as i32, y: y as i32, w: w as i32, h: h as i32, color }
}

pub open spec fn frame(x: int, y: int, w: int, h: int, color: u32) -> Shape {
    Shape::Frame { x: x as i32, y: y as i32, w: w as i32, h: h as i32, color }
}

pub open spec fn disc(x: int, y: int, r: int, color: u32) -> Shape {
    Shape::Disc { x: x as i32, y: y as i32, r: r as i32, color }
}

pub open spec fn ring(x: int, y: int, r: int, color: u32) -> Shape {
    Shape::Ring { x: x as i32, y: y as i32, r: r as i32, color }
}

pub open spec fn gem(x: int, y: int, r: int, color: u32) -> Shape {
    Shape::Gem { x: x as i32, y: y as i32, r: r as i32, color }
}

pub open spec fn line(x0: int, y0: int, x1: int, y1: int, color: u32) -> Shape {
    Shape::Line { x0: x0 as i32, y0: y0 as i32, x1: x1 as i32, y1: y1 as i32, color }
}

pub open spec fn veil(x: int, y: int, w: int, h: int, color: u32, share: u32) -> Shape {
    Shape::Veil { x: x as i32, y: y as i32, w: w as i32, h: h as i32, color, share }
}

pub open spec fn glow(x: int, y: int, r: int, color: u32, share: u32) -> Shape {
    Shape::Glow { x: x as i32, y: y as i32, r: r as i32, color, share }
}

pub open spec fn dashes(x0: int, y0: int, x1: int, y1: int, color: u32, dash: int) -> Shape {
    Shape::Dashes {
        x0: x0 as i32,
        y0: y0 as i32,
        x1: x1 as i32,
        y1: y1 as i32,
        color,
        dash: dash as i32,
    }
}

impl Shape {
    /// Whether a shape covers what lies under it.
    pub open spec fn opaque(self) -> bool {
        !(self is Veil) && !(self is Glow) && !(self is Dashes)
    }

    /// Whether a shape stays within the coordinates that the canvas takes.
    pub open spec fn in_span(self) -> bool {
        match self {
            Shape::Fill { x, y, w, h, .. } | Shape::Frame { x, y, w, h, .. } => {
                near(x as int) && near(y as int) && near(w as int) && near(h as int)
            },
            Shape::Disc { x, y, r, .. } => near(x as int) && near(y as int) && r <= 46_340,
            Shape::Ring { x, y, r, .. } | Shape::Gem { x, y, r, .. } => {
                near(x as int) && near(y as int) && near(r as int)
            },
            Shape::Line { x0, y0, x1, y1, .. } => {
                near(x0 as int) && near(y0 as int) && near(x1 as int) && near(y1 as int)
            },
            _ => true,
        }
    }

    /// The picture with an opaque shape painted over it.
    pub open spec fn on(self, p: Pic) -> Pic {
        match self {
            Shape::Fill { x, y, w, h, color } => {
                p.fill_rect(x as int, y as int, w as int, h as int, color)
            },
            Shape::Frame { x, y, w, h, color } => {
                p.rect(x as int, y as int, w as int, h as int, color)
            },
            Shape::Disc { x, y, r, color } => p.fill_circle(x as int, y as int, r as int, color),
            Shape::Ring { x, y, r, color } => p.circle(x as int, y as int, r as int, color),
            Shape::Gem { x, y, r, color } => p.fill_diamond(x as int, y as int, r as int, color),
            Shape::Line { x0, y0, x1, y1, color } => {
                p.line(x0 as int, y0 as int, x1 as int, y1 as int, color)
            },
            _ => p,
        }
    }
}

/// Lists are joined in any grouping.
pub proof fn lemma_join(o: Seq<Shape>, a: Seq<Shape>, b: Seq<Shape>)
    ensures
        o + a + b == o + (a + b),
{
    assert(o + a + b =~= o + (a + b));
}

/// The shapes of `f(0)`, `f(1)` and so on up to `f(n - 1)`, one after the other.
pub open spec fn gather(n: int, f: spec_fn(int) -> Seq<Shape>) -> Seq<Shape>
    decreases n,
{
    if n <= 0 {
        seq![]
    } else {
        gather(n - 1, f) + f(n - 1)
    }
}

/// One more entry of a gathering.
pub proof fn lemma_gather(o: Seq<Shape>, n: int, f: spec_fn(int) -> Seq<Shape>)
    requires
        0 <= n,
    ensures
        o + gather(n, f) + f(n) == o + gather(n + 1, f),
        o + gather(0, f) == o,
{
    lemma_join(o, gather(n, f), f(n));
    assert(o + gather(0, f) =~= o);
}

fn is_near(a: i32) -> (r: bool)
    ensures
        r == near(a as int),
{
    -SPAN <= a && a <= SPAN
}

impl Canvas {
    /// Paints a shape if it is opaque and within the coordinates that the canvas takes;
    /// says whether it did.
    pub fn stamp(&mut self, s: &Shape) -> (done: bool)
        requires
            old(self).wf(),
        ensures
            final(self).wf(),
            done == (s.opaque() && s.in_span()),
            final(self)@ == (if done {
                s.on(old(self)@)
            } else {
                old(self)@
            }),
    {
        match *s {
            Shape::Fill { x, y, w, h, color } => {
                if !(is_near(x) && is_near(y) && is_near(w) && is_near(h)) {
                    return false;
                }
                self.fill_rect(x, y, w, h, color);
                true
            },
            Shape::Frame { x, y, w, h, color } => {
                if !(is_near(x) && is_near(y) && is_near(w) && is_near(h)) {
                    return false;
                }
                self.rect(x, y, w, h, color);
                true
            },
            Shape::Disc { x, y, r, color } => {
                if !(is_near(x) && is_near(y) && r <= 46_340) {
                    return false;
                }
                self.fill_circle(x, y, r, color);
                true
            },
            Shape::Ring { x, y, r, color } => {
                if !(is_near(x) && is_near(y) && is_near(r)) {
                    return false;
                }
                self.circle(x, y, r, color);
                true
            },
            Shape::Gem { x, y, r, color } => {
                if !(is_near(x) && is_near(y) && is_near(r)) {
                    return false;
                }
                self.fill_diamond(x, y, r, color);
                true
            },
            Shape::Line { x0, y0, x1, y1, color } => {
                if !(is_near(x0) && is_near(y0) && is_near(x1) && is_near(y1)) {
                    return false;
                }
                self.line(x0, y0, x1, y1, color);
                true
            },
            _ => false,
        }
    }
}

/// How a text is set: from its left edge, from its left edge over a shadow, or centred
/// over a shadow.
#[derive(Clone, Copy, PartialEq, Eq, Structural, Debug)]
pub enum Setting {
    Plain,
    Shadowed,
    Centred,
}

/// A text to be drawn.
pub struct Label {
    pub x: i32,
    pub y: i32,
    pub text: String,
    pub color: u32,
    pub scale: i32,
    pub setting: Setting,
}

/// A text to be drawn, with its characters as a sequence.
#[verifier::ext_equal]
pub struct LabelV {
    pub x: int,
    pub y: int,
    pub text: Seq<char>,
    pub color: u32,
    pub scale: int,
    pub setting: Setting,
}

impl View for Label {
    type V = LabelV;

    open spec fn view(&self) -> LabelV {
        LabelV {
            x: self.x as int,
            y: self.y as int,
            text: self.text@,
            color: self.color,
            scale: self.scale as int,
            setting: self.setting,
        }
    }
}

pub open spec fn labels_view(l: Seq<Label>) -> Seq<LabelV> {
    l.map_values(|a: Label| a@)
}

pub open spec fn plain(x: int, y: int, text: Seq<char>, color: u32, scale: int) -> LabelV {
    LabelV { x, y, text, color, scale, setting: Setting::Plain }
}

pub open spec fn shadowed(x: int, y: int, text: Seq<char>, color: u32, scale: int) -> LabelV {
    LabelV { x, y, text, color, scale, setting: Setting::Shadowed }
}

pub open spec fn centred(x: int, y: int, text: Seq<char>, color: u32, scale: int) -> LabelV {
    LabelV { x, y, text, color, scale, setting: Setting::Centred }
}

impl LabelV {
    /// Whether a text stays within the coordinates that the canvas takes.
    pub open spec fn in_span(self) -> bool {
        &&& near(self.x)
        &&& near(self.y)
        &&& self.text.len() <= 10_000
        &&& 0 <= self.scale <= 300
    }

    /// The picture with the text painted over it.
    pub open spec fn on(self, p: Pic) -> Pic {
        match self.setting {
            Setting::Plain => p.text(self.x, self.y, self.text, self.color, self.scale),
            Setting::Shadowed => p.text_sh(self.x, self.y, self.text, self.color, self.scale),
            Setting::Centred => p.text_center(self.x, self.y, self.text, self.color, self.scale),
        }
    }
}

/// Appends a text to a list.
pub fn push_label(
    out: &mut Vec<Label>,
    x: i32,
    y: i32,
    text: String,
    color: u32,
    scale: i32,
    setting: Setting,
)
    ensures
        labels_view(final(out)@) == labels_view(old(out)@).push(
            LabelV {
                x: x as int,
                y: y as int,
                text: text@,
                color,
                scale: scale as int,
                setting,
            },
        ),
        final(out)@.len() == old(out)@.len() + 1,
{
    let ghost o = out@;
    let ghost v = LabelV { x: x as int, y: y as int, text: text@, color, scale: scale as int, setting };
    let l = Label { x, y, text, color, scale, setting };
    out.push(l);
    proof {
        assert(l@ == v);
        assert(labels_view(out@) =~= labels_view(o).push(v));
    }
}

impl Canvas {
    /// Paints a text if it is within the coordinates that the canvas takes; says whether
    /// it did.
    pub fn write(&mut self, l: &Label) -> (done: bool)
        requires
            old(self).wf(),
        ensures
            final(self).wf(),
            done == l@.in_span(),
            final(self)@ == (if done {
                l@.on(old(self)@)
            } else {
                old(self)@
            }),
    {
        let s: &str = l.text.as_str();
        let n: usize = s.unicode_len();
        if !(is_near(l.x) && is_near(l.y) && n <= 10_000 && 0 <= l.scale && l.scale <= 300) {
            return false;
        }
        proof {
            let k = l.text@.len() as int;
            let sc = l.scale as int;
            assert(0 <= 6 * sc * k <= 18_000_000) by (nonlinear_arith)
                requires
                    0 <= k <= 10_000,
                    0 <= sc <= 300,
            ;
            assert(k * 6 * sc == 6 * sc * k) by (nonlinear_arith);
            assert(text_fits(l.x as int, l.y as int, l.text@, sc));
            assert(text_fits(l.x + sc, l.y + sc, l.text@, sc));
        }
        match l.setting {
            Setting::Plain => self.text(l.x, l.y, s, l.color, l.scale),
            Setting::Shadowed => self.text_sh(l.x, l.y, s, l.color, l.scale),
            Setting::Centred => self.text_center(l.x, l.y, s, l.color, l.scale),
        }
        true
    }
}

/// Gathering leaves nothing out: every shape of every part is there, and nothing else is.
pub proof fn gathering_leaves_nothing_out(n: int, f: spec_fn(int) -> Seq<Shape>, k: int, s: Shape)
    requires
        0 <= k < n,
        f(k).contains(s),
    ensures
        gather(n, f).contains(s),
    decreases n,
{
    let a = gather(n - 1, f);
    let g = gather(n, f);
    if k < n - 1 {
        gathering_leaves_nothing_out(n - 1, f, k, s);
        let j = choose|j: int| 0 <= j < a.len() && a[j] == s;
        assert(g[j] == s);
    } else {
        let part = f(k);
        let j = choose|j: int| 0 <= j < part.len() && part[j] == s;
        assert(g[a.len() + j] == s);
    }
}

/// What is gathered is a shape of some part.
pub proof fn gathering_adds_nothing(n: int, f: spec_fn(int) -> Seq<Shape>, s: Shape)
    requires
        gather(n, f).contains(s),
    ensures
        exists|k: int| 0 <= k < n && (#[trigger] f(k)).contains(s),
    decreases n,
{
    let a = gather(n - 1, f);
    let g = gather(n, f);
    let j = choose|j: int| 0 <= j < g.len() && g[j] == s;
    if n > 0 {
        if j < a.len() {
            assert(a[j] == s);
            assert(a.contains(s));
            gathering_adds_nothing(n - 1, f, s);
            let k = choose|k: int| 0 <= k < n - 1 && (#[trigger] f(k)).contains(s);
            assert(f(k).contains(s));
        } else {
            assert(f(n - 1)[j - a.len()] == s);
            assert(f(n - 1).contains(s));
        }
    }
}

} // verus!
