//! The screens in front of the game: scanlines, range rings, frames and texts. The beam that
//! sweeps over them is left to whoever can turn angles into points.

use vstd::prelude::*;
use vstd::string::*;
use crate::gfx::rgb;
use crate::menu::{caret, dots};
use crate::scene::{
    centred, frame, labels_view, plain, push_label, ring, veil, Label, LabelV, Setting, Shape, SPAN,
};

verus! {

/// Scanlines 26 pixels apart, from row `y` on.
pub open spec fn scanline_shapes(y: int, w: int, h: int) -> Seq<Shape>
    decreases (if y < h {
        h - y
    } else {
        0
    }),
{
    if y < h {
        seq![veil(0, y, w, 1, rgb(40, 80, 70), 5)] + scanline_shapes(y + 26, w, h)
    } else {
        seq![]
    }
}

/// The row of the first scanline at a tick: the lines drift down a row every other tick.
pub open spec fn drift(t: u64) -> int {
    (t as int / 2) % 26
}

/// The scanlines of a screen at a tick.
pub fn draw_scanlines(t: u64, w: i32, h: i32) -> (out: Vec<Shape>)
    requires
        0 <= h <= SPAN,
    ensures
        out@ == scanline_shapes(drift(t), w as int, h as int),
{
    let mut out: Vec<Shape> = Vec::new();
    let mut y: i32 = ((t / 2) % 26) as i32;
    let ghost all = scanline_shapes(y as int, w as int, h as int);
    assert(out@ + all =~= all);
    while y < h
        invariant
            0 <= y <= h + 26,
            0 <= h <= SPAN,
            out@ + scanline_shapes(y as int, w as int, h as int) == all,
        decreases h + 26 - y,
    {
        let ghost was = out@;
        out.push(Shape::Veil { x: 0, y, w, h: 1, color: rgb(40, 80, 70), share: 5 });
        assert(out@ + scanline_shapes(y + 26, w as int, h as int) =~= was + scanline_shapes(
            y as int,
            w as int,
            h as int,
        ));
        y = y + 26;
    }
    assert(out@ =~= out@ + scanline_shapes(y as int, w as int, h as int));
    out
}

/// The shades of a lobby, mixed from its accent: rings, heading, sub-line, and the two
/// frames.
#[derive(Clone, Copy, PartialEq, Eq, Structural, Debug)]
pub struct FrontShades {
    pub ring: u32,
    pub heading: u32,
    pub sub: u32,
    pub outer: u32,
    pub inner: u32,
}

pub open spec fn range_rings(w: int, h: int, color: u32) -> Seq<Shape> {
    seq![
        ring(w / 2, h / 2, 70, color),
        ring(w / 2, h / 2, 140, color),
        ring(w / 2, h / 2, 210, color),
        ring(w / 2, h / 2, 280, color),
    ]
}

/// The range rings of a lobby.
pub fn draw_rings(w: i32, h: i32, color: u32) -> (out: Vec<Shape>)
    requires
        0 <= w,
        0 <= h,
    ensures
        out@ == range_rings(w as int, h as int, color),
{
    let (x, y): (i32, i32) = (w / 2, h / 2);
    let mut out: Vec<Shape> = Vec::new();
    out.push(Shape::Ring { x, y, r: 70, color });
    out.push(Shape::Ring { x, y, r: 140, color });
    out.push(Shape::Ring { x, y, r: 210, color });
    out.push(Shape::Ring { x, y, r: 280, color });
    assert(out@ =~= range_rings(w as int, h as int, color));
    out
}

/// The texts of a lobby: a heading, a big line, and a sub-line and a hint if there are any.
pub open spec fn lobby_labels(
    w: int,
    h: int,
    heading: Seq<char>,
    big: Seq<char>,
    sub: Seq<char>,
    hint: Seq<char>,
    s: FrontShades,
) -> Seq<LabelV> {
    let a = seq![
        centred(w / 2, h / 2 - 150, heading, s.heading, 2),
        centred(w / 2, h / 2 - 110, big, rgb(245, 248, 250), 5),
    ];
    let b = if sub.len() > 0 {
        a.push(centred(w / 2, h / 2 - 56, sub, s.sub, 3))
    } else {
        a
    };
    if hint.len() > 0 {
        b.push(centred(w / 2, h - 70, hint, rgb(150, 165, 170), 2))
    } else {
        b
    }
}

pub open spec fn lobby_frames(w: int, h: int, s: FrontShades) -> Seq<Shape> {
    seq![frame(18, 18, w - 36, h - 36, s.outer), frame(20, 20, w - 40, h - 40, s.inner)]
}

/// The texts of a lobby, and the frames round it.
pub fn draw_lobby(
    w: i32,
    h: i32,
    heading: &str,
    big: &str,
    sub: &str,
    hint: &str,
    s: &FrontShades,
) -> (r: (Vec<Label>, Vec<Shape>))
    requires
        0 <= w,
        0 <= h,
    ensures
        labels_view(r.0@) == lobby_labels(w as int, h as int, heading@, big@, sub@, hint@, *s),
        r.1@ == lobby_frames(w as int, h as int, *s),
{
    let cx: i32 = w / 2;
    let cy: i32 = h / 2;
    let mut out: Vec<Label> = Vec::new();
    assert(labels_view(out@) =~= seq![]);
    push_label(&mut out, cx, cy - 150, heading.to_string(), s.heading, 2, Setting::Centred);
    push_label(&mut out, cx, cy - 110, big.to_string(), rgb(245, 248, 250), 5, Setting::Centred);
    if sub.unicode_len() > 0 {
        push_label(&mut out, cx, cy - 56, sub.to_string(), s.sub, 3, Setting::Centred);
    }
    if hint.unicode_len() > 0 {
        push_label(&mut out, cx, h - 70, hint.to_string(), rgb(150, 165, 170), 2, Setting::Centred);
    }
    assert(labels_view(out@) =~= lobby_labels(w as int, h as int, heading@, big@, sub@, hint@, *s));
    let mut frames: Vec<Shape> = Vec::new();
    frames.push(Shape::Frame { x: 18, y: 18, w: w - 36, h: h - 36, color: s.outer });
    frames.push(Shape::Frame { x: 20, y: 20, w: w - 40, h: h - 40, color: s.inner });
    assert(frames@ =~= lobby_frames(w as int, h as int, *s));
    (out, frames)
}

/// The title of a menu, and its subtitle if there is one.
pub open spec fn title_labels(w: int, title: Seq<char>, subtitle: Seq<char>, s: FrontShades) -> Seq<LabelV> {
    let a = seq![centred(w / 2, 78, title, s.heading, 9)];
    if subtitle.len() > 0 {
        a.push(centred(w / 2, 156, subtitle, s.sub, 2))
    } else {
        a
    }
}

/// The title of a menu, and the frame round it.
pub fn draw_menu_bg(w: i32, h: i32, title: &str, subtitle: &str, s: &FrontShades) -> (r: (Vec<Label>, Shape))
    requires
        0 <= w,
        0 <= h,
    ensures
        labels_view(r.0@) == title_labels(w as int, title@, subtitle@, *s),
        r.1 == frame(18, 18, w - 36, h - 36, s.outer),
{
    let mut out: Vec<Label> = Vec::new();
    assert(labels_view(out@) =~= seq![]);
    push_label(&mut out, w / 2, 78, title.to_string(), s.heading, 9, Setting::Centred);
    if subtitle.unicode_len() > 0 {
        push_label(&mut out, w / 2, 156, subtitle.to_string(), s.sub, 2, Setting::Centred);
    }
    assert(labels_view(out@) =~= title_labels(w as int, title@, subtitle@, *s));
    (out, Shape::Frame { x: 18, y: 18, w: w - 36, h: h - 36, color: s.outer })
}

/// A row of dots.
pub open spec fn dot_row(n: int) -> Seq<char> {
    Seq::new(n as nat, |i: int| '.')
}

/// A text with a row of dots that grows and shrinks with the ticks.
pub fn waiting_text(head: &str, t: u64) -> (s: String)
    ensures
        s@ == head@ + dot_row((t as int / 16) % 4 + 1),
{
    let mut s: String = head.to_string();
    let n: usize = dots(t);
    proof {
        reveal_strlit(".");
        assert("."@ =~= seq!['.']);
        assert(s@ =~= head@ + dot_row(0));
    }
    for i in 0..n
        invariant
            "."@ == seq!['.'],
            s@ == head@ + dot_row(i as int),
    {
        s.append(".");
        assert(s@ =~= head@ + dot_row(i + 1));
    }
    s
}

/// The address field: what was typed, with a blinking caret.
pub open spec fn field_label(addr: Seq<char>, on: bool, cw: int, ch: int) -> LabelV {
    plain(
        cw / 2 - 226,
        ch - 182,
        addr + (if on {
            "_"@
        } else {
            " "@
        }),
        rgb(230, 240, 240),
        3,
    )
}

/// The address field at a tick: its box, and what stands in it.
pub fn draw_field(addr: &str, t: u64, cw: i32, ch: i32) -> (r: (Vec<Shape>, Label))
    requires
        0 <= cw <= SPAN,
        0 <= ch <= SPAN,
    ensures
        r.0@ == seq![
            veil(cw as int / 2 - 240, ch - 196, 480, 48, rgb(10, 14, 12), 90),
            frame(cw as int / 2 - 240, ch - 196, 480, 48, rgb(255, 200, 90)),
        ],
        r.1@ == field_label(addr@, (t as int / 28) % 2 == 0, cw as int, ch as int),
{
    let x: i32 = cw / 2 - 240;
    let y: i32 = ch - 196;
    let mut out: Vec<Shape> = Vec::new();
    out.push(Shape::Veil { x, y, w: 480, h: 48, color: rgb(10, 14, 12), share: 90 });
    out.push(Shape::Frame { x, y, w: 480, h: 48, color: rgb(255, 200, 90) });
    assert(out@ =~= seq![
        veil(cw as int / 2 - 240, ch - 196, 480, 48, rgb(10, 14, 12), 90),
        frame(cw as int / 2 - 240, ch - 196, 480, 48, rgb(255, 200, 90)),
    ]);
    let mut s: String = addr.to_string();
    if caret(t) {
        s.append("_");
    } else {
        s.append(" ");
    }
    (
        out,
        Label { x: x + 14, y: y + 14, text: s, color: rgb(230, 240, 240), scale: 3, setting: Setting::Plain },
    )
}

} // verus!
