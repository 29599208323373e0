//! What a frame is made of, and what covers what.

use vstd::prelude::*;
use crate::input::Ui;
use crate::num::Num;

verus! {

/// A part of a frame.
#[derive(Clone, Copy, PartialEq, Eq, Structural, Debug)]
pub enum Layer {
    Ground,
    Lattice,
    Terrain,
    Border,
    Minerals,
    Plans,
    Buildings,
    Rallies,
    Units,
    Tracers,
    Shocks,
    Particles,
    Pings,
    Trails,
    Fog,
    Drag,
    Placement,
    Flash,
    Minimap,
    Hud,
    Help,
    Outcome,
    Menu,
}

/// How far up a layer lies: a higher one covers a lower one.
pub open spec fn height(l: Layer) -> int {
    match l {
        Layer::Ground => 0,
        Layer::Lattice => 1,
        Layer::Terrain => 2,
        Layer::Border => 3,
        Layer::Minerals => 4,
        Layer::Plans => 5,
        Layer::Buildings => 6,
        Layer::Rallies => 7,
        Layer::Units => 8,
        Layer::Tracers => 9,
        Layer::Shocks => 10,
        Layer::Particles => 11,
        Layer::Pings => 12,
        Layer::Trails => 13,
        Layer::Fog => 14,
        Layer::Drag => 15,
        Layer::Placement => 16,
        Layer::Flash => 17,
        Layer::Minimap => 18,
        Layer::Hud => 19,
        Layer::Help => 20,
        Layer::Outcome => 21,
        Layer::Menu => 22,
    }
}

/// All layers, from the ground up.
pub open spec fn all_layers() -> Seq<Layer> {
    seq![
        Layer::Ground,
        Layer::Lattice,
        Layer::Terrain,
        Layer::Border,
        Layer::Minerals,
        Layer::Plans,
        Layer::Buildings,
        Layer::Rallies,
        Layer::Units,
        Layer::Tracers,
        Layer::Shocks,
        Layer::Particles,
        Layer::Pings,
        Layer::Trails,
        Layer::Fog,
        Layer::Drag,
        Layer::Placement,
        Layer::Flash,
        Layer::Minimap,
        Layer::Hud,
        Layer::Help,
        Layer::Outcome,
        Layer::Menu,
    ]
}

/// A flash weaker than this, a hundredth, is not shown.
pub const FLASH_BITS: u32 = 0x3C23_D70A;

/// Whether a layer is part of the frame, by what the player is doing, the outcome of the match
/// and the strength of the flash.
pub open spec fn shown(l: Layer, ui: Ui, over: i32, flash: Num) -> bool {
    match l {
        Layer::Drag => ui.dragging && ui.drag_start is Some,
        Layer::Placement => ui.build_mode is Some,
        Layer::Flash => (Num { bits: FLASH_BITS }).less(flash),
        Layer::Help => ui.show_help,
        Layer::Outcome => over != 0,
        Layer::Menu => ui.menu,
        _ => true,
    }
}

/// Whether every layer covers those before it.
pub open spec fn stacked(s: Seq<Layer>) -> bool {
    forall|i: int, j: int| 0 <= i < j < s.len() ==> height(#[trigger] s[i]) < height(#[trigger] s[j])
}

/// The layers of a frame, in the order in which they are drawn.
pub fn frame(ui: &Ui, over: i32, flash: Num) -> (r: Vec<Layer>)
    ensures
        stacked(r@),
        forall|l: Layer| #[trigger] r@.contains(l) <==> shown(l, *ui, over, flash),
{
    let all: Vec<Layer> = vec![
        Layer::Ground,
        Layer::Lattice,
        Layer::Terrain,
        Layer::Border,
        Layer::Minerals,
        Layer::Plans,
        Layer::Buildings,
        Layer::Rallies,
        Layer::Units,
        Layer::Tracers,
        Layer::Shocks,
        Layer::Particles,
        Layer::Pings,
        Layer::Trails,
        Layer::Fog,
        Layer::Drag,
        Layer::Placement,
        Layer::Flash,
        Layer::Minimap,
        Layer::Hud,
        Layer::Help,
        Layer::Outcome,
        Layer::Menu,
    ];
    assert(all@ =~= all_layers());
    let n: usize = all.len();
    let mut r: Vec<Layer> = Vec::new();
    for i in 0..n
        invariant
            all@ == all_layers(),
            n == all@.len(),
            stacked(r@),
            forall|k: int| 0 <= k < r@.len() ==> height(#[trigger] r@[k]) < i,
            forall|l: Layer| #[trigger] r@.contains(l) <==> shown(l, *ui, over, flash) && height(l) < i,
    {
        let l: Layer = all[i];
        assert(height(l) == i);
        let on: bool = match l {
            Layer::Drag => ui.dragging && ui.drag_start.is_some(),
            Layer::Placement => ui.build_mode.is_some(),
            Layer::Flash => (Num { bits: FLASH_BITS }).less(flash),
            Layer::Help => ui.show_help,
            Layer::Outcome => over != 0,
            Layer::Menu => ui.menu,
            _ => true,
        };
        let ghost r0 = r@;
        if on {
            r.push(l);
            assert(r@ == r0.push(l));
            assert(r@[r0.len() as int] == l);
        }
        assert forall|m: Layer| #[trigger] r@.contains(m) <==> shown(m, *ui, over, flash) && height(m) < i + 1 by {
            if height(m) == i {
                assert(m == l) by {
                    lemma_heights(m);
                }
            }
            if r0.contains(m) {
                let k = choose|k: int| 0 <= k < r0.len() && r0[k] == m;
                assert(r@[k] == m);
            }
        }
    }
    assert forall|l: Layer| #[trigger] r@.contains(l) <==> shown(l, *ui, over, flash) by {
        lemma_heights(l);
    }
    r
}

proof fn lemma_heights(l: Layer)
    ensures
        0 <= height(l) < all_layers().len(),
        all_layers()[height(l)] == l,
{
}

/// What is in a frame is drawn once, the fog over everything that stands or moves on the map,
/// the HUD over the fog, and a panel, where one is open, over all of these.
pub proof fn fog_covers_the_map_and_the_hud_covers_the_fog(s: Seq<Layer>, i: int, j: int)
    requires
        stacked(s),
        0 <= i < s.len(),
        0 <= j < s.len(),
    ensures
        s[i] == s[j] ==> i == j,
        (s[i] == Layer::Minerals || s[i] == Layer::Buildings || s[i] == Layer::Units || s[i] == Layer::Particles)
            && s[j] == Layer::Fog ==> i < j,
        s[i] == Layer::Fog && (s[j] == Layer::Minimap || s[j] == Layer::Hud) ==> i < j,
        s[i] == Layer::Hud && (s[j] == Layer::Help || s[j] == Layer::Outcome || s[j] == Layer::Menu) ==> i < j,
{
    if i < j {
        assert(height(s[i]) < height(s[j]));
    }
    if j < i {
        assert(height(s[j]) < height(s[i]));
    }
}

/// There is only one such order: two frames of the same layers are the same.
pub proof fn frames_are_stacked_one_way(a: Seq<Layer>, b: Seq<Layer>)
    requires
        stacked(a),
        stacked(b),
        forall|l: Layer| #[trigger] a.contains(l) ==> b.contains(l),
        forall|l: Layer| #[trigger] b.contains(l) ==> a.contains(l),
    ensures
        a == b,
    decreases a.len(),
{
    if a.len() > 0 {
        assert(a[a.len() - 1] == a.last());
        assert(a.contains(a.last()));
        assert(b.contains(a.last()));
        let k = choose|k: int| 0 <= k < b.len() && b[k] == a.last();
        assert(b[b.len() - 1] == b.last());
        assert(b.contains(b.last()));
        assert(a.contains(b.last()));
        let m = choose|m: int| 0 <= m < a.len() && a[m] == b.last();
        if k < b.len() - 1 {
            assert(height(b[k]) < height(b[b.len() - 1]));
            assert(height(a[m]) <= height(a[a.len() - 1])) by {
                if m < a.len() - 1 {
                    assert(height(a[m]) < height(a[a.len() - 1]));
                }
            }
        }
        let (x, y) = (a.drop_last(), b.drop_last());
        assert forall|l: Layer| #[trigger] x.contains(l) implies y.contains(l) by {
            lemma_without_last(a, l);
            lemma_without_last(b, l);
        }
        assert forall|l: Layer| #[trigger] y.contains(l) implies x.contains(l) by {
            lemma_without_last(a, l);
            lemma_without_last(b, l);
        }
        frames_are_stacked_one_way(x, y);
        assert(a =~= x.push(a.last()));
        assert(b =~= y.push(b.last()));
    } else if b.len() > 0 {
        assert(b.contains(b[0]));
        assert(a.contains(b[0]));
    }
}

proof fn lemma_without_last(s: Seq<Layer>, l: Layer)
    requires
        stacked(s),
        s.len() > 0,
    ensures
        s.drop_last().contains(l) <==> s.contains(l) && l != s.last(),
{
    if s.drop_last().contains(l) {
        let k = choose|k: int| 0 <= k < s.drop_last().len() && s.drop_last()[k] == l;
        assert(s[k] == l);
        assert(height(s[k]) < height(s[s.len() - 1]));
    }
    if s.contains(l) && l != s.last() {
        let k = choose|k: int| 0 <= k < s.len() && s[k] == l;
        assert(s.drop_last()[k] == l);
    }
}

} // verus!
