//! What the local player sees of the world: minerals, planned buildings, rally points,
//! the routes of those selected, the fog over it all, and what is drawn round the cursor.

use vstd::prelude::*;
use crate::combat::slots_where;
use crate::fog::{Fog, UNSEEN, VISIBLE};
use crate::gfx::rgb;
use crate::ground::{cells_in_view, first_cell, last_cell};
use crate::kind::{cost, is_army, is_building, radius, Kind, Team, BUILD_GAP};
use crate::num::{Num, V2};
use crate::orders::Site;
use crate::scene::{
    dashes, disc, fill, frame, gather, gem, lemma_gather, near, ring, veil, Shape, SPAN,
};
use crate::theme::SELECT;
use crate::world::{Ent, EntV, Order, World, WorldV};

verus! {

/// How a mineral patch looks: the sizes of its two layers, and the colour of the inner.
/// They shrink and dim as the patch is mined.
#[derive(Clone, Copy, PartialEq, Eq, Structural, Debug)]
pub struct Ore {
    pub outer: i32,
    pub inner: i32,
    pub body: u32,
}

/// Whether a place is on a screen of `cw` by `ch` pixels, or close to it.
pub open spec fn close_to_screen(at: (i32, i32), cw: int, ch: int, margin: int) -> bool {
    -margin <= at.0 <= cw + margin && -margin <= at.1 <= ch + margin
}

pub open spec fn places_near(s: Seq<(i32, i32)>) -> bool {
    forall|i: int| 0 <= i < s.len() ==> near((#[trigger] s[i]).0 as int) && near(s[i].1 as int)
}

fn is_close(at: (i32, i32), cw: i32, ch: i32, margin: i32) -> (r: bool)
    requires
        near(cw as int),
        near(ch as int),
        0 <= margin <= 100,
    ensures
        r == close_to_screen(at, cw as int, ch as int, margin as int),
{
    !(at.0 < -margin || at.1 < -margin || at.0 > cw + margin || at.1 > ch + margin)
}

pub open spec fn third(a: int) -> int {
    if a / 3 < 1 {
        1
    } else {
        a / 3
    }
}

pub open spec fn ore_shapes(w: WorldV, at: Seq<(i32, i32)>, ore: Seq<Ore>, cw: int, ch: int, i: int) -> Seq<
    Shape,
> {
    let (x, y) = (at[i].0 as int, at[i].1 as int);
    if w.ents[i].kind == Kind::Mineral && close_to_screen(at[i], cw, ch, 30) {
        seq![
            gem(x, y, ore[i].outer as int, rgb(28, 120, 130)),
            gem(x, y, ore[i].inner as int, ore[i].body),
            gem(x - 2, y - 2, third(ore[i].inner as int), rgb(190, 250, 255)),
        ]
    } else {
        seq![]
    }
}

pub open spec fn ores(w: WorldV, at: Seq<(i32, i32)>, ore: Seq<Ore>, cw: int, ch: int) -> spec_fn(
    int,
) -> Seq<Shape> {
    |i: int| ore_shapes(w, at, ore, cw, ch, i)
}

/// The mineral patches in view. `at` is the place of each entity on the screen.
pub fn draw_minerals(w: &World, at: &Vec<(i32, i32)>, ore: &Vec<Ore>, cw: i32, ch: i32) -> (out: Vec<
    Shape,
>)
    requires
        w.wf(),
        at@.len() == w.ents@.len(),
        ore@.len() == w.ents@.len(),
        forall|i: int| 0 <= i < ore@.len() ==> 0 <= (#[trigger] ore@[i]).inner,
        near(cw as int),
        near(ch as int),
    ensures
        out@ == gather(w@.ents.len() as int, ores(w@, at@, ore@, cw as int, ch as int)),
{
    let mut out: Vec<Shape> = Vec::new();
    let ghost o = out@;
    let ghost f = ores(w@, at@, ore@, cw as int, ch as int);
    let n: usize = w.ents.len();
    proof {
        lemma_gather(o, 0, f);
    }
    for i in 0..n
        invariant
            w.wf(),
            n == w.ents@.len(),
            at@.len() == n,
            ore@.len() == n,
            forall|i: int| 0 <= i < ore@.len() ==> 0 <= (#[trigger] ore@[i]).inner,
            near(cw as int),
            near(ch as int),
            f == ores(w@, at@, ore@, cw as int, ch as int),
            out@ == o + gather(i as int, f),
    {
        let ghost now = out@;
        assert(w@.ents[i as int] == w.ents@[i as int]@);
        let p = at[i];
        if w.ents[i].kind == Kind::Mineral && is_close(p, cw, ch, 30) {
            let q = ore[i];
            assert(0 <= ore@[i as int].inner);
            let t: i32 = if q.inner / 3 < 1 {
                1
            } else {
                q.inner / 3
            };
            out.push(Shape::Gem { x: p.0, y: p.1, r: q.outer, color: rgb(28, 120, 130) });
            out.push(Shape::Gem { x: p.0, y: p.1, r: q.inner, color: q.body });
            out.push(Shape::Gem { x: p.0 - 2, y: p.1 - 2, r: t, color: rgb(190, 250, 255) });
        }
        proof {
            assert(out@ =~= now + ore_shapes(w@, at@, ore@, cw as int, ch as int, i as int));
            assert(f(i as int) == ore_shapes(w@, at@, ore@, cw as int, ch as int, i as int));
            lemma_gather(o, i as int, f);
        }
    }
    assert(out@ =~= gather(n as int, f));
    out
}

/// A building that a worker of the first faction is on its way to raise.
pub open spec fn plan_shapes(w: WorldV, site: Seq<(i32, i32)>, i: int) -> Seq<Shape> {
    let e = w.ents[i];
    match e.order {
        Order::Build(k, _) => if e.team == Team::Player {
            let r = radius(k) as int;
            let (x, y) = (site[i].0 as int, site[i].1 as int);
            seq![
                frame(x - r, y - r, r * 2, r * 2, rgb(90, 150, 90)),
                dashes(x - r, y - r, x + r, y - r, rgb(120, 200, 120), 3),
            ]
        } else {
            seq![]
        },
        _ => seq![],
    }
}

pub open spec fn plans(w: WorldV, site: Seq<(i32, i32)>) -> spec_fn(int) -> Seq<Shape> {
    |i: int| plan_shapes(w, site, i)
}

/// The buildings that workers are on their way to raise. `site` is the place on the screen
/// where each entity is to build, whatever it is for those who are not.
pub fn draw_plans(w: &World, site: &Vec<(i32, i32)>) -> (out: Vec<Shape>)
    requires
        w.wf(),
        site@.len() == w.ents@.len(),
        places_near(site@),
    ensures
        out@ == gather(w@.ents.len() as int, plans(w@, site@)),
{
    let mut out: Vec<Shape> = Vec::new();
    let ghost o = out@;
    let ghost f = plans(w@, site@);
    let n: usize = w.ents.len();
    proof {
        lemma_gather(o, 0, f);
    }
    for i in 0..n
        invariant
            w.wf(),
            n == w.ents@.len(),
            site@.len() == n,
            places_near(site@),
            f == plans(w@, site@),
            out@ == o + gather(i as int, f),
    {
        let ghost now = out@;
        assert(w@.ents[i as int] == w.ents@[i as int]@);
        if w.ents[i].team == Team::Player {
            if let Order::Build(k, _) = w.ents[i].order {
                let r: i32 = radius(k) as i32;
                let (x, y) = site[i];
                assert(near(site@[i as int].0 as int));
                out.push(
                    Shape::Frame { x: x - r, y: y - r, w: r * 2, h: r * 2, color: rgb(90, 150, 90) },
                );
                out.push(
                    Shape::Dashes {
                        x0: x - r,
                        y0: y - r,
                        x1: x + r,
                        y1: y - r,
                        color: rgb(120, 200, 120),
                        dash: 3,
                    },
                );
            }
        }
        proof {
            assert(out@ =~= now + plan_shapes(w@, site@, i as int));
            assert(f(i as int) == plan_shapes(w@, site@, i as int));
            lemma_gather(o, i as int, f);
        }
    }
    assert(out@ =~= gather(n as int, f));
    out
}

/// Whether the local player sees an entity: one's own always, others while the ground
/// they stand on is in sight.
pub open spec fn in_sight(w: WorldV, e: EntV, vis: u8) -> bool {
    e.team == w.my_team || vis == VISIBLE
}

pub open spec fn seen_building(w: WorldV, vis: Seq<u8>) -> spec_fn(int) -> bool {
    |i: int| is_building(w.ents[i].kind) && in_sight(w, w.ents[i], vis[i])
}

pub open spec fn seen_unit(w: WorldV, vis: Seq<u8>, at: Seq<(i32, i32)>, cw: int, ch: int) -> spec_fn(
    int,
) -> bool {
    |i: int|
        (is_army(w.ents[i].kind) || w.ents[i].kind == Kind::Worker) && in_sight(
            w,
            w.ents[i],
            vis[i],
        ) && close_to_screen(at[i], cw, ch, 20)
}

impl World {
    /// The buildings that the local player sees.
    pub fn buildings_in_sight(&self, vis: &Vec<u8>) -> (r: Vec<usize>)
        requires
            self.wf(),
            vis@.len() == self.ents@.len(),
        ensures
            r@ == slots_where(self@.ents.len() as int, seen_building(self@, vis@)),
    {
        let mut r: Vec<usize> = Vec::new();
        let ghost f = seen_building(self@, vis@);
        let n: usize = self.ents.len();
        for i in 0..n
            invariant
                n == self.ents@.len(),
                vis@.len() == n,
                f == seen_building(self@, vis@),
                r@ == slots_where(i as int, f),
        {
            assert(self@.ents[i as int] == self.ents@[i as int]@);
            let e = &self.ents[i];
            if is_building(e.kind) && (e.team == self.my_team || vis[i] == VISIBLE) {
                assert(f(i as int));
                r.push(i);
            } else {
                assert(!f(i as int));
            }
        }
        r
    }

    /// The units that the local player sees on the screen or close to it.
    pub fn units_in_view(&self, vis: &Vec<u8>, at: &Vec<(i32, i32)>, cw: i32, ch: i32) -> (r: Vec<usize>)
        requires
            self.wf(),
            vis@.len() == self.ents@.len(),
            at@.len() == self.ents@.len(),
            near(cw as int),
            near(ch as int),
        ensures
            r@ == slots_where(
                self@.ents.len() as int,
                seen_unit(self@, vis@, at@, cw as int, ch as int),
            ),
    {
        let mut r: Vec<usize> = Vec::new();
        let ghost f = seen_unit(self@, vis@, at@, cw as int, ch as int);
        let n: usize = self.ents.len();
        for i in 0..n
            invariant
                n == self.ents@.len(),
                vis@.len() == n,
                at@.len() == n,
                near(cw as int),
                near(ch as int),
                f == seen_unit(self@, vis@, at@, cw as int, ch as int),
                r@ == slots_where(i as int, f),
        {
            assert(self@.ents[i as int] == self.ents@[i as int]@);
            let e = &self.ents[i];
            if (is_army(e.kind) || e.kind == Kind::Worker) && (e.team == self.my_team || vis[i]
                == VISIBLE) && is_close(at[i], cw, ch, 20) {
                assert(f(i as int));
                r.push(i);
            } else {
                assert(!f(i as int));
            }
        }
        r
    }
}

/// An enemy unit or building out of sight is not drawn.
pub proof fn fog_hides_enemies(w: WorldV, vis: Seq<u8>, at: Seq<(i32, i32)>, cw: int, ch: int, i: int)
    requires
        0 <= i < w.ents.len(),
        w.ents[i].team != w.my_team,
        vis[i] != VISIBLE,
    ensures
        !seen_building(w, vis)(i),
        !seen_unit(w, vis, at, cw, ch)(i),
{
}

/// The rings round a selected unit.
pub open spec fn halo_shapes(selected: bool, x: int, y: int, r: int) -> Seq<Shape> {
    if selected {
        seq![ring(x, y, r + 4, SELECT), ring(x, y, r + 5, SELECT)]
    } else {
        seq![]
    }
}

/// The rings round a unit at `(x, y)` on the screen.
pub fn draw_halo(e: &Ent, x: i32, y: i32) -> (out: Vec<Shape>)
    ensures
        out@ == halo_shapes(e@.selected, x as int, y as int, radius(e.kind) as int),
{
    let mut out: Vec<Shape> = Vec::new();
    let r: i32 = radius(e.kind) as i32;
    if e.selected {
        out.push(Shape::Ring { x, y, r: r + 4, color: SELECT });
        out.push(Shape::Ring { x, y, r: r + 5, color: SELECT });
    }
    assert(out@ =~= halo_shapes(e@.selected, x as int, y as int, r as int));
    out
}

/// Width of a unit's health bar.
pub fn bar_width(k: Kind) -> (w: i32)
    ensures
        w == (if radius(k) * 2 + 4 < 12 {
            12int
        } else {
            radius(k) * 2 + 4
        }),
{
    let w: i32 = radius(k) as i32 * 2 + 4;
    if w < 12 {
        12
    } else {
        w
    }
}

/// The line from a selected building that trains units to its rally point.
pub open spec fn rally_shapes(w: WorldV, at: Seq<(i32, i32)>, to: Seq<(i32, i32)>, i: int) -> Seq<Shape> {
    let e = w.ents[i];
    if e.selected && (e.kind == Kind::Base || e.kind == Kind::Barracks || e.kind == Kind::Factory) {
        seq![
            dashes(
                at[i].0 as int,
                at[i].1 as int,
                to[i].0 as int,
                to[i].1 as int,
                rgb(120, 220, 140),
                4,
            ),
            gem(to[i].0 as int, to[i].1 as int, 4, SELECT),
        ]
    } else {
        seq![]
    }
}

pub open spec fn rallies(w: WorldV, at: Seq<(i32, i32)>, to: Seq<(i32, i32)>) -> spec_fn(int) -> Seq<
    Shape,
> {
    |i: int| rally_shapes(w, at, to, i)
}

/// The rally lines. `at` and `to` are the places of each entity and of its rally point on
/// the screen.
pub fn draw_rallies(w: &World, at: &Vec<(i32, i32)>, to: &Vec<(i32, i32)>) -> (out: Vec<Shape>)
    requires
        w.wf(),
        at@.len() == w.ents@.len(),
        to@.len() == w.ents@.len(),
    ensures
        out@ == gather(w@.ents.len() as int, rallies(w@, at@, to@)),
{
    let mut out: Vec<Shape> = Vec::new();
    let ghost o = out@;
    let ghost f = rallies(w@, at@, to@);
    let n: usize = w.ents.len();
    proof {
        lemma_gather(o, 0, f);
    }
    for i in 0..n
        invariant
            w.wf(),
            n == w.ents@.len(),
            at@.len() == n,
            to@.len() == n,
            f == rallies(w@, at@, to@),
            out@ == o + gather(i as int, f),
    {
        let ghost now = out@;
        assert(w@.ents[i as int] == w.ents@[i as int]@);
        let k = w.ents[i].kind;
        if w.ents[i].selected && (k == Kind::Base || k == Kind::Barracks || k == Kind::Factory) {
            let (x0, y0) = at[i];
            let (x1, y1) = to[i];
            out.push(Shape::Dashes { x0, y0, x1, y1, color: rgb(120, 220, 140), dash: 4 });
            out.push(Shape::Gem { x: x1, y: y1, r: 4, color: SELECT });
        }
        proof {
            assert(out@ =~= now + rally_shapes(w@, at@, to@, i as int));
            assert(f(i as int) == rally_shapes(w@, at@, to@, i as int));
            lemma_gather(o, i as int, f);
        }
    }
    assert(out@ =~= gather(n as int, f));
    out
}

/// Where an order leads, if it leads anywhere: to its place, or to where its target is.
pub open spec fn order_place(w: WorldV, o: Order) -> Option<V2> {
    match o {
        Order::Move(p) | Order::AttackMove(p) | Order::Build(_, p) => Some(p),
        Order::Attack(id) | Order::Gather(id) | Order::Repair(id) => match w.slot_of(id) {
            Some(j) => Some(w.ents[j].pos),
            None => None,
        },
        Order::Idle => None,
    }
}

/// The places that a list of orders leads to.
pub open spec fn places_of(w: WorldV, orders: Seq<Order>) -> Seq<V2>
    decreases orders.len(),
{
    if orders.len() == 0 {
        seq![]
    } else {
        match order_place(w, orders.last()) {
            Some(p) => places_of(w, orders.drop_last()).push(p),
            None => places_of(w, orders.drop_last()),
        }
    }
}

/// The way that a selected unit of the local player has been told to go, if it has orders
/// waiting: the places of its order and of those that follow.
pub open spec fn route(w: WorldV, i: int) -> Seq<V2> {
    let e = w.ents[i];
    if e.selected && e.team == w.my_team && e.order_queue.len() > 0 {
        places_of(w, seq![e.order] + e.order_queue)
    } else {
        seq![]
    }
}

impl World {
    fn place_of(&self, o: &Order) -> (r: Option<V2>)
        ensures
            r == order_place(self@, *o),
    {
        match *o {
            Order::Move(p) => Some(p),
            Order::AttackMove(p) => Some(p),
            Order::Build(_, p) => Some(p),
            Order::Attack(id) | Order::Gather(id) | Order::Repair(id) => match self.index_of(id) {
                Some(j) => {
                    assert(self@.ents[j as int] == self.ents@[j as int]@);
                    Some(self.ents[j].pos)
                },
                None => None,
            },
            Order::Idle => None,
        }
    }

    /// The way that the entity in slot `i` has been told to go, as far as it is shown.
    pub fn route_of(&self, i: usize) -> (r: Vec<V2>)
        requires
            self.wf(),
            i < self.ents@.len(),
        ensures
            r@ == route(self@, i as int),
    {
        let mut r: Vec<V2> = Vec::new();
        assert(self@.ents[i as int] == self.ents@[i as int]@);
        let e = &self.ents[i];
        let ghost all = seq![e.order] + e.order_queue@;
        if !e.selected || e.team != self.my_team || e.order_queue.len() == 0 {
            assert(r@ =~= seq![]);
            return r;
        }
        proof {
            assert(all.take(1).drop_last() =~= Seq::<Order>::empty());
            assert(all.take(1).last() == e.order);
            assert(places_of(self@, all.take(1).drop_last()) =~= Seq::<V2>::empty());
        }
        if let Some(p) = self.place_of(&e.order) {
            r.push(p);
        }
        assert(r@ =~= places_of(self@, all.take(1)));
        let n: usize = e.order_queue.len();
        for k in 0..n
            invariant
                i < self.ents@.len(),
                *e == self.ents@[i as int],
                n == e.order_queue@.len(),
                all == seq![e.order] + e.order_queue@,
                r@ == places_of(self@, all.take(k + 1)),
        {
            proof {
                assert(all.take(k + 2).drop_last() =~= all.take(k + 1));
                assert(all.take(k + 2).last() == e.order_queue@[k as int]);
            }
            if let Some(p) = self.place_of(&e.order_queue[k]) {
                r.push(p);
            }
        }
        assert(all.take(n + 1) =~= all);
        r
    }
}

/// The line along a way, with a dot at each place.
pub open spec fn trail_shapes(from: (i32, i32), pts: Seq<(i32, i32)>) -> Seq<Shape>
    decreases pts.len(),
{
    if pts.len() == 0 {
        seq![]
    } else {
        let p = pts.last();
        let q = if pts.len() == 1 {
            from
        } else {
            pts[pts.len() - 2]
        };
        trail_shapes(from, pts.drop_last()) + seq![
            dashes(q.0 as int, q.1 as int, p.0 as int, p.1 as int, rgb(120, 200, 150), 4),
            disc(p.0 as int, p.1 as int, 2, rgb(120, 200, 150)),
        ]
    }
}

/// The line along a way on the screen.
pub fn draw_trail(from: (i32, i32), pts: &Vec<(i32, i32)>) -> (out: Vec<Shape>)
    ensures
        out@ == trail_shapes(from, pts@),
{
    let mut out: Vec<Shape> = Vec::new();
    let mut prev: (i32, i32) = from;
    let color: u32 = rgb(120, 200, 150);
    let n: usize = pts.len();
    assert(pts@.take(0) =~= Seq::<(i32, i32)>::empty());
    assert(out@ =~= trail_shapes(from, pts@.take(0)));
    for k in 0..n
        invariant
            n == pts@.len(),
            color == rgb(120, 200, 150),
            prev == (if k == 0 {
                from
            } else {
                pts@[k - 1]
            }),
            out@ == trail_shapes(from, pts@.take(k as int)),
    {
        let ghost was = out@;
        let p = pts[k];
        out.push(Shape::Dashes { x0: prev.0, y0: prev.1, x1: p.0, y1: p.1, color, dash: 4 });
        out.push(Shape::Disc { x: p.0, y: p.1, r: 2, color });
        proof {
            let t = pts@.take(k + 1);
            assert(t.drop_last() =~= pts@.take(k as int));
            assert(t.last() == p);
            assert(out@ =~= trail_shapes(from, t));
        }
        prev = p;
    }
    assert(pts@.take(n as int) =~= pts@);
    out
}

/// Side of a fog cell in pixels.
pub const CELL: i32 = 40;

/// What covers a fog cell on the screen.
pub open spec fn shade_shapes(fog: Fog, t: Team, camx: int, camy: int, x: int, y: int) -> Seq<Shape> {
    let v = fog.at(t.idx() as int, x, y);
    if v == VISIBLE {
        seq![]
    } else if v == UNSEEN {
        seq![fill(x * 40 - camx, y * 40 - camy, 40, 40, rgb(6, 7, 10))]
    } else {
        seq![veil(x * 40 - camx, y * 40 - camy, 40, 40, rgb(6, 7, 10), 55)]
    }
}

pub open spec fn shade_row(fog: Fog, t: Team, camx: int, camy: int, x0: int, y: int) -> spec_fn(
    int,
) -> Seq<Shape> {
    |k: int| shade_shapes(fog, t, camx, camy, x0 + k, y)
}

pub open spec fn shade_rows(fog: Fog, t: Team, camx: int, camy: int, x0: int, nx: int, y0: int) -> spec_fn(
    int,
) -> Seq<Shape> {
    |k: int| gather(nx, shade_row(fog, t, camx, camy, x0, y0 + k))
}

/// The fog of a faction over the view: what was never seen is black, what is only
/// remembered is dimmed.
pub open spec fn fog_shapes(fog: Fog, t: Team, camx: int, camy: int, cw: int, ch: int) -> Seq<Shape> {
    let x0 = first_cell(camx, 40);
    let y0 = first_cell(camy, 40);
    let nx = last_cell(camx, cw, 40, fog.w as int) + 1 - x0;
    let ny = last_cell(camy, ch, 40, fog.h as int) + 1 - y0;
    gather(ny, shade_rows(fog, t, camx, camy, x0, nx, y0))
}

fn draw_shade_row(
    out: &mut Vec<Shape>,
    fog: &Fog,
    t: Team,
    camx: i32,
    camy: i32,
    x0: i32,
    x1: i32,
    y: i32,
)
    requires
        fog.wf(),
        t.idx() < fog.factions,
        near(camx as int),
        near(camy as int),
        0 <= x0,
        x0 <= SPAN,
        x1 < fog.w,
        0 <= y < fog.h,
    ensures
        final(out)@ == old(out)@ + gather(
            x1 + 1 - x0,
            shade_row(*fog, t, camx as int, camy as int, x0 as int, y as int),
        ),
{
    let ghost o = out@;
    let ghost f = shade_row(*fog, t, camx as int, camy as int, x0 as int, y as int);
    let mut x: i32 = x0;
    proof {
        lemma_gather(o, 0, f);
    }
    while x <= x1
        invariant
            fog.wf(),
            t.idx() < fog.factions,
            near(camx as int),
            near(camy as int),
            0 <= x0 <= x,
            x <= x1 + 1 || x == x0,
            x1 < fog.w,
            0 <= y < fog.h,
            f == shade_row(*fog, t, camx as int, camy as int, x0 as int, y as int),
            out@ == o + gather(x - x0, f),
        decreases x1 + 1 - x,
    {
        let ghost now = out@;
        let v: u8 = fog.team_vis_at(t, x, y);
        let sx: i32 = x * CELL - camx;
        let sy: i32 = y * CELL - camy;
        if v == VISIBLE {
        } else if v == UNSEEN {
            out.push(Shape::Fill { x: sx, y: sy, w: CELL, h: CELL, color: rgb(6, 7, 10) });
        } else {
            out.push(Shape::Veil { x: sx, y: sy, w: CELL, h: CELL, color: rgb(6, 7, 10), share: 55 });
        }
        proof {
            let s = shade_shapes(*fog, t, camx as int, camy as int, x as int, y as int);
            assert(out@ =~= now + s);
            assert(f(x - x0) == s);
            lemma_gather(o, x - x0, f);
        }
        x = x + 1;
    }
    assert(gather(x - x0, f) == gather(x1 + 1 - x0, f));
}

/// The fog of a faction over a view of `cw` by `ch` pixels.
pub fn draw_fog(fog: &Fog, t: Team, camx: i32, camy: i32, cw: i32, ch: i32) -> (out: Vec<Shape>)
    requires
        fog.wf(),
        t.idx() < fog.factions,
        near(camx as int),
        near(camy as int),
        near(cw as int),
        near(ch as int),
    ensures
        out@ == fog_shapes(*fog, t, camx as int, camy as int, cw as int, ch as int),
{
    let mut out: Vec<Shape> = Vec::new();
    let ghost o = out@;
    let (x0, x1) = cells_in_view(camx, cw, CELL, fog.w);
    let (y0, y1) = cells_in_view(camy, ch, CELL, fog.h);
    let ghost f = shade_rows(
        *fog,
        t,
        camx as int,
        camy as int,
        x0 as int,
        x1 + 1 - x0,
        y0 as int,
    );
    let mut y: i32 = y0;
    proof {
        lemma_gather(o, 0, f);
    }
    while y <= y1
        invariant
            fog.wf(),
            t.idx() < fog.factions,
            near(camx as int),
            near(camy as int),
            0 <= x0 <= SPAN,
            x1 < fog.w,
            0 <= y0 <= y,
            y <= y1 + 1 || y == y0,
            y1 < fog.h,
            f == shade_rows(
                *fog,
                t,
                camx as int,
                camy as int,
                x0 as int,
                x1 + 1 - x0,
                y0 as int,
            ),
            out@ == o + gather(y - y0, f),
        decreases y1 + 1 - y,
    {
        draw_shade_row(&mut out, fog, t, camx, camy, x0, x1, y);
        proof {
            assert(f(y - y0) == gather(
                x1 + 1 - x0,
                shade_row(*fog, t, camx as int, camy as int, x0 as int, y as int),
            ));
            lemma_gather(o, y - y0, f);
        }
        y = y + 1;
    }
    assert(gather(y - y0, f) == gather(y1 + 1 - y0, f));
    assert(out@ =~= gather(y1 + 1 - y0, f));
    out
}

pub open spec fn least(a: int, b: int) -> int {
    if b < a {
        b
    } else {
        a
    }
}

pub open spec fn gap(a: int, b: int) -> int {
    if a < b {
        b - a
    } else {
        a - b
    }
}

/// The box that a drag from one place to another encloses.
pub open spec fn drag_shapes(ax: int, ay: int, bx: int, by: int) -> Seq<Shape> {
    let (x, y, w, h) = (least(ax, bx), least(ay, by), gap(ax, bx), gap(ay, by));
    seq![veil(x, y, w, h, rgb(110, 255, 150), 10), frame(x, y, w, h, SELECT)]
}

/// The box that a drag from `a` to `b` encloses.
pub fn draw_drag(a: (i32, i32), b: (i32, i32)) -> (out: Vec<Shape>)
    requires
        near(a.0 as int),
        near(a.1 as int),
        near(b.0 as int),
        near(b.1 as int),
    ensures
        out@ == drag_shapes(a.0 as int, a.1 as int, b.0 as int, b.1 as int),
{
    let mut out: Vec<Shape> = Vec::new();
    let x: i32 = if b.0 < a.0 {
        b.0
    } else {
        a.0
    };
    let y: i32 = if b.1 < a.1 {
        b.1
    } else {
        a.1
    };
    let w: i32 = if a.0 < b.0 {
        b.0 - a.0
    } else {
        a.0 - b.0
    };
    let h: i32 = if a.1 < b.1 {
        b.1 - a.1
    } else {
        a.1 - b.1
    };
    out.push(Shape::Veil { x, y, w, h, color: rgb(110, 255, 150), share: 10 });
    out.push(Shape::Frame { x, y, w, h, color: SELECT });
    assert(out@ =~= drag_shapes(a.0 as int, a.1 as int, b.0 as int, b.1 as int));
    out
}

/// The buildings that a selected worker of the local player is to raise, in order.
pub open spec fn sites_of(w: WorldV, e: EntV) -> Seq<(Kind, V2)> {
    if e.kind == Kind::Worker && e.selected && e.team == w.my_team {
        (match e.order {
            Order::Build(k, p) => seq![(k, p)],
            _ => seq![],
        }) + e.build_queue
    } else {
        seq![]
    }
}

/// The buildings that the first `n` entities are to raise.
pub open spec fn sites_upto(w: WorldV, n: int) -> Seq<(Kind, V2)>
    decreases n,
{
    if n <= 0 {
        seq![]
    } else {
        sites_upto(w, n - 1) + sites_of(w, w.ents[n - 1])
    }
}

impl World {
    /// The buildings that the selected workers are to raise, in order.
    pub fn pending_sites(&self) -> (r: Vec<(Kind, V2)>)
        requires
            self.wf(),
        ensures
            r@ == sites_upto(self@, self@.ents.len() as int),
    {
        let mut r: Vec<(Kind, V2)> = Vec::new();
        let n: usize = self.ents.len();
        assert(r@ =~= sites_upto(self@, 0));
        for i in 0..n
            invariant
                self.wf(),
                n == self.ents@.len(),
                r@ == sites_upto(self@, i as int),
        {
            let ghost was = r@;
            let e = &self.ents[i];
            assert(self@.ents[i as int] == e@);
            if e.kind == Kind::Worker && e.selected && e.team == self.my_team {
                if let Order::Build(k, p) = e.order {
                    r.push((k, p));
                }
                let ghost head = r@;
                let m: usize = e.build_queue.len();
                assert(r@ =~= head + e.build_queue@.take(0));
                for j in 0..m
                    invariant
                        i < self.ents@.len(),
                        *e == self.ents@[i as int],
                        m == e.build_queue@.len(),
                        r@ == head + e.build_queue@.take(j as int),
                {
                    r.push(e.build_queue[j]);
                    assert(r@ =~= head + e.build_queue@.take(j + 1));
                }
                assert(e.build_queue@.take(m as int) =~= e.build_queue@);
            }
            assert(r@ =~= was + sites_of(self@, self@.ents[i as int]));
        }
        r
    }

    /// Whether the local player could raise a building on a site, and pay for it.
    pub fn may_place(&self, kind: Kind, has_cliffs: bool, site: &Site) -> (r: bool)
        requires
            site.fits(self@.ents),
        ensures
            r == (site.clear_for(self@.ents, has_cliffs, kind) && self@.bank(self@.my_team) >= cost(kind)),
    {
        self.can_build(kind, has_cliffs, site) && self.team_min(self.my_team) >= cost(kind)
    }
}

/// The mark of a building to come at `(x, y)` on the screen.
pub open spec fn pending_shapes(k: Kind, x: int, y: int) -> Seq<Shape> {
    let r = radius(k) as int;
    seq![
        veil(x - r, y - r, r * 2, r * 2, rgb(120, 200, 235), 18),
        frame(x - r, y - r, r * 2, r * 2, rgb(120, 200, 235)),
    ]
}

/// The mark of a building to come.
pub fn draw_pending(k: Kind, x: i32, y: i32) -> (out: Vec<Shape>)
    requires
        near(x as int),
        near(y as int),
    ensures
        out@ == pending_shapes(k, x as int, y as int),
{
    let mut out: Vec<Shape> = Vec::new();
    let r: i32 = radius(k) as i32;
    let color: u32 = rgb(120, 200, 235);
    out.push(Shape::Veil { x: x - r, y: y - r, w: r * 2, h: r * 2, color, share: 18 });
    out.push(Shape::Frame { x: x - r, y: y - r, w: r * 2, h: r * 2, color });
    assert(out@ =~= pending_shapes(k, x as int, y as int));
    out
}

/// Colour of a building that follows the cursor: green where it may stand, else red.
pub open spec fn ghost_color(ok: bool) -> u32 {
    if ok {
        rgb(110, 230, 120)
    } else {
        rgb(230, 90, 80)
    }
}

/// A building that follows the cursor, within the gap that it needs. `gap_color` is the
/// colour of that ring.
pub open spec fn cursor_shapes(k: Kind, ok: bool, x: int, y: int, gap_color: u32) -> Seq<Shape> {
    let r = radius(k) as int;
    seq![
        ring(x, y, r + BUILD_GAP, gap_color),
        veil(x - r, y - r, r * 2, r * 2, ghost_color(ok), 25),
        frame(x - r, y - r, r * 2, r * 2, ghost_color(ok)),
    ]
}

/// A building that follows the cursor.
pub fn draw_cursor(k: Kind, ok: bool, x: i32, y: i32, gap_color: u32) -> (out: Vec<Shape>)
    requires
        near(x as int),
        near(y as int),
    ensures
        out@ == cursor_shapes(k, ok, x as int, y as int, gap_color),
{
    let mut out: Vec<Shape> = Vec::new();
    let r: i32 = radius(k) as i32;
    let color: u32 = if ok {
        rgb(110, 230, 120)
    } else {
        rgb(230, 90, 80)
    };
    out.push(Shape::Ring { x, y, r: r + BUILD_GAP as i32, color: gap_color });
    out.push(Shape::Veil { x: x - r, y: y - r, w: r * 2, h: r * 2, color, share: 25 });
    out.push(Shape::Frame { x: x - r, y: y - r, w: r * 2, h: r * 2, color });
    assert(out@ =~= cursor_shapes(k, ok, x as int, y as int, gap_color));
    out
}

/// A building too close to a site, or all but too close: `d` is its distance.
pub open spec fn crowds(w: WorldV, k: Kind, d: Seq<Num>) -> spec_fn(int) -> bool {
    |i: int|
        is_building(w.ents[i].kind) && d[i].less(
            Num::whole((radius(k) + radius(w.ents[i].kind) + BUILD_GAP + 2) as u32),
        )
}

/// The ring round a building that is in the way.
pub open spec fn crowd_shapes(w: WorldV, k: Kind, d: Seq<Num>, at: Seq<(i32, i32)>, i: int) -> Seq<Shape> {
    if crowds(w, k, d)(i) {
        seq![
            ring(
                at[i].0 as int,
                at[i].1 as int,
                radius(w.ents[i].kind) + BUILD_GAP,
                rgb(235, 95, 85),
            ),
        ]
    } else {
        seq![]
    }
}

pub open spec fn crowding(w: WorldV, k: Kind, d: Seq<Num>, at: Seq<(i32, i32)>) -> spec_fn(int) -> Seq<
    Shape,
> {
    |i: int| crowd_shapes(w, k, d, at, i)
}

/// The buildings that are in the way of one that is to be placed. `d` is the distance of
/// each entity from the site, `at` its place on the screen.
pub fn draw_crowding(w: &World, k: Kind, d: &Vec<Num>, at: &Vec<(i32, i32)>) -> (out: Vec<Shape>)
    requires
        w.wf(),
        d@.len() == w.ents@.len(),
        at@.len() == w.ents@.len(),
    ensures
        out@ == gather(w@.ents.len() as int, crowding(w@, k, d@, at@)),
{
    let mut out: Vec<Shape> = Vec::new();
    let ghost o = out@;
    let ghost f = crowding(w@, k, d@, at@);
    let n: usize = w.ents.len();
    proof {
        lemma_gather(o, 0, f);
    }
    for i in 0..n
        invariant
            w.wf(),
            n == w.ents@.len(),
            d@.len() == n,
            at@.len() == n,
            f == crowding(w@, k, d@, at@),
            out@ == o + gather(i as int, f),
    {
        let ghost now = out@;
        assert(w@.ents[i as int] == w.ents@[i as int]@);
        let kind = w.ents[i].kind;
        if is_building(kind) {
            let need: u32 = radius(k) + radius(kind) + BUILD_GAP + 2;
            if d[i].less(Num::whole(need)) {
                let (x, y) = at[i];
                out.push(
                    Shape::Ring { x, y, r: (radius(kind) + BUILD_GAP) as i32, color: rgb(235, 95, 85) },
                );
            }
        }
        proof {
            assert(out@ =~= now + crowd_shapes(w@, k, d@, at@, i as int));
            assert(f(i as int) == crowd_shapes(w@, k, d@, at@, i as int));
            lemma_gather(o, i as int, f);
        }
    }
    assert(out@ =~= gather(n as int, f));
    out
}

// ---- what holds of the view ---------------------------------------------------------------------------

/// One's own are always drawn, others exactly while their place is in sight: buildings
/// wherever they are, and units on the screen or within twenty pixels of it.
pub proof fn what_is_seen_is_drawn(w: WorldV, vis: Seq<u8>, at: Seq<(i32, i32)>, cw: int, ch: int, i: int)
    requires
        w.ents.len() <= usize::MAX,
        0 <= i < w.ents.len(),
    ensures
        ({
            let e = w.ents[i];
            let n = w.ents.len() as int;
            let known = e.team == w.my_team || vis[i] == 2;
            let house = e.kind == Kind::Base || e.kind == Kind::Barracks || e.kind == Kind::Factory || e.kind
                == Kind::Depot;
            let unit = !house && e.kind != Kind::Mineral;
            let near = -20 <= at[i].0 <= cw + 20 && -20 <= at[i].1 <= ch + 20;
            &&& slots_where(n, seen_building(w, vis)).contains(i as usize) <==> house && known
            &&& slots_where(n, seen_unit(w, vis, at, cw, ch)).contains(i as usize) <==> unit && known && near
        }),
{
    let n = w.ents.len() as int;
    crate::combat::slots_are_all_listed(n, seen_building(w, vis));
    crate::combat::slots_are_all_listed(n, seen_unit(w, vis, at, cw, ch));
}

/// The fog: a cell in sight is left alone, one never seen is black, and one only remembered is
/// dimmed; each on its own place.
pub proof fn fog_lies_where_nothing_is_seen(fog: Fog, t: Team, camx: int, camy: int, x: int, y: int)
    ensures
        ({
            let v = fog.at(t.idx() as int, x, y);
            let s = shade_shapes(fog, t, camx, camy, x, y);
            &&& v == 2 ==> s.len() == 0
            &&& v == 0 ==> s == seq![fill(40 * x - camx, 40 * y - camy, 40, 40, rgb(6, 7, 10))]
            &&& v == 1 ==> s == seq![veil(40 * x - camx, 40 * y - camy, 40, 40, rgb(6, 7, 10), 55)]
        }),
{
}

/// Every cell of the view has its fog drawn.
pub proof fn fog_covers_the_whole_view(fog: Fog, t: Team, camx: int, camy: int, cw: int, ch: int, x: int, y: int, s: Shape)
    requires
        fog.w > 0,
        fog.h > 0,
        0 <= x < fog.w,
        0 <= y < fog.h,
        0 <= camx,
        0 <= camy,
        camx <= 40 * x + 39,
        camy <= 40 * y + 39,
        40 * x <= camx + cw,
        40 * y <= camy + ch,
        shade_shapes(fog, t, camx, camy, x, y).contains(s),
    ensures
        fog_shapes(fog, t, camx, camy, cw, ch).contains(s),
{
    let x0 = first_cell(camx, 40);
    let y0 = first_cell(camy, 40);
    let nx = last_cell(camx, cw, 40, fog.w as int) + 1 - x0;
    let ny = last_cell(camy, ch, 40, fog.h as int) + 1 - y0;
    let f = shade_row(fog, t, camx, camy, x0, y);
    assert(f(x - x0) == shade_shapes(fog, t, camx, camy, x, y));
    crate::scene::gathering_leaves_nothing_out(nx, f, x - x0, s);
    let g = shade_rows(fog, t, camx, camy, x0, nx, y0);
    assert(g(y - y0) == gather(nx, shade_row(fog, t, camx, camy, x0, y0 + (y - y0))));
    crate::scene::gathering_leaves_nothing_out(ny, g, y - y0, s);
}

/// Where an order leads: to its point, or to where its target is now; an idle unit goes
/// nowhere.
pub proof fn orders_lead_to_their_places(w: WorldV, p: V2, k: Kind, id: u32, orders: Seq<Order>, o: Order)
    ensures
        order_place(w, Order::Move(p)) == Some(p),
        order_place(w, Order::AttackMove(p)) == Some(p),
        order_place(w, Order::Build(k, p)) == Some(p),
        order_place(w, Order::Idle) is None,
        w.slot_of(id) is Some ==> order_place(w, Order::Attack(id)) == Some(w.ents[w.slot_of(id)->0].pos)
            && order_place(w, Order::Gather(id)) == Some(w.ents[w.slot_of(id)->0].pos) && order_place(
            w,
            Order::Repair(id),
        ) == Some(w.ents[w.slot_of(id)->0].pos),
        w.slot_of(id) is None ==> order_place(w, Order::Attack(id)) is None,
        places_of(w, orders.push(o)) == (match order_place(w, o) {
            Some(q) => places_of(w, orders).push(q),
            None => places_of(w, orders),
        }),
{
    assert(orders.push(o).drop_last() =~= orders);
}

/// A way is shown only for a selected unit of one's own that has orders waiting.
pub proof fn only_own_ways_are_shown(w: WorldV, i: int)
    requires
        0 <= i < w.ents.len(),
    ensures
        !(w.ents[i].selected && w.ents[i].team == w.my_team && w.ents[i].order_queue.len() > 0) ==> route(w, i).len()
            == 0,
        w.ents[i].selected && w.ents[i].team == w.my_team && w.ents[i].order_queue.len() > 0 ==> route(w, i)
            == places_of(w, seq![w.ents[i].order] + w.ents[i].order_queue),
{
}

/// The plans that are shown are those of the selected workers of one's own, each worker's in
/// order.
pub proof fn plans_of_the_selected_are_shown(w: WorldV, e: EntV, n: int)
    requires
        0 <= n,
    ensures
        !(e.kind == Kind::Worker && e.selected && e.team == w.my_team) ==> sites_of(w, e).len() == 0,
        e.kind == Kind::Worker && e.selected && e.team == w.my_team && e.order is Build ==> sites_of(w, e) == seq![
            (e.order->Build_0, e.order->Build_1),
        ] + e.build_queue,
        e.kind == Kind::Worker && e.selected && e.team == w.my_team && !(e.order is Build) ==> sites_of(w, e)
            == e.build_queue,
        sites_upto(w, n + 1) == sites_upto(w, n) + sites_of(w, w.ents[n]),
        sites_upto(w, 0).len() == 0,
{
    let nothing: Seq<(Kind, V2)> = seq![];
    assert(nothing + e.build_queue =~= e.build_queue);
}

/// A drag's box spans both of its ends, whichever way it went.
pub proof fn drags_go_either_way(ax: int, ay: int, bx: int, by: int)
    ensures
        drag_shapes(ax, ay, bx, by) == drag_shapes(bx, by, ax, ay),
        drag_shapes(ax, ay, bx, by) == drag_shapes(bx, ay, ax, by),
        ax <= bx && ay <= by ==> drag_shapes(ax, ay, bx, by)[1] == frame(ax, ay, bx - ax, by - ay, SELECT),
{
}

} // verus!
