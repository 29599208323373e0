//! Whoever watches, the match is the same. What a player sees and hears of it, and what they
//! have selected, never gets into what the peers compare.

use vstd::prelude::*;
use crate::cmd::CmdV;
use crate::combat::{quarry, taken, Turn};
use crate::economy::{fix_of, headed, re_picked, Fix, Haul, Shift};
use crate::kind::{is_building, is_mover, Kind, Team};
use crate::num::{Num, V2};
use crate::orders::{aim_of, Aim, Click, Ground, Site};
use crate::query::{
    anything, base_of, first_least, first_least_is_unique, first_touched, foe_of, minable, nearest_foe, touches,
    FAR_BITS,
};
use crate::rules::{scored, staying};
use crate::world::{
    beds, ent_words, ents_words, first_slot, lemma_first_slot, lemma_first_slot_is, mouths, total, unborn,
    world_words, EntV, Order, WorldV,
};

verus! {

/// Whether only the selection tells two states of an entity apart.
pub open spec fn same_ent(a: EntV, b: EntV) -> bool {
    b == (EntV { selected: b.selected, ..a })
}

/// Whether two entity lists are the same but for what is selected.
pub open spec fn same_ents(a: Seq<EntV>, b: Seq<EntV>) -> bool {
    &&& a.len() == b.len()
    &&& forall|j: int| 0 <= j < a.len() ==> same_ent(#[trigger] a[j], b[j])
}

/// Whether two matches are one and the same, seen by different players: whose eyes it is,
/// what they saw, heard and selected, and how it stands for them is left open.
pub open spec fn same_match(w: WorldV, v: WorldV) -> bool {
    &&& same_ents(w.ents, v.ents)
    &&& v == (WorldV {
        ents: v.ents,
        my_team: v.my_team,
        sounds: v.sounds,
        pings: v.pings,
        messages: v.messages,
        over: v.over,
        attack_warn: v.attack_warn,
        ..w
    })
}

/// Whether a question about an entity has nothing to do with the selection.
pub open spec fn unbiased<T>(f: spec_fn(EntV) -> T) -> bool {
    forall|a: EntV, b: EntV| same_ent(a, b) ==> #[trigger] f(a) == #[trigger] f(b)
}

pub proof fn lemma_same_first(a: Seq<EntV>, b: Seq<EntV>, f: spec_fn(EntV) -> bool)
    requires
        same_ents(a, b),
        unbiased(f),
    ensures
        first_slot(a, f) == first_slot(b, f),
{
    lemma_first_slot(a, f);
    let k = first_slot(a, f);
    assert forall|i: int| 0 <= i < k implies !f(#[trigger] b[i]) by {
        assert(same_ent(a[i], b[i]));
        assert(!f(a[i]));
    }
    if k < a.len() {
        assert(same_ent(a[k], b[k]));
    }
    lemma_first_slot_is(b, f, k);
}

proof fn lemma_same_slot(w: WorldV, v: WorldV, id: u32)
    requires
        same_match(w, v),
    ensures
        w.slot_of(id) == v.slot_of(id),
        w.slot(id) == v.slot(id),
        w.slot_of(id) is Some ==> 0 <= w.slot(id) < w.ents.len(),
{
    let f = |e: EntV| e.id == id;
    assert(unbiased(f));
    lemma_same_first(w.ents, v.ents, f);
    lemma_first_slot(w.ents, f);
}

proof fn lemma_same_total(a: Seq<EntV>, b: Seq<EntV>, f: spec_fn(EntV) -> int)
    requires
        same_ents(a, b),
        unbiased(f),
    ensures
        total(a, f) == total(b, f),
    decreases a.len(),
{
    if a.len() > 0 {
        let (p, q) = (a.drop_last(), b.drop_last());
        assert forall|j: int| 0 <= j < p.len() implies same_ent(#[trigger] p[j], q[j]) by {
            assert(same_ent(a[j], b[j]));
        }
        lemma_same_total(p, q, f);
        assert(same_ent(a[a.len() - 1], b[b.len() - 1]));
    }
}

pub proof fn lemma_same_with(w: WorldV, v: WorldV, i: int, e: EntV, f: EntV)
    requires
        same_match(w, v),
        0 <= i < w.ents.len(),
        same_ent(e, f),
    ensures
        same_match(w.with(i, e), v.with(i, f)),
{
    let (a, b) = (w.with(i, e), v.with(i, f));
    assert forall|j: int| 0 <= j < a.ents.len() implies same_ent(#[trigger] a.ents[j], b.ents[j]) by {
        if j != i {
            assert(same_ent(w.ents[j], v.ents[j]));
        }
    }
}

proof fn lemma_same_spawn(w: WorldV, v: WorldV, k: Kind, t: Team, p: V2)
    requires
        same_match(w, v),
    ensures
        same_match(w.spawned(k, t, p), v.spawned(k, t, p)),
{
    let (a, b) = (w.spawned(k, t, p), v.spawned(k, t, p));
    assert forall|j: int| 0 <= j < a.ents.len() implies same_ent(#[trigger] a.ents[j], b.ents[j]) by {
        if j < w.ents.len() {
            assert(same_ent(w.ents[j], v.ents[j]));
        }
    }
}

/// What peers compare of a match is the same whoever watches it.
pub proof fn fingerprints_do_not_tell_who_watches(w: WorldV, v: WorldV)
    requires
        same_match(w, v),
    ensures
        world_words(w) == world_words(v),
{
    lemma_same_words(w.ents, v.ents);
}

proof fn lemma_same_words(a: Seq<EntV>, b: Seq<EntV>)
    requires
        same_ents(a, b),
    ensures
        ents_words(a) == ents_words(b),
    decreases a.len(),
{
    if a.len() > 0 {
        let (p, q) = (a.drop_last(), b.drop_last());
        assert forall|j: int| 0 <= j < p.len() implies same_ent(#[trigger] p[j], q[j]) by {
            assert(same_ent(a[j], b[j]));
        }
        lemma_same_words(p, q);
        assert(same_ent(a[a.len() - 1], b[b.len() - 1]));
        assert(ent_words(a.last()) == ent_words(b.last()));
    }
}

// ---- commands -----------------------------------------------------------------------------

pub proof fn lemma_same_trained(w: WorldV, v: WorldV, i: int, k: Kind)
    requires
        same_match(w, v),
        0 <= i < w.ents.len(),
    ensures
        same_match(w.trained(i, k).0, v.trained(i, k).0),
        w.trained(i, k).1 == v.trained(i, k).1,
{
    assert(same_ent(w.ents[i], v.ents[i]));
    let e = w.ents[i];
    let t = e.team;
    assert(unbiased(mouths(t)));
    assert(unbiased(beds(t)));
    assert(unbiased(unborn(t)));
    lemma_same_total(w.ents, v.ents, mouths(t));
    lemma_same_total(w.ents, v.ents, beds(t));
    lemma_same_total(w.ents, v.ents, unborn(t));
    if w.trained(i, k).1 {
        let c = crate::kind::cost(k) as int;
        lemma_same_with(
            w.spent(t, c),
            v.spent(t, c),
            i,
            EntV { queue: e.queue.push(k), ..e },
            EntV { queue: v.ents[i].queue.push(k), ..v.ents[i] },
        );
    }
}

proof fn lemma_clash(s: Site, k: Kind, e: EntV, f: EntV, i: int)
    requires
        e.kind == f.kind,
        e.order == f.order,
        e.build_queue == f.build_queue,
        s.clashes(k, e, i),
    ensures
        s.clashes(k, f, i),
{
    let gap = crate::kind::BUILD_GAP;
    let meets = |q: int|
        s.to_queue@[i]@[q].less(
            Num::whole((crate::kind::radius(k) + crate::kind::radius(e.build_queue[q].0) + gap) as u32),
        );
    if exists|q: int| 0 <= q < e.build_queue.len() && #[trigger] meets(q) {
        let q = choose|q: int| 0 <= q < e.build_queue.len() && #[trigger] meets(q);
        assert(s.to_queue@[i]@[q].less(
            Num::whole((crate::kind::radius(k) + crate::kind::radius(f.build_queue[q].0) + gap) as u32),
        ));
    } else {
        assert forall|q: int| 0 <= q < e.build_queue.len() implies !#[trigger] s.to_queue@[i]@[q].less(
            Num::whole((crate::kind::radius(k) + crate::kind::radius(e.build_queue[q].0) + gap) as u32),
        ) by {
            assert(!meets(q));
        }
    }
}

pub proof fn lemma_same_clear(s: Site, a: Seq<EntV>, b: Seq<EntV>, cliffs: bool, k: Kind)
    requires
        same_ents(a, b),
    ensures
        s.clear_for(a, cliffs, k) == s.clear_for(b, cliffs, k),
{
    assert forall|i: int| 0 <= i < a.len() implies (!s.crowds(k, #[trigger] a[i], i) && !s.clashes(k, a[i], i))
        == (!s.crowds(k, b[i], i) && !s.clashes(k, b[i], i)) by {
        assert(same_ent(a[i], b[i]));
        if s.clashes(k, a[i], i) {
            lemma_clash(s, k, a[i], b[i], i);
        }
        if s.clashes(k, b[i], i) {
            lemma_clash(s, k, b[i], a[i], i);
        }
    }
    if s.clear_for(a, cliffs, k) {
        assert forall|i: int| 0 <= i < b.len() implies !s.crowds(k, #[trigger] b[i], i) && !s.clashes(
            k,
            b[i],
            i,
        ) by {
            assert(!s.crowds(k, a[i], i));
        }
    }
    if s.clear_for(b, cliffs, k) {
        assert forall|i: int| 0 <= i < a.len() implies !s.crowds(k, #[trigger] a[i], i) && !s.clashes(
            k,
            a[i],
            i,
        ) by {
            assert(!s.crowds(k, b[i], i));
        }
    }
}

proof fn lemma_same_built(w: WorldV, v: WorldV, i: int, k: Kind, site: V2, clear: bool)
    requires
        same_match(w, v),
        0 <= i < w.ents.len(),
    ensures
        same_match(w.build_chained(i, k, site, clear).0, v.build_chained(i, k, site, clear).0),
{
    assert(same_ent(w.ents[i], v.ents[i]));
    let (x, y) = (w.build_chained(i, k, site, clear).0, v.build_chained(i, k, site, clear).0);
    if w.build_chained(i, k, site, clear).1 {
        let c = crate::kind::cost(k) as int;
        let t = w.ents[i].team;
        lemma_same_with(w.spent(t, c), v.spent(t, c), i, x.ents[i], y.ents[i]);
    }
}

pub proof fn lemma_same_built_at(w: WorldV, v: WorldV, i: int, k: Kind, site: V2, clear: bool)
    requires
        same_match(w, v),
        0 <= i < w.ents.len(),
    ensures
        same_match(w.build_ordered(i, k, site, clear).0, v.build_ordered(i, k, site, clear).0),
{
    assert(same_ent(w.ents[i], v.ents[i]));
    let (x, y) = (w.build_ordered(i, k, site, clear).0, v.build_ordered(i, k, site, clear).0);
    if w.build_ordered(i, k, site, clear).1 {
        let c = crate::kind::cost(k) as int;
        let t = w.ents[i].team;
        lemma_same_with(w.spent(t, c), v.spent(t, c), i, x.ents[i], y.ents[i]);
    }
}

proof fn lemma_same_dropped(w: WorldV, v: WorldV, i: int)
    requires
        same_match(w, v),
        0 <= i < w.ents.len(),
    ensures
        same_match(w.plans_dropped(i), v.plans_dropped(i)),
{
    assert(same_ent(w.ents[i], v.ents[i]));
    lemma_same_with(
        w,
        v,
        i,
        EntV { build_queue: Seq::empty(), ..w.ents[i] },
        EntV { build_queue: Seq::empty(), ..v.ents[i] },
    );
}

proof fn lemma_same_unqueued(w: WorldV, v: WorldV, i: int)
    requires
        same_match(w, v),
        0 <= i < w.ents.len(),
    ensures
        same_match(w.unqueued(i), v.unqueued(i)),
{
    assert(same_ent(w.ents[i], v.ents[i]));
    let (x, y) = (w.unqueued(i).ents[i], v.unqueued(i).ents[i]);
    lemma_same_with(w, v, i, x, y);
}

proof fn lemma_same_stop(w: WorldV, v: WorldV, team: Team, id: u32)
    requires
        same_match(w, v),
    ensures
        same_match(w.stopped_one(team, id), v.stopped_one(team, id)),
{
    lemma_same_slot(w, v, id);
    if w.slot_of(id) is Some {
        let i = w.slot(id);
        assert(same_ent(w.ents[i], v.ents[i]));
        if w.ents[i].team == team && is_mover(w.ents[i].kind) {
            let (p, q) = if w.ents[i].kind == Kind::Worker {
                lemma_same_dropped(w, v, i);
                (w.plans_dropped(i), v.plans_dropped(i))
            } else {
                (w, v)
            };
            assert(same_ent(p.ents[i], q.ents[i]));
            lemma_same_with(
                p,
                q,
                i,
                EntV { order: Order::Idle, goal: None, order_queue: Seq::empty(), ..p.ents[i] },
                EntV { order: Order::Idle, goal: None, order_queue: Seq::empty(), ..q.ents[i] },
            );
        }
    }
}

proof fn lemma_same_stopped(w: WorldV, v: WorldV, team: Team, ids: Seq<u32>)
    requires
        same_match(w, v),
    ensures
        same_match(w.stopped(team, ids), v.stopped(team, ids)),
    decreases ids.len(),
{
    if ids.len() > 0 {
        lemma_same_stopped(w, v, team, ids.drop_last());
        lemma_same_stop(
            w.stopped(team, ids.drop_last()),
            v.stopped(team, ids.drop_last()),
            team,
            ids.last(),
        );
    }
}

proof fn lemma_same_touched(a: Seq<EntV>, b: Seq<EntV>, d: Seq<Num>, s: int, r: Option<usize>, q: Option<usize>)
    requires
        same_ents(a, b),
        first_touched(a, d, s, anything(), r),
        first_touched(b, d, s, anything(), q),
    ensures
        r == q,
{
    let ok = anything();
    assert forall|j: int| 0 <= j < a.len() implies #[trigger] touches(a, d, s, ok, j) == touches(b, d, s, ok, j) by {
        assert(same_ent(a[j], b[j]));
    }
    if r is Some {
        assert(touches(a, d, s, ok, r->0 as int));
        assert(touches(b, d, s, ok, r->0 as int));
    }
    if q is Some {
        assert(touches(b, d, s, ok, q->0 as int));
        assert(touches(a, d, s, ok, q->0 as int));
    }
}

proof fn lemma_same_order_one(w: WorldV, v: WorldV, a: Aim, c: Click, i: int, placed: int)
    requires
        same_match(w, v),
        0 <= i < w.ents.len(),
    ensures
        same_match(w.ordered_one(a, c, i, placed).0, v.ordered_one(a, c, i, placed).0),
        w.ordered_one(a, c, i, placed).1 == v.ordered_one(a, c, i, placed).1,
{
    assert(same_ent(w.ents[i], v.ents[i]));
    let (e, f) = (w.ents[i], v.ents[i]);
    if is_building(e.kind) {
        lemma_same_with(
            w,
            v,
            i,
            EntV { rally: c.pt, rally_set: true, ..e },
            EntV { rally: c.pt, rally_set: true, ..f },
        );
    } else {
        let (o, walks) = crate::orders::click_order(a, c, e.kind, placed);
        if e.kind == Kind::Worker && WorldV::building(e) {
            lemma_same_dropped(w, v, i);
            let (p, q) = (w.plans_dropped(i), v.plans_dropped(i));
            assert(same_ent(p.ents[i], q.ents[i]));
            lemma_same_with(
                p,
                q,
                i,
                EntV { order_queue: Seq::empty(), order: o, ..p.ents[i] },
                EntV { order_queue: Seq::empty(), order: o, ..q.ents[i] },
            );
        } else if c.queue && e.order != Order::Idle {
            lemma_same_with(
                w,
                v,
                i,
                EntV { order_queue: e.order_queue.push(o), ..e },
                EntV { order_queue: f.order_queue.push(o), ..f },
            );
        } else {
            lemma_same_with(
                w,
                v,
                i,
                EntV { order_queue: Seq::empty(), order: o, ..e },
                EntV { order_queue: Seq::empty(), order: o, ..f },
            );
        }
    }
}

proof fn lemma_same_ordered(w: WorldV, v: WorldV, a: Aim, c: Click, slots: Seq<usize>)
    requires
        same_match(w, v),
        forall|k: int| 0 <= k < slots.len() ==> #[trigger] slots[k] < w.ents.len(),
    ensures
        same_match(w.ordered(a, c, slots).0, v.ordered(a, c, slots).0),
        w.ordered(a, c, slots).1 == v.ordered(a, c, slots).1,
        w.ordered(a, c, slots).0.ents.len() == w.ents.len(),
    decreases slots.len(),
{
    if slots.len() > 0 {
        let front = slots.drop_last();
        assert forall|k: int| 0 <= k < front.len() implies #[trigger] front[k] < w.ents.len() by {
            assert(slots[k] == front[k]);
        }
        lemma_same_ordered(w, v, a, c, front);
        assert(slots[slots.len() - 1] < w.ents.len());
        let (p, n) = w.ordered(a, c, front);
        lemma_same_order_one(p, v.ordered(a, c, front).0, a, c, slots.last() as int, n);
    }
}

proof fn lemma_same_chosen(w: WorldV, v: WorldV, team: Team, ids: Seq<u32>)
    requires
        same_match(w, v),
        w.ents.len() <= usize::MAX,
    ensures
        w.chosen(team, ids) == v.chosen(team, ids),
        forall|k: int| 0 <= k < w.chosen(team, ids).len() ==> #[trigger] w.chosen(team, ids)[k] < w.ents.len(),
    decreases ids.len(),
{
    if ids.len() > 0 {
        lemma_same_chosen(w, v, team, ids.drop_last());
        lemma_same_slot(w, v, ids.last());
        if w.slot_of(ids.last()) is Some {
            let i = w.slot(ids.last());
            assert(same_ent(w.ents[i], v.ents[i]));
        }
    }
}

proof fn lemma_same_clicked(w: WorldV, v: WorldV, c: Click, ids: Seq<u32>)
    requires
        same_match(w, v),
        w.ents.len() <= usize::MAX,
        c.target is Some ==> c.target->0 < w.ents.len(),
    ensures
        same_match(w.clicked(c, ids), v.clicked(c, ids)),
{
    if c.target is Some {
        let t = c.target->0 as int;
        assert(same_ent(w.ents[t], v.ents[t]));
        if w.cancels(c, ids) {
            lemma_same_unqueued(w, v, t);
        }
    }
    if !w.cancels(c, ids) {
        let a = aim_of(w, c);
        assert(a == aim_of(v, c));
        lemma_same_chosen(w, v, c.team, ids);
        let slots = w.chosen(c.team, ids);
        let p = if c.team == w.my_team && w.any_walker(slots) {
            w.pinged(w.click_ping(a, c, slots))
        } else {
            w
        };
        let q = if c.team == v.my_team && v.any_walker(slots) {
            v.pinged(v.click_ping(a, c, slots))
        } else {
            v
        };
        assert(same_match(p, q));
        lemma_same_ordered(p, q, a, c, slots);
    }
}

/// A command does the same to a match whoever watches it, and what the peers compare stays
/// the same with it.
pub proof fn commands_do_not_tell_who_watches(
    w: WorldV,
    v: WorldV,
    team: Team,
    c: CmdV,
    g: Ground,
    after_w: WorldV,
    after_v: WorldV,
)
    requires
        same_match(w, v),
        w.ents.len() <= usize::MAX,
        w.obeyed(team, c, g, after_w),
        v.obeyed(team, c, g, after_v),
    ensures
        same_match(after_w, after_v),
        world_words(after_w) == world_words(after_v),
{
    match c {
        CmdV::Order { ids, attack_move, queue, .. } => {
            let r = choose|r: Option<usize>| #[trigger]
                first_touched(w.ents, g.d@, 3, anything(), r) && after_w == w.clicked(
                    (Click { team, target: r, pt: g.pt, attack_move, queue, dests: g.dests@ }),
                    ids,
                );
            let q = choose|q: Option<usize>| #[trigger]
                first_touched(v.ents, g.d@, 3, anything(), q) && after_v == v.clicked(
                    (Click { team, target: q, pt: g.pt, attack_move, queue, dests: g.dests@ }),
                    ids,
                );
            lemma_same_touched(w.ents, v.ents, g.d@, 3, r, q);
            lemma_same_clicked(
                w,
                v,
                Click { team, target: r, pt: g.pt, attack_move, queue, dests: g.dests@ },
                ids,
            );
        },
        CmdV::Stop { ids } => {
            lemma_same_stopped(w, v, team, ids);
        },
        CmdV::Train { building, unit } => {
            lemma_same_slot(w, v, building);
            if w.slot_of(building) is Some {
                let i = w.slot(building);
                assert(same_ent(w.ents[i], v.ents[i]));
                if w.own_building(team, building) is Some {
                    lemma_same_trained(w, v, i, unit);
                }
            }
        },
        CmdV::Build { worker, kind, x, y, .. } => {
            lemma_same_slot(w, v, worker);
            if w.slot_of(worker) is Some {
                let i = w.slot(worker);
                assert(same_ent(w.ents[i], v.ents[i]));
                lemma_same_clear(g.site, w.ents, v.ents, g.has_cliffs, kind);
                let clear = g.site.clear_for(w.ents, g.has_cliffs, kind);
                lemma_same_built(w, v, i, kind, V2 { x, y }, clear);
            }
        },
        CmdV::Rally { building, .. } => {
            lemma_same_slot(w, v, building);
            if w.slot_of(building) is Some {
                let i = w.slot(building);
                assert(same_ent(w.ents[i], v.ents[i]));
                if w.own_building(team, building) is Some {
                    lemma_same_with(w, v, i, after_w.ents[i], after_v.ents[i]);
                }
            }
        },
        CmdV::Cancel { building } => {
            lemma_same_slot(w, v, building);
            if w.slot_of(building) is Some {
                let i = w.slot(building);
                assert(same_ent(w.ents[i], v.ents[i]));
                lemma_same_unqueued(w, v, i);
            }
        },
        CmdV::Surrender => {},
    }
    fingerprints_do_not_tell_who_watches(after_w, after_v);
}

// ---- the tick -----------------------------------------------------------------------------

pub proof fn lemma_same_least(a: Seq<EntV>, b: Seq<EntV>, d: Seq<Num>, bound: Num, r: Option<usize>, q: Option<usize>)
    requires
        same_ents(a, b),
        first_least(a, minable(), d, bound, r),
        first_least(b, minable(), d, bound, q),
    ensures
        r == q,
{
    let ok = minable();
    assert forall|j: int| 0 <= j < a.len() implies ok(#[trigger] a[j]) == ok(b[j]) by {
        assert(same_ent(a[j], b[j]));
    }
    assert(first_least(a, ok, d, bound, q)) by {
        match q {
            Some(i) => {
                assert(ok(a[i as int]));
                assert forall|j: int| 0 <= j < a.len() && ok(#[trigger] a[j]) && d[j].less(bound) implies !d[j].less(
                    d[i as int],
                ) && (j < i ==> d[i as int].less(d[j])) by {
                    assert(ok(b[j]));
                }
            },
            None => {
                assert forall|j: int| 0 <= j < a.len() && ok(#[trigger] a[j]) implies !d[j].less(bound) by {
                    assert(ok(b[j]));
                }
            },
        }
    }
    first_least_is_unique(a, ok, d, bound, r, q);
}

/// Production goes on the same whoever watches.
pub proof fn production_does_not_tell_who_watches(
    w: WorldV,
    v: WorldV,
    i: int,
    s: Shift,
    under_w: Option<usize>,
    under_v: Option<usize>,
    patch_w: Option<usize>,
    patch_v: Option<usize>,
)
    requires
        same_match(w, v),
        0 <= i < w.ents.len(),
        first_least(w.ents, minable(), s.from_rally@, Num { bits: FAR_BITS }, under_w),
        first_least(v.ents, minable(), s.from_rally@, Num { bits: FAR_BITS }, under_v),
        first_least(w.ents, minable(), s.score@, Num { bits: FAR_BITS }, patch_w),
        first_least(v.ents, minable(), s.score@, Num { bits: FAR_BITS }, patch_v),
    ensures
        same_match(w.produced(i, s, under_w, patch_w).0, v.produced(i, s, under_v, patch_v).0),
        world_words(w.produced(i, s, under_w, patch_w).0) == world_words(v.produced(i, s, under_v, patch_v).0),
        w.produced(i, s, under_w, patch_w).1 == v.produced(i, s, under_v, patch_v).1,
{
    lemma_same_least(w.ents, v.ents, s.from_rally@, Num { bits: FAR_BITS }, under_w, under_v);
    lemma_same_least(w.ents, v.ents, s.score@, Num { bits: FAR_BITS }, patch_w, patch_v);
    assert(same_ent(w.ents[i], v.ents[i]));
    let (e, f) = (w.ents[i], v.ents[i]);
    if e.build_left.positive() {
        let (a, b) = (w.risen(i, s.left, s.hp).0, v.risen(i, s.left, s.hp).0);
        lemma_same_with(w, v, i, a.ents[i], b.ents[i]);
    } else if e.queue.len() > 0 {
        lemma_same_drill(w, v, i, s, under_w, patch_w);
    }
    fingerprints_do_not_tell_who_watches(
        w.produced(i, s, under_w, patch_w).0,
        v.produced(i, s, under_v, patch_v).0,
    );
}

proof fn lemma_same_drill(w: WorldV, v: WorldV, i: int, s: Shift, under: Option<usize>, patch: Option<usize>)
    requires
        same_match(w, v),
        0 <= i < w.ents.len(),
        under is Some ==> under->0 < w.ents.len(),
        patch is Some ==> patch->0 < w.ents.len(),
    ensures
        same_match(w.drilled(i, s, under, patch).0, v.drilled(i, s, under, patch).0),
        w.drilled(i, s, under, patch).1 == v.drilled(i, s, under, patch).1,
{
    assert(same_ent(w.ents[i], v.ents[i]));
    if under is Some {
        assert(same_ent(w.ents[under->0 as int], v.ents[under->0 as int]));
    }
    if patch is Some {
        assert(same_ent(w.ents[patch->0 as int], v.ents[patch->0 as int]));
    }
    let (e, f) = (w.ents[i], v.ents[i]);
    let k = e.queue[0];
    if Num::whole(crate::kind::build_time(k)).at_most(s.timer) {
        let near = s.rally_dist.less(Num::whole(crate::economy::RALLY_REACH));
        let o = crate::economy::first_order(w, e, k, under, near, patch);
        assert(o == crate::economy::first_order(v, f, k, under, near, patch));
        let x = EntV { train_timer: Num { bits: 0 }, queue: e.queue.drop_first(), ..e };
        let y = EntV { train_timer: Num { bits: 0 }, queue: f.queue.drop_first(), ..f };
        lemma_same_with(w, v, i, x, y);
        lemma_same_spawn(w.with(i, x), v.with(i, y), k, e.team, s.exit);
        let (a, b) = (w.with(i, x).spawned(k, e.team, s.exit), v.with(i, y).spawned(k, e.team, s.exit));
        let n = a.ents.len() - 1;
        assert(same_ent(a.ents[n], b.ents[n]));
        lemma_same_with(a, b, n, EntV { order: o, ..a.ents[n] }, EntV { order: o, ..b.ents[n] });
    } else {
        lemma_same_with(
            w,
            v,
            i,
            EntV { train_timer: s.timer, ..e },
            EntV { train_timer: s.timer, ..f },
        );
    }
}

/// Damage does the same whoever watches.
pub proof fn damage_does_not_tell_who_watches(w: WorldV, v: WorldV, i: int, hp: Num)
    requires
        same_match(w, v),
    ensures
        same_match(w.hit(i, hp), v.hit(i, hp)),
        world_words(w.hit(i, hp)) == world_words(v.hit(i, hp)),
{
    if 0 <= i < w.ents.len() {
        assert(same_ent(w.ents[i], v.ents[i]));
        let (a, b) = (w.hit(i, hp), v.hit(i, hp));
        lemma_same_with(w, v, i, a.ents[i], b.ents[i]);
    }
    fingerprints_do_not_tell_who_watches(w.hit(i, hp), v.hit(i, hp));
}

proof fn lemma_same_staying(a: Seq<EntV>, b: Seq<EntV>)
    requires
        same_ents(a, b),
    ensures
        same_ents(staying(a), staying(b)),
    decreases a.len(),
{
    if a.len() > 0 {
        let (p, q) = (a.drop_last(), b.drop_last());
        assert forall|j: int| 0 <= j < p.len() implies same_ent(#[trigger] p[j], q[j]) by {
            assert(same_ent(a[j], b[j]));
        }
        lemma_same_staying(p, q);
        assert(same_ent(a[a.len() - 1], b[b.len() - 1]));
        let (x, y) = (staying(a), staying(b));
        assert forall|j: int| 0 <= j < x.len() implies same_ent(#[trigger] x[j], y[j]) by {
            if j < staying(p).len() {
                assert(same_ent(staying(p)[j], staying(q)[j]));
            }
        }
    }
}

/// Who dies is the same whoever watches.
pub proof fn death_does_not_tell_who_watches(w: WorldV, v: WorldV)
    requires
        same_match(w, v),
    ensures
        same_match(w.cleared(), v.cleared()),
        world_words(w.cleared()) == world_words(v.cleared()),
{
    lemma_same_staying(w.ents, v.ents);
    assert(unbiased(scored()));
    lemma_same_total(w.ents, v.ents, scored());
    fingerprints_do_not_tell_who_watches(w.cleared(), v.cleared());
}

/// Fading is the same whoever watches: the flashes fade alike, and the marks and messages
/// are the watcher's own.
pub proof fn fading_does_not_tell_who_watches(
    w: WorldV,
    v: WorldV,
    pings_w: Seq<Num>,
    pings_v: Seq<Num>,
    notes_w: Seq<Num>,
    notes_v: Seq<Num>,
    flashes: Seq<Num>,
)
    requires
        same_match(w, v),
    ensures
        same_match(w.faded(pings_w, notes_w, flashes), v.faded(pings_v, notes_v, flashes)),
        world_words(w.faded(pings_w, notes_w, flashes)) == world_words(v.faded(pings_v, notes_v, flashes)),
{
    let (a, b) = (w.faded(pings_w, notes_w, flashes), v.faded(pings_v, notes_v, flashes));
    assert forall|j: int| 0 <= j < a.ents.len() implies same_ent(#[trigger] a.ents[j], b.ents[j]) by {
        assert(same_ent(w.ents[j], v.ents[j]));
    }
    fingerprints_do_not_tell_who_watches(a, b);
}

/// A tick begins the same whoever watches: the clock is everyone's, the alarm the watcher's.
pub proof fn ticks_do_not_tell_who_watches(w: WorldV, v: WorldV, time: Num, warn_w: Num, warn_v: Num)
    requires
        same_match(w, v),
    ensures
        same_match(w.ticked(time, warn_w), v.ticked(time, warn_v)),
        world_words(w.ticked(time, warn_w)) == world_words(v.ticked(time, warn_v)),
        w.match_over == v.match_over,
{
    fingerprints_do_not_tell_who_watches(w.ticked(time, warn_w), v.ticked(time, warn_v));
}

proof fn lemma_same_play(w: WorldV, v: WorldV, t: Team)
    requires
        same_match(w, v),
    ensures
        w.in_play(t) == v.in_play(t),
{
    assert forall|i: int| 0 <= i < w.ents.len() implies (#[trigger] w.ents[i]).team == v.ents[i].team
        && w.ents[i].kind == v.ents[i].kind by {
        assert(same_ent(w.ents[i], v.ents[i]));
    }
    if w.in_play(t) {
        let i = choose|i: int|
            0 <= i < w.ents.len() && (#[trigger] w.ents[i]).team == t && is_building(w.ents[i].kind);
        assert(v.ents[i].team == t && is_building(v.ents[i].kind));
    }
    if v.in_play(t) {
        let i = choose|i: int|
            0 <= i < v.ents.len() && (#[trigger] v.ents[i]).team == t && is_building(v.ents[i].kind);
        assert(w.ents[i].team == t && is_building(w.ents[i].kind));
    }
}

proof fn lemma_same_survivors(w: WorldV, v: WorldV, n: int)
    requires
        same_match(w, v),
    ensures
        w.survivors(n) == v.survivors(n),
    decreases n,
{
    if n > 0 {
        lemma_same_survivors(w, v, n - 1);
        lemma_same_play(w, v, Team::from_idx((n - 1) as usize));
    }
}

/// Over a network a match ends for everyone at once, whoever watches.
pub proof fn the_end_does_not_tell_who_watches(w: WorldV, v: WorldV)
    requires
        same_match(w, v),
        w.versus,
    ensures
        same_match(w.judged(), v.judged()),
        world_words(w.judged()) == world_words(v.judged()),
{
    lemma_same_survivors(w, v, w.factions as int);
    fingerprints_do_not_tell_who_watches(w.judged(), v.judged());
}

/// A step that makes something of one entity alone does the same whoever watches, if what it
/// makes of it has nothing to do with the selection. Turns, walks and clocks are such steps.
pub proof fn one_turn_does_not_tell_who_watches(w: WorldV, v: WorldV, i: int, f: spec_fn(EntV) -> EntV)
    requires
        same_match(w, v),
        0 <= i < w.ents.len(),
        same_ent(f(w.ents[i]), f(v.ents[i])),
    ensures
        same_match(w.with(i, f(w.ents[i])), v.with(i, f(v.ents[i]))),
        world_words(w.with(i, f(w.ents[i]))) == world_words(v.with(i, f(v.ents[i]))),
{
    lemma_same_with(w, v, i, f(w.ents[i]), f(v.ents[i]));
    fingerprints_do_not_tell_who_watches(w.with(i, f(w.ents[i])), v.with(i, f(v.ents[i])));
}

proof fn lemma_same_pick(
    a: Seq<EntV>,
    b: Seq<EntV>,
    ok: spec_fn(EntV) -> bool,
    d: Seq<Num>,
    bound: Num,
    r: Option<usize>,
)
    requires
        same_ents(a, b),
        unbiased(ok),
        first_least(a, ok, d, bound, r),
    ensures
        first_least(b, ok, d, bound, r),
{
    assert forall|j: int| 0 <= j < a.len() implies ok(#[trigger] a[j]) == ok(b[j]) by {
        assert(same_ent(a[j], b[j]));
    }
    match r {
        Some(i) => {
            assert(ok(a[i as int]));
            assert forall|j: int| 0 <= j < b.len() && ok(#[trigger] b[j]) && d[j].less(bound) implies !d[j].less(
                d[i as int],
            ) && (j < i ==> d[i as int].less(d[j])) by {
                assert(ok(a[j]));
            }
        },
        None => {
            assert forall|j: int| 0 <= j < b.len() && ok(#[trigger] b[j]) implies !d[j].less(bound) by {
                assert(ok(a[j]));
            }
        },
    }
}

proof fn lemma_same_foe(a: Seq<EntV>, b: Seq<EntV>, t: Team, d: Seq<Num>, within: Num, r: Option<usize>)
    requires
        same_ents(a, b),
        nearest_foe(a, t, d, within, r),
    ensures
        nearest_foe(b, t, d, within, r),
{
    let ok = foe_of(t);
    assert forall|j: int| 0 <= j < a.len() implies ok(#[trigger] a[j]) == ok(b[j]) && a[j].id == b[j].id by {
        assert(same_ent(a[j], b[j]));
    }
    match r {
        Some(i) => {
            assert(ok(a[i as int]));
            assert forall|j: int| 0 <= j < b.len() && foe_of(t)(#[trigger] b[j]) && d[j].at_most(within) implies
                d[i as int].less(d[j]) || (d[i as int].same(d[j]) && crate::kind::tie_key(b[i as int].id)
                <= crate::kind::tie_key(b[j].id)) by {
                assert(ok(a[j]));
            }
        },
        None => {
            assert forall|j: int| 0 <= j < b.len() && foe_of(t)(#[trigger] b[j]) implies !d[j].at_most(within) by {
                assert(ok(a[j]));
            }
        },
    }
}

proof fn lemma_same_quarry(w: WorldV, v: WorldV, i: int, d: Seq<Num>, r: Option<usize>)
    requires
        same_match(w, v),
        0 <= i < w.ents.len(),
        quarry(w, i, d, r),
    ensures
        quarry(v, i, d, r),
{
    assert(same_ent(w.ents[i], v.ents[i]));
    let e = w.ents[i];
    match e.order {
        Order::Attack(id) => {
            lemma_same_slot(w, v, id);
            if w.slot_of(id) is Some {
                let j = w.slot(id);
                assert(same_ent(w.ents[j], v.ents[j]));
            }
        },
        Order::AttackMove(_) | Order::Idle => {
            let a = crate::kind::aggro(e.kind);
            if a > 0 {
                lemma_same_foe(w.ents, v.ents, e.team, d, Num::whole((a * a) as u32), r);
            }
        },
        _ => {},
    }
}

/// What a unit does with its turn is the same whoever watches.
pub proof fn turns_do_not_tell_who_watches(w: WorldV, v: WorldV, i: int, d: Seq<Num>, t: Turn)
    requires
        same_match(w, v),
        0 <= i < w.ents.len(),
        taken(w, i, d, t),
    ensures
        taken(v, i, d, t),
{
    assert(same_ent(w.ents[i], v.ents[i]));
    watching_changes_nothing(w, v);
    if quarry(w, i, d, None) {
        lemma_same_quarry(w, v, i, d, None);
    }
    if quarry(v, i, d, None) {
        lemma_same_quarry(v, w, i, d, None);
    }
    if t is Fight && quarry(w, i, d, Some(t->Fight_0)) {
        lemma_same_quarry(w, v, i, d, Some(t->Fight_0));
    }
}

/// Where a miner is headed is the same whoever watches, and so is what comes of its turn.
pub proof fn mining_does_not_tell_who_watches(
    w: WorldV,
    v: WorldV,
    i: int,
    patch: u32,
    score: Seq<Num>,
    home: Seq<Num>,
    h: Haul,
    dist: Num,
    timer: Num,
    aim: V2,
)
    requires
        same_match(w, v),
        0 <= i < w.ents.len(),
        headed(w, i, patch, score, home, h),
        h is Patch ==> h->Patch_0 < w.ents.len(),
        h is Base ==> h->Base_0 < w.ents.len(),
    ensures
        headed(v, i, patch, score, home, h),
        same_match(w.hauled(i, h, dist, timer, aim), v.hauled(i, h, dist, timer, aim)),
        world_words(w.hauled(i, h, dist, timer, aim)) == world_words(v.hauled(i, h, dist, timer, aim)),
{
    assert(same_ent(w.ents[i], v.ents[i]));
    let (e, f) = (w.ents[i], v.ents[i]);
    let far = Num { bits: FAR_BITS };
    lemma_same_slot(w, v, patch);
    if w.slot_of(patch) is Some {
        assert(same_ent(w.ents[w.slot(patch)], v.ents[w.slot(patch)]));
    }
    assert(unbiased(minable()));
    assert(unbiased(base_of(e.team)));
    if re_picked(w, score, h) {
        let p = choose|p: Option<usize>| #[trigger]
            first_least(w.ents, minable(), score, far, p) && h == (match p {
                Some(k) => Haul::Patch(k),
                None => Haul::NoPatch,
            });
        lemma_same_pick(w.ents, v.ents, minable(), score, far, p);
        assert(re_picked(v, score, h));
    }
    if e.carry >= crate::kind::CARRY {
        let b = choose|b: Option<usize>| #[trigger]
            first_least(w.ents, base_of(e.team), home, far, b) && h == (match b {
                Some(k) => Haul::Base(k),
                None => Haul::NoBase,
            });
        lemma_same_pick(w.ents, v.ents, base_of(e.team), home, far, b);
    }
    lemma_same_haul(w, v, i, h, dist, timer, aim);
    fingerprints_do_not_tell_who_watches(w.hauled(i, h, dist, timer, aim), v.hauled(i, h, dist, timer, aim));
}

proof fn lemma_same_haul(w: WorldV, v: WorldV, i: int, h: Haul, dist: Num, timer: Num, aim: V2)
    requires
        same_match(w, v),
        0 <= i < w.ents.len(),
        h is Patch ==> h->Patch_0 < w.ents.len(),
        h is Base ==> h->Base_0 < w.ents.len(),
    ensures
        same_match(w.hauled(i, h, dist, timer, aim), v.hauled(i, h, dist, timer, aim)),
{
    assert(same_ent(w.ents[i], v.ents[i]));
    let (x, y) = (w.hauled(i, h, dist, timer, aim), v.hauled(i, h, dist, timer, aim));
    match h {
        Haul::Patch(m) => {
            let (p, q) = (w.ents[m as int], v.ents[m as int]);
            assert(same_ent(w.ents[m as int], v.ents[m as int]));
            if dist.at_most(Num::whole(crate::economy::MINE_REACH)) && (Num {
                bits: crate::economy::MINE_TIME_BITS,
            }).at_most(timer) {
                let a = EntV { minerals: (p.minerals - crate::economy::load(p.minerals)) as u32, ..p };
                let b = EntV { minerals: (q.minerals - crate::economy::load(q.minerals)) as u32, ..q };
                lemma_same_with(w, v, m as int, a, b);
                lemma_same_with(w.with(m as int, a), v.with(m as int, b), i, x.ents[i], y.ents[i]);
            } else {
                lemma_same_with(w, v, i, x.ents[i], y.ents[i]);
            }
        },
        Haul::Base(b) => {
            assert(same_ent(w.ents[b as int], v.ents[b as int]));
            let (e, n) = (w.ents[i], w.ents[i].carry as int);
            if dist.at_most(Num::whole(crate::economy::DROP_REACH)) {
                lemma_same_with(w.gained(e.team, n), v.gained(e.team, n), i, x.ents[i], y.ents[i]);
            } else {
                lemma_same_with(w, v, i, x.ents[i], y.ents[i]);
            }
        },
        _ => {
            lemma_same_with(w, v, i, x.ents[i], y.ents[i]);
        },
    }
}

/// What comes of a repair is the same whoever watches.
pub proof fn repairs_do_not_tell_who_watches(
    w: WorldV,
    v: WorldV,
    i: int,
    id: u32,
    dist: Num,
    owed: Seq<Num>,
    hp: Num,
    patch: Option<usize>,
)
    requires
        same_match(w, v),
        w.ents.len() <= usize::MAX,
        0 <= i < w.ents.len(),
        patch is Some ==> patch->0 < w.ents.len(),
    ensures
        fix_of(w, i, id) == fix_of(v, i, id),
        same_match(
            w.repaired(i, fix_of(w, i, id), dist, owed, hp, patch),
            v.repaired(i, fix_of(v, i, id), dist, owed, hp, patch),
        ),
        world_words(w.repaired(i, fix_of(w, i, id), dist, owed, hp, patch)) == world_words(
            v.repaired(i, fix_of(v, i, id), dist, owed, hp, patch),
        ),
{
    assert(same_ent(w.ents[i], v.ents[i]));
    lemma_same_slot(w, v, id);
    if w.slot_of(id) is Some {
        assert(same_ent(w.ents[w.slot(id)], v.ents[w.slot(id)]));
    }
    let f = fix_of(w, i, id);
    assert(f == fix_of(v, i, id));
    let (x, y) = (w.repaired(i, f, dist, owed, hp, patch), v.repaired(i, f, dist, owed, hp, patch));
    match f {
        Fix::Gone => {
            lemma_same_with(w, v, i, x.ents[i], y.ents[i]);
        },
        Fix::Whole(_) => {
            if w.ents[i].order_queue.len() == 0 {
                lemma_same_put(w, v, i, patch);
            } else {
                lemma_same_with(w, v, i, x.ents[i], y.ents[i]);
            }
        },
        Fix::Work(b) => {
            assert(b == w.slot(id));
            assert(same_ent(w.ents[b as int], v.ents[b as int]));
            let reach = Num::whole(
                (crate::kind::radius(Kind::Worker) + crate::kind::radius(w.ents[b as int].kind) + 6) as u32,
            );
            if reach.less(dist) {
                lemma_same_with(w, v, i, x.ents[i], y.ents[i]);
            } else {
                lemma_same_work(w, v, i, b as int, owed, hp);
            }
        },
    }
    fingerprints_do_not_tell_who_watches(x, y);
}

pub proof fn lemma_same_put(w: WorldV, v: WorldV, i: int, patch: Option<usize>)
    requires
        same_match(w, v),
        0 <= i < w.ents.len(),
        patch is Some ==> patch->0 < w.ents.len(),
    ensures
        same_match(w.put_to_mine(i, patch), v.put_to_mine(i, patch)),
{
    assert(same_ent(w.ents[i], v.ents[i]));
    if let Some(m) = patch {
        assert(same_ent(w.ents[m as int], v.ents[m as int]));
        lemma_same_with(
            w,
            v,
            i,
            EntV { order: Order::Gather(w.ents[m as int].id), ..w.ents[i] },
            EntV { order: Order::Gather(v.ents[m as int].id), ..v.ents[i] },
        );
    }
}

proof fn lemma_same_work(w: WorldV, v: WorldV, i: int, b: int, owed: Seq<Num>, hp: Num)
    requires
        same_match(w, v),
        0 <= i < w.ents.len(),
        0 <= b < w.ents.len(),
    ensures
        same_match(w.worked_on(i, b, owed, hp), v.worked_on(i, b, owed, hp)),
{
    assert(same_ent(w.ents[i], v.ents[i]));
    let t = w.ents[i].team;
    let due = owed.len() - 1;
    let paid = if w.bank(t) < due {
        w.bank(t) as int
    } else {
        due
    };
    let x = EntV { goal: None, repair_owed: owed[paid], ..w.ents[i] };
    let y = EntV { goal: None, repair_owed: owed[paid], ..v.ents[i] };
    lemma_same_with(w.spent(t, paid), v.spent(t, paid), i, x, y);
    let (p, q) = (w.spent(t, paid).with(i, x), v.spent(t, paid).with(i, y));
    assert(same_ent(p.ents[b], q.ents[b]));
    lemma_same_with(p, q, b, EntV { hp, ..p.ents[b] }, EntV { hp, ..q.ents[b] });
}

/// What comes of a worker at its building site is the same whoever watches.
pub proof fn raising_does_not_tell_who_watches(
    w: WorldV,
    v: WorldV,
    i: int,
    k: Kind,
    site: V2,
    hp: Num,
    rally: V2,
    patch: Option<usize>,
)
    requires
        same_match(w, v),
        0 <= i < w.ents.len(),
        patch is Some ==> patch->0 < w.ents.len(),
    ensures
        same_match(w.raised(i, k, site, hp, rally, patch), v.raised(i, k, site, hp, rally, patch)),
        world_words(w.raised(i, k, site, hp, rally, patch)) == world_words(
            v.raised(i, k, site, hp, rally, patch),
        ),
{
    assert(same_ent(w.ents[i], v.ents[i]));
    let t = w.ents[i].team;
    lemma_same_spawn(w, v, k, t, site);
    let (a, b) = (w.spawned(k, t, site), v.spawned(k, t, site));
    let n = a.ents.len() - 1;
    assert(same_ent(a.ents[n], b.ents[n]));
    let left = Num::whole(crate::kind::build_time(k));
    let x = EntV { build_left: left, hp, rally, ..a.ents[n] };
    let y = EntV { build_left: left, hp, rally, ..b.ents[n] };
    lemma_same_with(a, b, n, x, y);
    let (p, q) = (a.with(n, x), b.with(n, y));
    assert(same_ent(p.ents[i], q.ents[i]));
    let (l, m) = (w.raised(i, k, site, hp, rally, patch), v.raised(i, k, site, hp, rally, patch));
    if p.ents[i].build_queue.len() == 0 {
        lemma_same_put(p, q, i, patch);
    } else {
        lemma_same_with(p, q, i, l.ents[i], m.ents[i]);
    }
    fingerprints_do_not_tell_who_watches(l, m);
}

/// Showing something to the watcher, or letting them select, is no part of the match.
pub proof fn watching_changes_nothing(w: WorldV, v: WorldV)
    requires
        same_match(w, v),
    ensures
        same_match(v, w),
        w.next_id == v.next_id,
        w.minerals == v.minerals,
        w.rng == v.rng,
        w.time == v.time,
        w.match_over == v.match_over,
{
    assert forall|j: int| 0 <= j < v.ents.len() implies same_ent(#[trigger] v.ents[j], w.ents[j]) by {
        assert(same_ent(w.ents[j], v.ents[j]));
    }
}

} // verus!
