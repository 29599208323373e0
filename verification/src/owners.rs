//! What a command may touch: its team's own, and of those only the ones it names.

use vstd::prelude::*;
use crate::cmd::CmdV;
use crate::kind::{is_building, Kind, Team, MAX_FACTIONS};
use crate::orders::{
    aim_of, banked, lemma_chosen, lemma_costs_nonneg, lemma_ordered_one, lemma_share, lemma_stop_worth, Aim,
    Click, Ground,
};
use crate::num::V2;
use crate::query::first_touched;
use crate::world::{lemma_first_slot, EntV, Order, WorldV};

verus! {

/// Whether only what an entity has been told to do tells two states of it apart: its orders,
/// its plans, its queue and its rally point.
pub open spec fn told_apart(a: EntV, b: EntV) -> bool {
    b == (EntV {
        order: b.order,
        order_queue: b.order_queue,
        goal: b.goal,
        build_queue: b.build_queue,
        queue: b.queue,
        train_timer: b.train_timer,
        rally: b.rally,
        rally_set: b.rally_set,
        ..a
    })
}

/// Whether `v` differs from `w` by nothing but what some of a team's entities have been told
/// to do, and by the team's bank. What the local player sees and hears of it is left open.
pub open spec fn minds_only(w: WorldV, v: WorldV, team: Team, ids: Seq<u32>) -> bool {
    &&& v.ents.len() == w.ents.len()
    &&& forall|j: int|
        0 <= j < w.ents.len() ==> {
            &&& told_apart(w.ents[j], #[trigger] v.ents[j])
            &&& w.ents[j].team != team || !ids.contains(w.ents[j].id) ==> v.ents[j] == w.ents[j]
        }
    &&& forall|t: Team| t != team ==> #[trigger] v.bank(t) == w.bank(t)
    &&& v == (WorldV {
        ents: v.ents,
        minerals: v.minerals,
        pings: v.pings,
        messages: v.messages,
        sounds: v.sounds,
        ..w
    })
}

/// The ids that a command names.
pub open spec fn subjects(c: CmdV) -> Seq<u32> {
    match c {
        CmdV::Order { ids, .. } => ids,
        CmdV::Stop { ids } => ids,
        CmdV::Train { building, .. } => seq![building],
        CmdV::Build { worker, .. } => seq![worker],
        CmdV::Rally { building, .. } => seq![building],
        CmdV::Cancel { building } => seq![building],
        CmdV::Surrender => seq![],
    }
}

proof fn lemma_same_bank(w: WorldV, team: Team)
    requires
        banked(w),
    ensures
        w.with_bank(team, w.bank(team) as int) == w,
{
    if team.idx() < MAX_FACTIONS {
        assert(w.minerals.update(team.idx() as int, w.bank(team)) =~= w.minerals);
    }
}

/// A step that changes one of the named and the team's bank.
proof fn lemma_one_step(w: WorldV, v: WorldV, team: Team, ids: Seq<u32>, i: int, e: EntV, m: int)
    requires
        banked(w),
        0 <= i < w.ents.len(),
        w.ents[i].team == team,
        ids.contains(w.ents[i].id),
        told_apart(w.ents[i], e),
        v == (WorldV { pings: v.pings, messages: v.messages, sounds: v.sounds, ..w.with(i, e).with_bank(team, m) }),
    ensures
        minds_only(w, v, team, ids),
        banked(v),
{
    assert(w.with(i, e).with_bank(team, m).ents =~= w.ents.update(i, e));
    assert forall|t: Team| t != team implies #[trigger] v.bank(t) == w.bank(t) by {
        assert(t.idx() != team.idx());
    }
}

proof fn lemma_no_step(w: WorldV, v: WorldV, team: Team, ids: Seq<u32>)
    requires
        v == (WorldV { pings: v.pings, messages: v.messages, sounds: v.sounds, ..w }),
    ensures
        minds_only(w, v, team, ids),
{
}

proof fn lemma_then(w: WorldV, u: WorldV, v: WorldV, team: Team, ids: Seq<u32>)
    requires
        minds_only(w, u, team, ids),
        minds_only(u, v, team, ids),
    ensures
        minds_only(w, v, team, ids),
{
    assert forall|j: int| 0 <= j < w.ents.len() implies told_apart(w.ents[j], #[trigger] v.ents[j]) && (
    w.ents[j].team != team || !ids.contains(w.ents[j].id) ==> v.ents[j] == w.ents[j]) by {
        assert(told_apart(w.ents[j], u.ents[j]));
        assert(told_apart(u.ents[j], v.ents[j]));
    }
    assert forall|t: Team| t != team implies #[trigger] v.bank(t) == w.bank(t) by {
        assert(u.bank(t) == w.bank(t));
    }
}

proof fn lemma_more_names(w: WorldV, v: WorldV, team: Team, ids: Seq<u32>, more: Seq<u32>)
    requires
        minds_only(w, v, team, ids),
        forall|id: u32| ids.contains(id) ==> #[trigger] more.contains(id),
    ensures
        minds_only(w, v, team, more),
{
    assert forall|j: int| 0 <= j < w.ents.len() implies told_apart(w.ents[j], #[trigger] v.ents[j]) && (
    w.ents[j].team != team || !more.contains(w.ents[j].id) ==> v.ents[j] == w.ents[j]) by {
        if ids.contains(w.ents[j].id) {
            assert(more.contains(w.ents[j].id));
        }
    }
}

proof fn lemma_refund(w: WorldV, team: Team, i: int)
    requires
        banked(w),
        w.worth(team) <= u32::MAX,
        0 <= i < w.ents.len(),
        w.ents[i].team == team,
    ensures
        ({
            let v = w.plans_dropped(i);
            &&& v == w.with(i, EntV { build_queue: Seq::empty(), ..w.ents[i] }).with_bank(team, v.bank(team) as int)
            &&& w.bank(team) <= v.bank(team)
        }),
{
    let e = w.ents[i];
    lemma_share(w, team, i);
    lemma_costs_nonneg(e.build_queue, e.queue);
}

proof fn lemma_one_ordered(w: WorldV, a: Aim, c: Click, i: int, placed: int, ids: Seq<u32>)
    requires
        banked(w),
        w.worth(c.team) <= u32::MAX,
        0 <= i < w.ents.len(),
        w.ents[i].team == c.team,
        ids.contains(w.ents[i].id),
    ensures
        minds_only(w, w.ordered_one(a, c, i, placed).0, c.team, ids),
        w.bank(c.team) <= w.ordered_one(a, c, i, placed).0.bank(c.team),
{
    let e = w.ents[i];
    let t = c.team;
    let v = w.ordered_one(a, c, i, placed).0;
    let same = w.bank(t) as int;
    assert forall|x: EntV| #[trigger] w.with(i, x).with_bank(t, same) == w.with(i, x) by {
        lemma_same_bank(w.with(i, x), t);
    }
    if is_building(e.kind) {
        if crate::orders::trains(e.kind) {
            let x = EntV { rally: c.pt, rally_set: true, ..e };
            assert(w.with(i, x).with_bank(t, same) == w.with(i, x));
            lemma_one_step(w, v, t, ids, i, x, same);
        } else {
            lemma_no_step(w, v, t, ids);
        }
    } else {
        let (o, walks) = crate::orders::click_order(a, c, e.kind, placed);
        if e.kind == Kind::Worker && WorldV::building(e) {
            lemma_refund(w, t, i);
            let d = w.plans_dropped(i);
            let x = EntV { build_queue: Seq::empty(), order_queue: Seq::empty(), order: o, ..e };
            assert(v =~= w.with(i, x).with_bank(t, d.bank(t) as int));
            lemma_one_step(w, v, t, ids, i, x, d.bank(t) as int);
        } else if c.queue && e.order != Order::Idle {
            let x = EntV { order_queue: e.order_queue.push(o), ..e };
            assert(w.with(i, x).with_bank(t, same) == w.with(i, x));
            lemma_one_step(w, v, t, ids, i, x, same);
        } else {
            let x = EntV { order_queue: Seq::empty(), order: o, ..e };
            assert(w.with(i, x).with_bank(t, same) == w.with(i, x));
            lemma_one_step(w, v, t, ids, i, x, same);
        }
    }
}

proof fn lemma_all_ordered(w: WorldV, a: Aim, c: Click, slots: Seq<usize>, ids: Seq<u32>)
    requires
        banked(w),
        w.worth(c.team) <= u32::MAX,
        forall|k: int|
            0 <= k < slots.len() ==> 0 <= #[trigger] slots[k] < w.ents.len() && w.ents[slots[k] as int].team
                == c.team && ids.contains(w.ents[slots[k] as int].id),
    ensures
        ({
            let v = w.ordered(a, c, slots).0;
            &&& minds_only(w, v, c.team, ids)
            &&& w.bank(c.team) <= v.bank(c.team)
            &&& banked(v)
            &&& v.worth(c.team) <= u32::MAX
        }),
    decreases slots.len(),
{
    if slots.len() == 0 {
        lemma_no_step(w, w, c.team, ids);
    } else {
        let front = slots.drop_last();
        assert forall|k: int| 0 <= k < front.len() implies 0 <= #[trigger] front[k] < w.ents.len()
            && w.ents[front[k] as int].team == c.team && ids.contains(w.ents[front[k] as int].id) by {
            assert(slots[k] == front[k]);
        }
        lemma_all_ordered(w, a, c, front, ids);
        let (u, placed) = w.ordered(a, c, front);
        let i = slots.last() as int;
        assert(slots[slots.len() - 1] == slots.last());
        assert(told_apart(w.ents[i], u.ents[i]));
        lemma_one_ordered(u, a, c, i, placed, ids);
        lemma_ordered_one(u, a, c, i, placed, c.team);
        lemma_then(w, u, w.ordered(a, c, slots).0, c.team, ids);
    }
}

proof fn lemma_chosen_are_named(w: WorldV, team: Team, ids: Seq<u32>)
    requires
        w.ents.len() <= usize::MAX,
    ensures
        forall|k: int|
            0 <= k < w.chosen(team, ids).len() ==> ids.contains(
                w.ents[#[trigger] w.chosen(team, ids)[k] as int].id,
            ),
    decreases ids.len(),
{
    if ids.len() > 0 {
        let front = ids.drop_last();
        let id = ids.last();
        lemma_chosen_are_named(w, team, front);
        lemma_first_slot(w.ents, |e: EntV| e.id == id);
        assert(ids[ids.len() - 1] == id);
        let c = w.chosen(team, ids);
        let d = w.chosen(team, front);
        assert forall|k: int| 0 <= k < c.len() implies ids.contains(w.ents[#[trigger] c[k] as int].id) by {
            if k < d.len() {
                assert(c[k] == d[k]);
                let x = w.ents[d[k] as int].id;
                assert(front.contains(x));
                let n = choose|n: int| 0 <= n < front.len() && front[n] == x;
                assert(ids[n] == x);
            }
        }
    }
}

proof fn lemma_clicked(w: WorldV, c: Click, ids: Seq<u32>)
    requires
        banked(w),
        w.worth(c.team) <= u32::MAX,
        w.ents.len() <= usize::MAX,
        c.target is Some ==> c.target->0 < w.ents.len(),
    ensures
        minds_only(w, w.clicked(c, ids), c.team, ids),
        w.bank(c.team) <= w.clicked(c, ids).bank(c.team),
{
    let v = w.clicked(c, ids);
    if w.cancels(c, ids) {
        let t = c.target->0 as int;
        lemma_cancelled(w, v, c.team, ids, t);
    } else {
        let a = aim_of(w, c);
        let slots = w.chosen(c.team, ids);
        lemma_chosen(w, c.team, ids);
        lemma_chosen_are_named(w, c.team, ids);
        let u = if c.team == w.my_team && w.any_walker(slots) {
            w.pinged(w.click_ping(a, c, slots))
        } else {
            w
        };
        assert(u.ents == w.ents && u.minerals == w.minerals);
        assert(u.worth(c.team) == w.worth(c.team));
        lemma_no_step(w, u, c.team, ids);
        lemma_all_ordered(u, a, c, slots, ids);
        lemma_then(w, u, v, c.team, ids);
    }
}

proof fn lemma_cancelled(w: WorldV, v: WorldV, team: Team, ids: Seq<u32>, i: int)
    requires
        banked(w),
        w.worth(team) <= u32::MAX,
        0 <= i < w.ents.len(),
        w.ents[i].team == team,
        ids.contains(w.ents[i].id),
        w.ents[i].queue.len() > 0,
        v == (WorldV { pings: v.pings, messages: v.messages, sounds: v.sounds, ..w.unqueued(i) }),
    ensures
        minds_only(w, v, team, ids),
        w.bank(team) <= v.bank(team),
{
    let e = w.ents[i];
    lemma_share(w, team, i);
    lemma_costs_nonneg(e.build_queue, e.queue.drop_last());
    let u = w.unqueued(i);
    let x = u.ents[i];
    assert(u =~= w.with(i, x).with_bank(team, u.bank(team) as int));
    lemma_one_step(w, v, team, ids, i, x, u.bank(team) as int);
}

proof fn lemma_trained(w: WorldV, team: Team, ids: Seq<u32>, i: int, unit: Kind)
    requires
        banked(w),
        0 <= i < w.ents.len(),
        w.ents[i].team == team,
        ids.contains(w.ents[i].id),
    ensures
        minds_only(w, w.trained(i, unit).0, team, ids),
{
    let v = w.trained(i, unit).0;
    if w.trained(i, unit).1 {
        let x = EntV { queue: w.ents[i].queue.push(unit), ..w.ents[i] };
        assert(v =~= w.with(i, x).with_bank(team, v.bank(team) as int));
        lemma_one_step(w, v, team, ids, i, x, v.bank(team) as int);
    } else {
        lemma_no_step(w, v, team, ids);
    }
}

proof fn lemma_built(w: WorldV, team: Team, ids: Seq<u32>, i: int, k: Kind, site: V2, clear: bool)
    requires
        banked(w),
        0 <= i < w.ents.len(),
        w.ents[i].team == team,
        ids.contains(w.ents[i].id),
    ensures
        minds_only(w, w.build_chained(i, k, site, clear).0, team, ids),
{
    let v = w.build_chained(i, k, site, clear).0;
    if w.build_chained(i, k, site, clear).1 {
        let x = v.ents[i];
        assert(v =~= w.with(i, x).with_bank(team, v.bank(team) as int));
        lemma_one_step(w, v, team, ids, i, x, v.bank(team) as int);
    } else {
        lemma_no_step(w, v, team, ids);
    }
}

proof fn lemma_rallied(w: WorldV, team: Team, ids: Seq<u32>, i: int, x: EntV)
    requires
        banked(w),
        0 <= i < w.ents.len(),
        w.ents[i].team == team,
        ids.contains(w.ents[i].id),
        told_apart(w.ents[i], x),
    ensures
        minds_only(w, w.with(i, x), team, ids),
{
    lemma_same_bank(w.with(i, x), team);
    lemma_one_step(w, w.with(i, x), team, ids, i, x, w.bank(team) as int);
}

proof fn lemma_one_stopped(w: WorldV, team: Team, id: u32)
    requires
        banked(w),
        w.worth(team) <= u32::MAX,
    ensures
        minds_only(w, w.stopped_one(team, id), team, seq![id]),
        w.bank(team) <= w.stopped_one(team, id).bank(team),
{
    lemma_first_slot(w.ents, |e: EntV| e.id == id);
    let v = w.stopped_one(team, id);
    let ids = seq![id];
    assert(ids[0] == id);
    if w.slot_of(id) is Some {
        let i = w.slot(id);
        let e = w.ents[i];
        if e.team == team && crate::kind::is_mover(e.kind) {
            if e.kind == Kind::Worker {
                lemma_refund(w, team, i);
                let d = w.plans_dropped(i);
                let x = EntV { order: Order::Idle, goal: None, order_queue: Seq::empty(), ..d.ents[i] };
                assert(v =~= w.with(i, x).with_bank(team, d.bank(team) as int));
                lemma_one_step(w, v, team, ids, i, x, d.bank(team) as int);
            } else {
                let x = EntV { order: Order::Idle, goal: None, order_queue: Seq::empty(), ..e };
                lemma_same_bank(w.with(i, x), team);
                lemma_one_step(w, v, team, ids, i, x, w.bank(team) as int);
            }
        } else {
            lemma_no_step(w, v, team, ids);
        }
    } else {
        lemma_no_step(w, v, team, ids);
    }
}

proof fn lemma_all_stopped(w: WorldV, team: Team, ids: Seq<u32>)
    requires
        banked(w),
        w.worth(team) <= u32::MAX,
    ensures
        ({
            let v = w.stopped(team, ids);
            &&& minds_only(w, v, team, ids)
            &&& w.bank(team) <= v.bank(team)
            &&& banked(v)
            &&& v.worth(team) <= u32::MAX
        }),
    decreases ids.len(),
{
    if ids.len() == 0 {
        lemma_no_step(w, w, team, ids);
    } else {
        let front = ids.drop_last();
        let id = ids.last();
        lemma_all_stopped(w, team, front);
        let u = w.stopped(team, front);
        let v = u.stopped_one(team, id);
        lemma_one_stopped(u, team, id);
        lemma_stop_worth(u, team, id, team);
        assert forall|x: u32| front.contains(x) implies #[trigger] ids.contains(x) by {
            let n = choose|n: int| 0 <= n < front.len() && front[n] == x;
            assert(ids[n] == x);
        }
        assert forall|x: u32| seq![id].contains(x) implies #[trigger] ids.contains(x) by {
            assert(ids[ids.len() - 1] == x);
        }
        lemma_more_names(w, u, team, front, ids);
        lemma_more_names(u, v, team, seq![id], ids);
        lemma_then(w, u, v, team, ids);
    }
}

/// A team cannot order about what it does not own: whatever a command says, an entity of
/// another team, or one that the command does not name, stays as it is. No entity comes or
/// goes, and none is moved, hurt or handed over; only the team's own bank changes; the clock
/// and the draws go on as they were.
pub proof fn commands_are_for_owners(w: WorldV, team: Team, c: CmdV, g: Ground, after: WorldV)
    requires
        w.obeyed(team, c, g, after),
        banked(w),
        w.worth(team) <= u32::MAX,
        w.ents.len() <= usize::MAX,
    ensures
        minds_only(w, after, team, subjects(c)),
        c is Order || c is Stop || c is Cancel ==> w.bank(team) <= after.bank(team),
{
    match c {
        CmdV::Order { ids, attack_move, queue, .. } => {
            let target = choose|target: Option<usize>| #[trigger]
                first_touched(w.ents, g.d@, 3, crate::query::anything(), target) && after == w.clicked(
                    (Click { team, target, pt: g.pt, attack_move, queue, dests: g.dests@ }),
                    ids,
                );
            lemma_clicked(w, Click { team, target, pt: g.pt, attack_move, queue, dests: g.dests@ }, ids);
        },
        CmdV::Stop { ids } => {
            lemma_all_stopped(w, team, ids);
        },
        CmdV::Train { building, unit } => {
            lemma_first_slot(w.ents, |e: EntV| e.id == building);
            assert(seq![building][0] == building);
            if let Some(i) = w.own_building(team, building) {
                lemma_trained(w, team, subjects(c), i, unit);
            }
        },
        CmdV::Build { worker, kind, x, y, .. } => {
            lemma_first_slot(w.ents, |e: EntV| e.id == worker);
            assert(seq![worker][0] == worker);
            if let Some(i) = w.own_worker(team, worker) {
                let clear = g.site.clear_for(w.ents, g.has_cliffs, kind);
                lemma_built(w, team, subjects(c), i, kind, V2 { x, y }, clear);
            }
        },
        CmdV::Rally { building, .. } => {
            lemma_first_slot(w.ents, |e: EntV| e.id == building);
            assert(seq![building][0] == building);
            if let Some(i) = w.own_building(team, building) {
                lemma_rallied(w, team, subjects(c), i, after.ents[i]);
            }
        },
        CmdV::Cancel { building } => {
            lemma_first_slot(w.ents, |e: EntV| e.id == building);
            assert(seq![building][0] == building);
            if let Some(i) = w.own_building(team, building) {
                if w.ents[i].queue.len() > 0 {
                    lemma_cancelled(w, after, team, subjects(c), i);
                }
            }
        },
        CmdV::Surrender => {},
    }
}

/// A command about a building or a worker that is not the team's does nothing.
pub proof fn strangers_do_not_listen(w: WorldV, team: Team, c: CmdV, g: Ground, after: WorldV)
    requires
        w.obeyed(team, c, g, after),
        match c {
            CmdV::Train { building, .. } => w.own_building(team, building) is None,
            CmdV::Build { worker, .. } => w.own_worker(team, worker) is None,
            CmdV::Rally { building, .. } => w.own_building(team, building) is None,
            CmdV::Cancel { building } => w.own_building(team, building) is None,
            _ => false,
        },
    ensures
        after == w,
{
}

} // verus!
