//! Commands at work: training, raising buildings, rallying, moving, attacking, mining,
//! repairing, stopping and cancelling. Minerals change hands here, and none are lost: what
//! is paid up front comes back when the plan is dropped.

use vstd::prelude::*;
use crate::audio::Sfx;
use crate::cmd::{Cmd, CmdV};
use crate::gfx::rgb;
use crate::kind::{
    cost, is_building, is_mover, radius, supply_cost, Kind, Team, BUILD_GAP, MAX_FACTIONS,
};
use crate::num::{Num, V2};
use crate::path::{T_CLIFF, T_RAMP};
use crate::query::first_touched;
use crate::select::ids_of;
use crate::world::{
    lemma_first_slot, lemma_total_nonneg, lemma_total_part, lemma_total_update, queue_supply, total,
    unborn, EntV, Order, Ping, World, WorldV,
};

verus! {

/// Clearance that a new building keeps from a mineral patch.
pub const PATCH_GAP: u32 = 8;

/// Half a second.
pub const HALF_BITS: u32 = 0x3F00_0000;

/// Six tenths of a second.
pub const SIX_TENTHS_BITS: u32 = 0x3F19_999A;

// ---- what is in the pipeline ----------------------------------------------------------

/// What a list of planned buildings cost.
pub open spec fn sites_cost(q: Seq<(Kind, V2)>) -> int
    decreases q.len(),
{
    if q.len() == 0 {
        0
    } else {
        sites_cost(q.drop_last()) + cost(q.last().0)
    }
}

/// What a list of queued units cost.
pub open spec fn units_cost(q: Seq<Kind>) -> int
    decreases q.len(),
{
    if q.len() == 0 {
        0
    } else {
        units_cost(q.drop_last()) + cost(q.last())
    }
}

/// What the building an order is about cost.
pub open spec fn order_cost(o: Order) -> int {
    match o {
        Order::Build(k, _) => cost(k) as int,
        _ => 0,
    }
}

/// What an entity's plans cost: the building it is on and those it is to raise next.
pub open spec fn plan_cost(e: EntV) -> int {
    order_cost(e.order) + sites_cost(e.build_queue)
}

/// What a team has put into an entity's plans and queue.
pub open spec fn committed(t: Team) -> spec_fn(EntV) -> int {
    |e: EntV|
        if e.team == t {
            plan_cost(e) + units_cost(e.queue)
        } else {
            0
        }
}

impl WorldV {
    /// What a team owns: its bank and all it has paid for and not yet received.
    pub open spec fn worth(self, t: Team) -> int {
        self.bank(t) + total(self.ents, committed(t))
    }
}

pub proof fn lemma_costs_nonneg(q: Seq<(Kind, V2)>, u: Seq<Kind>)
    ensures
        sites_cost(q) >= 0,
        units_cost(u) >= 0,
    decreases q.len() + u.len(),
{
    if q.len() > 0 {
        lemma_costs_nonneg(q.drop_last(), u);
    } else if u.len() > 0 {
        lemma_costs_nonneg(q, u.drop_last());
    }
}

pub proof fn lemma_committed_nonneg(t: Team)
    ensures
        forall|e: EntV| #[trigger] committed(t)(e) >= 0,
{
    assert forall|e: EntV| #[trigger] committed(t)(e) >= 0 by {
        lemma_costs_nonneg(e.build_queue, e.queue);
    }
}

/// What one entity holds is part of what its team owns.
pub proof fn lemma_share(w: WorldV, t: Team, i: int)
    requires
        0 <= i < w.ents.len(),
        w.ents[i].team == t,
    ensures
        w.bank(t) + plan_cost(w.ents[i]) + units_cost(w.ents[i].queue) <= w.worth(t),
{
    lemma_committed_nonneg(t);
    let e = w.ents[i];
    let bare = EntV { order: Order::Idle, build_queue: Seq::empty(), queue: Seq::empty(), ..e };
    lemma_total_update(w.ents, committed(t), i, bare);
    lemma_total_nonneg(w.ents.update(i, bare), committed(t));
}

/// Replacing an entity, and moving its share to or from the bank.
proof fn lemma_worth_with(w: WorldV, t: Team, i: int, e: EntV)
    requires
        0 <= i < w.ents.len(),
    ensures
        w.with(i, e).worth(t) == w.worth(t) - committed(t)(w.ents[i]) + committed(t)(e),
{
    lemma_total_update(w.ents, committed(t), i, e);
}

// ---- building sites --------------------------------------------------------------------

/// What there is to know of a building site: the point, the farthest point that is still on
/// the map less the building's radius, the terrain under its middle and its four edges, its
/// distance to each entity, to the site each worker is on, and to the sites that each worker
/// is to take next.
pub struct Site {
    pub pt: V2,
    pub far: V2,
    pub tiles: [u8; 5],
    pub to_ent: Vec<Num>,
    pub to_order: Vec<Num>,
    pub to_queue: Vec<Vec<Num>>,
}

impl Site {
    pub open spec fn fits(&self, ents: Seq<EntV>) -> bool {
        &&& self.to_ent@.len() == ents.len()
        &&& self.to_order@.len() == ents.len()
        &&& self.to_queue@.len() == ents.len()
        &&& forall|i: int|
            0 <= i < ents.len() ==> (#[trigger] self.to_queue@[i])@.len() == ents[i].build_queue.len()
    }

    /// Whether a building of a kind would lie on the map.
    pub open spec fn on_map(&self, k: Kind) -> bool {
        let r = Num::whole(radius(k));
        !self.pt.x.less(r) && !self.pt.y.less(r) && !self.far.x.less(self.pt.x) && !self.far.y.less(
            self.pt.y,
        )
    }

    /// Whether a building would stand on a cliff or astride a ramp.
    pub open spec fn on_rock(&self) -> bool {
        exists|i: int|
            0 <= i < 5 && (#[trigger] self.tiles[i] == T_CLIFF || self.tiles[i] == T_RAMP)
    }

    /// Whether a building is too close to something that stands.
    pub open spec fn crowds(&self, k: Kind, e: EntV, i: int) -> bool {
        !is_mover(e.kind) && self.to_ent@[i].less(
            Num::whole((radius(k) + radius(e.kind) + gap_to(e.kind)) as u32),
        )
    }

    /// Whether a building is too close to one that a worker is going to raise.
    pub open spec fn clashes(&self, k: Kind, e: EntV, i: int) -> bool {
        e.kind == Kind::Worker && ((match e.order {
            Order::Build(bk, _) => self.to_order@[i].less(Num::whole((radius(k) + radius(bk) + BUILD_GAP) as u32)),
            _ => false,
        }) || exists|q: int|
            0 <= q < e.build_queue.len() && #[trigger] self.to_queue@[i]@[q].less(
                Num::whole((radius(k) + radius(e.build_queue[q].0) + BUILD_GAP) as u32),
            ))
    }

    /// Whether a building of a kind can go up here.
    pub open spec fn clear_for(&self, ents: Seq<EntV>, has_cliffs: bool, k: Kind) -> bool {
        &&& self.on_map(k)
        &&& !(has_cliffs && self.on_rock())
        &&& forall|i: int|
            0 <= i < ents.len() ==> !self.crowds(k, #[trigger] ents[i], i) && !self.clashes(k, ents[i], i)
    }
}

/// Buildings may stand on high ground, but never on a cliff or astride a ramp.
pub proof fn no_building_on_rock(site: Site, ents: Seq<EntV>, k: Kind, i: int)
    requires
        site.clear_for(ents, true, k),
        0 <= i < 5,
    ensures
        site.tiles[i] != T_CLIFF,
        site.tiles[i] != T_RAMP,
{
}

/// Gap that a new building keeps from something that stands.
pub open spec fn gap_to(k: Kind) -> u32 {
    if is_building(k) {
        BUILD_GAP
    } else {
        PATCH_GAP
    }
}

impl WorldV {
    /// The match after a worker was told to raise a building, and whether it will. The plan
    /// it was on is dropped.
    pub open spec fn build_ordered(self, i: int, k: Kind, site: V2, clear: bool) -> (WorldV, bool) {
        let e = self.ents[i];
        if self.bank(e.team) < cost(k) || !clear {
            (self, false)
        } else {
            (
                self.spent(e.team, cost(k) as int).with(
                    i,
                    EntV { build_queue: Seq::empty(), order: Order::Build(k, site), ..e },
                ),
                true,
            )
        }
    }

    /// Whether an entity has something to raise.
    pub open spec fn building(e: EntV) -> bool {
        e.order is Build || e.build_queue.len() > 0
    }

    /// The match after a worker was told to raise one more building, and whether it will: at
    /// once if it has nothing to raise, and otherwise after what it has.
    pub open spec fn build_chained(self, i: int, k: Kind, site: V2, clear: bool) -> (WorldV, bool) {
        let e = self.ents[i];
        if self.bank(e.team) < cost(k) || !clear {
            (self, false)
        } else {
            (
                self.spent(e.team, cost(k) as int).with(
                    i,
                    if Self::building(e) {
                        EntV { build_queue: e.build_queue.push((k, site)), ..e }
                    } else {
                        EntV { order: Order::Build(k, site), ..e }
                    },
                ),
                true,
            )
        }
    }

    /// The match after a worker's plans were dropped and paid back. Its order is left for
    /// the caller to replace.
    pub open spec fn plans_dropped(self, i: int) -> WorldV {
        let e = self.ents[i];
        self.with(i, EntV { build_queue: Seq::empty(), ..e }).gained(e.team, plan_cost(e))
    }

    /// The match after a building's last queued unit was cancelled and paid back.
    pub open spec fn unqueued(self, i: int) -> WorldV {
        let e = self.ents[i];
        self.with(
            i,
            EntV {
                queue: e.queue.drop_last(),
                train_timer: if e.queue.len() == 1 {
                    Num { bits: 0 }
                } else {
                    e.train_timer
                },
                ..e
            },
        ).gained(e.team, cost(e.queue.last()) as int)
    }
}

impl World {
    /// Whether a building of a kind can go up on a site.
    pub fn can_build(&self, kind: Kind, has_cliffs: bool, site: &Site) -> (r: bool)
        requires
            site.fits(self@.ents),
        ensures
            r == site.clear_for(self@.ents, has_cliffs, kind),
    {
        let r: u32 = radius(kind);
        let edge = Num::whole(r);
        if site.pt.x.less(edge) || site.pt.y.less(edge) || site.far.x.less(site.pt.x) || site.far.y.less(
            site.pt.y,
        ) {
            return false;
        }
        if has_cliffs {
            let mut t: usize = 0;
            while t < 5
                invariant
                    has_cliffs,
                    t <= 5,
                    forall|j: int| 0 <= j < t ==> #[trigger] site.tiles[j] != T_CLIFF && site.tiles[j] != T_RAMP,
                decreases 5 - t,
            {
                if site.tiles[t] == T_CLIFF || site.tiles[t] == T_RAMP {
                    assert(site.tiles[t as int] == T_CLIFF || site.tiles[t as int] == T_RAMP);
                    return false;
                }
                t = t + 1;
            }
        }
        let n: usize = self.ents.len();
        for i in 0..n
            invariant
                n == self.ents@.len(),
                site.fits(self@.ents),
                r == radius(kind),
                forall|j: int|
                    0 <= j < i ==> !site.crowds(kind, #[trigger] self@.ents[j], j) && !site.clashes(
                        kind,
                        self@.ents[j],
                        j,
                    ),
        {
            let ghost ev = self@.ents[i as int];
            assert(ev == self.ents@[i as int]@);
            let e = &self.ents[i];
            if !is_mover(e.kind) {
                let gap: u32 = if is_building(e.kind) { BUILD_GAP } else { PATCH_GAP };
                if site.to_ent[i].less(Num::whole(r + radius(e.kind) + gap)) {
                    assert(site.crowds(kind, ev, i as int));
                    return false;
                }
            }
            if e.kind == Kind::Worker {
                if let Order::Build(bk, _) = e.order {
                    if site.to_order[i].less(Num::whole(r + radius(bk) + BUILD_GAP)) {
                        assert(site.clashes(kind, ev, i as int));
                        return false;
                    }
                }
                assert(site.to_queue@[i as int]@.len() == ev.build_queue.len());
                let m: usize = e.build_queue.len();
                for q in 0..m
                    invariant
                        n == self.ents@.len(),
                        i < n,
                        m == ev.build_queue.len(),
                        ev == self@.ents[i as int],
                        ev == self.ents@[i as int]@,
                        *e == self.ents@[i as int],
                        ev.kind == Kind::Worker,
                        site.fits(self@.ents),
                        site.to_queue@[i as int]@.len() == m,
                        r == radius(kind),
                        forall|j: int|
                            0 <= j < q ==> !#[trigger] site.to_queue@[i as int]@[j].less(
                                Num::whole((radius(kind) + radius(ev.build_queue[j].0) + BUILD_GAP) as u32),
                            ),
                {
                    if site.to_queue[i][q].less(Num::whole(r + radius(e.build_queue[q].0) + BUILD_GAP)) {
                        assert(site.clashes(kind, ev, i as int));
                        return false;
                    }
                }
            }
        }
        true
    }

    /// Tells a worker to raise a building, if its faction can pay and the site is clear.
    pub fn order_build(&mut self, worker: usize, kind: Kind, has_cliffs: bool, site: &Site) -> (ok: bool)
        requires
            old(self).wf(),
            worker < old(self).ents@.len(),
            site.fits(old(self)@.ents),
        ensures
            final(self).wf(),
            (final(self)@, ok) == old(self)@.build_ordered(
                worker as int,
                kind,
                site.pt,
                site.clear_for(old(self)@.ents, has_cliffs, kind),
            ),
    {
        let ghost w0 = self@;
        let ghost e0 = w0.ents[worker as int];
        assert(e0 == self.ents@[worker as int]@);
        let team = self.ents[worker].team;
        if self.team_min(team) < cost(kind) || !self.can_build(kind, has_cliffs, site) {
            return false;
        }
        self.spend(team, cost(kind));
        self.ents[worker].build_queue.clear();
        self.ents[worker].order = Order::Build(kind, site.pt);
        proof {
            let e1 = EntV { build_queue: Seq::empty(), order: Order::Build(kind, site.pt), ..e0 };
            assert(self.ents@[worker as int]@ =~= e1);
            assert(self@.ents =~= w0.ents.update(worker as int, e1));
        }
        true
    }

    /// Tells a worker to raise one more building, if its faction can pay and the site is
    /// clear.
    pub fn queue_build(&mut self, worker: usize, kind: Kind, has_cliffs: bool, site: &Site) -> (ok: bool)
        requires
            old(self).wf(),
            worker < old(self).ents@.len(),
            site.fits(old(self)@.ents),
        ensures
            final(self).wf(),
            (final(self)@, ok) == old(self)@.build_chained(
                worker as int,
                kind,
                site.pt,
                site.clear_for(old(self)@.ents, has_cliffs, kind),
            ),
    {
        let ghost w0 = self@;
        let ghost e0 = w0.ents[worker as int];
        assert(e0 == self.ents@[worker as int]@);
        let team = self.ents[worker].team;
        if self.team_min(team) < cost(kind) || !self.can_build(kind, has_cliffs, site) {
            return false;
        }
        self.spend(team, cost(kind));
        let on_it: bool = match self.ents[worker].order {
            Order::Build(_, _) => true,
            _ => false,
        };
        let busy: bool = on_it || self.ents[worker].build_queue.len() > 0;
        if busy {
            self.ents[worker].build_queue.push((kind, site.pt));
        } else {
            self.ents[worker].order = Order::Build(kind, site.pt);
        }
        proof {
            let e1 = if busy {
                EntV { build_queue: e0.build_queue.push((kind, site.pt)), ..e0 }
            } else {
                EntV { order: Order::Build(kind, site.pt), ..e0 }
            };
            assert(self.ents@[worker as int]@ =~= e1);
            assert(self@.ents =~= w0.ents.update(worker as int, e1));
        }
        true
    }

    /// Drops a worker's plans and pays them back.
    fn cancel_builds(&mut self, i: usize)
        requires
            old(self).wf(),
            i < old(self).ents@.len(),
            old(self)@.worth(old(self)@.ents[i as int].team) <= u32::MAX,
        ensures
            final(self).wf(),
            final(self).ents@.len() == old(self).ents@.len(),
            final(self)@ == old(self)@.plans_dropped(i as int),
    {
        let ghost w0 = self@;
        let ghost e0 = w0.ents[i as int];
        assert(e0 == self.ents@[i as int]@);
        let team = self.ents[i].team;
        proof {
            lemma_share(w0, team, i as int);
            lemma_costs_nonneg(e0.build_queue, e0.queue);
        }
        let mut refund: u32 = match self.ents[i].order {
            Order::Build(k, _) => cost(k),
            _ => 0,
        };
        let n: usize = self.ents[i].build_queue.len();
        let ghost q = e0.build_queue;
        assert(q.take(0) =~= Seq::<(Kind, V2)>::empty());
        for k in 0..n
            invariant
                n == q.len(),
                i < self.ents@.len(),
                q == self.ents@[i as int].build_queue@,
                refund == order_cost(e0.order) + sites_cost(q.take(k as int)),
                order_cost(e0.order) + sites_cost(q) <= u32::MAX,
        {
            proof {
                assert(q.take(k + 1).drop_last() =~= q.take(k as int));
                assert(q.take(k + 1).last() == q[k as int]);
                lemma_sites_part(q, k + 1);
            }
            refund = refund + cost(self.ents[i].build_queue[k].0);
        }
        assert(q.take(n as int) =~= q);
        self.ents[i].build_queue.clear();
        proof {
            let e1 = EntV { build_queue: Seq::empty(), ..e0 };
            assert(self.ents@[i as int]@ =~= e1);
            assert(self@.ents =~= w0.ents.update(i as int, e1));
        }
        if refund > 0 {
            self.gain(team, refund);
        }
        proof {
            assert(self@ =~= w0.plans_dropped(i as int));
        }
    }

    /// Cancels a building's last queued unit and pays it back.
    fn unqueue(&mut self, i: usize)
        requires
            old(self).wf(),
            i < old(self).ents@.len(),
            old(self)@.ents[i as int].queue.len() > 0,
            old(self)@.worth(old(self)@.ents[i as int].team) <= u32::MAX,
        ensures
            final(self).wf(),
            final(self).ents@.len() == old(self).ents@.len(),
            final(self)@ == old(self)@.unqueued(i as int),
    {
        let ghost w0 = self@;
        let ghost e0 = w0.ents[i as int];
        assert(e0 == self.ents@[i as int]@);
        let team = self.ents[i].team;
        proof {
            lemma_share(w0, team, i as int);
            lemma_costs_nonneg(e0.build_queue, e0.queue.drop_last());
        }
        let n: usize = self.ents[i].queue.len();
        let k = self.ents[i].queue[n - 1];
        self.ents[i].queue.truncate(n - 1);
        if n == 1 {
            self.ents[i].train_timer = Num { bits: 0 };
        }
        proof {
            let e1 = EntV {
                queue: e0.queue.drop_last(),
                train_timer: if e0.queue.len() == 1 {
                    Num { bits: 0 }
                } else {
                    e0.train_timer
                },
                ..e0
            };
            assert(self.ents@[i as int]@ =~= e1);
            assert(self@.ents =~= w0.ents.update(i as int, e1));
        }
        self.gain(team, cost(k));
    }
}

proof fn lemma_sites_part(q: Seq<(Kind, V2)>, k: int)
    requires
        0 <= k <= q.len(),
    ensures
        0 <= sites_cost(q.take(k)) <= sites_cost(q),
    decreases q.len() - k,
{
    lemma_costs_nonneg(q.take(k), Seq::empty());
    if k < q.len() {
        lemma_sites_part(q, k + 1);
        assert(q.take(k + 1).drop_last() =~= q.take(k));
    } else {
        assert(q.take(k) =~= q);
    }
}


// ---- stopping ---------------------------------------------------------------------------

impl WorldV {
    /// The match after one unit of a team was told to stop.
    pub open spec fn stopped_one(self, team: Team, id: u32) -> WorldV {
        match self.slot_of(id) {
            Some(i) => {
                let e = self.ents[i];
                if e.team == team && is_mover(e.kind) {
                    let w = if e.kind == Kind::Worker {
                        self.plans_dropped(i)
                    } else {
                        self
                    };
                    w.with(
                        i,
                        EntV {
                            order: Order::Idle,
                            goal: None,
                            order_queue: Seq::empty(),
                            ..w.ents[i]
                        },
                    )
                } else {
                    self
                }
            },
            None => self,
        }
    }

    /// The match after some units of a team were told to stop, one after the other.
    pub open spec fn stopped(self, team: Team, ids: Seq<u32>) -> WorldV
        decreases ids.len(),
    {
        if ids.len() == 0 {
            self
        } else {
            self.stopped(team, ids.drop_last()).stopped_one(team, ids.last())
        }
    }
}

/// Only workers have buildings to raise.
pub open spec fn only_workers_build(w: WorldV) -> bool {
    forall|i: int|
        0 <= i < w.ents.len() && (#[trigger] w.ents[i]).kind != Kind::Worker ==> !WorldV::building(
            w.ents[i],
        )
}

/// The banks of all factions are there.
pub open spec fn banked(w: WorldV) -> bool {
    w.minerals.len() == MAX_FACTIONS
}

/// Dropping a worker's plans and giving it another order moves their price to the bank, if
/// its team has one.
proof fn lemma_redirect(w: WorldV, i: int, e: EntV, t: Team)
    requires
        banked(w),
        0 <= i < w.ents.len(),
        w.worth(w.ents[i].team) <= u32::MAX,
        e.team == w.ents[i].team,
        e.queue == w.ents[i].queue,
        e.build_queue.len() == 0,
        !(e.order is Build),
    ensures
        w.plans_dropped(i).with(i, e).worth(t) <= w.worth(t),
        w.ents[i].team.idx() < MAX_FACTIONS ==> w.plans_dropped(i).with(i, e).worth(t) == w.worth(t),
        banked(w.plans_dropped(i).with(i, e)),
{
    let o = w.ents[i].team;
    let d = w.plans_dropped(i);
    lemma_share(w, o, i);
    lemma_costs_nonneg(w.ents[i].build_queue, w.ents[i].queue);
    lemma_costs_nonneg(e.build_queue, e.queue);
    lemma_worth_with(w, t, i, EntV { build_queue: Seq::empty(), ..w.ents[i] });
    lemma_worth_with(d, t, i, e);
    assert(d.ents[i] == EntV { build_queue: Seq::empty(), ..w.ents[i] });
}

/// Changing an entity's order without plans in it changes no team's worth; with plans in it
/// they are lost.
proof fn lemma_reorder(w: WorldV, i: int, e: EntV, t: Team)
    requires
        0 <= i < w.ents.len(),
        e.team == w.ents[i].team,
        e.queue == w.ents[i].queue,
        e.build_queue == w.ents[i].build_queue,
        !(e.order is Build) || e.order == w.ents[i].order,
    ensures
        w.with(i, e).worth(t) <= w.worth(t),
        !WorldV::building(w.ents[i]) ==> w.with(i, e).worth(t) == w.worth(t),
{
    lemma_worth_with(w, t, i, e);
}

pub proof fn lemma_stop_worth(w: WorldV, team: Team, id: u32, t: Team)
    requires
        banked(w),
        w.worth(team) <= u32::MAX,
    ensures
        banked(w.stopped_one(team, id)),
        w.stopped_one(team, id).ents.len() == w.ents.len(),
        w.stopped_one(team, id).worth(t) <= w.worth(t),
        only_workers_build(w) && team.idx() < MAX_FACTIONS ==> w.stopped_one(team, id).worth(t) == w.worth(t),
        only_workers_build(w) ==> only_workers_build(w.stopped_one(team, id)),
{
    lemma_first_slot(w.ents, |e: EntV| e.id == id);
    if w.slot_of(id) is Some {
        let i = w.slot(id);
        let e = w.ents[i];
        if e.team == team && is_mover(e.kind) {
            if e.kind == Kind::Worker {
                let d = w.plans_dropped(i);
                let e2 = EntV {
                    order: Order::Idle,
                    goal: None,
                    order_queue: Seq::empty(),
                    ..d.ents[i]
                };
                lemma_redirect(w, i, e2, t);
            } else {
                let e2 = EntV { order: Order::Idle, goal: None, order_queue: Seq::empty(), ..e };
                lemma_reorder(w, i, e2, t);
            }
        }
    }
}

impl World {
    /// Tells one unit to stop, if it is the team's.
    fn stop_one(&mut self, team: Team, id: u32)
        requires
            old(self).wf(),
            old(self)@.worth(team) <= u32::MAX,
        ensures
            final(self).wf(),
            final(self)@ == old(self)@.stopped_one(team, id),
    {
        let ghost w1 = self@;
        if let Some(i) = self.index_of(id) {
            assert(w1.ents[i as int] == self.ents@[i as int]@);
            if self.ents[i].team == team && is_mover(self.ents[i].kind) {
                if self.ents[i].kind == Kind::Worker {
                    self.cancel_builds(i);
                }
                let ghost w2 = self@;
                let ghost e2 = w2.ents[i as int];
                assert(e2 == self.ents@[i as int]@);
                self.ents[i].order = Order::Idle;
                self.ents[i].goal = None;
                self.ents[i].order_queue.clear();
                proof {
                    let e3 = EntV {
                        order: Order::Idle,
                        goal: None,
                        order_queue: Seq::empty(),
                        ..e2
                    };
                    assert(self.ents@[i as int]@ =~= e3);
                    assert(self@.ents =~= w2.ents.update(i as int, e3));
                }
            }
        }
    }

    /// Tells units of a team to stop: their orders are gone, and workers get their plans
    /// paid back.
    pub fn apply_stop(&mut self, team: Team, ids: &Vec<u32>)
        requires
            old(self).wf(),
            old(self)@.worth(team) <= u32::MAX,
        ensures
            final(self).wf(),
            final(self)@ == old(self)@.stopped(team, ids@),
    {
        let ghost w0 = self@;
        let n: usize = ids.len();
        assert(ids@.take(0) =~= Seq::<u32>::empty());
        for k in 0..n
            invariant
                n == ids@.len(),
                self.wf(),
                banked(self@),
                w0 == old(self)@,
                self@.worth(team) <= u32::MAX,
                self@ == w0.stopped(team, ids@.take(k as int)),
        {
            let ghost w1 = self@;
            let id: u32 = ids[k];
            proof {
                assert(ids@.take(k + 1).drop_last() =~= ids@.take(k as int));
                assert(ids@.take(k + 1).last() == id);
                lemma_stop_worth(w1, team, id, team);
            }
            self.stop_one(team, id);
        }
        assert(ids@.take(n as int) =~= ids@);
    }
}

// ---- ordering ---------------------------------------------------------------------------

/// What a right click is about.
#[verifier::ext_equal]
pub struct Click {
    pub team: Team,
    /// The entity under it.
    pub target: Option<usize>,
    /// The ground under it, off the cliffs.
    pub pt: V2,
    pub attack_move: bool,
    pub queue: bool,
    /// Where the first, second, ... of the units goes that walks to it.
    pub dests: Seq<V2>,
}

/// What a click says about the thing it landed on: whom to attack, what to mine, what to
/// repair.
#[verifier::ext_equal]
pub struct Aim {
    pub foe: Option<u32>,
    pub patch: Option<u32>,
    pub hurt: Option<u32>,
}

pub open spec fn aim_of(w: WorldV, c: Click) -> Aim {
    match c.target {
        Some(t) => {
            let e = w.ents[t as int];
            Aim {
                foe: if e.team != c.team && e.team != Team::Neutral {
                    Some(e.id)
                } else {
                    None
                },
                patch: if e.kind == Kind::Mineral {
                    Some(e.id)
                } else {
                    None
                },
                hurt: if e.team == c.team && is_building(e.kind) && e.hp.less(e.max_hp) {
                    Some(e.id)
                } else {
                    None
                },
            }
        },
        None => Aim { foe: None, patch: None, hurt: None },
    }
}

/// The order that a click gives to a unit, when `placed` others walk to it already, and
/// whether this one walks to it too.
pub open spec fn click_order(a: Aim, c: Click, k: Kind, placed: int) -> (Order, bool) {
    if a.foe is Some {
        (Order::Attack(a.foe->0), false)
    } else if a.patch is Some && k == Kind::Worker {
        (Order::Gather(a.patch->0), false)
    } else if a.hurt is Some && k == Kind::Worker {
        (Order::Repair(a.hurt->0), false)
    } else if c.attack_move {
        (Order::AttackMove(c.dests[placed]), true)
    } else {
        (Order::Move(c.dests[placed]), true)
    }
}

/// Whether a building trains units, so that a rally point means something to it.
pub open spec fn trains(k: Kind) -> bool {
    k == Kind::Base || k == Kind::Barracks || k == Kind::Factory
}

impl WorldV {
    /// The match after the entity in slot `i` was given what a click says, and how many
    /// units walk to it now.
    pub open spec fn ordered_one(self, a: Aim, c: Click, i: int, placed: int) -> (WorldV, int) {
        let e = self.ents[i];
        if is_building(e.kind) {
            if trains(e.kind) {
                let w = self.with(i, EntV { rally: c.pt, rally_set: true, ..e });
                (
                    if c.team == self.my_team {
                        w.pinged(
                            Ping {
                                pos: c.pt,
                                life: Num { bits: SIX_TENTHS_BITS },
                                color: rgb(120, 220, 140),
                            },
                        )
                    } else {
                        w
                    },
                    placed,
                )
            } else {
                (self, placed)
            }
        } else {
            let (o, walks) = click_order(a, c, e.kind, placed);
            let next = if walks {
                placed + 1
            } else {
                placed
            };
            if e.kind == Kind::Worker && Self::building(e) {
                let w = self.plans_dropped(i);
                (
                    w.with(i, EntV { order_queue: Seq::empty(), order: o, ..w.ents[i] }),
                    next,
                )
            } else if c.queue && e.order != Order::Idle {
                (self.with(i, EntV { order_queue: e.order_queue.push(o), ..e }), next)
            } else {
                (self.with(i, EntV { order_queue: Seq::empty(), order: o, ..e }), next)
            }
        }
    }

    /// The match after the entities in some slots were given what a click says, in order,
    /// and how many units walk to it.
    pub open spec fn ordered(self, a: Aim, c: Click, slots: Seq<usize>) -> (WorldV, int)
        decreases slots.len(),
    {
        if slots.len() == 0 {
            (self, 0)
        } else {
            let (w, placed) = self.ordered(a, c, slots.drop_last());
            w.ordered_one(a, c, slots.last() as int, placed)
        }
    }

    /// Slots of a team's entities with the given ids, in the order of the ids.
    pub open spec fn chosen(self, team: Team, ids: Seq<u32>) -> Seq<usize>
        decreases ids.len(),
    {
        if ids.len() == 0 {
            Seq::empty()
        } else {
            let front = self.chosen(team, ids.drop_last());
            match self.slot_of(ids.last()) {
                Some(i) => if self.ents[i].team == team {
                    front.push(i as usize)
                } else {
                    front
                },
                None => front,
            }
        }
    }

    /// Whether a click cancels a queued unit: it landed on a building of the team that is
    /// itself among those ordered about and has something queued.
    pub open spec fn cancels(self, c: Click, ids: Seq<u32>) -> bool {
        match c.target {
            Some(t) => {
                let e = self.ents[t as int];
                e.team == c.team && ids.contains(e.id) && is_building(e.kind) && e.queue.len() > 0
            },
            None => false,
        }
    }

    /// The match after a click cancelled a queued unit.
    pub open spec fn click_cancelled(self, c: Click) -> WorldV {
        let t = c.target->0 as int;
        let w = self.unqueued(t);
        if c.team == self.my_team {
            w.pinged(
                Ping {
                    pos: self.ents[t].pos,
                    life: Num { bits: HALF_BITS },
                    color: rgb(240, 120, 90),
                },
            ).heard(Sfx::Select, None).told("CANCELLED"@)
        } else {
            w
        }
    }

    pub open spec fn any_walker(self, slots: Seq<usize>) -> bool {
        exists|k: int| 0 <= k < slots.len() && is_mover(self.ents[#[trigger] slots[k] as int].kind)
    }

    pub open spec fn any_worker(self, slots: Seq<usize>) -> bool {
        exists|k: int|
            0 <= k < slots.len() && self.ents[#[trigger] slots[k] as int].kind == Kind::Worker
    }

    /// The mark that a click leaves on the map.
    pub open spec fn click_ping(self, a: Aim, c: Click, slots: Seq<usize>) -> Ping {
        let life = Num { bits: HALF_BITS };
        if a.foe is Some {
            Ping { pos: self.ents[c.target->0 as int].pos, life, color: rgb(240, 90, 80) }
        } else if a.patch is Some {
            Ping { pos: self.ents[c.target->0 as int].pos, life, color: rgb(90, 210, 220) }
        } else if a.hurt is Some && self.any_worker(slots) {
            Ping { pos: self.ents[c.target->0 as int].pos, life, color: rgb(120, 230, 200) }
        } else if c.attack_move {
            Ping { pos: c.pt, life, color: rgb(255, 200, 90) }
        } else {
            Ping { pos: c.pt, life, color: rgb(120, 230, 140) }
        }
    }

    /// The match after a click with some units chosen.
    pub open spec fn clicked(self, c: Click, ids: Seq<u32>) -> WorldV {
        if self.cancels(c, ids) {
            self.click_cancelled(c)
        } else {
            let a = aim_of(self, c);
            let slots = self.chosen(c.team, ids);
            let w = if c.team == self.my_team && self.any_walker(slots) {
                self.pinged(self.click_ping(a, c, slots))
            } else {
                self
            };
            w.ordered(a, c, slots).0
        }
    }
}

pub proof fn lemma_ordered_one(w: WorldV, a: Aim, c: Click, i: int, placed: int, t: Team)
    requires
        banked(w),
        0 <= i < w.ents.len(),
        w.ents[i].team == c.team,
        w.worth(c.team) <= u32::MAX,
    ensures
        ({
            let v = w.ordered_one(a, c, i, placed).0;
            &&& banked(v)
            &&& v.ents.len() == w.ents.len()
            &&& v.my_team == w.my_team
            &&& v.ents[i].team == w.ents[i].team
            &&& forall|j: int| 0 <= j < w.ents.len() && j != i ==> v.ents[j] == w.ents[j]
            &&& v.worth(t) <= w.worth(t)
            &&& c.team.idx() < MAX_FACTIONS && (w.ents[i].kind == Kind::Worker || !WorldV::building(w.ents[i]))
                ==> v.worth(t) == w.worth(t)
        }),
        placed <= w.ordered_one(a, c, i, placed).1 <= placed + 1,
{
    let e = w.ents[i];
    if is_building(e.kind) {
        if trains(e.kind) {
            let e2 = EntV { rally: c.pt, rally_set: true, ..e };
            lemma_worth_with(w, t, i, e2);
        }
    } else {
        let (o, walks) = click_order(a, c, e.kind, placed);
        if e.kind == Kind::Worker && WorldV::building(e) {
            let d = w.plans_dropped(i);
            let e2 = EntV { order_queue: Seq::empty(), order: o, ..d.ents[i] };
            lemma_redirect(w, i, e2, t);
        } else if c.queue && e.order != Order::Idle {
            lemma_worth_with(w, t, i, EntV { order_queue: e.order_queue.push(o), ..e });
        } else {
            lemma_reorder(w, i, EntV { order_queue: Seq::empty(), order: o, ..e }, t);
        }
    }
}

pub proof fn lemma_chosen(w: WorldV, team: Team, ids: Seq<u32>)
    ensures
        w.chosen(team, ids).len() <= ids.len(),
        forall|k: int|
            0 <= k < w.chosen(team, ids).len() ==> 0 <= (#[trigger] w.chosen(team, ids)[k]) < w.ents.len()
                && (w.ents.len() <= usize::MAX ==> w.ents[w.chosen(team, ids)[k] as int].team == team),
    decreases ids.len(),
{
    if ids.len() > 0 {
        lemma_chosen(w, team, ids.drop_last());
        let id = ids.last();
        lemma_first_slot(w.ents, |e: EntV| e.id == id);
    }
}

impl World {
    /// Gives an entity an order, and drops those that were to follow.
    fn set_order(&mut self, i: usize, order: Order)
        requires
            old(self).wf(),
            i < old(self)@.ents.len(),
        ensures
            final(self).wf(),
            final(self)@ == old(self)@.with(
                i as int,
                EntV { order_queue: Seq::empty(), order, ..old(self)@.ents[i as int] },
            ),
    {
        let ghost v = self@;
        let ghost e = v.ents[i as int];
        assert(e == self.ents@[i as int]@);
        self.ents[i].order_queue.clear();
        self.ents[i].order = order;
        proof {
            let e2 = EntV { order_queue: Seq::empty(), order, ..e };
            assert(self.ents@[i as int]@ =~= e2);
            assert(self@.ents =~= v.ents.update(i as int, e2));
        }
    }

    /// Gives an entity an order for later.
    fn push_order(&mut self, i: usize, order: Order)
        requires
            old(self).wf(),
            i < old(self)@.ents.len(),
        ensures
            final(self).wf(),
            final(self)@ == old(self)@.with(
                i as int,
                EntV {
                    order_queue: old(self)@.ents[i as int].order_queue.push(order),
                    ..old(self)@.ents[i as int]
                },
            ),
    {
        let ghost v = self@;
        let ghost e = v.ents[i as int];
        assert(e == self.ents@[i as int]@);
        self.ents[i].order_queue.push(order);
        proof {
            let e2 = EntV { order_queue: e.order_queue.push(order), ..e };
            assert(self.ents@[i as int]@ =~= e2);
            assert(self@.ents =~= v.ents.update(i as int, e2));
        }
    }

    /// Places a building's rally point.
    fn set_rally(&mut self, i: usize, pt: V2)
        requires
            old(self).wf(),
            i < old(self)@.ents.len(),
        ensures
            final(self).wf(),
            final(self)@ == old(self)@.with(
                i as int,
                EntV { rally: pt, rally_set: true, ..old(self)@.ents[i as int] },
            ),
    {
        let ghost v = self@;
        let ghost e = v.ents[i as int];
        assert(e == self.ents@[i as int]@);
        self.ents[i].rally = pt;
        self.ents[i].rally_set = true;
        proof {
            let e2 = EntV { rally: pt, rally_set: true, ..e };
            assert(self.ents@[i as int]@ =~= e2);
            assert(self@.ents =~= v.ents.update(i as int, e2));
        }
    }

    /// Leaves a mark on the map.
    fn ping(&mut self, pos: V2, life_bits: u32, color: u32)
        requires
            old(self).wf(),
        ensures
            final(self).wf(),
            final(self)@ == old(self)@.pinged((Ping { pos, life: Num { bits: life_bits }, color })),
    {
        self.pings.push(Ping { pos, life: Num { bits: life_bits }, color });
        assert(self@.ents =~= old(self)@.ents);
    }
}

impl World {
    fn chosen_slots(&self, team: Team, ids: &Vec<u32>) -> (r: Vec<usize>)
        ensures
            r@ == self@.chosen(team, ids@),
    {
        let ghost w = self@;
        let mut out: Vec<usize> = Vec::new();
        let n: usize = ids.len();
        assert(ids@.take(0) =~= Seq::<u32>::empty());
        for k in 0..n
            invariant
                n == ids@.len(),
                w == self@,
                out@ == w.chosen(team, ids@.take(k as int)),
        {
            proof {
                assert(ids@.take(k + 1).drop_last() =~= ids@.take(k as int));
                assert(ids@.take(k + 1).last() == ids@[k as int]);
            }
            if let Some(i) = self.index_of(ids[k]) {
                assert(w.ents[i as int] == self.ents@[i as int]@);
                if self.ents[i].team == team {
                    out.push(i);
                }
            }
        }
        assert(ids@.take(n as int) =~= ids@);
        out
    }

    /// How many units a formation has room for: the walkers among those chosen, at least one.
    pub fn formation_size(&self, team: Team, ids: &Vec<u32>) -> (r: usize)
        requires
            ids@.len() < usize::MAX,
        ensures
            r == (if self@.walkers(team, ids@) < 1 {
                1
            } else {
                self@.walkers(team, ids@)
            }),
    {
        let ghost w = self@;
        let slots = self.chosen_slots(team, ids);
        proof {
            lemma_chosen(w, team, ids@);
        }
        let n: usize = slots.len();
        let mut count: usize = 0;
        assert(slots@.take(0) =~= Seq::<usize>::empty());
        for k in 0..n
            invariant
                n == slots@.len(),
                w == self@,
                forall|j: int| 0 <= j < n ==> 0 <= #[trigger] slots@[j] < w.ents.len(),
                count == count_walkers(w, slots@.take(k as int)),
                count <= k,
        {
            proof {
                assert(slots@.take(k + 1).drop_last() =~= slots@.take(k as int));
                assert(slots@.take(k + 1).last() == slots@[k as int]);
                assert(0 <= slots@[k as int] < w.ents.len());
                assert(w.ents[slots@[k as int] as int] == self.ents@[slots@[k as int] as int]@);
            }
            if is_mover(self.ents[slots[k]].kind) {
                count = count + 1;
            }
        }
        assert(slots@.take(n as int) =~= slots@);
        if count < 1 {
            1
        } else {
            count
        }
    }

    /// The local player's right click: an order to everything of theirs that is selected.
    pub fn command(&mut self, d: &Vec<Num>, pt: V2, attack_move: bool, dests: &Vec<V2>)
        requires
            old(self).wf(),
            d@.len() == old(self).ents@.len(),
            old(self)@.worth(old(self).my_team) <= u32::MAX,
            dests@.len() >= ids_of(old(self)@.ents, old(self).my_team).len(),
        ensures
            final(self).wf(),
            exists|target: Option<usize>| #[trigger]
                first_touched(old(self)@.ents, d@, 3, crate::query::anything(), target) && final(self)@ == old(
                    self,
                )@.clicked(
                    (Click {
                        team: old(self).my_team,
                        target,
                        pt,
                        attack_move,
                        queue: false,
                        dests: dests@,
                    }),
                    ids_of(old(self)@.ents, old(self).my_team),
                ),
    {
        let ids = self.selected_ids();
        let team: Team = self.my_team;
        self.apply_order(team, &ids, d, pt, attack_move, false, dests);
    }

    /// A right click with some units chosen: on an own producing building among them it
    /// cancels a queued unit; otherwise buildings rally to it, and units attack, mine or
    /// repair what it landed on, or walk there in formation. `d` are the squared distances
    /// from the click.
    pub fn apply_order(
        &mut self,
        team: Team,
        ids: &Vec<u32>,
        d: &Vec<Num>,
        pt: V2,
        attack_move: bool,
        queue: bool,
        dests: &Vec<V2>,
    )
        requires
            old(self).wf(),
            d@.len() == old(self).ents@.len(),
            old(self)@.worth(team) <= u32::MAX,
            dests@.len() >= ids@.len(),
        ensures
            final(self).wf(),
            exists|target: Option<usize>| #[trigger]
                first_touched(old(self)@.ents, d@, 3, crate::query::anything(), target) && final(self)@ == old(
                    self,
                )@.clicked(
                    (Click { team, target, pt, attack_move, queue, dests: dests@ }),
                    ids@,
                ),
    {
        let ghost w0 = self@;
        let target = self.pick(d);
        let ghost c = Click { team, target, pt, attack_move, queue, dests: dests@ };
        let ghost a = aim_of(w0, c);
        let mine: bool = team == self.my_team;
        let mut foe: Option<u32> = None;
        let mut patch: Option<u32> = None;
        let mut hurt: Option<u32> = None;
        let mut spot: V2 = pt;
        if let Some(t) = target {
            assert(w0.ents[t as int] == self.ents@[t as int]@);
            let e = &self.ents[t];
            if e.team == team && is_building(e.kind) && e.queue.len() > 0 && holds(ids, e.id) {
                let p = e.pos;
                self.unqueue(t);
                if mine {
                    self.ping(p, HALF_BITS, rgb(240, 120, 90));
                    self.push_sound(Sfx::Select, None);
                    self.msg("CANCELLED");
                }
                return;
            }
            spot = e.pos;
            if e.team != team && e.team != Team::Neutral {
                foe = Some(e.id);
            }
            if e.kind == Kind::Mineral {
                patch = Some(e.id);
            }
            if e.team == team && is_building(e.kind) && e.hp.less(e.max_hp) {
                hurt = Some(e.id);
            }
        }
        assert(a =~= Aim { foe, patch, hurt });
        let slots = self.chosen_slots(team, ids);
        proof {
            lemma_chosen(w0, team, ids@);
        }
        let (any_walker, any_worker) = self.any_of(&slots);
        if mine && any_walker {
            let (pos, color) = if foe.is_some() {
                (spot, rgb(240, 90, 80))
            } else if patch.is_some() {
                (spot, rgb(90, 210, 220))
            } else if hurt.is_some() && any_worker {
                (spot, rgb(120, 230, 200))
            } else if attack_move {
                (pt, rgb(255, 200, 90))
            } else {
                (pt, rgb(120, 230, 140))
            };
            self.ping(pos, HALF_BITS, color);
        }
        self.order_slots(&slots, team, foe, patch, hurt, pt, attack_move, queue, dests, Ghost(c));
    }

    /// Gives the entities in some slots what a click says, in order.
    fn order_slots(
        &mut self,
        slots: &Vec<usize>,
        team: Team,
        foe: Option<u32>,
        patch: Option<u32>,
        hurt: Option<u32>,
        pt: V2,
        attack_move: bool,
        queue: bool,
        dests: &Vec<V2>,
        c: Ghost<Click>,
    )
        requires
            old(self).wf(),
            c@.team == team,
            c@.pt == pt,
            c@.attack_move == attack_move,
            c@.queue == queue,
            c@.dests == dests@,
            old(self)@.worth(team) <= u32::MAX,
            slots@.len() <= dests@.len(),
            forall|j: int|
                0 <= j < slots@.len() ==> 0 <= #[trigger] slots@[j] < old(self)@.ents.len() && old(
                    self,
                )@.ents[slots@[j] as int].team == team,
        ensures
            final(self).wf(),
            final(self)@ == old(self)@.ordered((Aim { foe, patch, hurt }), c@, slots@).0,
    {
        let ghost a = Aim { foe, patch, hurt };
        let ghost w1 = self@;
        let n: usize = slots.len();
        let mut placed: usize = 0;
        assert(slots@.take(0) =~= Seq::<usize>::empty());
        for k in 0..n
            invariant
                n == slots@.len(),
                n <= dests@.len(),
                self.wf(),
                banked(self@),
                w1 == old(self)@,
                a == (Aim { foe, patch, hurt }),
                c@.team == team,
                c@.pt == pt,
                c@.attack_move == attack_move,
                c@.queue == queue,
                c@.dests == dests@,
                self@.ents.len() == w1.ents.len(),
                forall|j: int| 0 <= j < w1.ents.len() ==> (#[trigger] self@.ents[j]).team == w1.ents[j].team,
                forall|j: int|
                    0 <= j < n ==> 0 <= #[trigger] slots@[j] < w1.ents.len() && w1.ents[slots@[j] as int].team
                        == team,
                self@.worth(team) <= u32::MAX,
                placed <= k,
                (self@, placed as int) == w1.ordered(a, c@, slots@.take(k as int)),
        {
            let i: usize = slots[k];
            proof {
                assert(slots@.take(k + 1).drop_last() =~= slots@.take(k as int));
                assert(slots@.take(k + 1).last() == i);
                assert(0 <= slots@[k as int] < w1.ents.len());
                assert(self@.ents[i as int].team == team);
                lemma_ordered_one(self@, a, c@, i as int, placed as int, team);
            }
            placed = self.order_slot(
                i,
                team,
                foe,
                patch,
                hurt,
                pt,
                attack_move,
                queue,
                dests,
                placed,
                c,
            );
        }
        proof {
            assert(slots@.take(n as int) =~= slots@);
        }
    }

    /// Gives the entity in slot `i` what a click says; returns how many units walk to it now.
    fn order_slot(
        &mut self,
        i: usize,
        team: Team,
        foe: Option<u32>,
        patch: Option<u32>,
        hurt: Option<u32>,
        pt: V2,
        attack_move: bool,
        queue: bool,
        dests: &Vec<V2>,
        placed: usize,
        c: Ghost<Click>,
    ) -> (next: usize)
        requires
            old(self).wf(),
            i < old(self)@.ents.len(),
            old(self)@.ents[i as int].team == team,
            c@.team == team,
            c@.pt == pt,
            c@.attack_move == attack_move,
            c@.queue == queue,
            c@.dests == dests@,
            old(self)@.worth(team) <= u32::MAX,
            placed < dests@.len(),
        ensures
            final(self).wf(),
            (final(self)@, next as int) == old(self)@.ordered_one(
                (Aim { foe, patch, hurt }),
                c@,
                i as int,
                placed as int,
            ),
    {
        let ghost v = self@;
        let ghost e = v.ents[i as int];
        assert(e == self.ents@[i as int]@);
        let kind = self.ents[i].kind;
        if is_building(kind) {
            if kind == Kind::Base || kind == Kind::Barracks || kind == Kind::Factory {
                self.set_rally(i, pt);
                if team == self.my_team {
                    self.ping(pt, SIX_TENTHS_BITS, rgb(120, 220, 140));
                }
            }
            return placed;
        }
        let is_worker: bool = kind == Kind::Worker;
        let room: usize = dests.len();
        assert(placed < room);
        let mut next: usize = placed;
        let order: Order = if let Some(id) = foe {
            Order::Attack(id)
        } else if is_worker && patch.is_some() {
            Order::Gather(patch.unwrap())
        } else if is_worker && hurt.is_some() {
            Order::Repair(hurt.unwrap())
        } else {
            let dst = dests[placed];
            next = placed + 1;
            if attack_move {
                Order::AttackMove(dst)
            } else {
                Order::Move(dst)
            }
        };
        let on_it: bool = match self.ents[i].order {
            Order::Build(_, _) => true,
            _ => false,
        };
        let idle: bool = match self.ents[i].order {
            Order::Idle => true,
            _ => false,
        };
        if is_worker && (on_it || self.ents[i].build_queue.len() > 0) {
            self.cancel_builds(i);
            self.set_order(i, order);
        } else if queue && !idle {
            self.push_order(i, order);
        } else {
            self.set_order(i, order);
        }
        next
    }

    /// Whether a walker, and whether a worker, is in one of the slots.
    fn any_of(&self, slots: &Vec<usize>) -> (r: (bool, bool))
        requires
            forall|j: int| 0 <= j < slots@.len() ==> 0 <= #[trigger] slots@[j] < self@.ents.len(),
        ensures
            r.0 == self@.any_walker(slots@),
            r.1 == self@.any_worker(slots@),
    {
        let ghost w0 = self@;
        let n: usize = slots.len();
        let mut any_walker: bool = false;
        let mut any_worker: bool = false;
        for k in 0..n
            invariant
                n == slots@.len(),
                w0 == self@,
                forall|j: int| 0 <= j < n ==> 0 <= #[trigger] slots@[j] < w0.ents.len(),
                any_walker == exists|j: int|
                    0 <= j < k && is_mover(w0.ents[#[trigger] slots@[j] as int].kind),
                any_worker == exists|j: int|
                    0 <= j < k && w0.ents[#[trigger] slots@[j] as int].kind == Kind::Worker,
        {
            assert(0 <= slots@[k as int] < w0.ents.len());
            assert(w0.ents[slots@[k as int] as int] == self.ents@[slots@[k as int] as int]@);
            let kind = self.ents[slots[k]].kind;
            if is_mover(kind) {
                any_walker = true;
            }
            if kind == Kind::Worker {
                any_worker = true;
            }
        }
        (any_walker, any_worker)
    }
}

fn holds(ids: &Vec<u32>, id: u32) -> (r: bool)
    ensures
        r == ids@.contains(id),
{
    let mut i: usize = 0;
    while i < ids.len()
        invariant
            i <= ids@.len(),
            forall|j: int| 0 <= j < i ==> ids@[j] != id,
        decreases ids@.len() - i,
    {
        if ids[i] == id {
            return true;
        }
        i = i + 1;
    }
    false
}

/// How many of the entities in some slots walk.
pub open spec fn count_walkers(w: WorldV, slots: Seq<usize>) -> int
    decreases slots.len(),
{
    if slots.len() == 0 {
        0
    } else {
        count_walkers(w, slots.drop_last()) + if is_mover(w.ents[slots.last() as int].kind) {
            1int
        } else {
            0int
        }
    }
}

impl WorldV {
    /// How many walkers of a team are among the ids.
    pub open spec fn walkers(self, team: Team, ids: Seq<u32>) -> int {
        count_walkers(self, self.chosen(team, ids))
    }
}

/// Columns of a formation: the least number whose square holds everyone.
pub fn formation_cols(count: u32) -> (cols: i32)
    requires
        1 <= count <= 0x80_0000,
    ensures
        1 <= cols <= 4096,
        cols * cols >= count,
        (cols - 1) * (cols - 1) < count,
{
    let mut c: i32 = 1;
    assert(0 * 0 == 0 && 1 * 1 == 1);
    while c < 4096 && c * c < count as i32
        invariant
            1 <= c <= 4096,
            c * c <= 16_777_216,
            1 <= count <= 0x80_0000,
            (c - 1) * (c - 1) < count,
        decreases 4096 - c,
    {
        assert((c + 1) * (c + 1) <= 16_777_216 && (c + 1 - 1) * (c + 1 - 1) == c * c) by (nonlinear_arith)
            requires
                1 <= c < 4096,
        ;
        c = c + 1;
    }
    assert(4096 * 4096 == 16_777_216);
    c
}

/// Place of the `k`-th unit in a formation, in steps from its middle: row by row.
pub fn formation_place(k: i32, cols: i32) -> (r: (i32, i32))
    requires
        0 <= k,
        1 <= cols <= 4096,
    ensures
        r.0 == k % cols - cols / 2,
        r.1 == k / cols - cols / 2,
{
    (k % cols - cols / 2, k / cols - cols / 2)
}


// ---- commands ---------------------------------------------------------------------------

/// What a command needs to know of the map: for an order the squared distances from its
/// point, that point off the cliffs, and the places of a formation; for a building its site.
pub struct Ground {
    pub d: Vec<Num>,
    pub pt: V2,
    pub dests: Vec<V2>,
    pub has_cliffs: bool,
    pub site: Site,
}

impl Ground {
    pub open spec fn fits(&self, w: WorldV, c: CmdV) -> bool {
        match c {
            CmdV::Order { ids, .. } => self.d@.len() == w.ents.len() && self.dests@.len() >= ids.len(),
            CmdV::Build { x, y, .. } => self.site.fits(w.ents) && self.site.pt == (V2 { x, y }),
            _ => true,
        }
    }
}

impl WorldV {
    /// Slot of a team's building with an id.
    pub open spec fn own_building(self, team: Team, id: u32) -> Option<int> {
        match self.slot_of(id) {
            Some(i) => if self.ents[i].team == team && is_building(self.ents[i].kind) {
                Some(i)
            } else {
                None
            },
            None => None,
        }
    }

    /// Slot of a team's worker with an id.
    pub open spec fn own_worker(self, team: Team, id: u32) -> Option<int> {
        match self.slot_of(id) {
            Some(i) => if self.ents[i].team == team && self.ents[i].kind == Kind::Worker {
                Some(i)
            } else {
                None
            },
            None => None,
        }
    }

    /// Whether `after` is the match after a team's command. Commands about what the team
    /// does not own, or what is not there, do nothing; a surrender is the players' affair.
    pub open spec fn obeyed(self, team: Team, c: CmdV, g: Ground, after: WorldV) -> bool {
        match c {
            CmdV::Order { ids, attack_move, queue, .. } => exists|target: Option<usize>| #[trigger]
                first_touched(self.ents, g.d@, 3, crate::query::anything(), target) && after == self.clicked(
                    (Click { team, target, pt: g.pt, attack_move, queue, dests: g.dests@ }),
                    ids,
                ),
            CmdV::Stop { ids } => after == self.stopped(team, ids),
            CmdV::Train { building, unit } => match self.own_building(team, building) {
                Some(i) => after == self.trained(i, unit).0,
                None => after == self,
            },
            CmdV::Build { worker, kind, x, y, .. } => match self.own_worker(team, worker) {
                Some(i) => after == self.build_chained(
                    i,
                    kind,
                    V2 { x, y },
                    g.site.clear_for(self.ents, g.has_cliffs, kind),
                ).0,
                None => after == self,
            },
            CmdV::Rally { building, x, y } => match self.own_building(team, building) {
                Some(i) => after == self.with(
                    i,
                    EntV { rally: V2 { x, y }, rally_set: true, ..self.ents[i] },
                ),
                None => after == self,
            },
            CmdV::Cancel { building } => match self.own_building(team, building) {
                Some(i) => after == (if self.ents[i].queue.len() > 0 {
                    self.unqueued(i)
                } else {
                    self
                }),
                None => after == self,
            },
            CmdV::Surrender => after == self,
        }
    }
}

impl World {
    fn own_building_at(&self, team: Team, id: u32) -> (r: Option<usize>)
        ensures
            match r {
                Some(i) => i < self.ents@.len() && self@.own_building(team, id) == Some(i as int),
                None => self@.own_building(team, id) is None,
            },
    {
        match self.index_of(id) {
            Some(i) => {
                assert(self@.ents[i as int] == self.ents@[i as int]@);
                if self.ents[i].team == team && is_building(self.ents[i].kind) {
                    Some(i)
                } else {
                    None
                }
            },
            None => None,
        }
    }

    fn own_worker_at(&self, team: Team, id: u32) -> (r: Option<usize>)
        ensures
            match r {
                Some(i) => i < self.ents@.len() && self@.own_worker(team, id) == Some(i as int),
                None => self@.own_worker(team, id) is None,
            },
    {
        match self.index_of(id) {
            Some(i) => {
                assert(self@.ents[i as int] == self.ents@[i as int]@);
                if self.ents[i].team == team && self.ents[i].kind == Kind::Worker {
                    Some(i)
                } else {
                    None
                }
            },
            None => None,
        }
    }

    /// Applies a team's command: the one way by which players act on a match.
    pub fn apply_cmd(&mut self, team: Team, cmd: &Cmd, g: &Ground)
        requires
            old(self).wf(),
            old(self)@.worth(team) <= u32::MAX,
            g.fits(old(self)@, cmd@),
        ensures
            final(self).wf(),
            old(self)@.obeyed(team, cmd@, *g, final(self)@),
    {
        let ghost w0 = self@;
        match cmd {
            Cmd::Order { ids, x, y, attack_move, queue } => {
                self.apply_order(team, ids, &g.d, g.pt, *attack_move, *queue, &g.dests);
            },
            Cmd::Stop { ids } => {
                self.apply_stop(team, ids);
            },
            Cmd::Train { building, unit } => {
                if let Some(i) = self.own_building_at(team, *building) {
                    assert(w0.ents[i as int].team == team);
                    let ok = self.try_train(i, *unit);
                }
            },
            Cmd::Build { worker, kind, x, y, chain } => {
                if let Some(i) = self.own_worker_at(team, *worker) {
                    let ok = self.queue_build(i, *kind, g.has_cliffs, &g.site);
                }
            },
            Cmd::Rally { building, x, y } => {
                if let Some(i) = self.own_building_at(team, *building) {
                    self.set_rally(i, V2 { x: *x, y: *y });
                }
            },
            Cmd::Cancel { building } => {
                if let Some(i) = self.own_building_at(team, *building) {
                    assert(w0.ents[i as int] == self.ents@[i as int]@);
                    if self.ents[i].queue.len() > 0 {
                        self.unqueue(i);
                    }
                }
            },
            Cmd::Surrender => {},
        }
    }
}

// ---- what a bank can hold ---------------------------------------------------------------

proof fn lemma_units_part(q: Seq<Kind>, k: int)
    requires
        0 <= k <= q.len(),
    ensures
        0 <= units_cost(q.take(k)) <= units_cost(q),
    decreases q.len() - k,
{
    if k < q.len() {
        lemma_units_part(q, k + 1);
        assert(q.take(k + 1).drop_last() =~= q.take(k));
        lemma_costs_nonneg(Seq::empty(), q.take(k));
    } else {
        assert(q.take(k) =~= q);
        lemma_costs_nonneg(Seq::empty(), q);
    }
}

proof fn lemma_units_supply(q: Seq<Kind>)
    ensures
        20 * queue_supply(q) <= units_cost(q),
    decreases q.len(),
{
    if q.len() > 0 {
        lemma_units_supply(q.drop_last());
        let k = q.last();
        assert(20 * supply_cost(k) <= cost(k));
    }
}

proof fn lemma_unborn_committed(ents: Seq<EntV>, t: Team)
    ensures
        20 * total(ents, unborn(t)) <= total(ents, committed(t)),
    decreases ents.len(),
{
    if ents.len() > 0 {
        lemma_unborn_committed(ents.drop_last(), t);
        let e = ents.last();
        lemma_units_supply(e.queue);
        lemma_costs_nonneg(e.build_queue, e.queue);
        assert(20 * unborn(t)(e) <= committed(t)(e));
    }
}

/// Population in training has been paid for: every head of it has put at least twenty
/// minerals into what the team owns.
pub proof fn training_is_prepaid(w: WorldV, t: Team)
    ensures
        20 * w.queued(t) <= w.worth(t),
{
    lemma_unborn_committed(w.ents, t);
}

impl World {
    /// Whether a team's bank could take back all that the team has paid for.
    pub fn solvent(&self, team: Team) -> (r: bool)
        requires
            self.wf(),
        ensures
            r == (self@.worth(team) <= u32::MAX),
    {
        let most: u64 = u32::MAX as u64;
        let mut sum: u64 = self.team_min(team) as u64;
        let n: usize = self.ents.len();
        let ghost ents = self@.ents;
        let ghost f = committed(team);
        proof {
            lemma_committed_nonneg(team);
            assert(ents.take(0) =~= Seq::<EntV>::empty());
        }
        for i in 0..n
            invariant
                n == self.ents@.len(),
                n == ents.len(),
                ents == self@.ents,
                f == committed(team),
                most == u32::MAX,
                forall|e: EntV| #[trigger] f(e) >= 0,
                sum == self@.bank(team) + total(ents.take(i as int), f),
                sum <= most,
        {
            let ghost e = ents[i as int];
            proof {
                assert(e == self.ents@[i as int]@);
                assert(ents.take(i + 1).drop_last() =~= ents.take(i as int));
                assert(ents.take(i + 1).last() == e);
                lemma_total_part(ents, f, i + 1);
                lemma_costs_nonneg(e.build_queue, e.queue);
            }
            if self.ents[i].team == team {
                match self.holdings(i, most - sum) {
                    Some(part) => {
                        sum = sum + part;
                    },
                    None => {
                        return false;
                    },
                }
            }
        }
        assert(ents.take(n as int) =~= ents);
        true
    }

    /// What has been put into an entity's plans and queue, if it is at most `most`.
    fn holdings(&self, i: usize, most: u64) -> (r: Option<u64>)
        requires
            i < self.ents@.len(),
            most <= u32::MAX,
        ensures
            ({
                let e = self.ents@[i as int]@;
                let c = plan_cost(e) + units_cost(e.queue);
                r == (if c <= most { Some(c as u64) } else { None })
            }),
    {
        let e = &self.ents[i];
        let ghost v = e@;
        let mut sum: u64 = match e.order {
            Order::Build(k, _) => cost(k) as u64,
            _ => 0,
        };
        let m: usize = e.build_queue.len();
        let ghost q = v.build_queue;
        let ghost u = v.queue;
        proof {
            lemma_costs_nonneg(q, u);
            assert(q.take(0) =~= Seq::<(Kind, V2)>::empty());
            assert(u.take(0) =~= Seq::<Kind>::empty());
        }
        if sum > most {
            return None;
        }
        for k in 0..m
            invariant
                m == q.len(),
                q == e.build_queue@,
                u == e.queue@,
                v == e@,
                q == v.build_queue,
                u == v.queue,
                e@ == self.ents@[i as int]@,
                most <= u32::MAX,
                sum <= most,
                sum == order_cost(v.order) + sites_cost(q.take(k as int)),
        {
            proof {
                assert(q.take(k + 1).drop_last() =~= q.take(k as int));
                assert(q.take(k + 1).last() == q[k as int]);
                lemma_sites_part(q, k + 1);
                lemma_costs_nonneg(q, u);
            }
            sum = sum + cost(e.build_queue[k].0) as u64;
            if sum > most {
                return None;
            }
        }
        assert(q.take(m as int) =~= q);
        let j: usize = e.queue.len();
        for k in 0..j
            invariant
                j == u.len(),
                u == e.queue@,
                v == e@,
                q == v.build_queue,
                u == v.queue,
                e@ == self.ents@[i as int]@,
                most <= u32::MAX,
                sum <= most,
                sum == plan_cost(v) + units_cost(u.take(k as int)),
        {
            proof {
                assert(u.take(k + 1).drop_last() =~= u.take(k as int));
                assert(u.take(k + 1).last() == u[k as int]);
                lemma_units_part(u, k + 1);
            }
            sum = sum + cost(e.queue[k]) as u64;
            if sum > most {
                return None;
            }
        }
        assert(u.take(j as int) =~= u);
        Some(sum)
    }
}

// ---- no mineral is lost -----------------------------------------------------------------

proof fn lemma_ordered_worth(w: WorldV, a: Aim, c: Click, slots: Seq<usize>, t: Team)
    requires
        banked(w),
        c.team.idx() < MAX_FACTIONS,
        w.worth(c.team) <= u32::MAX,
        only_workers_build(w),
        forall|j: int|
            0 <= j < slots.len() ==> 0 <= #[trigger] slots[j] < w.ents.len() && w.ents[slots[j] as int].team
                == c.team,
    ensures
        ({
            let v = w.ordered(a, c, slots).0;
            &&& banked(v)
            &&& v.ents.len() == w.ents.len()
            &&& only_workers_build(v)
            &&& v.worth(t) == w.worth(t)
            &&& v.worth(c.team) == w.worth(c.team)
            &&& forall|j: int| 0 <= j < w.ents.len() ==> (#[trigger] v.ents[j]).team == w.ents[j].team
        }),
    decreases slots.len(),
{
    if slots.len() > 0 {
        let front = slots.drop_last();
        assert forall|j: int| 0 <= j < front.len() implies 0 <= #[trigger] front[j] < w.ents.len()
            && w.ents[front[j] as int].team == c.team by {
            assert(slots[j] == front[j]);
        }
        lemma_ordered_worth(w, a, c, front, t);
        let (v, placed) = w.ordered(a, c, front);
        let i = slots.last() as int;
        assert(slots[slots.len() - 1] == slots.last());
        assert(v.ents[i].team == w.ents[i].team);
        lemma_ordered_one(v, a, c, i, placed, t);
        lemma_ordered_one(v, a, c, i, placed, c.team);
        let z = v.ordered_one(a, c, i, placed).0;
        assert(only_workers_build(z)) by {
            assert forall|j: int| 0 <= j < z.ents.len() && (#[trigger] z.ents[j]).kind != Kind::Worker implies
                !WorldV::building(z.ents[j]) by {
                if j != i {
                    assert(z.ents[j] == v.ents[j]);
                } else {
                    assert(!WorldV::building(v.ents[i]) || v.ents[i].kind == Kind::Worker);
                }
            }
        }
    }
}

proof fn lemma_stopped_worth(w: WorldV, team: Team, ids: Seq<u32>, t: Team)
    requires
        banked(w),
        team.idx() < MAX_FACTIONS,
        w.worth(team) <= u32::MAX,
        only_workers_build(w),
    ensures
        ({
            let v = w.stopped(team, ids);
            &&& banked(v)
            &&& only_workers_build(v)
            &&& v.worth(t) == w.worth(t)
            &&& v.worth(team) == w.worth(team)
        }),
    decreases ids.len(),
{
    if ids.len() > 0 {
        lemma_stopped_worth(w, team, ids.drop_last(), t);
        let v = w.stopped(team, ids.drop_last());
        lemma_stop_worth(v, team, ids.last(), t);
        lemma_stop_worth(v, team, ids.last(), team);
    }
}

proof fn lemma_click_worth(w: WorldV, k: Click, ids: Seq<u32>, t: Team)
    requires
        banked(w),
        k.team.idx() < MAX_FACTIONS,
        w.worth(k.team) <= u32::MAX,
        w.ents.len() <= usize::MAX,
        only_workers_build(w),
        k.target is Some ==> k.target->0 < w.ents.len(),
    ensures
        w.clicked(k, ids).worth(t) == w.worth(t),
        only_workers_build(w.clicked(k, ids)),
{
    if w.cancels(k, ids) {
        lemma_unqueue_worth(w, k.target->0 as int, t);
        assert(w.click_cancelled(k).ents == w.unqueued(k.target->0 as int).ents);
    } else {
        let a = aim_of(w, k);
        let slots = w.chosen(k.team, ids);
        lemma_chosen(w, k.team, ids);
        let v = if k.team == w.my_team && w.any_walker(slots) {
            w.pinged(w.click_ping(a, k, slots))
        } else {
            w
        };
        assert(v.ents == w.ents);
        assert(only_workers_build(v));
        lemma_ordered_worth(v, a, k, slots, t);
    }
}

proof fn lemma_train_worth(w: WorldV, i: int, unit: Kind, t: Team)
    requires
        banked(w),
        0 <= i < w.ents.len(),
        w.ents[i].team.idx() < MAX_FACTIONS,
        only_workers_build(w),
    ensures
        w.trained(i, unit).0.worth(t) == w.worth(t),
        only_workers_build(w.trained(i, unit).0),
{
    let e = w.ents[i];
    let v = w.trained(i, unit).0;
    if w.trained(i, unit).1 {
        let e2 = EntV { queue: e.queue.push(unit), ..e };
        assert(e.queue.push(unit).drop_last() =~= e.queue);
        let s = w.spent(e.team, cost(unit) as int);
        lemma_worth_with(s, t, i, e2);
        assert forall|j: int| 0 <= j < v.ents.len() && (#[trigger] v.ents[j]).kind != Kind::Worker implies
            !WorldV::building(v.ents[j]) by {
            assert(w.ents[j].kind != Kind::Worker);
        }
    } else {
        assert(v.ents == w.ents);
    }
}

proof fn lemma_chain_worth(w: WorldV, i: int, kind: Kind, site: V2, clear: bool, t: Team)
    requires
        banked(w),
        0 <= i < w.ents.len(),
        w.ents[i].team.idx() < MAX_FACTIONS,
        w.ents[i].kind == Kind::Worker,
        only_workers_build(w),
    ensures
        w.build_chained(i, kind, site, clear).0.worth(t) == w.worth(t),
        only_workers_build(w.build_chained(i, kind, site, clear).0),
{
    let e = w.ents[i];
    let v = w.build_chained(i, kind, site, clear).0;
    if w.build_chained(i, kind, site, clear).1 {
        let e2 = if WorldV::building(e) {
            EntV { build_queue: e.build_queue.push((kind, site)), ..e }
        } else {
            EntV { order: Order::Build(kind, site), ..e }
        };
        assert(e.build_queue.push((kind, site)).drop_last() =~= e.build_queue);
        let s = w.spent(e.team, cost(kind) as int);
        lemma_worth_with(s, t, i, e2);
        assert forall|j: int| 0 <= j < v.ents.len() && (#[trigger] v.ents[j]).kind != Kind::Worker implies
            !WorldV::building(v.ents[j]) by {
            assert(w.ents[j].kind != Kind::Worker);
        }
    }
}

proof fn lemma_rally_worth(w: WorldV, i: int, pt: V2, t: Team)
    requires
        0 <= i < w.ents.len(),
        only_workers_build(w),
    ensures
        ({
            let v = w.with(i, EntV { rally: pt, rally_set: true, ..w.ents[i] });
            v.worth(t) == w.worth(t) && only_workers_build(v)
        }),
{
    let v = w.with(i, EntV { rally: pt, rally_set: true, ..w.ents[i] });
    lemma_worth_with(w, t, i, EntV { rally: pt, rally_set: true, ..w.ents[i] });
    assert forall|j: int| 0 <= j < v.ents.len() && (#[trigger] v.ents[j]).kind != Kind::Worker implies
        !WorldV::building(v.ents[j]) by {
        assert(w.ents[j].kind != Kind::Worker);
    }
}

/// No command creates or destroys minerals: what a faction has in the bank, in its build
/// plans and in its training queues adds up to the same before and after. Paying for a
/// building or a unit moves minerals into the plan, and stopping, redirecting or cancelling
/// moves exactly as much back.
pub proof fn commands_conserve_minerals(w: WorldV, team: Team, c: CmdV, g: Ground, after: WorldV, t: Team)
    requires
        banked(w),
        w.ents.len() <= usize::MAX,
        team.idx() < MAX_FACTIONS,
        w.worth(team) <= u32::MAX,
        only_workers_build(w),
        w.obeyed(team, c, g, after),
    ensures
        after.worth(t) == w.worth(t),
        only_workers_build(after),
{
    match c {
        CmdV::Order { ids, attack_move, queue, .. } => {
            let target = choose|target: Option<usize>| #[trigger]
                first_touched(w.ents, g.d@, 3, crate::query::anything(), target) && after == w.clicked(
                    (Click { team, target, pt: g.pt, attack_move, queue, dests: g.dests@ }),
                    ids,
                );
            let k = Click { team, target, pt: g.pt, attack_move, queue, dests: g.dests@ };
            lemma_click_worth(w, k, ids, t);
        },
        CmdV::Stop { ids } => {
            lemma_stopped_worth(w, team, ids, t);
        },
        CmdV::Train { building, unit } => {
            lemma_first_slot(w.ents, |e: EntV| e.id == building);
            if w.own_building(team, building) is Some {
                lemma_train_worth(w, w.slot(building), unit, t);
            }
        },
        CmdV::Build { worker, kind, x, y, .. } => {
            lemma_first_slot(w.ents, |e: EntV| e.id == worker);
            if w.own_worker(team, worker) is Some {
                let clear = g.site.clear_for(w.ents, g.has_cliffs, kind);
                lemma_chain_worth(w, w.slot(worker), kind, V2 { x, y }, clear, t);
            }
        },
        CmdV::Rally { building, x, y } => {
            lemma_first_slot(w.ents, |e: EntV| e.id == building);
            if w.own_building(team, building) is Some {
                lemma_rally_worth(w, w.slot(building), V2 { x, y }, t);
            }
        },
        CmdV::Cancel { building } => {
            lemma_first_slot(w.ents, |e: EntV| e.id == building);
            if w.own_building(team, building) is Some {
                let i = w.slot(building);
                if w.ents[i].queue.len() > 0 {
                    lemma_unqueue_worth(w, i, t);
                }
            }
        },
        CmdV::Surrender => {},
    }
}

proof fn lemma_unqueue_worth(w: WorldV, i: int, t: Team)
    requires
        banked(w),
        0 <= i < w.ents.len(),
        w.ents[i].queue.len() > 0,
        w.ents[i].team.idx() < MAX_FACTIONS,
        w.worth(w.ents[i].team) <= u32::MAX,
        only_workers_build(w),
    ensures
        w.unqueued(i).worth(t) == w.worth(t),
        only_workers_build(w.unqueued(i)),
{
    let e = w.ents[i];
    lemma_share(w, e.team, i);
    lemma_costs_nonneg(e.build_queue, e.queue.drop_last());
    let e2 = EntV {
        queue: e.queue.drop_last(),
        train_timer: if e.queue.len() == 1 {
            Num { bits: 0 }
        } else {
            e.train_timer
        },
        ..e
    };
    lemma_worth_with(w, t, i, e2);
    let v = w.unqueued(i);
    assert forall|j: int| 0 <= j < v.ents.len() && (#[trigger] v.ents[j]).kind != Kind::Worker implies
        !WorldV::building(v.ents[j]) by {
        assert(w.ents[j].kind != Kind::Worker);
    }
}

/// Training a unit and cancelling it leaves the match as it was, but for the clock of a
/// queue that was empty.
pub proof fn train_then_cancel_restores(w: WorldV, i: int, k: Kind)
    requires
        banked(w),
        0 <= i < w.ents.len(),
        w.ents[i].team.idx() < MAX_FACTIONS,
        w.trained(i, k).1,
    ensures
        ({
            let e = w.ents[i];
            w.trained(i, k).0.unqueued(i) == w.with(
                i,
                EntV {
                    train_timer: if e.queue.len() == 0 {
                        Num { bits: 0 }
                    } else {
                        e.train_timer
                    },
                    ..e
                },
            )
        }),
{
    let e = w.ents[i];
    let v = w.trained(i, k).0;
    assert(v.ents[i].queue == e.queue.push(k));
    assert(v.ents[i].queue.drop_last() =~= e.queue);
    let u = v.unqueued(i);
    let want = w.with(
        i,
        EntV {
            train_timer: if e.queue.len() == 0 {
                Num { bits: 0 }
            } else {
                e.train_timer
            },
            ..e
        },
    );
    assert(u.ents =~= want.ents);
    assert(u.minerals =~= want.minerals);
}

/// Training never takes a faction over its population cap: units it has and units it is
/// going to have fit.
pub proof fn training_respects_the_cap(w: WorldV, i: int, k: Kind)
    requires
        0 <= i < w.ents.len(),
        w.trained(i, k).1,
    ensures
        ({
            let t = w.ents[i].team;
            let v = w.trained(i, k).0;
            &&& v.used(t) + v.queued(t) <= v.cap(t)
            &&& v.cap(t) == w.cap(t)
            &&& v.cap(t) <= 120
        }),
{
    let e = w.ents[i];
    let t = e.team;
    let e2 = EntV { queue: e.queue.push(k), ..e };
    let s = w.spent(t, cost(k) as int);
    assert(s.ents == w.ents);
    lemma_total_update(w.ents, crate::world::mouths(t), i, e2);
    lemma_total_update(w.ents, crate::world::beds(t), i, e2);
    lemma_total_update(w.ents, crate::world::unborn(t), i, e2);
    assert(e.queue.push(k).drop_last() =~= e.queue);
}

/// A raised depot adds eight to its faction's cap, up to the ceiling.
pub proof fn depot_raises_the_cap(w: WorldV, e: EntV)
    requires
        e.kind == Kind::Depot,
        e.build_left.at_most(Num { bits: 0 }),
    ensures
        ({
            let v = WorldV { ents: w.ents.push(e), ..w };
            let c = total(w.ents, crate::world::beds(e.team));
            v.cap(e.team) == (if c + 8 > 120 {
                120
            } else {
                c + 8
            })
        }),
{
    crate::world::lemma_total_push(w.ents, crate::world::beds(e.team), e);
}

// ---- what holds of orders -------------------------------------------------------------------------

/// A unit does what the click is on. On a foe it attacks, whatever it is; a worker mines a
/// patch and repairs a hurt building of its own side; and everyone else walks to their place
/// in the formation, attacking on the way if they were told to. In line the order waits for
/// those before it; otherwise it takes the place of all that the unit had to do.
pub proof fn units_do_what_the_click_is_on(w: WorldV, c: Click, i: int, placed: int)
    requires
        0 <= i < w.ents.len(),
        c.target is Some ==> c.target->0 < w.ents.len(),
        is_mover(w.ents[i].kind),
    ensures
        ({
            let e = w.ents[i];
            let (v, next) = w.ordered_one(aim_of(w, c), c, i, placed);
            let u = v.ents[i];
            let t = w.ents[c.target->0 as int];
            let foe = c.target is Some && t.team != c.team && t.team != Team::Neutral;
            let ore = c.target is Some && t.kind == Kind::Mineral && !foe && e.kind == Kind::Worker;
            let hurt = c.target is Some && t.team == c.team && t.hp.less(t.max_hp) && (t.kind == Kind::Base || t.kind
                == Kind::Barracks || t.kind == Kind::Factory || t.kind == Kind::Depot) && e.kind == Kind::Worker;
            let plans = e.kind == Kind::Worker && (e.order is Build || e.build_queue.len() > 0);
            let waits = c.queue && e.order != Order::Idle && !plans;
            let o = if waits {
                u.order_queue.last()
            } else {
                u.order
            };
            &&& foe ==> o == Order::Attack(t.id)
            &&& ore ==> o == Order::Gather(t.id)
            &&& !foe && !ore && hurt ==> o == Order::Repair(t.id)
            &&& !foe && !ore && !hurt && c.attack_move ==> o == Order::AttackMove(c.dests[placed])
            &&& !foe && !ore && !hurt && !c.attack_move ==> o == Order::Move(c.dests[placed])
            &&& next == (if foe || ore || hurt {
                placed
            } else {
                placed + 1
            })
            &&& waits ==> u.order == e.order && u.order_queue.drop_last() == e.order_queue
            &&& !waits ==> u.order_queue.len() == 0
            &&& !plans ==> v.minerals == w.minerals && u == (EntV {
                order: u.order,
                order_queue: u.order_queue,
                ..e
            })
            &&& plans ==> u.build_queue.len() == 0 && v.minerals == w.gained(e.team, plan_cost(e)).minerals
            &&& forall|j: int| 0 <= j < w.ents.len() && j != i ==> #[trigger] v.ents[j] == w.ents[j]
            &&& v.ents.len() == w.ents.len()
        }),
{
    let e = w.ents[i];
    let u = w.ordered_one(aim_of(w, c), c, i, placed).0.ents[i];
    if c.queue && e.order != Order::Idle {
        assert(u.order_queue.len() > 0 ==> u.order_queue.drop_last() =~= e.order_queue || u.order_queue.len() == 0);
    }
}

/// A building that trains rallies to the click; a depot, which trains nothing, does not; and no
/// building is sent anywhere.
pub proof fn buildings_rally_to_the_click(w: WorldV, a: Aim, c: Click, i: int, placed: int)
    requires
        0 <= i < w.ents.len(),
        is_building(w.ents[i].kind),
    ensures
        ({
            let e = w.ents[i];
            let (v, next) = w.ordered_one(a, c, i, placed);
            &&& next == placed
            &&& e.kind != Kind::Depot ==> v.ents == w.ents.update(i, EntV { rally: c.pt, rally_set: true, ..e })
            &&& e.kind == Kind::Depot ==> v == w
            &&& v.minerals == w.minerals
        }),
{
}

/// A click is for everyone who was chosen and is the team's own, one after the other, each in
/// the next place of the formation; and for nobody else.
pub proof fn clicks_are_for_the_chosen(w: WorldV, a: Aim, c: Click, team: Team, ids: Seq<u32>, id: u32, slots: Seq<usize>, s: usize)
    ensures
        ({
            let more = w.chosen(team, ids.push(id));
            match w.slot_of(id) {
                Some(i) => if w.ents[i].team == team {
                    more == w.chosen(team, ids).push(i as usize)
                } else {
                    more == w.chosen(team, ids)
                },
                None => more == w.chosen(team, ids),
            }
        }),
        w.chosen(team, Seq::<u32>::empty()).len() == 0,
        ({
            let (v, placed) = w.ordered(a, c, slots);
            w.ordered(a, c, slots.push(s)) == v.ordered_one(a, c, s as int, placed)
        }),
        w.ordered(a, c, Seq::<usize>::empty()) == (w, 0int),
{
    assert(ids.push(id).drop_last() =~= ids);
    assert(slots.push(s).drop_last() =~= slots);
}

/// A click on a training building of one's own that is itself chosen takes back its last unit;
/// any other click orders the chosen about, with a mark on the map for the local player only.
pub proof fn clicks_cancel_or_order(w: WorldV, c: Click, ids: Seq<u32>)
    requires
        c.target is Some ==> c.target->0 < w.ents.len(),
    ensures
        ({
            let v = w.clicked(c, ids);
            let t = w.ents[c.target->0 as int];
            let cancel = c.target is Some && t.team == c.team && t.queue.len() > 0 && ids.contains(t.id) && (t.kind
                == Kind::Base || t.kind == Kind::Barracks || t.kind == Kind::Factory || t.kind == Kind::Depot);
            let a = aim_of(w, c);
            let marked = WorldV { pings: w.pings.push(w.click_ping(a, c, w.chosen(c.team, ids))), ..w };
            &&& cancel && c.team != w.my_team ==> v == w.unqueued(c.target->0 as int)
            &&& cancel ==> v.ents == w.unqueued(c.target->0 as int).ents && v.minerals == w.unqueued(
                c.target->0 as int,
            ).minerals
            &&& !cancel && (c.team != w.my_team || !w.any_walker(w.chosen(c.team, ids))) ==> v == w.ordered(
                a,
                c,
                w.chosen(c.team, ids),
            ).0
            &&& !cancel && c.team == w.my_team && w.any_walker(w.chosen(c.team, ids)) ==> v == marked.ordered(
                a,
                c,
                w.chosen(c.team, ids),
            ).0
        }),
{
}

/// Cancelling takes back the last unit in line, pays for it in full and leaves the others; the
/// clock starts anew only when the line is empty.
pub proof fn cancelling_pays_back(w: WorldV, i: int)
    requires
        banked(w),
        0 <= i < w.ents.len(),
        w.ents[i].queue.len() > 0,
        w.ents[i].team.idx() < MAX_FACTIONS,
        w.bank(w.ents[i].team) + cost(w.ents[i].queue.last()) <= u32::MAX,
    ensures
        ({
            let e = w.ents[i];
            let v = w.unqueued(i);
            &&& v.ents[i].queue.push(e.queue.last()) == e.queue
            &&& v.bank(e.team) == w.bank(e.team) + cost(e.queue.last())
            &&& e.queue.len() == 1 ==> !v.ents[i].train_timer.positive()
            &&& e.queue.len() > 1 ==> v.ents[i].train_timer == e.train_timer
            &&& v.ents[i] == EntV { queue: v.ents[i].queue, train_timer: v.ents[i].train_timer, ..e }
            &&& forall|j: int| 0 <= j < w.ents.len() && j != i ==> #[trigger] v.ents[j] == w.ents[j]
        }),
{
    assert(w.unqueued(i).ents[i].queue.push(w.ents[i].queue.last()) =~= w.ents[i].queue);
}

/// Whoever is told to stop stands idle, with nowhere to go and nothing to do next, and a worker
/// has its plans paid back; but only the team's own walkers listen, and nobody else is touched.
pub proof fn the_stopped_stand_still(w: WorldV, team: Team, id: u32, ids: Seq<u32>, j: int)
    requires
        0 <= j < w.ents.len(),
    ensures
        ({
            let v = w.stopped_one(team, id);
            let found = w.slot_of(id);
            let i = found->0;
            let listens = found is Some && w.ents[i].team == team && (w.ents[i].kind == Kind::Worker || w.ents[i].kind
                == Kind::Soldier || w.ents[i].kind == Kind::Tank || w.ents[i].kind == Kind::Pyro || w.ents[i].kind
                == Kind::Raider || w.ents[i].kind == Kind::Mortar || w.ents[i].kind == Kind::Sapper);
            &&& !listens ==> v == w
            &&& listens && 0 <= i < w.ents.len() ==> {
                &&& v.ents[i].order == Order::Idle
                &&& v.ents[i].goal is None
                &&& v.ents[i].order_queue.len() == 0
                &&& w.ents[i].kind == Kind::Worker ==> v.ents[i].build_queue.len() == 0 && v.minerals == w.gained(
                    team,
                    plan_cost(w.ents[i]),
                ).minerals
                &&& w.ents[i].kind != Kind::Worker ==> v.minerals == w.minerals
                &&& j != i ==> v.ents[j] == w.ents[j]
            }
        }),
        w.stopped(team, ids.push(id)) == w.stopped(team, ids).stopped_one(team, id),
        w.stopped(team, Seq::<u32>::empty()) == w,
{
    assert(ids.push(id).drop_last() =~= ids);
}

/// What plans cost is what the buildings in them cost.
pub proof fn plans_cost_what_is_in_them(e: EntV, q: Seq<(Kind, V2)>, k: Kind, p: V2, u: Seq<Kind>)
    ensures
        sites_cost(q.push((k, p))) == sites_cost(q) + cost(k),
        sites_cost(Seq::<(Kind, V2)>::empty()) == 0,
        units_cost(u.push(k)) == units_cost(u) + cost(k),
        units_cost(Seq::<Kind>::empty()) == 0,
        e.order is Build ==> plan_cost(e) == cost(e.order->Build_0) + sites_cost(e.build_queue),
        !(e.order is Build) ==> plan_cost(e) == sites_cost(e.build_queue),
{
    assert(q.push((k, p)).drop_last() =~= q);
    assert(u.push(k).drop_last() =~= u);
}

/// A building is planned exactly if it can be paid for and its site is clear. The price is
/// taken at once. Told outright, the worker drops what it was to build; told in addition, it
/// builds it next, after what it has, and at once if it has nothing.
pub proof fn plans_are_paid_up_front(w: WorldV, i: int, k: Kind, site: V2, clear: bool)
    requires
        0 <= i < w.ents.len(),
    ensures
        ({
            let e = w.ents[i];
            let (v, ok) = w.build_ordered(i, k, site, clear);
            let (u, yes) = w.build_chained(i, k, site, clear);
            let busy = e.order is Build || e.build_queue.len() > 0;
            &&& ok <==> clear && w.bank(e.team) >= cost(k)
            &&& yes <==> clear && w.bank(e.team) >= cost(k)
            &&& !ok ==> v == w && u == w
            &&& ok ==> v.minerals == w.spent(e.team, cost(k) as int).minerals && u.minerals == v.minerals
            &&& ok ==> v.ents[i].order == Order::Build(k, site) && v.ents[i].build_queue.len() == 0
            &&& yes && busy ==> u.ents[i].order == e.order && u.ents[i].build_queue == e.build_queue.push((k, site))
            &&& yes && !busy ==> u.ents[i].order == Order::Build(k, site) && u.ents[i].build_queue.len() == 0
            &&& forall|j: int|
                0 <= j < w.ents.len() && j != i ==> #[trigger] v.ents[j] == w.ents[j] && u.ents[j] == w.ents[j]
        }),
{
}

/// A site is clear exactly if the building would lie on the map, off cliffs and ramps, far
/// enough from all that stands (26 units from a building, 8 from a patch, rim to rim), and 26
/// from every building that a worker is on its way to raise or has planned.
pub proof fn sites_are_clear_of_everything(s: Site, ents: Seq<EntV>, cliffs: bool, k: Kind, i: int, q: int)
    requires
        s.clear_for(ents, cliffs, k),
        0 <= i < ents.len(),
    ensures
        !s.pt.x.less(Num::whole(radius(k))) && !s.pt.y.less(Num::whole(radius(k))),
        !s.far.x.less(s.pt.x) && !s.far.y.less(s.pt.y),
        cliffs ==> forall|t: int| 0 <= t < 5 ==> #[trigger] s.tiles[t] != T_CLIFF && s.tiles[t] != T_RAMP,
        (ents[i].kind == Kind::Base || ents[i].kind == Kind::Barracks || ents[i].kind == Kind::Factory || ents[i].kind
            == Kind::Depot) ==> !s.to_ent@[i].less(Num::whole((radius(k) + radius(ents[i].kind) + 26) as u32)),
        ents[i].kind == Kind::Mineral ==> !s.to_ent@[i].less(
            Num::whole((radius(k) + radius(Kind::Mineral) + 8) as u32),
        ),
        ents[i].kind == Kind::Worker && ents[i].order is Build ==> !s.to_order@[i].less(
            Num::whole((radius(k) + radius(ents[i].order->Build_0) + 26) as u32),
        ),
        ents[i].kind == Kind::Worker && 0 <= q < ents[i].build_queue.len() ==> !s.to_queue@[i]@[q].less(
            Num::whole((radius(k) + radius(ents[i].build_queue[q].0) + 26) as u32),
        ),
{
    assert(!s.crowds(k, ents[i], i) && !s.clashes(k, ents[i], i));
    if cliffs {
        assert forall|t: int| 0 <= t < 5 implies #[trigger] s.tiles[t] != T_CLIFF && s.tiles[t] != T_RAMP by {
            no_building_on_rock(s, ents, k, t);
        }
    }
    if ents[i].kind == Kind::Worker && 0 <= q < ents[i].build_queue.len() {
        assert(!s.to_queue@[i]@[q].less(Num::whole((radius(k) + radius(ents[i].build_queue[q].0) + BUILD_GAP) as u32)));
    }
}

/// Nothing else keeps a building from its site: on the map, on ground without cliffs or ramps
/// under it, and far enough from everything, it can go up.
pub proof fn free_sites_can_be_built_on(s: Site, ents: Seq<EntV>, cliffs: bool, k: Kind)
    requires
        !s.pt.x.less(Num::whole(radius(k))) && !s.pt.y.less(Num::whole(radius(k))),
        !s.far.x.less(s.pt.x) && !s.far.y.less(s.pt.y),
        !cliffs || forall|t: int| 0 <= t < 5 ==> #[trigger] s.tiles[t] != T_CLIFF && s.tiles[t] != T_RAMP,
        forall|i: int|
            0 <= i < ents.len() ==> is_mover((#[trigger] ents[i]).kind) || !s.to_ent@[i].less(
                Num::whole(
                    (radius(k) + radius(ents[i].kind) + (if ents[i].kind == Kind::Mineral {
                        8int
                    } else {
                        26int
                    })) as u32,
                ),
            ),
        forall|i: int|
            0 <= i < ents.len() ==> !((#[trigger] ents[i]).order is Build) && ents[i].build_queue.len() == 0,
    ensures
        s.clear_for(ents, cliffs, k),
{
    assert forall|i: int| 0 <= i < ents.len() implies !s.crowds(k, #[trigger] ents[i], i) && !s.clashes(
        k,
        ents[i],
        i,
    ) by {
        assert(ents[i].build_queue.len() == 0);
    }
    assert(!(cliffs && s.on_rock()));
}

/// Commands do what they say, and only to what is the team's own: training trains, cancelling
/// takes back what is there to take back, a rally point is set, a worker is sent to build, and
/// a surrender changes nothing on the map. About what is somebody else's, is not there, or is
/// not of the right sort, nothing happens.
pub proof fn commands_do_what_they_say(w: WorldV, team: Team, id: u32, k: Kind, x: Num, y: Num, chain: bool, g: Ground, after: WorldV)
    ensures
        ({
            let found = w.slot_of(id);
            let i = found->0;
            let e = w.ents[i];
            let house = found is Some && e.team == team && (e.kind == Kind::Base || e.kind == Kind::Barracks || e.kind
                == Kind::Factory || e.kind == Kind::Depot);
            let hand = found is Some && e.team == team && e.kind == Kind::Worker;
            &&& w.obeyed(team, CmdV::Train { building: id, unit: k }, g, after) <==> after == (if house {
                w.trained(i, k).0
            } else {
                w
            })
            &&& w.obeyed(team, CmdV::Cancel { building: id }, g, after) <==> after == (if house && e.queue.len() > 0 {
                w.unqueued(i)
            } else {
                w
            })
            &&& w.obeyed(team, CmdV::Rally { building: id, x, y }, g, after) <==> after == (if house {
                w.with(i, EntV { rally: V2 { x, y }, rally_set: true, ..e })
            } else {
                w
            })
            &&& w.obeyed(team, CmdV::Build { worker: id, kind: k, x, y, chain }, g, after) <==> after == (if hand {
                w.build_chained(i, k, V2 { x, y }, g.site.clear_for(w.ents, g.has_cliffs, k)).0
            } else {
                w
            })
            &&& w.obeyed(team, CmdV::Surrender, g, after) <==> after == w
        }),
{
}

/// A formation has a place for every walker that was chosen.
pub proof fn formations_count_walkers(w: WorldV, slots: Seq<usize>, s: usize)
    ensures
        count_walkers(w, slots.push(s)) == count_walkers(w, slots) + (if w.ents[s as int].kind == Kind::Worker
            || w.ents[s as int].kind == Kind::Soldier || w.ents[s as int].kind == Kind::Tank || w.ents[s as int].kind
            == Kind::Pyro || w.ents[s as int].kind == Kind::Raider || w.ents[s as int].kind == Kind::Mortar
            || w.ents[s as int].kind == Kind::Sapper {
            1int
        } else {
            0int
        }),
        count_walkers(w, Seq::<usize>::empty()) == 0,
{
    assert(slots.push(s).drop_last() =~= slots);
}

/// A click leaves a mark for whoever walks or works for it: red on a foe, cyan on a patch, teal
/// on a hurt building that a worker goes to, and otherwise on the ground, amber for an attack and
/// green for a walk.
pub proof fn clicks_leave_their_mark(w: WorldV, a: Aim, c: Click, slots: Seq<usize>)
    ensures
        w.any_walker(slots) <==> exists|k: int|
            0 <= k < slots.len() && ({
                let e = w.ents[#[trigger] slots[k] as int];
                !is_building(e.kind) && e.kind != Kind::Mineral
            }),
        w.any_worker(slots) <==> exists|k: int|
            0 <= k < slots.len() && w.ents[#[trigger] slots[k] as int].kind == Kind::Worker,
        ({
            let p = w.click_ping(a, c, slots);
            let at = w.ents[c.target->0 as int].pos;
            let mend = a.hurt is Some && w.any_worker(slots);
            &&& a.foe is Some ==> p.pos == at && p.color == rgb(240, 90, 80)
            &&& a.foe is None && a.patch is Some ==> p.pos == at && p.color == rgb(90, 210, 220)
            &&& a.foe is None && a.patch is None && mend ==> p.pos == at && p.color == rgb(120, 230, 200)
            &&& a.foe is None && a.patch is None && !mend ==> p.pos == c.pt && p.color == (if c.attack_move {
                rgb(255, 200, 90)
            } else {
                rgb(120, 230, 140)
            })
        }),
{
    if exists|k: int|
        0 <= k < slots.len() && ({
            let e = w.ents[#[trigger] slots[k] as int];
            !is_building(e.kind) && e.kind != Kind::Mineral
        }) {
        let k = choose|k: int|
            0 <= k < slots.len() && ({
                let e = w.ents[#[trigger] slots[k] as int];
                !is_building(e.kind) && e.kind != Kind::Mineral
            });
        assert(is_mover(w.ents[slots[k] as int].kind));
    }
    if w.any_walker(slots) {
        let k = choose|k: int| 0 <= k < slots.len() && is_mover(w.ents[#[trigger] slots[k] as int].kind);
        assert(!is_building(w.ents[slots[k] as int].kind));
    }
}

} // verus!
