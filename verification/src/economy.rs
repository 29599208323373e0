//! Work: walking where one was told, raising buildings, mining, hauling, repairing and
//! training. Distances and clocks come from whoever drives the match.

use vstd::prelude::*;
use crate::audio::Sfx;
use crate::kind::{build_time, is_building, radius, Kind, Team, CARRY, MAX_FACTIONS};
use crate::combat::moved_along;
use crate::num::{Num, V2};
use crate::query::{base_of, first_least, minable, FAR_BITS};
use crate::world::{EntV, Order, World, WorldV};

verus! {

/// How near to a point counts as there.
pub const ARRIVED: u32 = 6;

/// Seconds at a patch until a worker's hands are full: 1.3.
pub const MINE_TIME_BITS: u32 = 0x3FA6_6666;

/// How near a worker must be to a patch to mine it: both radii and a little.
pub const MINE_REACH: u32 = 26;

/// How near a worker must be to a base to deliver.
pub const DROP_REACH: u32 = 43;

/// How near a rally point must be to a patch to mean it.
pub const RALLY_REACH: u32 = 40;

/// The number one.
pub const ONE: u32 = 0x3F80_0000;

// ---- walking ------------------------------------------------------------------------------

/// An entity that walks to a point, at distance `dist` from it.
pub open spec fn walked(e: EntV, p: V2, dist: Num) -> EntV {
    if dist.less(Num::whole(ARRIVED)) {
        moved_along(e)
    } else {
        EntV { goal: Some(p), ..e }
    }
}

impl World {
    /// Walks on: there, the order is done; otherwise the point is the goal.
    pub fn walk_to(&mut self, i: usize, p: V2, dist: Num)
        requires
            old(self).wf(),
            i < old(self)@.ents.len(),
        ensures
            final(self).wf(),
            final(self)@ == old(self)@.with(i as int, walked(old(self)@.ents[i as int], p, dist)),
    {
        if dist.less(Num::whole(ARRIVED)) {
            self.advance_order(i);
        } else {
            self.set_goal(i, Some(p));
        }
    }
}

// ---- raising buildings ----------------------------------------------------------------------

impl WorldV {
    /// The match after a worker without plans went looking for a patch: it mines the one it
    /// found, and keeps its order if it found none.
    pub open spec fn put_to_mine(self, i: int, patch: Option<usize>) -> WorldV {
        match patch {
            Some(m) => self.with(
                i,
                EntV { order: Order::Gather(self.ents[m as int].id), ..self.ents[i] },
            ),
            None => self,
        }
    }

    /// The match after a worker at its site started a building. The building is weak and
    /// takes its time; the worker goes on to its next plan, or to mine. With neither it keeps
    /// its order.
    pub open spec fn raised(self, i: int, k: Kind, site: V2, hp: Num, rally: V2, patch: Option<usize>) -> WorldV {
        let t = self.ents[i].team;
        let w = self.spawned(k, t, site);
        let b = w.ents.len() - 1;
        let v = w.with(
            b,
            EntV { build_left: Num::whole(build_time(k)), hp, rally, ..w.ents[b] },
        );
        let e = v.ents[i];
        if e.build_queue.len() == 0 {
            v.put_to_mine(i, patch)
        } else {
            v.with(
                i,
                EntV {
                    order: Order::Build(e.build_queue[0].0, e.build_queue[0].1),
                    build_queue: e.build_queue.drop_first(),
                    ..e
                },
            )
        }
    }
}

/// How near a worker must be to a site to start on it.
pub open spec fn site_reach(k: Kind, worker: Kind) -> u32 {
    (radius(k) + radius(worker) + 6) as u32
}

impl World {
    /// Sends a worker to the patch with the least score, if any.
    pub fn auto_gather(&mut self, i: usize, score: &Vec<Num>) -> (patch: Option<usize>)
        requires
            old(self).wf(),
            i < old(self)@.ents.len(),
            score@.len() == old(self)@.ents.len(),
        ensures
            final(self).wf(),
            first_least(old(self)@.ents, minable(), score@, Num { bits: FAR_BITS }, patch),
            final(self)@ == old(self)@.put_to_mine(i as int, patch),
    {
        let patch = self.pick_patch(score);
        if let Some(m) = patch {
            assert(self@.ents[m as int] == self.ents@[m as int]@);
            let id: u32 = self.ents[m].id;
            self.reorder(i, Order::Gather(id));
        }
        patch
    }

    /// Carries on with a building order, at distance `dist` from the site: there, the
    /// building is started with `hp` hit points; otherwise the site is the goal. `score` are
    /// the patches' scores, for a worker with nothing more to raise.
    pub fn run_build(
        &mut self,
        i: usize,
        k: Kind,
        site: V2,
        dist: Num,
        hp: Num,
        rally: V2,
        score: &Vec<Num>,
    )
        requires
            old(self).wf(),
            old(self).has_room(),
            i < old(self)@.ents.len(),
            score@.len() == old(self)@.ents.len(),
        ensures
            final(self).wf(),
            dist.at_most(Num::whole(site_reach(k, old(self)@.ents[i as int].kind))) ==> exists|
                patch: Option<usize>,
            | #[trigger]
                first_least(old(self)@.ents, minable(), score@, Num { bits: FAR_BITS }, patch)
                    && final(self)@ == old(self)@.raised(i as int, k, site, hp, rally, patch),
            !dist.at_most(Num::whole(site_reach(k, old(self)@.ents[i as int].kind))) ==> final(self)@
                == old(self)@.with(i as int, EntV { goal: Some(site), ..old(self)@.ents[i as int] }),
    {
        let ghost w0 = self@;
        let ghost e0 = w0.ents[i as int];
        assert(e0 == self.ents@[i as int]@);
        let reach: u32 = radius(k) + radius(self.ents[i].kind) + 6;
        if !dist.at_most(Num::whole(reach)) {
            self.set_goal(i, Some(site));
            return;
        }
        let patch = self.pick_patch(score);
        let mut mine: u32 = 0;
        if let Some(m) = patch {
            assert(w0.ents[m as int] == self.ents@[m as int]@);
            mine = self.ents[m].id;
        }
        let team = self.ents[i].team;
        let b: usize = self.spawn(k, team, site);
        let ghost w1 = self@;
        assert(w1.ents[b as int] == self.ents@[b as int]@);
        assert(w1.ents[i as int] == e0);
        self.found(b, Num::whole(build_time(k)), hp, rally);
        let ghost w2 = self@;
        assert(w2.ents[i as int] == e0);
        assert(self@.ents.len() == self.ents@.len());
        assert(w2.ents[i as int] == self.ents@[i as int]@);
        if self.ents[i].build_queue.len() == 0 {
            if patch.is_some() {
                self.reorder(i, Order::Gather(mine));
            }
            proof {
                if let Some(m) = patch {
                    assert(w2.ents[m as int].id == w0.ents[m as int].id);
                }
                assert(self@ == w0.raised(i as int, k, site, hp, rally, patch));
            }
        } else {
            self.next_site(i);
            assert(self@ == w0.raised(i as int, k, site, hp, rally, patch));
        }
    }

    /// Marks a building as just started.
    fn found(&mut self, b: usize, left: Num, hp: Num, rally: V2)
        requires
            old(self).wf(),
            b < old(self)@.ents.len(),
        ensures
            final(self).wf(),
            final(self)@ == old(self)@.with(
                b as int,
                EntV { build_left: left, hp, rally, ..old(self)@.ents[b as int] },
            ),
    {
        let ghost v = self@;
        let ghost e = v.ents[b as int];
        assert(e == self.ents@[b as int]@);
        self.ents[b].build_left = left;
        self.ents[b].hp = hp;
        self.ents[b].rally = rally;
        proof {
            let e2 = EntV { build_left: left, hp, rally, ..e };
            assert(self.ents@[b as int]@ =~= e2);
            assert(self@.ents =~= v.ents.update(b as int, e2));
        }
    }

    /// Takes up the next planned building.
    fn next_site(&mut self, i: usize)
        requires
            old(self).wf(),
            i < old(self)@.ents.len(),
            old(self)@.ents[i as int].build_queue.len() > 0,
        ensures
            final(self).wf(),
            ({
                let e = old(self)@.ents[i as int];
                final(self)@ == old(self)@.with(
                    i as int,
                    EntV {
                        order: Order::Build(e.build_queue[0].0, e.build_queue[0].1),
                        build_queue: e.build_queue.drop_first(),
                        ..e
                    },
                )
            }),
    {
        let ghost v = self@;
        let ghost e = v.ents[i as int];
        assert(e == self.ents@[i as int]@);
        let (nk, ns) = self.ents[i].build_queue.remove(0);
        self.ents[i].order = Order::Build(nk, ns);
        proof {
            let e2 = EntV {
                order: Order::Build(e.build_queue[0].0, e.build_queue[0].1),
                build_queue: e.build_queue.drop_first(),
                ..e
            };
            assert(self.ents@[i as int].build_queue@ =~= e2.build_queue);
            assert(self.ents@[i as int]@ =~= e2);
            assert(self@.ents =~= v.ents.update(i as int, e2));
        }
    }
}

// ---- mining ---------------------------------------------------------------------------------

/// Where a mining worker is headed.
#[derive(Clone, Copy, PartialEq, Eq, Structural, Debug)]
pub enum Haul {
    /// To the patch in a slot.
    Patch(usize),
    /// Home, to the base in a slot.
    Base(usize),
    /// Nowhere: no patch is left.
    NoPatch,
    /// Nowhere: there is no base to deliver to.
    NoBase,
}

/// Whether `h` is where a worker on a patch is headed. With room in its hands, to its patch
/// while that has something left, and otherwise to the patch with the least score; with its
/// hands full, to the nearest base of its team.
pub open spec fn headed(w: WorldV, i: int, patch: u32, score: Seq<Num>, home: Seq<Num>, h: Haul) -> bool {
    let e = w.ents[i];
    if e.carry < CARRY {
        match w.slot_of(patch) {
            Some(m) => if minable()(w.ents[m]) {
                h is Patch && h->Patch_0 == m
            } else {
                re_picked(w, score, h)
            },
            None => re_picked(w, score, h),
        }
    } else {
        exists|b: Option<usize>| #[trigger]
            first_least(w.ents, base_of(e.team), home, Num { bits: FAR_BITS }, b) && h == (match b {
                Some(k) => Haul::Base(k),
                None => Haul::NoBase,
            })
    }
}

pub open spec fn re_picked(w: WorldV, score: Seq<Num>, h: Haul) -> bool {
    exists|p: Option<usize>| #[trigger]
        first_least(w.ents, minable(), score, Num { bits: FAR_BITS }, p) && h == (match p {
            Some(k) => Haul::Patch(k),
            None => Haul::NoPatch,
        })
}

/// How much a worker takes from a patch.
pub open spec fn load(m: u32) -> u32 {
    if m < CARRY {
        m
    } else {
        CARRY
    }
}

impl WorldV {
    /// The match after a worker took its turn at mining. `dist` is the distance to where it
    /// is headed, `timer` its clock at the patch after the tick, `aim` the point on the
    /// patch's rim that it walks to.
    pub open spec fn hauled(self, i: int, h: Haul, dist: Num, timer: Num, aim: V2) -> WorldV {
        let e = self.ents[i];
        match h {
            Haul::Patch(m) => {
                let p = self.ents[m as int];
                let o = Order::Gather(p.id);
                if dist.at_most(Num::whole(MINE_REACH)) {
                    if (Num { bits: MINE_TIME_BITS }).at_most(timer) {
                        self.with(
                            m as int,
                            EntV { minerals: (p.minerals - load(p.minerals)) as u32, ..p },
                        ).with(
                            i,
                            EntV {
                                order: o,
                                mine_timer: Num { bits: 0 },
                                carry: load(p.minerals),
                                goal: None,
                                ..e
                            },
                        )
                    } else {
                        self.with(i, EntV { order: o, mine_timer: timer, goal: None, ..e })
                    }
                } else {
                    self.with(i, EntV { order: o, goal: Some(aim), ..e })
                }
            },
            Haul::NoPatch => self.with(i, EntV { order: Order::Idle, ..e }),
            Haul::Base(b) => if dist.at_most(Num::whole(DROP_REACH)) {
                self.gained(e.team, e.carry as int).with(i, EntV { carry: 0, goal: None, ..e })
            } else {
                self.with(i, EntV { goal: Some(self.ents[b as int].pos), ..e })
            },
            Haul::NoBase => self.with(i, EntV { goal: None, ..e }),
        }
    }
}

impl World {
    /// Where a worker on a patch is headed. `score` are the patches' scores, `home` the
    /// squared distances from the worker.
    pub fn haul_target(&self, i: usize, patch: u32, score: &Vec<Num>, home: &Vec<Num>) -> (h: Haul)
        requires
            i < self@.ents.len(),
            score@.len() == self@.ents.len(),
            home@.len() == self@.ents.len(),
        ensures
            headed(self@, i as int, patch, score@, home@, h),
            h is Patch ==> h->Patch_0 < self@.ents.len() && self@.ents[h->Patch_0 as int].kind
                == Kind::Mineral,
            h is Base ==> h->Base_0 < self@.ents.len(),
    {
        assert(self@.ents[i as int] == self.ents@[i as int]@);
        if self.ents[i].carry < CARRY {
            if let Some(m) = self.index_of(patch) {
                assert(self@.ents[m as int] == self.ents@[m as int]@);
                if self.ents[m].kind == Kind::Mineral && self.ents[m].minerals != 0 {
                    return Haul::Patch(m);
                }
            }
            let p = self.pick_patch(score);
            match p {
                Some(m) => Haul::Patch(m),
                None => Haul::NoPatch,
            }
        } else {
            let b = self.nearest_base(self.ents[i].team, home);
            match b {
                Some(k) => Haul::Base(k),
                None => Haul::NoBase,
            }
        }
    }

    /// Takes a worker's turn at mining.
    pub fn run_gather(&mut self, i: usize, h: Haul, dist: Num, timer: Num, aim: V2)
        requires
            old(self).wf(),
            i < old(self)@.ents.len(),
            old(self)@.ents[i as int].kind != Kind::Mineral,
            old(self)@.bank(old(self)@.ents[i as int].team) + old(self)@.ents[i as int].carry <= u32::MAX,
            h is Patch ==> h->Patch_0 < old(self)@.ents.len() && old(self)@.ents[h->Patch_0 as int].kind
                == Kind::Mineral,
            h is Base ==> h->Base_0 < old(self)@.ents.len(),
        ensures
            final(self).wf(),
            final(self)@ == old(self)@.hauled(i as int, h, dist, timer, aim),
    {
        let ghost w0 = self@;
        let ghost e0 = w0.ents[i as int];
        assert(e0 == self.ents@[i as int]@);
        match h {
            Haul::Patch(m) => {
                assert(w0.ents[m as int] == self.ents@[m as int]@);
                assert(m != i);
                let o = Order::Gather(self.ents[m].id);
                if dist.at_most(Num::whole(MINE_REACH)) {
                    if (Num { bits: MINE_TIME_BITS }).at_most(timer) {
                        let left: u32 = self.ents[m].minerals;
                        let got: u32 = if left < CARRY { left } else { CARRY };
                        self.take_ore(m, got);
                        let ghost w1 = self@;
                        assert(w1.ents[i as int] == e0);
                        self.work(i, o, Num { bits: 0 }, got, None);
                    } else {
                        let carry: u32 = self.ents[i].carry;
                        self.work(i, o, timer, carry, None);
                        assert(self@ =~= w0.hauled(i as int, h, dist, timer, aim));
                    }
                } else {
                    let carry: u32 = self.ents[i].carry;
                    let mt = self.ents[i].mine_timer;
                    self.work(i, o, mt, carry, Some(aim));
                    assert(self@ =~= w0.hauled(i as int, h, dist, timer, aim));
                }
            },
            Haul::NoPatch => {
                self.reorder(i, Order::Idle);
            },
            Haul::Base(b) => {
                assert(w0.ents[b as int] == self.ents@[b as int]@);
                if dist.at_most(Num::whole(DROP_REACH)) {
                    let team = self.ents[i].team;
                    let carry: u32 = self.ents[i].carry;
                    let o = self.ents[i].order;
                    let mt = self.ents[i].mine_timer;
                    self.gain(team, carry);
                    let ghost w1 = self@;
                    assert(w1.ents == w0.ents);
                    self.work(i, o, mt, 0, None);
                    assert(self@ =~= w0.hauled(i as int, h, dist, timer, aim));
                } else {
                    let at = self.ents[b].pos;
                    self.set_goal(i, Some(at));
                }
            },
            Haul::NoBase => {
                self.set_goal(i, None);
            },
        }
    }

    fn take_ore(&mut self, m: usize, got: u32)
        requires
            old(self).wf(),
            m < old(self)@.ents.len(),
            got <= old(self)@.ents[m as int].minerals,
        ensures
            final(self).wf(),
            final(self)@ == old(self)@.with(
                m as int,
                EntV {
                    minerals: (old(self)@.ents[m as int].minerals - got) as u32,
                    ..old(self)@.ents[m as int]
                },
            ),
    {
        let ghost v = self@;
        let ghost e = v.ents[m as int];
        assert(e == self.ents@[m as int]@);
        self.ents[m].minerals = self.ents[m].minerals - got;
        proof {
            let e2 = EntV { minerals: (e.minerals - got) as u32, ..e };
            assert(self.ents@[m as int]@ =~= e2);
            assert(self@.ents =~= v.ents.update(m as int, e2));
        }
    }

    fn work(&mut self, i: usize, order: Order, timer: Num, carry: u32, goal: Option<V2>)
        requires
            old(self).wf(),
            i < old(self)@.ents.len(),
        ensures
            final(self).wf(),
            final(self)@ == old(self)@.with(
                i as int,
                EntV { order, mine_timer: timer, carry, goal, ..old(self)@.ents[i as int] },
            ),
    {
        let ghost v = self@;
        let ghost e = v.ents[i as int];
        assert(e == self.ents@[i as int]@);
        self.ents[i].order = order;
        self.ents[i].mine_timer = timer;
        self.ents[i].carry = carry;
        self.ents[i].goal = goal;
        proof {
            let e2 = EntV { order, mine_timer: timer, carry, goal, ..e };
            assert(self.ents@[i as int]@ =~= e2);
            assert(self@.ents =~= v.ents.update(i as int, e2));
        }
    }
}

/// Ore on the map, in hands and in the banks of a match's factions.
pub open spec fn ore(w: WorldV) -> int {
    crate::world::total(w.ents, |e: EntV| e.minerals + e.carry) + w.minerals[0] + w.minerals[1]
        + w.minerals[2] + w.minerals[3]
}

/// Mining never creates minerals: what a worker takes leaves the patch, and what it delivers
/// leaves its hands. None are lost either, unless a worker with a part load mines again.
pub proof fn mining_conserves_ore(w: WorldV, i: int, h: Haul, dist: Num, timer: Num, aim: V2)
    requires
        w.minerals.len() == 4,
        0 <= i < w.ents.len(),
        w.ents[i].kind != Kind::Mineral,
        w.ents[i].team.idx() < MAX_FACTIONS,
        w.bank(w.ents[i].team) + w.ents[i].carry <= u32::MAX,
        h is Patch ==> h->Patch_0 < w.ents.len() && w.ents[h->Patch_0 as int].kind == Kind::Mineral,
    ensures
        ore(w.hauled(i, h, dist, timer, aim)) <= ore(w),
        w.ents[i].carry == 0 || !(h is Patch) ==> ore(w.hauled(i, h, dist, timer, aim)) == ore(w),
{
    let f = |e: EntV| e.minerals + e.carry;
    let e = w.ents[i];
    let v = w.hauled(i, h, dist, timer, aim);
    match h {
        Haul::Patch(m) => {
            let p = w.ents[m as int];
            if dist.at_most(Num::whole(MINE_REACH)) && (Num { bits: MINE_TIME_BITS }).at_most(timer) {
                let p2 = EntV { minerals: (p.minerals - load(p.minerals)) as u32, ..p };
                let w2 = w.with(m as int, p2);
                crate::world::lemma_total_update(w.ents, f, m as int, p2);
                crate::world::lemma_total_update(w2.ents, f, i, v.ents[i]);
                assert(w2.ents[i] == e);
            } else {
                crate::world::lemma_total_update(w.ents, f, i, v.ents[i]);
            }
        },
        _ => {
            crate::world::lemma_total_update(w.ents, f, i, v.ents[i]);
        },
    }
}

// ---- repairing ------------------------------------------------------------------------------

/// What becomes of a repair order.
#[derive(Clone, Copy, PartialEq, Eq, Structural, Debug)]
pub enum Fix {
    /// The building is gone, or is no building of ours.
    Gone,
    /// The building in a slot is whole again.
    Whole(usize),
    /// The building in a slot needs work.
    Work(usize),
}

/// What becomes of a worker's order to repair something.
pub open spec fn fix_of(w: WorldV, i: int, id: u32) -> Fix {
    match w.slot_of(id) {
        Some(b) => {
            let e = w.ents[b];
            if e.team == w.ents[i].team && is_building(e.kind) && e.hp.positive() {
                if e.max_hp.at_most(e.hp) {
                    Fix::Whole(b as usize)
                } else {
                    Fix::Work(b as usize)
                }
            } else {
                Fix::Gone
            }
        },
        None => Fix::Gone,
    }
}

/// Debts as they are paid off, one mineral at a time: all but the last are at least one.
pub open spec fn pays_off(owed: Seq<Num>) -> bool {
    &&& owed.len() > 0
    &&& forall|k: int|
        0 <= k < owed.len() - 1 ==> (Num { bits: ONE }).at_most(#[trigger] owed[k])
    &&& !(Num { bits: ONE }).at_most(owed.last())
}

impl WorldV {
    /// The match after a worker next to a building worked on it: it pays what it owes, one
    /// mineral at a time, as long as the bank has any; only if all is paid does the
    /// building get better.
    pub open spec fn worked_on(self, i: int, b: int, owed: Seq<Num>, hp: Num) -> WorldV {
        let t = self.ents[i].team;
        let due = owed.len() - 1;
        let paid = if self.bank(t) < due {
            self.bank(t) as int
        } else {
            due
        };
        let w = self.spent(t, paid).with(
            i,
            EntV { goal: None, repair_owed: owed[paid], ..self.ents[i] },
        );
        if paid < due {
            w
        } else {
            w.with(b, EntV { hp, ..w.ents[b] })
        }
    }

    /// The match after a worker took its turn at repairing, at distance `dist` from the
    /// building.
    pub open spec fn repaired(
        self,
        i: int,
        f: Fix,
        dist: Num,
        owed: Seq<Num>,
        hp: Num,
        patch: Option<usize>,
    ) -> WorldV {
        match f {
            Fix::Gone => self.with(i, moved_along(self.ents[i])),
            Fix::Whole(b) => if self.ents[i].order_queue.len() == 0 {
                self.put_to_mine(i, patch)
            } else {
                self.with(i, moved_along(self.ents[i]))
            },
            Fix::Work(b) => {
                let reach = Num::whole(
                    (radius(Kind::Worker) + radius(self.ents[b as int].kind) + 6) as u32,
                );
                if reach.less(dist) {
                    self.with(i, EntV { goal: Some(self.ents[b as int].pos), ..self.ents[i] })
                } else {
                    self.worked_on(i, b as int, owed, hp)
                }
            },
        }
    }
}

impl World {
    /// What becomes of a worker's order to repair something.
    pub fn repair_target(&self, i: usize, id: u32) -> (f: Fix)
        requires
            i < self@.ents.len(),
        ensures
            f == fix_of(self@, i as int, id),
            f is Whole ==> f->Whole_0 < self@.ents.len(),
            f is Work ==> f->Work_0 < self@.ents.len() && is_building(self@.ents[f->Work_0 as int].kind),
    {
        assert(self@.ents[i as int] == self.ents@[i as int]@);
        match self.index_of(id) {
            Some(b) => {
                assert(self@.ents[b as int] == self.ents@[b as int]@);
                if self.ents[b].team == self.ents[i].team && is_building(self.ents[b].kind)
                    && self.ents[b].hp.positive() {
                    if self.ents[b].max_hp.at_most(self.ents[b].hp) {
                        Fix::Whole(b)
                    } else {
                        Fix::Work(b)
                    }
                } else {
                    Fix::Gone
                }
            },
            None => Fix::Gone,
        }
    }

    /// Takes a worker's turn at repairing: to the building, then work on it for as long as
    /// the bank pays. `owed` is the debt after the tick and after each mineral paid, `hp` the
    /// building's hit points after the tick, `score` the patches' scores for a worker that is
    /// done. Returns how many minerals were paid.
    pub fn run_repair(&mut self, i: usize, f: Fix, dist: Num, owed: &Vec<Num>, hp: Num, score: &Vec<Num>) -> (paid: u32)
        requires
            old(self).wf(),
            i < old(self)@.ents.len(),
            !is_building(old(self)@.ents[i as int].kind),
            f is Work ==> f->Work_0 < old(self)@.ents.len() && is_building(
                old(self)@.ents[f->Work_0 as int].kind,
            ),
            pays_off(owed@),
            owed@.len() <= u32::MAX,
            score@.len() == old(self)@.ents.len(),
        ensures
            final(self).wf(),
            exists|patch: Option<usize>| #[trigger]
                first_least(old(self)@.ents, minable(), score@, Num { bits: FAR_BITS }, patch)
                    && final(self)@ == old(self)@.repaired(i as int, f, dist, owed@, hp, patch),
            paid == old(self)@.bank(old(self)@.ents[i as int].team) - final(self)@.bank(
                old(self)@.ents[i as int].team,
            ),
    {
        let ghost w0 = self@;
        let ghost e0 = w0.ents[i as int];
        assert(e0 == self.ents@[i as int]@);
        let patch = self.pick_patch(score);
        match f {
            Fix::Gone => {
                self.advance_order(i);
                assert(self@ == w0.repaired(i as int, f, dist, owed@, hp, patch));
                0
            },
            Fix::Whole(_) => {
                if self.ents[i].order_queue.len() == 0 {
                    if let Some(m) = patch {
                        assert(w0.ents[m as int] == self.ents@[m as int]@);
                        let id: u32 = self.ents[m].id;
                        self.reorder(i, Order::Gather(id));
                    }
                } else {
                    self.advance_order(i);
                }
                assert(self@ == w0.repaired(i as int, f, dist, owed@, hp, patch));
                0
            },
            Fix::Work(b) => {
                assert(w0.ents[b as int] == self.ents@[b as int]@);
                assert(b != i);
                let reach: u32 = radius(Kind::Worker) + radius(self.ents[b].kind) + 6;
                if Num::whole(reach).less(dist) {
                    let at = self.ents[b].pos;
                    self.set_goal(i, Some(at));
                    assert(self@ == w0.repaired(i as int, f, dist, owed@, hp, patch));
                    return 0;
                }
                let team = self.ents[i].team;
                let due: u32 = (owed.len() - 1) as u32;
                let bank: u32 = self.team_min(team);
                let paid: u32 = if bank < due { bank } else { due };
                self.spend(team, paid);
                let ghost w1 = self@;
                assert(w1.ents == w0.ents);
                self.settle(i, owed[paid as usize]);
                let ghost w2 = self@;
                if paid >= due {
                    assert(w2.ents[b as int] == w0.ents[b as int]);
                    self.heal(b, hp);
                }
                assert(self@ == w0.repaired(i as int, f, dist, owed@, hp, patch));
                paid
            },
        }
    }

    fn settle(&mut self, i: usize, owed: Num)
        requires
            old(self).wf(),
            i < old(self)@.ents.len(),
        ensures
            final(self).wf(),
            final(self)@ == old(self)@.with(
                i as int,
                EntV { goal: None, repair_owed: owed, ..old(self)@.ents[i as int] },
            ),
    {
        let ghost v = self@;
        let ghost e = v.ents[i as int];
        assert(e == self.ents@[i as int]@);
        self.ents[i].goal = None;
        self.ents[i].repair_owed = owed;
        proof {
            let e2 = EntV { goal: None, repair_owed: owed, ..e };
            assert(self.ents@[i as int]@ =~= e2);
            assert(self@.ents =~= v.ents.update(i as int, e2));
        }
    }

    fn heal(&mut self, b: usize, hp: Num)
        requires
            old(self).wf(),
            b < old(self)@.ents.len(),
        ensures
            final(self).wf(),
            final(self)@ == old(self)@.with(b as int, EntV { hp, ..old(self)@.ents[b as int] }),
    {
        let ghost v = self@;
        let ghost e = v.ents[b as int];
        assert(e == self.ents@[b as int]@);
        self.ents[b].hp = hp;
        proof {
            assert(self.ents@[b as int]@ =~= EntV { hp, ..e });
            assert(self@.ents =~= v.ents.update(b as int, EntV { hp, ..e }));
        }
    }
}

/// Nobody heals for free: a building gets better only when the whole debt was paid.
pub proof fn no_free_repairs(w: WorldV, i: int, b: int, owed: Seq<Num>, hp: Num)
    requires
        0 <= i < w.ents.len(),
        0 <= b < w.ents.len(),
        i != b,
        owed.len() > 0,
        w.minerals.len() == 4,
        w.ents[b].hp != w.worked_on(i, b, owed, hp).ents[b].hp,
    ensures
        w.bank(w.ents[i].team) - w.worked_on(i, b, owed, hp).bank(w.ents[i].team) == owed.len() - 1,
{
}

// ---- training -------------------------------------------------------------------------------

/// What the clocks and the map say about a building's turn: what is left of raising it and
/// its hit points after the tick, its training clock after the tick, where a finished unit
/// appears, the squared distances from its rally point and the distance from there to the
/// nearest patch, and the patches' scores from where the unit appears.
pub struct Shift {
    pub left: Num,
    pub hp: Num,
    pub timer: Num,
    pub exit: V2,
    pub from_rally: Vec<Num>,
    pub rally_dist: Num,
    pub score: Vec<Num>,
}

impl Shift {
    pub open spec fn fits(&self, w: WorldV) -> bool {
        self.from_rally@.len() == w.ents.len() && self.score@.len() == w.ents.len()
    }
}

/// What a building's turn came to.
#[derive(Clone, Copy, PartialEq, Eq, Structural, Debug)]
pub enum Produced {
    /// Nothing.
    Nothing,
    /// It is still going up.
    Rising,
    /// It has just been finished.
    Online,
    /// It is training.
    Training,
    /// The unit in a slot has just been trained.
    Unit(usize),
}

/// What is announced of a new unit.
pub open spec fn ready_text(k: Kind) -> Seq<char> {
    match k {
        Kind::Worker => "WORKER READY"@,
        Kind::Tank => "TANK READY"@,
        _ => "SOLDIER READY"@,
    }
}

/// The order that a new unit of a building gets. Fighters attack on their way to the rally
/// point. A worker mines the patch under an explicit rally point, walks to one without, and
/// without any mines the patch with the least score.
pub open spec fn first_order(w: WorldV, b: EntV, k: Kind, under: Option<usize>, near: bool, patch: Option<usize>) -> Order {
    if k != Kind::Worker {
        Order::AttackMove(b.rally)
    } else if b.rally_set {
        if under is Some && near {
            Order::Gather(w.ents[under->0 as int].id)
        } else {
            Order::Move(b.rally)
        }
    } else if patch is Some {
        Order::Gather(w.ents[patch->0 as int].id)
    } else {
        Order::Idle
    }
}

impl WorldV {
    /// The match after a building that is going up took its turn.
    pub open spec fn risen(self, i: int, left: Num, hp: Num) -> (WorldV, Produced) {
        let e = self.ents[i];
        if left.at_most(Num { bits: 0 }) {
            let w = self.with(i, EntV { build_left: Num { bits: 0 }, hp: e.max_hp, ..e });
            (
                if e.team == self.my_team {
                    w.told("BUILDING ONLINE"@).heard(Sfx::Build, Some(e.pos))
                } else {
                    w
                },
                Produced::Online,
            )
        } else {
            (self.with(i, EntV { build_left: left, hp, ..e }), Produced::Rising)
        }
    }

    /// The match after a building with something queued took its turn.
    pub open spec fn drilled(self, i: int, s: Shift, under: Option<usize>, patch: Option<usize>) -> (
        WorldV,
        Produced,
    ) {
        let e = self.ents[i];
        let k = e.queue[0];
        if Num::whole(build_time(k)).at_most(s.timer) {
            let near = s.rally_dist.less(Num::whole(RALLY_REACH));
            let o = first_order(self, e, k, under, near, patch);
            let w = self.with(
                i,
                EntV { train_timer: Num { bits: 0 }, queue: e.queue.drop_first(), ..e },
            ).spawned(k, e.team, s.exit);
            let n = w.ents.len() - 1;
            let v = w.with(n, EntV { order: o, ..w.ents[n] });
            (
                if e.team == self.my_team {
                    v.told(ready_text(k)).heard(Sfx::Train, Some(e.pos))
                } else {
                    v
                },
                Produced::Unit(n as usize),
            )
        } else {
            (self.with(i, EntV { train_timer: s.timer, ..e }), Produced::Training)
        }
    }

    /// The match after the entity in slot `i` took its turn at producing.
    pub open spec fn produced(self, i: int, s: Shift, under: Option<usize>, patch: Option<usize>) -> (
        WorldV,
        Produced,
    ) {
        if self.ents[i].build_left.positive() {
            self.risen(i, s.left, s.hp)
        } else if self.ents[i].queue.len() == 0 {
            (self, Produced::Nothing)
        } else {
            self.drilled(i, s, under, patch)
        }
    }
}

impl World {
    /// Takes the turn of the entity in slot `i` at producing: a building that is going up
    /// gets on, and one with something queued trains it.
    pub fn production(&mut self, i: usize, s: &Shift) -> (p: Produced)
        requires
            old(self).wf(),
            old(self).has_room(),
            i < old(self)@.ents.len(),
            s.fits(old(self)@),
        ensures
            final(self).wf(),
            exists|under: Option<usize>, patch: Option<usize>| #[trigger]
                first_least(old(self)@.ents, minable(), s.from_rally@, Num { bits: FAR_BITS }, under)
                    && #[trigger] first_least(
                    old(self)@.ents,
                    minable(),
                    s.score@,
                    Num { bits: FAR_BITS },
                    patch,
                ) && (final(self)@, p) == old(self)@.produced(i as int, *s, under, patch),
    {
        let ghost w0 = self@;
        let ghost e0 = w0.ents[i as int];
        assert(e0 == self.ents@[i as int]@);
        let under = self.nearest_mineral(&s.from_rally);
        let patch = self.pick_patch(&s.score);
        if self.ents[i].build_left.positive() {
            let p = self.rise(i, s.left, s.hp);
            assert((self@, p) == w0.produced(i as int, *s, under, patch));
            return p;
        }
        if self.ents[i].queue.len() == 0 {
            assert((self@, Produced::Nothing) == w0.produced(i as int, *s, under, patch));
            return Produced::Nothing;
        }
        let k = self.ents[i].queue[0];
        if !Num::whole(build_time(k)).at_most(s.timer) {
            self.clock(i, s.timer);
            assert((self@, Produced::Training) == w0.produced(i as int, *s, under, patch));
            return Produced::Training;
        }
        let near: bool = s.rally_dist.less(Num::whole(RALLY_REACH));
        let rally = self.ents[i].rally;
        let order: Order = if k != Kind::Worker {
            Order::AttackMove(rally)
        } else if self.ents[i].rally_set {
            match under {
                Some(m) => {
                    assert(w0.ents[m as int] == self.ents@[m as int]@);
                    if near {
                        Order::Gather(self.ents[m].id)
                    } else {
                        Order::Move(rally)
                    }
                },
                None => Order::Move(rally),
            }
        } else {
            match patch {
                Some(m) => {
                    assert(w0.ents[m as int] == self.ents@[m as int]@);
                    Order::Gather(self.ents[m].id)
                },
                None => Order::Idle,
            }
        };
        assert(order == first_order(w0, e0, k, under, near, patch));
        let p = self.finish_unit(i, k, s.exit, order);
        assert((self@, p) == w0.drilled(i as int, *s, under, patch));
        p
    }

    fn rise(&mut self, i: usize, left: Num, hp: Num) -> (p: Produced)
        requires
            old(self).wf(),
            i < old(self)@.ents.len(),
        ensures
            final(self).wf(),
            (final(self)@, p) == old(self)@.risen(i as int, left, hp),
    {
        let ghost w0 = self@;
        let ghost e0 = w0.ents[i as int];
        assert(e0 == self.ents@[i as int]@);
        if left.at_most(Num { bits: 0 }) {
            let full = self.ents[i].max_hp;
            self.mend(i, Num { bits: 0 }, full);
            let at = self.ents[i].pos;
            assert(self@.ents[i as int] == self.ents@[i as int]@);
            if self.ents[i].team == self.my_team {
                self.msg("BUILDING ONLINE");
                self.push_sound(Sfx::Build, Some(at));
            }
            Produced::Online
        } else {
            self.mend(i, left, hp);
            Produced::Rising
        }
    }

    fn mend(&mut self, i: usize, left: Num, hp: Num)
        requires
            old(self).wf(),
            i < old(self)@.ents.len(),
        ensures
            final(self).wf(),
            final(self).ents@.len() == old(self).ents@.len(),
            final(self)@ == old(self)@.with(
                i as int,
                EntV { build_left: left, hp, ..old(self)@.ents[i as int] },
            ),
    {
        let ghost v = self@;
        let ghost e = v.ents[i as int];
        assert(e == self.ents@[i as int]@);
        self.ents[i].build_left = left;
        self.ents[i].hp = hp;
        proof {
            let e2 = EntV { build_left: left, hp, ..e };
            assert(self.ents@[i as int]@ =~= e2);
            assert(self@.ents =~= v.ents.update(i as int, e2));
        }
    }

    fn clock(&mut self, i: usize, timer: Num)
        requires
            old(self).wf(),
            i < old(self)@.ents.len(),
        ensures
            final(self).wf(),
            final(self)@ == old(self)@.with(
                i as int,
                EntV { train_timer: timer, ..old(self)@.ents[i as int] },
            ),
    {
        let ghost v = self@;
        let ghost e = v.ents[i as int];
        assert(e == self.ents@[i as int]@);
        self.ents[i].train_timer = timer;
        proof {
            assert(self.ents@[i as int]@ =~= EntV { train_timer: timer, ..e });
            assert(self@.ents =~= v.ents.update(i as int, EntV { train_timer: timer, ..e }));
        }
    }

    fn unshift(&mut self, i: usize)
        requires
            old(self).wf(),
            i < old(self)@.ents.len(),
            old(self)@.ents[i as int].queue.len() > 0,
        ensures
            final(self).wf(),
            final(self).ents@.len() == old(self).ents@.len(),
            final(self)@ == old(self)@.with(
                i as int,
                EntV {
                    train_timer: Num { bits: 0 },
                    queue: old(self)@.ents[i as int].queue.drop_first(),
                    ..old(self)@.ents[i as int]
                },
            ),
    {
        let ghost v = self@;
        let ghost e = v.ents[i as int];
        assert(e == self.ents@[i as int]@);
        self.ents[i].train_timer = Num { bits: 0 };
        let gone = self.ents[i].queue.remove(0);
        proof {
            let e2 = EntV { train_timer: Num { bits: 0 }, queue: e.queue.drop_first(), ..e };
            assert(self.ents@[i as int].queue@ =~= e2.queue);
            assert(self.ents@[i as int]@ =~= e2);
            assert(self@.ents =~= v.ents.update(i as int, e2));
        }
    }

    fn finish_unit(&mut self, i: usize, k: Kind, exit: V2, order: Order) -> (p: Produced)
        requires
            old(self).wf(),
            old(self).has_room(),
            i < old(self)@.ents.len(),
            old(self)@.ents[i as int].queue.len() > 0,
            k == old(self)@.ents[i as int].queue[0],
        ensures
            final(self).wf(),
            ({
                let e = old(self)@.ents[i as int];
                let w = old(self)@.with(
                    i as int,
                    EntV { train_timer: Num { bits: 0 }, queue: e.queue.drop_first(), ..e },
                ).spawned(k, e.team, exit);
                let n = w.ents.len() - 1;
                let v = w.with(n, EntV { order, ..w.ents[n] });
                &&& p == Produced::Unit(n as usize)
                &&& final(self)@ == (if e.team == old(self)@.my_team {
                    v.told(ready_text(k)).heard(Sfx::Train, Some(e.pos))
                } else {
                    v
                })
            }),
    {
        let ghost e0 = self@.ents[i as int];
        assert(e0 == self.ents@[i as int]@);
        let team = self.ents[i].team;
        let at = self.ents[i].pos;
        self.unshift(i);
        let n: usize = self.spawn(k, team, exit);
        self.reorder(n, order);
        if team == self.my_team {
            match k {
                Kind::Worker => self.msg("WORKER READY"),
                Kind::Tank => self.msg("TANK READY"),
                _ => self.msg("SOLDIER READY"),
            }
            self.push_sound(Sfx::Train, Some(at));
        }
        Produced::Unit(n)
    }
}

/// Finishing a unit moves it from the queue to the map: the population that a faction has
/// and is going to have stays the same.
pub proof fn training_keeps_population(w: WorldV, i: int, s: Shift, under: Option<usize>, patch: Option<usize>, t: Team)
    requires
        0 <= i < w.ents.len(),
        w.ents[i].queue.len() > 0,
    ensures
        ({
            let v = w.drilled(i, s, under, patch).0;
            v.used(t) + v.queued(t) == w.used(t) + w.queued(t)
        }),
{
    let e = w.ents[i];
    let k = e.queue[0];
    let v = w.drilled(i, s, under, patch).0;
    let fm = crate::world::mouths(t);
    let fu = crate::world::unborn(t);
    if Num::whole(build_time(k)).at_most(s.timer) {
        let e2 = EntV { train_timer: Num { bits: 0 }, queue: e.queue.drop_first(), ..e };
        let w1 = w.with(i, e2);
        let w2 = w1.spawned(k, e.team, s.exit);
        let n = w2.ents.len() - 1;
        crate::world::lemma_total_update(w.ents, fm, i, e2);
        crate::world::lemma_total_update(w.ents, fu, i, e2);
        let b = w2.ents[n];
        crate::world::lemma_total_push(w1.ents, fm, b);
        crate::world::lemma_total_push(w1.ents, fu, b);
        assert(w2.ents =~= w1.ents.push(b));
        crate::world::lemma_total_update(w2.ents, fm, n, v.ents[n]);
        crate::world::lemma_total_update(w2.ents, fu, n, v.ents[n]);
        assert(v.ents =~= w2.ents.update(n, v.ents[n]));
        lemma_queue_front(e.queue);
    } else {
        let e2 = EntV { train_timer: s.timer, ..e };
        crate::world::lemma_total_update(w.ents, fm, i, e2);
        crate::world::lemma_total_update(w.ents, fu, i, e2);
    }
}

proof fn lemma_queue_front(q: Seq<Kind>)
    requires
        q.len() > 0,
    ensures
        crate::world::queue_supply(q) == crate::kind::supply_cost(q[0]) + crate::world::queue_supply(
            q.drop_first(),
        ),
    decreases q.len(),
{
    if q.len() > 1 {
        lemma_queue_front(q.drop_last());
        assert(q.drop_last().drop_first() =~= q.drop_first().drop_last());
    } else {
        assert(q.drop_last() =~= Seq::<Kind>::empty());
        assert(q.drop_first() =~= Seq::<Kind>::empty());
    }
}

// ---- what holds of work -----------------------------------------------------------------------

/// A finished unit and the order it sets out with. A worker whose base has no rally point goes
/// mining of itself as soon as there is a patch for it, one with something left; with a rally
/// point on a patch it mines there, and with one elsewhere it walks there. A fighter attacks
/// its way to the rally point. The unit is of the building's side and of the kind that was
/// first in line, it stands at the exit, and the line moves up.
pub proof fn new_units_set_out(w: WorldV, i: int, s: Shift, under: Option<usize>, patch: Option<usize>, j: int)
    requires
        w.ents.len() <= usize::MAX,
        0 <= i < w.ents.len(),
        0 <= j < w.ents.len(),
        first_least(w.ents, minable(), s.from_rally@, Num { bits: FAR_BITS }, under),
        first_least(w.ents, minable(), s.score@, Num { bits: FAR_BITS }, patch),
        w.produced(i, s, under, patch).1 is Unit,
    ensures
        ({
            let b = w.ents[i];
            let v = w.produced(i, s, under, patch).0;
            let n = w.ents.len() as int;
            let u = v.ents[n];
            let ore = w.ents[j].kind == Kind::Mineral && w.ents[j].minerals > 0;
            &&& w.produced(i, s, under, patch).1 == Produced::Unit(n as usize)
            &&& v.ents.len() == n + 1
            &&& b.queue.len() > 0 && u.kind == b.queue[0] && u.team == b.team && u.pos == s.exit
            &&& v.ents[i].queue == b.queue.drop_first()
            &&& v.ents[i] == EntV { queue: v.ents[i].queue, train_timer: Num { bits: 0 }, ..b }
            &&& u.kind == Kind::Worker && !b.rally_set && ore && s.score@[j].less(Num { bits: 0x7F7F_FFFF })
                ==> u.order is Gather && exists|m: int|
                0 <= m < n && (#[trigger] w.ents[m]).kind == Kind::Mineral && w.ents[m].minerals > 0 && u.order
                    == Order::Gather(w.ents[m].id) && !s.score@[j].less(s.score@[m])
            &&& u.kind == Kind::Worker && b.rally_set && ore && s.from_rally@[j].less(Num { bits: 0x7F7F_FFFF })
                && s.rally_dist.less(Num::whole(40)) ==> u.order is Gather && exists|m: int|
                0 <= m < n && (#[trigger] w.ents[m]).kind == Kind::Mineral && w.ents[m].minerals > 0 && u.order
                    == Order::Gather(w.ents[m].id) && !s.from_rally@[j].less(s.from_rally@[m])
            &&& u.kind == Kind::Worker && b.rally_set && !s.rally_dist.less(Num::whole(40)) ==> u.order
                == Order::Move(b.rally)
            &&& u.kind != Kind::Worker ==> u.order == Order::AttackMove(b.rally)
        }),
{
    let b = w.ents[i];
    if patch is Some {
        assert(w.ents[patch->0 as int].kind == Kind::Mineral);
    }
    if under is Some {
        assert(w.ents[under->0 as int].kind == Kind::Mineral);
    }
    if w.ents[j].kind == Kind::Mineral && w.ents[j].minerals > 0 {
        assert(minable()(w.ents[j]));
    }
}

/// A building's turn: while it rises it trains nothing, and it is online, at full strength, as
/// soon as its time is up. With nothing in line nothing happens. A unit takes its full time,
/// and is there as soon as that is up. Others are left alone.
pub proof fn buildings_take_their_time(w: WorldV, i: int, s: Shift, under: Option<usize>, patch: Option<usize>, j: int)
    requires
        0 <= i < w.ents.len(),
        0 <= j < w.ents.len(),
    ensures
        ({
            let b = w.ents[i];
            let (v, p) = w.produced(i, s, under, patch);
            let rising = b.build_left.positive();
            let up = s.left.at_most(Num { bits: 0 });
            let full = b.queue.len() > 0 && Num::whole(build_time(b.queue[0])).at_most(s.timer);
            &&& p == Produced::Online <==> rising && up
            &&& p == Produced::Rising <==> rising && !up
            &&& p == Produced::Nothing <==> !rising && b.queue.len() == 0
            &&& p is Unit <==> !rising && full
            &&& p == Produced::Training <==> !rising && b.queue.len() > 0 && !full
            &&& p == Produced::Online ==> v.ents[i] == EntV { build_left: Num { bits: 0 }, hp: b.max_hp, ..b }
            &&& p == Produced::Rising ==> v.ents[i] == EntV { build_left: s.left, hp: s.hp, ..b }
            &&& p == Produced::Nothing ==> v == w
            &&& p == Produced::Training ==> v.ents[i] == EntV { train_timer: s.timer, ..b }
            &&& !(p is Unit) ==> v.ents.len() == w.ents.len()
            &&& j != i ==> v.ents[j] == w.ents[j]
            &&& v.minerals == w.minerals && v.rng == w.rng && v.time == w.time && v.kills == w.kills
        }),
{
}

/// A worker looking for work is sent to a patch with something left, the best by the scores,
/// whenever there is one; and without one it keeps its order.
pub proof fn idle_hands_find_a_patch(w: WorldV, i: int, score: Seq<Num>, patch: Option<usize>, j: int)
    requires
        0 <= i < w.ents.len(),
        0 <= j < w.ents.len(),
        first_least(w.ents, minable(), score, Num { bits: FAR_BITS }, patch),
    ensures
        ({
            let v = w.put_to_mine(i, patch);
            &&& w.ents[j].kind == Kind::Mineral && w.ents[j].minerals > 0 && score[j].less(
                Num { bits: 0x7F7F_FFFF },
            ) ==> v.ents[i].order is Gather && exists|m: int|
                0 <= m < w.ents.len() && (#[trigger] w.ents[m]).kind == Kind::Mineral && w.ents[m].minerals > 0
                    && v.ents[i].order == Order::Gather(w.ents[m].id) && !score[j].less(score[m])
            &&& patch is None ==> v == w
            &&& v == w.with(i, EntV { order: v.ents[i].order, ..w.ents[i] }) || v == w
        }),
{
    if patch is Some {
        assert(w.ents[patch->0 as int].kind == Kind::Mineral);
    }
    if w.ents[j].kind == Kind::Mineral && w.ents[j].minerals > 0 {
        assert(minable()(w.ents[j]));
    }
}

/// A building is started where it was planned, for the side that planned it, with all of its
/// time still to go, and at no further cost; its builder turns to the next plan, and to mining
/// after the last.
pub proof fn buildings_are_started(w: WorldV, i: int, k: Kind, site: V2, hp: Num, rally: V2, patch: Option<usize>)
    requires
        0 <= i < w.ents.len(),
        patch is Some ==> patch->0 < w.ents.len(),
    ensures
        ({
            let v = w.raised(i, k, site, hp, rally, patch);
            let n = w.ents.len() as int;
            let b = v.ents[n];
            let e = w.ents[i];
            &&& v.ents.len() == n + 1
            &&& b.kind == k && b.team == e.team && b.pos == site && b.rally == rally && b.hp == hp && b.build_left
                == Num::whole(build_time(k)) && b.id == w.next_id && b.queue.len() == 0
            &&& e.build_queue.len() > 0 ==> v.ents[i].order == Order::Build(e.build_queue[0].0, e.build_queue[0].1)
                && v.ents[i].build_queue == e.build_queue.drop_first()
            &&& e.build_queue.len() == 0 && patch is Some ==> v.ents[i].order == Order::Gather(
                w.ents[patch->0 as int].id,
            )
            &&& e.build_queue.len() == 0 && patch is None ==> v.ents[i] == e
            &&& v.minerals == w.minerals
            &&& forall|j: int| 0 <= j < n && j != i ==> #[trigger] v.ents[j] == w.ents[j]
        }),
{
}

/// A miner with room in its hands keeps to its patch while there is anything left of it, and
/// otherwise goes to the best of the others; one with full hands, eight minerals, goes to the
/// nearest base of its own. It is at a loss only when there is none.
pub proof fn miners_know_their_way(w: WorldV, i: int, patch: u32, score: Seq<Num>, home: Seq<Num>, h: Haul, j: int)
    requires
        w.ents.len() <= usize::MAX,
        0 <= i < w.ents.len(),
        0 <= j < w.ents.len(),
        headed(w, i, patch, score, home, h),
    ensures
        ({
            let e = w.ents[i];
            let far = Num { bits: 0x7F7F_FFFF };
            let ore = w.ents[j].kind == Kind::Mineral && w.ents[j].minerals > 0;
            let own = match w.slot_of(patch) {
                Some(m) => w.ents[m].kind == Kind::Mineral && w.ents[m].minerals > 0,
                None => false,
            };
            &&& e.carry < 8 && own ==> h is Patch && h->Patch_0 == w.slot(patch)
            &&& e.carry < 8 && ore && score[j].less(far) ==> h is Patch
            &&& e.carry < 8 && !own && h is Patch ==> h->Patch_0 < w.ents.len() && w.ents[h->Patch_0 as int].kind
                == Kind::Mineral && w.ents[h->Patch_0 as int].minerals > 0 && (ore && score[j].less(far) ==> !score[j].less(
                score[h->Patch_0 as int],
            ))
            &&& e.carry < 8 ==> h is Patch || h is NoPatch
            &&& e.carry >= 8 ==> h is Base || h is NoBase
            &&& e.carry >= 8 && w.ents[j].kind == Kind::Base && w.ents[j].team == e.team && home[j].less(far) ==> h is Base
                && !home[j].less(home[h->Base_0 as int])
            &&& h is Base ==> h->Base_0 < w.ents.len() && w.ents[h->Base_0 as int].kind == Kind::Base
                && w.ents[h->Base_0 as int].team == e.team
        }),
{
    let e = w.ents[i];
    let f = |x: EntV| x.id == patch;
    crate::world::lemma_first_slot(w.ents, f);
    if w.ents[j].kind == Kind::Mineral && w.ents[j].minerals > 0 {
        assert(minable()(w.ents[j]));
    }
    if w.ents[j].kind == Kind::Base && w.ents[j].team == e.team {
        assert(base_of(e.team)(w.ents[j]));
    }
}

/// A miner's turn. At its patch it fills its hands once it has worked its time, with eight
/// minerals or what is left, and the patch has as many fewer; before that it only works on,
/// and away from the patch it walks there. At a base it delivers everything it carries, and the
/// bank has as many more; away from it it walks there, its load untouched.
pub proof fn miners_fill_and_empty_their_hands(w: WorldV, i: int, h: Haul, dist: Num, timer: Num, aim: V2)
    requires
        0 <= i < w.ents.len(),
        w.ents[i].kind != Kind::Mineral,
        w.minerals.len() == MAX_FACTIONS,
        w.ents[i].team.idx() < MAX_FACTIONS,
        w.bank(w.ents[i].team) + w.ents[i].carry <= u32::MAX,
        h is Patch ==> h->Patch_0 < w.ents.len() && w.ents[h->Patch_0 as int].kind == Kind::Mineral,
        h is Base ==> h->Base_0 < w.ents.len(),
    ensures
        ({
            let e = w.ents[i];
            let v = w.hauled(i, h, dist, timer, aim);
            let u = v.ents[i];
            let bank = v.minerals[e.team.idx() as int];
            &&& h is Patch ==> ({
                let p = w.ents[h->Patch_0 as int];
                let q = v.ents[h->Patch_0 as int];
                let there = dist.at_most(Num::whole(26));
                let full = (Num { bits: 0x3FA6_6666 }).at_most(timer);
                let load = if p.minerals < 8 {
                    p.minerals as int
                } else {
                    8
                };
                &&& u.order == Order::Gather(p.id)
                &&& v.minerals == w.minerals
                &&& there && full ==> u.carry == load && q.minerals == p.minerals - load && u.mine_timer == (
                Num { bits: 0 }) && u.goal is None
                &&& there && !full ==> u.carry == e.carry && q.minerals == p.minerals && u.mine_timer == timer
                    && u.goal is None
                &&& !there ==> u.carry == e.carry && q.minerals == p.minerals && u.goal == Some(aim) && u.mine_timer
                    == e.mine_timer
            })
            &&& h is Base && dist.at_most(Num::whole(43)) ==> u.carry == 0 && u.goal is None && bank
                == w.minerals[e.team.idx() as int] + e.carry && u.order == e.order
            &&& h is Base && !dist.at_most(Num::whole(43)) ==> u.carry == e.carry && v.minerals == w.minerals && u.goal
                == Some(w.ents[h->Base_0 as int].pos) && u.order == e.order
            &&& h is NoPatch ==> v == w.with(i, EntV { order: Order::Idle, ..e })
            &&& h is NoBase ==> v == w.with(i, EntV { goal: None, ..e })
        }),
{
}

/// A repairer's order stands while the building stands, is of its own side and is hurt; a
/// building that is whole again is left, and so is one that is gone or is no business of
/// theirs.
pub proof fn repairs_are_for_own_hurt_buildings(w: WorldV, i: int, id: u32)
    requires
        w.ents.len() <= usize::MAX,
        0 <= i < w.ents.len(),
    ensures
        ({
            let f = fix_of(w, i, id);
            match w.slot_of(id) {
                None => f == Fix::Gone,
                Some(b) => {
                    let e = w.ents[b];
                    let ours = e.team == w.ents[i].team && e.hp.positive() && (e.kind == Kind::Base || e.kind
                        == Kind::Barracks || e.kind == Kind::Factory || e.kind == Kind::Depot);
                    &&& !ours ==> f == Fix::Gone
                    &&& ours && e.max_hp.at_most(e.hp) ==> f == Fix::Whole(b as usize)
                    &&& ours && !e.max_hp.at_most(e.hp) ==> f == Fix::Work(b as usize)
                },
            }
        }),
{
}

/// A repairer next to its building pays for every mineral owed while the bank lasts, and the
/// building gets better exactly if all was paid; away from it it walks there, and nothing is
/// paid. Done, it takes up its next order, or mines.
pub proof fn repairs_are_paid_as_they_go(
    w: WorldV,
    i: int,
    b: int,
    dist: Num,
    owed: Seq<Num>,
    hp: Num,
    patch: Option<usize>,
)
    requires
        w.ents.len() <= usize::MAX,
        0 <= i < w.ents.len(),
        0 <= b < w.ents.len(),
        i != b,
        owed.len() > 0,
        w.minerals.len() == MAX_FACTIONS,
        w.ents[i].team.idx() < MAX_FACTIONS,
        patch is Some ==> patch->0 < w.ents.len(),
    ensures
        ({
            let e = w.ents[i];
            let t = e.team.idx() as int;
            let v = w.repaired(i, Fix::Work(b as usize), dist, owed, hp, patch);
            let reach = Num::whole((radius(Kind::Worker) + radius(w.ents[b].kind) + 6) as u32);
            let due = owed.len() - 1;
            &&& reach.less(dist) ==> v == w.with(i, EntV { goal: Some(w.ents[b].pos), ..e })
            &&& !reach.less(dist) && w.minerals[t] >= due ==> v.minerals[t] == w.minerals[t] - due && v.ents[b] == (
            EntV { hp, ..w.ents[b] }) && v.ents[i] == (EntV { goal: None, repair_owed: owed[due], ..e })
            &&& !reach.less(dist) && w.minerals[t] < due ==> v.minerals[t] == 0 && v.ents[b] == w.ents[b]
                && v.ents[i].goal is None && v.ents[i].repair_owed == owed[w.minerals[t] as int]
            &&& forall|j: int| 0 <= j < w.ents.len() && j != i && j != b ==> #[trigger] v.ents[j] == w.ents[j]
            &&& e.order_queue.len() > 0 ==> w.repaired(i, Fix::Whole(b as usize), dist, owed, hp, patch).ents[i].order
                == e.order_queue[0]
            &&& e.order_queue.len() == 0 && patch is Some ==> w.repaired(
                i,
                Fix::Whole(b as usize),
                dist,
                owed,
                hp,
                patch,
            ).ents[i].order == Order::Gather(w.ents[patch->0 as int].id)
            &&& w.repaired(i, Fix::Gone, dist, owed, hp, patch).ents[i].order == (if e.order_queue.len() > 0 {
                e.order_queue[0]
            } else {
                Order::Idle
            })
        }),
{
}

/// Six units from a point count as there: nearer than that the order is done, and from farther
/// off one walks on towards it.
pub proof fn walkers_arrive(e: EntV, p: V2, dist: Num)
    ensures
        dist.less(Num::whole(6)) ==> walked(e, p, dist).goal is None && walked(e, p, dist).order == (
        if e.order_queue.len() > 0 {
            e.order_queue[0]
        } else {
            Order::Idle
        }),
        !dist.less(Num::whole(6)) ==> walked(e, p, dist) == (EntV { goal: Some(p), ..e }),
{
}

/// How near a builder must be to its site, with both radii and a little.
pub proof fn sites_are_reached(k: Kind, worker: Kind)
    ensures
        site_reach(k, worker) == radius(k) + radius(worker) + 6,
{
}

} // verus!
