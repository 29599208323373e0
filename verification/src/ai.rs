//! The computer opponent. It knows only what its own units see, scouts for more, builds up
//! by its rolled temperament, and picks from a few intents on an irregular timer. Points and
//! probabilities are computed by whoever drives the match; what is decided on them is decided
//! here.

use vstd::prelude::*;
use crate::combat::{slots_are_all_listed, slots_where};
use crate::kind::{cost, is_army, is_building, supply_cost, tie_key, Kind, Team, MAX_FACTIONS};
use crate::num::{Num, V2};
use crate::orders::Site;
use crate::rng::{frac24, xorshift};
use crate::world::{first_slot, lemma_first_slot, lemma_first_slot_is, total, EntV, Order, World, WorldV};

verus! {

/// How many buildings of others a computer remembers.
pub const KNOWN_MAX: usize = 16;

/// Workers a computer trains at most.
pub const WORKERS_MAX: u32 = 26;

/// Squared radius around a base in which a foe is a threat.
pub const THREAT_SQ: u32 = 129_600;

/// A temperament.
#[derive(Clone, Copy, PartialEq, Eq, Structural, Debug)]
pub enum Strategy {
    /// Early aggression.
    Rush,
    /// A fat economy and big late armies.
    Macro,
    /// Tanks.
    Mech,
    /// A bit of everything.
    Standard,
}

/// What a computer is trying to do.
#[derive(Clone, Copy, PartialEq, Eq, Structural, Debug)]
pub enum Intent {
    /// Build up; the army gathers.
    Build,
    /// Send a small squad to poke a target.
    Harass(V2),
    /// Throw the whole army at a point.
    Commit(V2),
    /// Pretend to, then peel back.
    Feint(V2),
    /// Meet a threat at home.
    Defend(V2),
}

/// What a computer is like and what it knows.
pub struct AiState {
    pub think: Num,
    pub staging: V2,
    pub expanded: bool,
    pub strategy: Strategy,
    pub worker_target: u32,
    pub tank_ratio: Num,
    pub pyro_ratio: Num,
    pub raider_ratio: Num,
    pub sapper_ratio: Num,
    pub mortar_ratio: Num,
    pub expand_min: u32,
    pub harass: bool,
    pub aggression: Num,
    pub patience: Num,
    pub intent: Intent,
    pub intent_timer: Num,
    pub commit_army: u32,
    pub scout_id: u32,
    pub scout_timer: Num,
    pub player_main: V2,
    pub seen_army_pos: V2,
    pub seen_army_supply: u32,
    pub seen_army_age: Num,
    pub known: Vec<(V2, Kind)>,
}

/// Whether a team is a foe of another: a different one, and no neutral.
pub open spec fn spec_is_foe(team: Team, me: Team) -> bool {
    team != me && team != Team::Neutral
}

/// Whether a team is a foe of another: a different one, and no neutral.
#[verifier::when_used_as_spec(spec_is_foe)]
pub fn is_foe(team: Team, me: Team) -> (r: bool)
    ensures
        r == spec_is_foe(team, me),
{
    team != me && team != Team::Neutral
}

// ---- rolling a temperament --------------------------------------------------------------------

/// The temperament of a draw: a quarter each.
pub fn strategy_of(frac: u32) -> (s: Strategy)
    requires
        frac < 0x100_0000,
    ensures
        s == (if frac < 0x40_0000 {
            Strategy::Rush
        } else if frac < 0x80_0000 {
            Strategy::Macro
        } else if frac < 0xC0_0000 {
            Strategy::Mech
        } else {
            Strategy::Standard
        }),
{
    if frac < 0x40_0000 {
        Strategy::Rush
    } else if frac < 0x80_0000 {
        Strategy::Macro
    } else if frac < 0xC0_0000 {
        Strategy::Mech
    } else {
        Strategy::Standard
    }
}

/// What a temperament opens with: the fewest workers it wants, the minerals it saves up
/// before it expands, and whether it always harasses.
pub fn opening(s: Strategy) -> (r: (u32, u32, bool))
    ensures
        r == (match s {
            Strategy::Rush => (8u32, 900u32, true),
            Strategy::Macro => (14u32, 320u32, false),
            Strategy::Mech => (11u32, 600u32, false),
            Strategy::Standard => (11u32, 500u32, false),
        }),
{
    match s {
        Strategy::Rush => (8, 900, true),
        Strategy::Macro => (14, 320, false),
        Strategy::Mech => (11, 600, false),
        Strategy::Standard => (11, 500, false),
    }
}

// ---- census -------------------------------------------------------------------------------------

/// A count of a computer's own forces, by slots.
pub struct Census {
    pub workers: u32,
    pub idle_workers: Vec<usize>,
    pub barracks: Vec<usize>,
    pub factories: Vec<usize>,
    pub bases: Vec<usize>,
    pub army: Vec<usize>,
    pub army_supply: u32,
}

pub open spec fn up(e: EntV) -> bool {
    e.build_left.at_most(Num { bits: 0 })
}

pub open spec fn idle_worker(w: WorldV, me: Team) -> spec_fn(int) -> bool {
    |i: int|
        w.ents[i].team == me && w.ents[i].kind == Kind::Worker && w.ents[i].order == Order::Idle
}

pub open spec fn plant(w: WorldV, me: Team, k: Kind) -> spec_fn(int) -> bool {
    |i: int| w.ents[i].team == me && w.ents[i].kind == k && up(w.ents[i])
}

pub open spec fn base_at(w: WorldV, me: Team) -> spec_fn(int) -> bool {
    |i: int| w.ents[i].team == me && w.ents[i].kind == Kind::Base
}

pub open spec fn trooper(w: WorldV, me: Team, scout: u32) -> spec_fn(int) -> bool {
    |i: int| w.ents[i].team == me && is_army(w.ents[i].kind) && w.ents[i].id != scout
}

pub open spec fn worker_count(me: Team) -> spec_fn(EntV) -> int {
    |e: EntV|
        if e.team == me && e.kind == Kind::Worker {
            1
        } else {
            0
        }
}

pub open spec fn troop_supply(me: Team, scout: u32) -> spec_fn(EntV) -> int {
    |e: EntV|
        if e.team == me && is_army(e.kind) && e.id != scout {
            supply_cost(e.kind) as int
        } else {
            0
        }
}

impl World {
    /// Counts a computer's own forces; the scout is not part of the army.
    pub fn census(&self, me: Team, scout: u32) -> (c: Census)
        requires
            self.wf(),
        ensures
            c.workers == total(self@.ents, worker_count(me)),
            c.idle_workers@ == slots_where(self@.ents.len() as int, idle_worker(self@, me)),
            c.barracks@ == slots_where(self@.ents.len() as int, plant(self@, me, Kind::Barracks)),
            c.factories@ == slots_where(self@.ents.len() as int, plant(self@, me, Kind::Factory)),
            c.bases@ == slots_where(self@.ents.len() as int, base_at(self@, me)),
            c.army@ == slots_where(self@.ents.len() as int, trooper(self@, me, scout)),
            c.army_supply == total(self@.ents, troop_supply(me, scout)),
    {
        let ghost w = self@;
        let mut c = Census {
            workers: 0,
            idle_workers: Vec::new(),
            barracks: Vec::new(),
            factories: Vec::new(),
            bases: Vec::new(),
            army: Vec::new(),
            army_supply: 0,
        };
        let n: usize = self.ents.len();
        assert(w.ents.take(0) =~= Seq::<EntV>::empty());
        for i in 0..n
            invariant
                self.wf(),
                n == self.ents@.len(),
                w == self@,
                c.workers == total(w.ents.take(i as int), worker_count(me)),
                c.workers <= i,
                c.army_supply == total(w.ents.take(i as int), troop_supply(me, scout)),
                c.army_supply <= 3 * i,
                c.idle_workers@ == slots_where(i as int, idle_worker(w, me)),
                c.barracks@ == slots_where(i as int, plant(w, me, Kind::Barracks)),
                c.factories@ == slots_where(i as int, plant(w, me, Kind::Factory)),
                c.bases@ == slots_where(i as int, base_at(w, me)),
                c.army@ == slots_where(i as int, trooper(w, me, scout)),
        {
            proof {
                assert(w.ents.take(i + 1).drop_last() =~= w.ents.take(i as int));
                assert(w.ents.take(i + 1).last() == self.ents@[i as int]@);
                assert(w.ents[i as int] == self.ents@[i as int]@);
            }
            let e = &self.ents[i];
            if e.team == me {
                let raised: bool = e.build_left.at_most(Num { bits: 0 });
                let idle: bool = match e.order {
                    Order::Idle => true,
                    _ => false,
                };
                if e.kind == Kind::Worker {
                    c.workers = c.workers + 1;
                    if idle {
                        c.idle_workers.push(i);
                    }
                } else if is_army(e.kind) {
                    if e.id != scout {
                        c.army.push(i);
                        c.army_supply = c.army_supply + supply_cost(e.kind);
                    }
                } else if e.kind == Kind::Barracks {
                    if raised {
                        c.barracks.push(i);
                    }
                } else if e.kind == Kind::Factory {
                    if raised {
                        c.factories.push(i);
                    }
                } else if e.kind == Kind::Base {
                    c.bases.push(i);
                }
            }
        }
        assert(w.ents.take(n as int) =~= w.ents);
        c
    }

    /// Where a computer is at home: its first living base, or else its first building.
    pub fn anchor(&self, me: Team) -> (r: Option<usize>)
        ensures
            match r {
                Some(i) => i < self@.ents.len() && i == home(self@, me),
                None => home(self@, me) == self@.ents.len(),
            },
    {
        if let Some(i) = self.first_base(me) {
            return Some(i);
        }
        let ghost f = |e: EntV| e.team == me && is_building(e.kind);
        let mut i: usize = 0;
        assert(home(self@, me) == first_slot(self@.ents, f));
        while i < self.ents.len()
            invariant
                i <= self.ents@.len(),
                home(self@, me) == first_slot(self@.ents, f),
                f == (|e: EntV| e.team == me && is_building(e.kind)),
                forall|j: int| 0 <= j < i ==> !f(#[trigger] self@.ents[j]),
            decreases self.ents@.len() - i,
        {
            assert(self@.ents[i as int] == self.ents@[i as int]@);
            if self.ents[i].team == me && is_building(self.ents[i].kind) {
                proof {
                    lemma_first_slot_is(self@.ents, f, i as int);
                }
                assert(i == home(self@, me));
                return Some(i);
            }
            i = i + 1;
        }
        proof {
            lemma_first_slot_is(self@.ents, f, i as int);
        }
        assert(self@.ents.len() == home(self@, me));
        None
    }

    /// The base of a foe nearest to a point; of several at one distance, the one with the
    /// least tie-break key. A distance that is not a number beats none and is beaten by
    /// none.
    pub fn nearest_enemy_base(&self, me: Team, d: &Vec<Num>) -> (r: Option<usize>)
        requires
            d@.len() == self.ents@.len(),
        ensures
            r == (match base_so_far(self@.ents, me, d@, self@.ents.len() as int) {
                Some(i) => Some(i as usize),
                None => None,
            }),
            (forall|i: int| 0 <= i < d@.len() ==> !(#[trigger] d@[i]).is_nan()) ==> match r {
                Some(i) => {
                    &&& 0 <= i < self@.ents.len()
                    &&& foe_base(self@.ents[i as int], me)
                    &&& forall|j: int|
                        0 <= j < self@.ents.len() && foe_base(#[trigger] self@.ents[j], me)
                            ==> d@[i as int].less(d@[j]) || (d@[i as int].same(d@[j]) && tie_key(
                            self@.ents[i as int].id,
                        ) <= tie_key(self@.ents[j].id))
                },
                None => forall|j: int|
                    0 <= j < self@.ents.len() ==> !foe_base(#[trigger] self@.ents[j], me),
            },
    {
        let ghost ev = self@.ents;
        let mut best: Option<usize> = None;
        let n: usize = self.ents.len();
        for i in 0..n
            invariant
                n == self.ents@.len(),
                ev == self@.ents,
                d@.len() == n,
                match best {
                    Some(b) => b < i && base_so_far(ev, me, d@, i as int) == Some(b as int),
                    None => base_so_far(ev, me, d@, i as int) is None,
                },
                (forall|k: int| 0 <= k < d@.len() ==> !(#[trigger] d@[k]).is_nan()) ==> match best {
                    Some(b) => {
                        &&& b < i
                        &&& foe_base(ev[b as int], me)
                        &&& forall|j: int|
                            0 <= j < i && foe_base(#[trigger] ev[j], me) ==> d@[b as int].less(d@[j]) || (
                            d@[b as int].same(d@[j]) && tie_key(ev[b as int].id) <= tie_key(ev[j].id))
                    },
                    None => forall|j: int| 0 <= j < i ==> !foe_base(#[trigger] ev[j], me),
                },
        {
            assert(ev[i as int] == self.ents@[i as int]@);
            let e = &self.ents[i];
            if e.kind == Kind::Base && is_foe(e.team, me) {
                match best {
                    None => {
                        best = Some(i);
                    },
                    Some(b) => {
                        assert(ev[b as int] == self.ents@[b as int]@);
                        if d[i].less(d[b]) || (d[i].same(d[b]) && tie_key(e.id) < tie_key(
                            self.ents[b].id,
                        )) {
                            best = Some(i);
                        }
                    },
                }
            }
        }
        best
    }

    /// The first worker that is neither building nor scouting.
    pub fn pick_worker(&self, me: Team, scout: u32) -> (r: Option<usize>)
        ensures
            match r {
                Some(i) => i < self@.ents.len() && i == first_slot(self@.ents, free_hand(me, scout)),
                None => self@.ents.len() == first_slot(self@.ents, free_hand(me, scout)),
            },
    {
        let ghost f = free_hand(me, scout);
        let mut i: usize = 0;
        while i < self.ents.len()
            invariant
                i <= self.ents@.len(),
                f == free_hand(me, scout),
                forall|j: int| 0 <= j < i ==> !f(#[trigger] self@.ents[j]),
            decreases self.ents@.len() - i,
        {
            assert(self@.ents[i as int] == self.ents@[i as int]@);
            let e = &self.ents[i];
            let builds: bool = match e.order {
                Order::Build(_, _) => true,
                _ => false,
            };
            if e.team == me && e.kind == Kind::Worker && e.id != scout && !builds {
                proof {
                    lemma_first_slot_is(self@.ents, f, i as int);
                }
                return Some(i);
            }
            i = i + 1;
        }
        proof {
            lemma_first_slot_is(self@.ents, f, i as int);
        }
        None
    }

    /// Whether someone of a team is on the way to raise a building of a kind.
    pub fn pending(&self, kind: Kind, me: Team) -> (r: bool)
        ensures
            r == underway(self@, kind, me),
    {
        let mut i: usize = 0;
        while i < self.ents.len()
            invariant
                i <= self.ents@.len(),
                forall|j: int| 0 <= j < i ==> !raises(#[trigger] self@.ents[j], kind, me),
            decreases self.ents@.len() - i,
        {
            assert(self@.ents[i as int] == self.ents@[i as int]@);
            let e = &self.ents[i];
            let on_it: bool = match e.order {
                Order::Build(k, _) => k == kind,
                _ => false,
            };
            if e.team == me && on_it {
                assert(raises(self@.ents[i as int], kind, me));
                return true;
            }
            i = i + 1;
        }
        false
    }
}

/// Slot of a team's home, or one past the last slot.
pub open spec fn home(w: WorldV, me: Team) -> int {
    let b = first_slot(
        w.ents,
        |e: EntV| e.kind == Kind::Base && e.team == me && e.hp.positive(),
    );
    if b < w.ents.len() {
        b
    } else {
        first_slot(w.ents, |e: EntV| e.team == me && is_building(e.kind))
    }
}

/// The nearest base of a foe among the first `n` entities: one that comes later takes over
/// only if it is nearer, or as near with a lesser key.
pub open spec fn base_so_far(ents: Seq<EntV>, me: Team, d: Seq<Num>, n: int) -> Option<int>
    decreases n,
{
    if n <= 0 {
        None
    } else {
        let best = base_so_far(ents, me, d, n - 1);
        let k = n - 1;
        if !foe_base(ents[k], me) {
            best
        } else {
            match best {
                None => Some(k),
                Some(b) => if d[k].less(d[b]) || (d[k].same(d[b]) && tie_key(ents[k].id) < tie_key(ents[b].id)) {
                    Some(k)
                } else {
                    Some(b)
                },
            }
        }
    }
}

pub open spec fn foe_base(e: EntV, me: Team) -> bool {
    e.kind == Kind::Base && is_foe(e.team, me)
}

pub open spec fn free_hand(me: Team, scout: u32) -> spec_fn(EntV) -> bool {
    |e: EntV| e.team == me && e.kind == Kind::Worker && e.id != scout && !(e.order is Build)
}

pub open spec fn raises(e: EntV, kind: Kind, me: Team) -> bool {
    e.team == me && (match e.order {
        Order::Build(k, _) => k == kind,
        _ => false,
    })
}

pub open spec fn underway(w: WorldV, kind: Kind, me: Team) -> bool {
    exists|i: int| 0 <= i < w.ents.len() && raises(#[trigger] w.ents[i], kind, me)
}

// ---- what to build ------------------------------------------------------------------------------

/// What a computer may want to build, in the order in which it thinks of it.
#[derive(Clone, Copy, PartialEq, Eq, Structural, Debug)]
pub enum Wish {
    /// A base in place of a lost one.
    Rebase,
    /// Room for more units.
    Depot,
    /// A first barracks.
    Barracks,
    /// A first factory.
    Factory,
    /// A second production building.
    Second,
    /// A second base.
    Expand,
}

/// What a computer sees to in a thought about its economy.
#[derive(Clone, Copy, PartialEq, Eq, Structural, Debug)]
pub enum Errand {
    Raise(Wish),
    /// Train a worker.
    Recruit,
}

/// What a computer sees to, in this order: what comes first is paid first.
pub fn agenda() -> (a: [Errand; 7])
    ensures
        a@ == seq![
            Errand::Raise(Wish::Rebase),
            Errand::Recruit,
            Errand::Raise(Wish::Depot),
            Errand::Raise(Wish::Barracks),
            Errand::Raise(Wish::Factory),
            Errand::Raise(Wish::Second),
            Errand::Raise(Wish::Expand),
        ],
{
    let a: [Errand; 7] = [
        Errand::Raise(Wish::Rebase),
        Errand::Recruit,
        Errand::Raise(Wish::Depot),
        Errand::Raise(Wish::Barracks),
        Errand::Raise(Wish::Factory),
        Errand::Raise(Wish::Second),
        Errand::Raise(Wish::Expand),
    ];
    assert(a@ =~= seq![
        Errand::Raise(Wish::Rebase),
        Errand::Recruit,
        Errand::Raise(Wish::Depot),
        Errand::Raise(Wish::Barracks),
        Errand::Raise(Wish::Factory),
        Errand::Raise(Wish::Second),
        Errand::Raise(Wish::Expand),
    ]);
    a
}

/// Where a computer looks for a site: so far from its base towards the middle of the map,
/// and so far to the side. A second base has no fixed place.
pub fn plot(wish: Wish, kind: Kind) -> (r: Option<(i32, i32)>)
    ensures
        r == (match wish {
            Wish::Rebase => Some((0i32, 0i32)),
            Wish::Depot => Some((70i32, 150i32)),
            Wish::Barracks => Some((120i32, 60i32)),
            Wish::Factory => Some((150i32, (-40) as i32)),
            Wish::Second => if kind == Kind::Factory {
                Some((120i32, (-120) as i32))
            } else {
                Some((80i32, 200i32))
            },
            Wish::Expand => None::<(i32, i32)>,
        }),
{
    match wish {
        Wish::Rebase => Some((0, 0)),
        Wish::Depot => Some((70, 150)),
        Wish::Barracks => Some((120, 60)),
        Wish::Factory => Some((150, -40)),
        Wish::Second => if kind == Kind::Factory {
            Some((120, -120))
        } else {
            Some((80, 200))
        },
        Wish::Expand => None,
    }
}

/// How things stood when a computer started to think.
pub struct Standing {
    pub minerals: u32,
    pub used: u32,
    pub cap: u32,
    pub workers: u32,
    pub army_supply: u32,
    pub barracks: usize,
    pub factories: usize,
    pub bases: usize,
    pub have_base: bool,
}

/// Whether a computer has what it takes to go for a factory.
pub open spec fn factory_ready(s: Strategy, workers: u32, army_supply: u32) -> bool {
    match s {
        Strategy::Mech => workers >= 6,
        Strategy::Rush => army_supply >= 4 && workers >= 8,
        _ => workers >= 8,
    }
}

/// Whether a computer leans toward factories.
pub open spec fn prefers_factory(ai: AiState) -> bool {
    ai.strategy == Strategy::Mech || (Num { bits: 0x3F00_0000 }).less(ai.tank_ratio)
}

/// The building that a wish is for now, if the computer has that wish.
pub open spec fn wished(w: WorldV, me: Team, ai: AiState, s: Standing, wish: Wish) -> Option<Kind> {
    match wish {
        Wish::Rebase => if !s.have_base && s.minerals >= cost(Kind::Base) && !underway(w, Kind::Base, me) {
            Some(Kind::Base)
        } else {
            None
        },
        Wish::Depot => if s.cap < 120 && s.cap - s.used < 6 && s.minerals >= cost(Kind::Depot)
            && !underway(w, Kind::Depot, me) {
            Some(Kind::Depot)
        } else {
            None
        },
        Wish::Barracks => if s.barracks == 0 && !underway(w, Kind::Barracks, me) && s.minerals >= cost(
            Kind::Barracks,
        ) {
            Some(Kind::Barracks)
        } else {
            None
        },
        Wish::Factory => if s.factories == 0 && !underway(w, Kind::Factory, me) && s.barracks > 0
            && factory_ready(ai.strategy, s.workers, s.army_supply) && s.minerals >= cost(Kind::Factory) {
            Some(Kind::Factory)
        } else {
            None
        },
        Wish::Second => if Num::whole(80).less(w.time) && s.minerals >= cost(Kind::Barracks) + 80 {
            if prefers_factory(ai) && s.factories > 0 && s.factories < 2 && !underway(w, Kind::Factory, me) {
                Some(Kind::Factory)
            } else if s.barracks < 2 && !underway(w, Kind::Barracks, me) {
                Some(Kind::Barracks)
            } else {
                None
            }
        } else {
            None
        },
        Wish::Expand => if !ai.expanded && s.bases == 1 && s.workers >= 10 && s.barracks > 0 && s.minerals
            >= ai.expand_min && !underway(w, Kind::Base, me) {
            Some(Kind::Base)
        } else {
            None
        },
    }
}

impl World {
    /// The building that a wish is for now, if the computer has that wish.
    pub fn wish_for(&self, me: Team, ai: &AiState, s: &Standing, wish: Wish) -> (r: Option<Kind>)
        ensures
            r == wished(self@, me, *ai, *s, wish),
    {
        match wish {
            Wish::Rebase => if !s.have_base && s.minerals >= cost(Kind::Base) && !self.pending(Kind::Base, me) {
                Some(Kind::Base)
            } else {
                None
            },
            Wish::Depot => if s.cap < 120 && (s.cap as i64 - s.used as i64) < 6 && s.minerals >= cost(
                Kind::Depot,
            ) && !self.pending(Kind::Depot, me) {
                Some(Kind::Depot)
            } else {
                None
            },
            Wish::Barracks => if s.barracks == 0 && !self.pending(Kind::Barracks, me) && s.minerals >= cost(
                Kind::Barracks,
            ) {
                Some(Kind::Barracks)
            } else {
                None
            },
            Wish::Factory => {
                let ready: bool = match ai.strategy {
                    Strategy::Mech => s.workers >= 6,
                    Strategy::Rush => s.army_supply >= 4 && s.workers >= 8,
                    _ => s.workers >= 8,
                };
                if s.factories == 0 && !self.pending(Kind::Factory, me) && s.barracks > 0 && ready
                    && s.minerals >= cost(Kind::Factory) {
                    Some(Kind::Factory)
                } else {
                    None
                }
            },
            Wish::Second => if Num::whole(80).less(self.time) && s.minerals >= cost(Kind::Barracks) + 80 {
                let mech: bool = ai.strategy == Strategy::Mech || (Num { bits: 0x3F00_0000 }).less(
                    ai.tank_ratio,
                );
                if mech && s.factories > 0 && s.factories < 2 && !self.pending(Kind::Factory, me) {
                    Some(Kind::Factory)
                } else if s.barracks < 2 && !self.pending(Kind::Barracks, me) {
                    Some(Kind::Barracks)
                } else {
                    None
                }
            } else {
                None
            },
            Wish::Expand => if !ai.expanded && s.bases == 1 && s.workers >= 10 && s.barracks > 0 && s.minerals
                >= ai.expand_min && !self.pending(Kind::Base, me) {
                Some(Kind::Base)
            } else {
                None
            },
        }
    }
}

/// A computer wants no building that it could not pay for when it started to think, nor one
/// that is on the way already.
pub proof fn wishes_are_affordable(w: WorldV, me: Team, ai: AiState, s: Standing, wish: Wish)
    requires
        wished(w, me, ai, s, wish) is Some,
        wish != Wish::Expand,
    ensures
        s.minerals >= cost(wished(w, me, ai, s, wish)->0),
        !underway(w, wished(w, me, ai, s, wish)->0, me),
{
}

/// How many workers a computer wants: what its temperament asks for, eight more for each
/// further base, and never more than the ceiling.
pub open spec fn crew(target: u32, bases: int) -> int {
    let more = if bases == 0 {
        0
    } else {
        bases - 1
    };
    let want = target + more * 8;
    if want > WORKERS_MAX {
        WORKERS_MAX as int
    } else {
        want
    }
}

/// How many workers a computer wants.
pub fn workers_wanted(target: u32, bases: usize) -> (r: u32)
    ensures
        r == crew(target, bases as int),
{
    let more: u128 = if bases == 0 { 0 } else { (bases - 1) as u128 };
    let want: u128 = target as u128 + more * 8;
    if want > WORKERS_MAX as u128 {
        WORKERS_MAX
    } else {
        want as u32
    }
}


// ---- what to train ------------------------------------------------------------------------------

impl WorldV {
    /// The match after the first of some bases that can was asked for a worker.
    pub open spec fn worker_ordered(self, bases: Seq<usize>) -> WorldV
        decreases bases.len(),
    {
        if bases.len() == 0 {
            self
        } else {
            let b = bases[0] as int;
            let e = self.ents[b];
            if e.queue.len() == 0 && up(e) {
                let (w, ok) = self.trained(b, Kind::Worker);
                if ok {
                    w
                } else {
                    w.worker_ordered(bases.drop_first())
                }
            } else {
                self.worker_ordered(bases.drop_first())
            }
        }
    }

    /// The match after a draw.
    pub open spec fn drawn(self) -> WorldV {
        WorldV { rng: xorshift(self.rng), ..self }
    }

    /// The number of the next draw, from zero to one.
    pub open spec fn luck(self) -> Num {
        Num::unit(frac24(xorshift(self.rng)))
    }

    /// The match after a computer's plants were fed, in the order that a draw put them in.
    pub open spec fn armed(self, ai: AiState, c: Census, or_pyros: Num, or_raiders: Num) -> WorldV {
        let foot = (Kind::Sapper, Kind::Pyro, Kind::Soldier);
        let wheels = (Kind::Mortar, Kind::Raider, Kind::Tank);
        if self.luck().less(ai.tank_ratio) {
            self.drawn().plants_fed(c.factories@, ai.mortar_ratio, or_raiders, wheels).plants_fed(
                c.barracks@,
                ai.sapper_ratio,
                or_pyros,
                foot,
            )
        } else {
            self.drawn().plants_fed(c.barracks@, ai.sapper_ratio, or_pyros, foot).plants_fed(
                c.factories@,
                ai.mortar_ratio,
                or_raiders,
                wheels,
            )
        }
    }

    /// The match after each of some plants with less than two units queued was asked for one
    /// more, by a draw each: below `a` the first kind, below `ab` the second, else the third.
    pub open spec fn plants_fed(self, plants: Seq<usize>, a: Num, ab: Num, mix: (Kind, Kind, Kind)) -> WorldV
        decreases plants.len(),
    {
        if plants.len() == 0 {
            self
        } else {
            let w = self.plants_fed(plants.drop_last(), a, ab, mix);
            let b = plants.last() as int;
            if w.ents[b].queue.len() < 2 {
                let k = mixed(w.luck(), a, ab, mix);
                w.drawn().trained(b, k).0
            } else {
                w
            }
        }
    }
}

/// The kind that a draw picks from a mix.
pub open spec fn mixed(r: Num, a: Num, ab: Num, mix: (Kind, Kind, Kind)) -> Kind {
    if r.less(a) {
        mix.0
    } else if r.less(ab) {
        mix.1
    } else {
        mix.2
    }
}

proof fn lemma_trained_frame(w: WorldV, b: int, k: Kind)
    requires
        0 <= b < w.ents.len(),
    ensures
        w.trained(b, k).0.ents.len() == w.ents.len(),
        forall|i: int| 0 <= i < w.ents.len() ==> (#[trigger] w.trained(b, k).0.ents[i]).team == w.ents[i].team,
{
    let v = w.trained(b, k).0;
    if !w.trained(b, k).1 {
        assert(v.ents == w.ents);
    }
}

impl World {
    /// Draws a fraction.
    pub fn rng_f(&mut self) -> (r: Num)
        requires
            old(self).wf(),
        ensures
            final(self).wf(),
            final(self)@ == old(self)@.drawn(),
            r == old(self)@.luck(),
    {
        let x: u64 = self.rng_u();
        Num::unit(frac24(x))
    }

    /// Asks the first of some bases that can for a worker.
    pub fn order_worker(&mut self, bases: &Vec<usize>)
        requires
            old(self).wf(),
            forall|k: int| 0 <= k < bases@.len() ==> #[trigger] bases@[k] < old(self)@.ents.len(),
        ensures
            final(self).wf(),
            final(self)@ == old(self)@.worker_ordered(bases@),
    {
        let ghost w0 = self@;
        let n: usize = bases.len();
        let mut k: usize = 0;
        assert(bases@.skip(0) =~= bases@);
        while k < n
            invariant
                k <= n,
                n == bases@.len(),
                self.wf(),
                w0 == old(self)@,
                self@.ents.len() == w0.ents.len(),
                self@.ents == w0.ents,
                forall|j: int| 0 <= j < n ==> #[trigger] bases@[j] < w0.ents.len(),
                self@.worker_ordered(bases@.skip(k as int)) == w0.worker_ordered(bases@),
            decreases n - k,
        {
            let b: usize = bases[k];
            let ghost w1 = self@;
            proof {
                assert(bases@.skip(k as int).drop_first() =~= bases@.skip(k + 1));
                assert(bases@.skip(k as int)[0] == b);
                assert(bases@[k as int] < w0.ents.len());
                assert(w1.ents[b as int] == self.ents@[b as int]@);
            }
            if self.ents[b].queue.len() == 0 && self.ents[b].build_left.at_most(Num { bits: 0 }) {
                let ok: bool = self.try_train(b, Kind::Worker);
                if ok {
                    return;
                }
            }
            k = k + 1;
        }
        assert(bases@.skip(n as int) =~= Seq::<usize>::empty());
    }

    /// Asks each of some plants with less than two units queued for one more, by a draw each.
    fn feed_plants(&mut self, plants: &Vec<usize>, a: Num, ab: Num, mix: (Kind, Kind, Kind))
        requires
            old(self).wf(),
            forall|k: int| 0 <= k < plants@.len() ==> #[trigger] plants@[k] < old(self)@.ents.len(),
        ensures
            final(self).wf(),
            final(self)@ == old(self)@.plants_fed(plants@, a, ab, mix),
            final(self)@.ents.len() == old(self)@.ents.len(),
    {
        let ghost w0 = self@;
        let n: usize = plants.len();
        assert(plants@.take(0) =~= Seq::<usize>::empty());
        for k in 0..n
            invariant
                n == plants@.len(),
                self.wf(),
                w0 == old(self)@,
                self@.ents.len() == w0.ents.len(),
                forall|j: int| 0 <= j < n ==> #[trigger] plants@[j] < w0.ents.len(),
                self@ == w0.plants_fed(plants@.take(k as int), a, ab, mix),
        {
            let b: usize = plants[k];
            let ghost w1 = self@;
            proof {
                assert(plants@.take(k + 1).drop_last() =~= plants@.take(k as int));
                assert(plants@.take(k + 1).last() == b);
                assert(plants@[k as int] < w0.ents.len());
                assert(w1.ents[b as int] == self.ents@[b as int]@);
            }
            if self.ents[b].queue.len() < 2 {
                let r = self.rng_f();
                let unit = if r.less(a) {
                    mix.0
                } else if r.less(ab) {
                    mix.1
                } else {
                    mix.2
                };
                proof {
                    assert(self@.ents == w1.ents);
                    lemma_trained_frame(self@, b as int, unit);
                }
                let ok: bool = self.try_train(b, unit);
            }
        }
        assert(plants@.take(n as int) =~= plants@);
    }

    /// Where a team stands, by a count of it.
    pub fn standing(&self, me: Team, c: &Census) -> (s: Standing)
        requires
            self.wf(),
        ensures
            s.minerals == self@.bank(me),
            s.used == self@.used(me),
            s.cap == self@.cap(me),
            s.workers == c.workers,
            s.army_supply == c.army_supply,
            s.barracks == c.barracks@.len(),
            s.factories == c.factories@.len(),
            s.bases == c.bases@.len(),
            s.have_base == (first_slot(
                self@.ents,
                |e: EntV| e.kind == Kind::Base && e.team == me && e.hp.positive(),
            ) < self@.ents.len()),
    {
        Standing {
            minerals: self.team_min(me),
            used: self.supply_used(me),
            cap: self.supply_cap(me),
            workers: c.workers,
            army_supply: c.army_supply,
            barracks: c.barracks.len(),
            factories: c.factories.len(),
            bases: c.bases.len(),
            have_base: self.first_base(me).is_some(),
        }
    }

    /// Asks for a worker, if the computer wants more of them and can pay.
    pub fn recruit(&mut self, ai: &AiState, c: &Census, s: &Standing)
        requires
            old(self).wf(),
            forall|k: int| 0 <= k < c.bases@.len() ==> #[trigger] c.bases@[k] < old(self)@.ents.len(),
        ensures
            final(self).wf(),
            final(self)@ == (if s.workers < crew(ai.worker_target, c.bases@.len() as int) && s.minerals
                >= cost(Kind::Worker) {
                old(self)@.worker_ordered(c.bases@)
            } else {
                old(self)@
            }),
    {
        if s.workers < workers_wanted(ai.worker_target, c.bases.len()) && s.minerals >= cost(Kind::Worker) {
            self.order_worker(&c.bases);
        }
    }

    /// Lets an army grow: a draw below the computer's liking for tanks puts the factories
    /// before the barracks. `or_pyros` and `or_raiders` are the sums of the shares of sappers
    /// and pyros, and of mortars and raiders.
    pub fn train_army(&mut self, ai: &AiState, c: &Census, or_pyros: Num, or_raiders: Num)
        requires
            old(self).wf(),
            forall|k: int| 0 <= k < c.barracks@.len() ==> #[trigger] c.barracks@[k] < old(self)@.ents.len(),
            forall|k: int| 0 <= k < c.factories@.len() ==> #[trigger] c.factories@[k] < old(self)@.ents.len(),
        ensures
            final(self).wf(),
            final(self)@ == old(self)@.armed(*ai, *c, or_pyros, or_raiders),
    {
        let ghost w0 = self@;
        let r: Num = self.rng_f();
        proof {
            assert(self@.ents == w0.ents);
        }
        if r.less(ai.tank_ratio) {
            self.train_tanks(&c.factories, ai.mortar_ratio, or_raiders);
            self.train_soldiers(&c.barracks, ai.sapper_ratio, or_pyros);
        } else {
            self.train_soldiers(&c.barracks, ai.sapper_ratio, or_pyros);
            self.train_tanks(&c.factories, ai.mortar_ratio, or_raiders);
        }
    }

    /// Lets barracks train: sappers with probability `sappers`, pyros up to `or_pyros`,
    /// soldiers otherwise.
    pub fn train_soldiers(&mut self, barracks: &Vec<usize>, sappers: Num, or_pyros: Num)
        requires
            old(self).wf(),
            forall|k: int| 0 <= k < barracks@.len() ==> #[trigger] barracks@[k] < old(self)@.ents.len(),
        ensures
            final(self).wf(),
            final(self)@ == old(self)@.plants_fed(
                barracks@,
                sappers,
                or_pyros,
                (Kind::Sapper, Kind::Pyro, Kind::Soldier),
            ),
            final(self)@.ents.len() == old(self)@.ents.len(),
    {
        self.feed_plants(barracks, sappers, or_pyros, (Kind::Sapper, Kind::Pyro, Kind::Soldier));
    }

    /// Lets factories train: mortars with probability `mortars`, raiders up to `or_raiders`,
    /// tanks otherwise.
    pub fn train_tanks(&mut self, factories: &Vec<usize>, mortars: Num, or_raiders: Num)
        requires
            old(self).wf(),
            forall|k: int| 0 <= k < factories@.len() ==> #[trigger] factories@[k] < old(self)@.ents.len(),
        ensures
            final(self).wf(),
            final(self)@ == old(self)@.plants_fed(
                factories@,
                mortars,
                or_raiders,
                (Kind::Mortar, Kind::Raider, Kind::Tank),
            ),
            final(self)@.ents.len() == old(self)@.ents.len(),
    {
        self.feed_plants(factories, mortars, or_raiders, (Kind::Mortar, Kind::Raider, Kind::Tank));
    }
}

// ---- what it knows --------------------------------------------------------------------------------

/// What a computer sees of its foes right now.
pub struct Sighting {
    /// Slots of army units in sight.
    pub army: Vec<usize>,
    /// Their population.
    pub supply: u32,
    /// Slots of buildings in sight.
    pub buildings: Vec<usize>,
}

pub open spec fn in_sight(w: WorldV, me: Team, vis: Seq<u8>, i: int) -> bool {
    is_foe(w.ents[i].team, me) && vis[i] == 2
}

pub open spec fn seen_army(w: WorldV, me: Team, vis: Seq<u8>) -> spec_fn(int) -> bool {
    |i: int| in_sight(w, me, vis, i) && is_army(w.ents[i].kind)
}

pub open spec fn seen_building(w: WorldV, me: Team, vis: Seq<u8>) -> spec_fn(int) -> bool {
    |i: int| in_sight(w, me, vis, i) && is_building(w.ents[i].kind)
}

/// Population of the foes' army units in sight, of the first `n` entities.
pub open spec fn seen_supply(w: WorldV, me: Team, vis: Seq<u8>, n: int) -> int
    decreases n,
{
    if n <= 0 {
        0
    } else {
        seen_supply(w, me, vis, n - 1) + if seen_army(w, me, vis)(n - 1) {
            supply_cost(w.ents[n - 1].kind) as int
        } else {
            0
        }
    }
}

impl World {
    /// What a computer sees of its foes. `vis` is what its fog says of each entity's place.
    pub fn update_intel(&self, me: Team, vis: &Vec<u8>) -> (s: Sighting)
        requires
            self.wf(),
            vis@.len() == self.ents@.len(),
        ensures
            s.army@ == slots_where(self@.ents.len() as int, seen_army(self@, me, vis@)),
            s.buildings@ == slots_where(self@.ents.len() as int, seen_building(self@, me, vis@)),
            s.supply == seen_supply(self@, me, vis@, self@.ents.len() as int),
            forall|i: int|
                0 <= i < self@.ents.len() && (#[trigger] self@.ents[i]).team != me && self@.ents[i].team
                    != Team::Neutral && is_army(self@.ents[i].kind) && vis@[i] == 2 ==> s.army@.contains(i as usize),
    {
        let ghost w = self@;
        let mut s = Sighting { army: Vec::new(), supply: 0, buildings: Vec::new() };
        let n: usize = self.ents.len();
        for i in 0..n
            invariant
                self.wf(),
                n == self.ents@.len(),
                w == self@,
                vis@.len() == n,
                s.army@ == slots_where(i as int, seen_army(w, me, vis@)),
                s.buildings@ == slots_where(i as int, seen_building(w, me, vis@)),
                s.supply == seen_supply(w, me, vis@, i as int),
                s.supply <= 3 * i,
        {
            assert(w.ents[i as int] == self.ents@[i as int]@);
            let e = &self.ents[i];
            if is_foe(e.team, me) && vis[i] == 2 {
                if is_army(e.kind) {
                    s.army.push(i);
                    s.supply = s.supply + supply_cost(e.kind);
                } else if is_building(e.kind) {
                    s.buildings.push(i);
                }
            }
        }
        proof {
            assert forall|i: int|
                0 <= i < self@.ents.len() && (#[trigger] self@.ents[i]).team != me && self@.ents[i].team
                    != Team::Neutral && is_army(self@.ents[i].kind) && vis@[i] == 2 implies s.army@.contains(
                i as usize,
            ) by {
                what_is_in_sight_is_seen(w, me, vis@, i);
            }
        }
        s
    }

    /// The nearest threat: the foes' army unit in sight that is closest to one of the bases,
    /// within a radius. `d` is each entity's least squared distance to a base.
    pub fn threat(&self, me: Team, vis: &Vec<u8>, d: &Vec<Num>) -> (r: Option<usize>)
        requires
            vis@.len() == self.ents@.len(),
            d@.len() == self.ents@.len(),
        ensures
            nearest_threat(self@, me, vis@, d@, r),
            r is None ==> forall|i: int|
                0 <= i < self@.ents.len() && (#[trigger] self@.ents[i]).team != me && self@.ents[i].team
                    != Team::Neutral && is_army(self@.ents[i].kind) && vis@[i] == 2 ==> !d@[i].less(
                    Num::whole(THREAT_SQ),
                ),
    {
        let ghost w = self@;
        let bound = Num::whole(THREAT_SQ);
        let mut best: Option<usize> = None;
        let mut bd: Num = bound;
        let n: usize = self.ents.len();
        for i in 0..n
            invariant
                n == self.ents@.len(),
                w == self@,
                vis@.len() == n,
                d@.len() == n,
                bound == Num::whole(THREAT_SQ),
                match best {
                    Some(b) => {
                        &&& b < i
                        &&& seen_army(w, me, vis@)(b as int)
                        &&& bd == d@[b as int]
                        &&& bd.less(bound)
                        &&& forall|j: int|
                            0 <= j < i && #[trigger] seen_army(w, me, vis@)(j) && d@[j].less(bound) ==> {
                                &&& !d@[j].less(bd)
                                &&& j < b ==> bd.less(d@[j])
                            }
                    },
                    None => bd == bound && forall|j: int|
                        0 <= j < i && #[trigger] seen_army(w, me, vis@)(j) ==> !d@[j].less(bound),
                },
        {
            assert(w.ents[i as int] == self.ents@[i as int]@);
            let e = &self.ents[i];
            if is_foe(e.team, me) && is_army(e.kind) && vis[i] == 2 && d[i].less(bd) {
                bd = d[i];
                best = Some(i);
                assert(seen_army(w, me, vis@)(i as int));
            }
        }
        proof {
            assert forall|i: int|
                best is None && 0 <= i < self@.ents.len() && (#[trigger] self@.ents[i]).team != me
                    && self@.ents[i].team != Team::Neutral && is_army(self@.ents[i].kind) && vis@[i]
                    == 2 implies !d@[i].less(Num::whole(THREAT_SQ)) by {
                threats_are_noticed(w, me, vis@, d@, best, i);
            }
        }
        best
    }
}

/// Whether `r` is the first of the closest threats.
pub open spec fn nearest_threat(w: WorldV, me: Team, vis: Seq<u8>, d: Seq<Num>, r: Option<usize>) -> bool {
    let bound = Num::whole(THREAT_SQ);
    match r {
        Some(i) => {
            &&& 0 <= i < w.ents.len()
            &&& seen_army(w, me, vis)(i as int)
            &&& d[i as int].less(bound)
            &&& forall|j: int|
                0 <= j < w.ents.len() && #[trigger] seen_army(w, me, vis)(j) && d[j].less(bound) ==> {
                    &&& !d[j].less(d[i as int])
                    &&& j < i ==> d[i as int].less(d[j])
                }
        },
        None => forall|j: int|
            0 <= j < w.ents.len() && #[trigger] seen_army(w, me, vis)(j) ==> !d[j].less(bound),
    }
}

/// Everything a computer acts on of its foes is in its own sight.
pub proof fn intel_is_fog_limited(w: WorldV, me: Team, vis: Seq<u8>, i: int)
    requires
        seen_army(w, me, vis)(i) || seen_building(w, me, vis)(i),
    ensures
        vis[i] == 2,
        is_foe(w.ents[i].team, me),
{
}

impl AiState {
    /// Notes a foe's army.
    pub fn note_army(&mut self, pos: V2, supply: u32)
        ensures
            *final(self) == (AiState {
                seen_army_pos: pos,
                seen_army_supply: supply,
                seen_army_age: Num { bits: 0 },
                ..*old(self)
            }),
    {
        self.seen_army_pos = pos;
        self.seen_army_supply = supply;
        self.seen_army_age = Num { bits: 0 };
    }

    /// Remembers a foe's building, unless one nearby is known already. The oldest memory
    /// makes room.
    pub fn remember(&mut self, pos: V2, kind: Kind, near_known: bool)
        ensures
            ({
                let more = old(self).known@.push((pos, kind));
                final(self).known@ == (if near_known {
                    old(self).known@
                } else if more.len() > KNOWN_MAX {
                    more.drop_first()
                } else {
                    more
                })
            }),
            *final(self) == (AiState { known: final(self).known, ..*old(self) }),
    {
        if !near_known {
            self.known.push((pos, kind));
            if self.known.len() > KNOWN_MAX {
                let ghost k = self.known@;
                let gone = self.known.remove(0);
                assert(self.known@ =~= k.drop_first());
            }
        }
    }

    /// The building a squad is sent to: the last one known that is not a base by the foe's
    /// main. `at_main` tells which of the known places are by the main.
    pub fn harass_target(&self, at_main: &Vec<bool>) -> (r: Option<usize>)
        requires
            at_main@.len() == self.known@.len(),
        ensures
            match r {
                Some(i) => {
                    &&& 0 <= i < self.known@.len()
                    &&& !(self.known@[i as int].1 == Kind::Base && at_main@[i as int])
                    &&& forall|j: int|
                        i < j < self.known@.len() ==> (#[trigger] self.known@[j]).1 == Kind::Base && at_main@[j]
                },
                None => forall|j: int|
                    0 <= j < self.known@.len() ==> (#[trigger] self.known@[j]).1 == Kind::Base && at_main@[j],
            },
    {
        let mut i: usize = self.known.len();
        while i > 0
            invariant
                i <= self.known@.len(),
                at_main@.len() == self.known@.len(),
                forall|j: int|
                    i <= j < self.known@.len() ==> (#[trigger] self.known@[j]).1 == Kind::Base && at_main@[j],
            decreases i,
        {
            i = i - 1;
            if !(self.known[i].1 == Kind::Base && at_main[i]) {
                return Some(i);
            }
        }
        None
    }
}

// ---- scouting ---------------------------------------------------------------------------------------

/// What a computer does about scouting.
#[derive(Clone, Copy, PartialEq, Eq, Structural, Debug)]
pub enum ScoutMove {
    /// Call the worker in a slot back: soldiers can take over.
    Reclaim(usize),
    /// Give the idle scout in a slot another point.
    Wander(usize),
    /// Let the scout walk on.
    Carry,
    /// The scout is lost.
    Lost,
    /// Wait for the timer.
    Wait,
    /// Send out the unit in a slot.
    Send(usize),
    /// Nobody can be spared.
    Rest,
}

/// Whether a worker can be spared for scouting.
pub open spec fn spare_worker(me: Team) -> spec_fn(EntV) -> bool {
    |e: EntV| e.team == me && e.kind == Kind::Worker && !(e.order is Build)
}

/// What a computer does about scouting, and whether it drew for it.
pub open spec fn scouting(
    w: WorldV,
    me: Team,
    ai: AiState,
    army: Seq<usize>,
    idle: Seq<usize>,
    workers: u32,
) -> (ScoutMove, bool) {
    if ai.scout_id != 0 {
        match w.slot_of(ai.scout_id) {
            Some(s) => if w.ents[s].kind == Kind::Worker && army.len() > 0 {
                (ScoutMove::Reclaim(s as usize), false)
            } else if w.ents[s].order == Order::Idle {
                (ScoutMove::Wander(s as usize), false)
            } else {
                (ScoutMove::Carry, false)
            },
            None => (ScoutMove::Lost, false),
        }
    } else if ai.scout_timer.positive() {
        (ScoutMove::Wait, false)
    } else {
        let drew = army.len() > 0;
        if drew && w.luck().less(Num { bits: 0x3F33_3333 }) {
            (ScoutMove::Send(army.last()), drew)
        } else if workers > 5 {
            if idle.len() > 0 {
                (ScoutMove::Send(idle[0]), drew)
            } else {
                let s = first_slot(w.ents, spare_worker(me));
                if s < w.ents.len() {
                    (ScoutMove::Send(s as usize), drew)
                } else {
                    (ScoutMove::Rest, drew)
                }
            }
        } else {
            (ScoutMove::Rest, drew)
        }
    }
}

impl World {
    /// What a computer does about scouting. It draws only when an army could send someone.
    pub fn maybe_scout(
        &mut self,
        me: Team,
        ai: &AiState,
        army: &Vec<usize>,
        idle: &Vec<usize>,
        workers: u32,
    ) -> (m: ScoutMove)
        requires
            old(self).wf(),
        ensures
            final(self).wf(),
            m == scouting(old(self)@, me, *ai, army@, idle@, workers).0,
            final(self)@ == (if scouting(old(self)@, me, *ai, army@, idle@, workers).1 {
                old(self)@.drawn()
            } else {
                old(self)@
            }),
    {
        let ghost w0 = self@;
        if ai.scout_id != 0 {
            return match self.index_of(ai.scout_id) {
                Some(s) => {
                    assert(w0.ents[s as int] == self.ents@[s as int]@);
                    let idle_now: bool = match self.ents[s].order {
                        Order::Idle => true,
                        _ => false,
                    };
                    if self.ents[s].kind == Kind::Worker && army.len() > 0 {
                        ScoutMove::Reclaim(s)
                    } else if idle_now {
                        ScoutMove::Wander(s)
                    } else {
                        ScoutMove::Carry
                    }
                },
                None => ScoutMove::Lost,
            };
        }
        if ai.scout_timer.positive() {
            return ScoutMove::Wait;
        }
        if army.len() > 0 {
            let r = self.rng_f();
            if r.less(Num { bits: 0x3F33_3333 }) {
                return ScoutMove::Send(army[army.len() - 1]);
            }
        }
        assert(self@.ents == w0.ents);
        if workers <= 5 {
            return ScoutMove::Rest;
        }
        if idle.len() > 0 {
            return ScoutMove::Send(idle[0]);
        }
        let ghost f = spare_worker(me);
        let mut i: usize = 0;
        while i < self.ents.len()
            invariant
                i <= self.ents@.len(),
                f == spare_worker(me),
                self.wf(),
                self@.ents == w0.ents,
                self@ == (if army@.len() > 0 {
                    w0.drawn()
                } else {
                    w0
                }),
                ai.scout_id == 0,
                !ai.scout_timer.positive(),
                army@.len() > 0 ==> !w0.luck().less(Num { bits: 0x3F33_3333 }),
                workers > 5,
                idle@.len() == 0,
                w0 == old(self)@,
                forall|j: int| 0 <= j < i ==> !f(#[trigger] self@.ents[j]),
            decreases self.ents@.len() - i,
        {
            assert(self@.ents[i as int] == self.ents@[i as int]@);
            let e = &self.ents[i];
            let builds: bool = match e.order {
                Order::Build(_, _) => true,
                _ => false,
            };
            if e.team == me && e.kind == Kind::Worker && !builds {
                proof {
                    lemma_first_slot_is(self@.ents, f, i as int);
                }
                return ScoutMove::Send(i);
            }
            i = i + 1;
        }
        proof {
            lemma_first_slot_is(self@.ents, f, i as int);
        }
        ScoutMove::Rest
    }
}

/// Where a scout is sent.
#[derive(Clone, Copy, PartialEq, Eq, Structural, Debug)]
pub enum Recon {
    /// Around the foe's main.
    Main,
    /// To the middle of the map.
    Center,
    /// Halfway between the two.
    Between,
}

/// Where a draw sends a scout: half the time around the main, three in ten to the middle.
pub fn recon_choice(r: Num) -> (c: Recon)
    ensures
        c == (if r.less(Num { bits: 0x3F00_0000 }) {
            Recon::Main
        } else if r.less(Num { bits: 0x3F4C_CCCD }) {
            Recon::Center
        } else {
            Recon::Between
        }),
{
    if r.less(Num { bits: 0x3F00_0000 }) {
        Recon::Main
    } else if r.less(Num { bits: 0x3F4C_CCCD }) {
        Recon::Center
    } else {
        Recon::Between
    }
}

// ---- doctrine ---------------------------------------------------------------------------------------

/// What a computer sets its mind on.
#[derive(Clone, Copy, PartialEq, Eq, Structural, Debug)]
pub enum Resolve {
    Feint,
    Commit,
    Harass,
    Build,
}

/// What a draw makes of an army: strong enough it attacks, for show with probability
/// `feint`; too weak it may poke, and builds up otherwise.
pub open spec fn resolved(r: Num, army_supply: u32, needed: u32, feint: Num, harass: bool) -> Resolve {
    if army_supply >= needed && army_supply >= 3 {
        if r.less(feint) {
            Resolve::Feint
        } else {
            Resolve::Commit
        }
    } else if army_supply >= 3 && r.less(
        if harass {
            Num { bits: 0x3EB3_3333 }
        } else {
            Num { bits: 0x3DF5_C28F }
        },
    ) {
        Resolve::Harass
    } else {
        Resolve::Build
    }
}

impl World {
    /// Draws what a computer sets its mind on.
    pub fn choose_intent(&mut self, army_supply: u32, needed: u32, feint: Num, harass: bool) -> (c: Resolve)
        requires
            old(self).wf(),
        ensures
            final(self).wf(),
            final(self)@ == old(self)@.drawn(),
            c == resolved(old(self)@.luck(), army_supply, needed, feint, harass),
    {
        let r = self.rng_f();
        if army_supply >= needed && army_supply >= 3 {
            if r.less(feint) {
                Resolve::Feint
            } else {
                Resolve::Commit
            }
        } else {
            let poke = if harass {
                Num { bits: 0x3EB3_3333 }
            } else {
                Num { bits: 0x3DF5_C28F }
            };
            if army_supply >= 3 && r.less(poke) {
                Resolve::Harass
            } else {
                Resolve::Build
            }
        }
    }
}

/// A computer attacks only with an army that it holds to be enough.
pub proof fn attacks_need_an_army(r: Num, army_supply: u32, needed: u32, feint: Num, harass: bool)
    ensures
        resolved(r, army_supply, needed, feint, harass) == Resolve::Commit ==> army_supply >= needed,
        resolved(r, army_supply, needed, feint, harass) != Resolve::Build ==> army_supply >= 3,
{
}

/// What an army is thrown at.
#[derive(Clone, Copy, PartialEq, Eq, Structural, Debug)]
pub enum CommitTarget {
    /// The foe's main, by a draw from the side.
    Main,
    /// The foe's army, where it was last seen.
    Army,
    /// An outlying building.
    Outpost,
    /// The foe's main, from the side.
    Flank,
}

/// What a draw throws an army at; the foe's army only while the sighting is fresh.
pub fn commit_choice(r: Num, age: Num) -> (c: CommitTarget)
    ensures
        c == (if r.less(Num { bits: 0x3F0C_CCCD }) {
            CommitTarget::Main
        } else if r.less(Num { bits: 0x3F40_0000 }) && age.less(Num::whole(8)) {
            CommitTarget::Army
        } else if r.less(Num { bits: 0x3F66_6666 }) {
            CommitTarget::Outpost
        } else {
            CommitTarget::Flank
        }),
{
    if r.less(Num { bits: 0x3F0C_CCCD }) {
        CommitTarget::Main
    } else if r.less(Num { bits: 0x3F40_0000 }) && age.less(Num::whole(8)) {
        CommitTarget::Army
    } else if r.less(Num { bits: 0x3F66_6666 }) {
        CommitTarget::Outpost
    } else {
        CommitTarget::Flank
    }
}

/// Whether a computer has to make up its mind: its timer has run out, or there is nothing
/// left to defend against.
pub fn must_choose(intent: Intent, timer: Num) -> (r: bool)
    ensures
        r == (timer.at_most(Num { bits: 0 }) || intent is Defend),
{
    let defending: bool = match intent {
        Intent::Defend(_) => true,
        _ => false,
    };
    timer.at_most(Num { bits: 0 }) || defending
}

/// A unit's place in an attack.
#[derive(Clone, Copy, PartialEq, Eq, Structural, Debug)]
pub enum Post {
    /// On the objective.
    Front,
    /// A good way behind it.
    Back,
    /// Just behind it.
    Behind,
    /// To one side of it.
    Left,
    /// To the other side of it.
    Right,
}

/// Where a unit belongs in an attack: mortars far back, pyros just behind the front, raiders
/// on the flanks by their ids, everyone else in front.
pub fn post_of(k: Kind, id: u32) -> (p: Post)
    ensures
        p == (match k {
            Kind::Mortar => Post::Back,
            Kind::Pyro => Post::Behind,
            Kind::Raider => if id % 2 == 0 {
                Post::Left
            } else {
                Post::Right
            },
            _ => Post::Front,
        }),
{
    match k {
        Kind::Mortar => Post::Back,
        Kind::Pyro => Post::Behind,
        Kind::Raider => if id % 2 == 0 {
            Post::Left
        } else {
            Post::Right
        },
        _ => Post::Front,
    }
}

/// Where a post lies from the objective: so far ahead of it, and so far to the side.
pub fn post_place(p: Post) -> (r: (i32, i32))
    ensures
        r == (match p {
            Post::Front => (0i32, 0i32),
            Post::Back => ((-150) as i32, 0i32),
            Post::Behind => ((-55) as i32, 0i32),
            Post::Left => (0i32, 150i32),
            Post::Right => (0i32, (-150) as i32),
        }),
{
    match p {
        Post::Front => (0, 0),
        Post::Back => (-150, 0),
        Post::Behind => (-55, 0),
        Post::Left => (0, 150),
        Post::Right => (0, -150),
    }
}

/// How many of an army go to poke: a third, at least one and at most four.
pub fn squad_size(army: usize) -> (n: usize)
    ensures
        n == (if army / 3 < 1 {
            1
        } else if army / 3 > 4 {
            4
        } else {
            army / 3
        }),
{
    let third: usize = army / 3;
    if third < 1 {
        1
    } else if third > 4 {
        4
    } else {
        third
    }
}

/// Where each of an army goes to poke: the squad to the point, the rest to where the army
/// gathers.
pub fn poke_dests(army: usize, p: V2, staging: V2) -> (d: Vec<V2>)
    ensures
        d@ == Seq::new(
            army as nat,
            |k: int|
                if k < 1 || k < 4 && k < army / 3 {
                    p
                } else {
                    staging
                },
        ),
{
    let squad: usize = squad_size(army);
    let mut d: Vec<V2> = Vec::new();
    for k in 0..army
        invariant
            d@.len() == k,
            squad == (if army / 3 < 1 {
                1
            } else if army / 3 > 4 {
                4
            } else {
                army / 3
            }),
            forall|i: int|
                0 <= i < k ==> #[trigger] d@[i] == (if i < squad {
                    p
                } else {
                    staging
                }),
    {
        d.push(
            if k < squad {
                p
            } else {
                staging
            },
        );
    }
    d
}

impl WorldV {
    /// The match after the units in some slots, the scout left out, were sent to attack their
    /// way to a point each.
    pub open spec fn marched(self, army: Seq<usize>, scout: u32, dests: Seq<V2>) -> WorldV
        decreases army.len(),
    {
        if army.len() == 0 {
            self
        } else {
            let w = self.marched(army.drop_last(), scout, dests);
            let i = army.last() as int;
            if w.ents[i].id == scout {
                w
            } else {
                w.with(
                    i,
                    EntV { order: Order::AttackMove(dests[army.len() - 1]), ..w.ents[i] },
                )
            }
        }
    }
}

impl World {
    /// Sends the units in some slots, the scout left out, to attack their way to a point each.
    pub fn command_army(&mut self, army: &Vec<usize>, scout: u32, dests: &Vec<V2>)
        requires
            old(self).wf(),
            dests@.len() == army@.len(),
            forall|k: int| 0 <= k < army@.len() ==> #[trigger] army@[k] < old(self)@.ents.len(),
        ensures
            final(self).wf(),
            final(self)@ == old(self)@.marched(army@, scout, dests@),
    {
        let ghost w0 = self@;
        let n: usize = army.len();
        assert(army@.take(0) =~= Seq::<usize>::empty());
        for k in 0..n
            invariant
                n == army@.len(),
                dests@.len() == n,
                self.wf(),
                w0 == old(self)@,
                self@.ents.len() == w0.ents.len(),
                forall|j: int| 0 <= j < n ==> #[trigger] army@[j] < w0.ents.len(),
                self@ == w0.marched(army@.take(k as int), scout, dests@),
        {
            let i: usize = army[k];
            proof {
                assert(army@.take(k + 1).drop_last() =~= army@.take(k as int));
                assert(army@.take(k + 1).last() == i);
                assert(army@[k as int] < w0.ents.len());
                assert(self@.ents[i as int] == self.ents@[i as int]@);
            }
            if self.ents[i].id != scout {
                self.reorder(i, Order::AttackMove(dests[k]));
            }
        }
        assert(army@.take(n as int) =~= army@);
    }
}

// ---- putting it together ----------------------------------------------------------------------------

/// How long a computer rests between two thoughts: 0.35 seconds.
pub const THINK_BITS: u32 = 0x3EB3_3333;

/// The shortest time that a computer stays on guard: 1.5 seconds.
pub const GUARD_BITS: u32 = 0x3FC0_0000;

/// When less than this is left of a feint, the army peels back: 1.4 seconds.
pub const PEEL_BITS: u32 = 0x3FB3_3333;

/// Where an army goes.
#[derive(Clone, Copy, PartialEq, Eq, Structural, Debug)]
pub enum Course {
    /// To its staging point.
    Gather,
    /// All of it to a point.
    Strike(V2),
    /// A squad to a point, the rest to the staging point.
    Poke(V2),
}

/// Where an intent leads an army, with `timer` left for it.
pub fn course_of(intent: Intent, timer: Num) -> (c: Course)
    ensures
        c == (match intent {
            Intent::Build => Course::Gather,
            Intent::Harass(p) => Course::Poke(p),
            Intent::Commit(p) => Course::Strike(p),
            Intent::Feint(p) => if timer.less(Num { bits: PEEL_BITS }) {
                Course::Gather
            } else {
                Course::Strike(p)
            },
            Intent::Defend(p) => Course::Strike(p),
        }),
{
    match intent {
        Intent::Build => Course::Gather,
        Intent::Harass(p) => Course::Poke(p),
        Intent::Commit(p) => Course::Strike(p),
        Intent::Feint(p) => if timer.less(Num { bits: PEEL_BITS }) {
            Course::Gather
        } else {
            Course::Strike(p)
        },
        Intent::Defend(p) => Course::Strike(p),
    }
}

/// Whether an attack is broken off: the army has melted below `least`, a share of what it
/// was when it set out.
pub fn breaks_off(army_supply: u32, least: Num) -> (r: bool)
    requires
        army_supply < 0x100_0000,
    ensures
        r == Num::whole(army_supply).less(least),
{
    Num::whole(army_supply).less(least)
}

impl AiState {
    /// A computer of no particular temperament that knows nothing.
    pub fn fresh() -> (a: AiState)
        ensures
            a.think == (Num { bits: 0 }),
            a.staging == (V2 { x: Num { bits: 0 }, y: Num { bits: 0 } }),
            !a.expanded,
            a.strategy == Strategy::Standard,
            a.worker_target == 12,
            a.tank_ratio == (Num { bits: 0x3E99_999A }),
            a.pyro_ratio == (Num { bits: 0x3E80_0000 }),
            a.raider_ratio == (Num { bits: 0x3E99_999A }),
            a.sapper_ratio == (Num { bits: 0x3DF5_C28F }),
            a.mortar_ratio == (Num { bits: 0x3E38_51EC }),
            a.expand_min == 500,
            !a.harass,
            a.aggression == (Num { bits: 0x3F00_0000 }),
            a.patience == Num::whole(5),
            a.intent == Intent::Build,
            a.intent_timer == (Num { bits: 0 }),
            a.commit_army == 0,
            a.scout_id == 0,
            a.scout_timer == Num::whole(6),
            a.player_main == (V2 { x: Num { bits: 0 }, y: Num { bits: 0 } }),
            a.seen_army_pos == (V2 { x: Num { bits: 0 }, y: Num { bits: 0 } }),
            a.seen_army_supply == 0,
            a.seen_army_age == Num::whole(99),
            a.known@ == Seq::<(V2, Kind)>::empty(),
    {
        let zero = Num { bits: 0 };
        let origin = V2 { x: zero, y: zero };
        AiState {
            think: zero,
            staging: origin,
            expanded: false,
            strategy: Strategy::Standard,
            worker_target: 12,
            tank_ratio: Num { bits: 0x3E99_999A },
            pyro_ratio: Num { bits: 0x3E80_0000 },
            raider_ratio: Num { bits: 0x3E99_999A },
            sapper_ratio: Num { bits: 0x3DF5_C28F },
            mortar_ratio: Num { bits: 0x3E38_51EC },
            expand_min: 500,
            harass: false,
            aggression: Num { bits: 0x3F00_0000 },
            patience: Num::whole(5),
            intent: Intent::Build,
            intent_timer: zero,
            commit_army: 0,
            scout_id: 0,
            scout_timer: Num::whole(6),
            player_main: origin,
            seen_army_pos: origin,
            seen_army_supply: 0,
            seen_army_age: Num::whole(99),
            known: Vec::new(),
        }
    }

    /// Counts down to the next thought; `left` is what the tick leaves of the clock. Says
    /// whether it is time.
    pub fn wakes(&mut self, left: Num) -> (r: bool)
        ensures
            r == !left.positive(),
            *final(self) == (AiState {
                think: if r {
                    Num { bits: THINK_BITS }
                } else {
                    left
                },
                ..*old(self)
            }),
    {
        if left.positive() {
            self.think = left;
            false
        } else {
            self.think = Num { bits: THINK_BITS };
            true
        }
    }

    /// Notes what was done about scouting: who is out, and when to think of it again. The
    /// unit sent out has the id `id`, and `next` is the time rolled for the next one.
    pub fn scouted(&mut self, m: ScoutMove, id: u32, next: Num)
        ensures
            *final(self) == (match m {
                ScoutMove::Reclaim(_) => AiState { scout_id: 0, scout_timer: Num::whole(1), ..*old(self) },
                ScoutMove::Lost => AiState { scout_id: 0, scout_timer: next, ..*old(self) },
                ScoutMove::Send(_) => AiState { scout_id: id, scout_timer: next, ..*old(self) },
                ScoutMove::Rest => AiState { scout_timer: Num::whole(4), ..*old(self) },
                _ => *old(self),
            }),
    {
        match m {
            ScoutMove::Reclaim(_) => {
                self.scout_id = 0;
                self.scout_timer = Num::whole(1);
            },
            ScoutMove::Lost => {
                self.scout_id = 0;
                self.scout_timer = next;
            },
            ScoutMove::Send(_) => {
                self.scout_id = id;
                self.scout_timer = next;
            },
            ScoutMove::Rest => {
                self.scout_timer = Num::whole(4);
            },
            _ => {},
        }
    }

    /// Turns a resolution into an intent at the point `p` for the time `timer`. The strength
    /// of an army that attacks in earnest is kept, to tell later when to break off.
    pub fn settle(&mut self, r: Resolve, p: V2, army_supply: u32, timer: Num)
        ensures
            *final(self) == (AiState {
                intent: match r {
                    Resolve::Feint => Intent::Feint(p),
                    Resolve::Commit => Intent::Commit(p),
                    Resolve::Harass => Intent::Harass(p),
                    Resolve::Build => Intent::Build,
                },
                commit_army: if r == Resolve::Commit {
                    army_supply
                } else {
                    old(self).commit_army
                },
                intent_timer: timer,
                ..*old(self)
            }),
    {
        match r {
            Resolve::Feint => {
                self.intent = Intent::Feint(p);
            },
            Resolve::Commit => {
                self.intent = Intent::Commit(p);
                self.commit_army = army_supply;
            },
            Resolve::Harass => {
                self.intent = Intent::Harass(p);
            },
            Resolve::Build => {
                self.intent = Intent::Build;
            },
        }
        self.intent_timer = timer;
    }

    /// Sets a computer's mind on meeting a threat, for a while at least.
    pub fn brace(&mut self, at: V2)
        ensures
            *final(self) == (AiState {
                intent: Intent::Defend(at),
                intent_timer: if (Num { bits: GUARD_BITS }).less(old(self).intent_timer) {
                    old(self).intent_timer
                } else {
                    Num { bits: GUARD_BITS }
                },
                ..*old(self)
            }),
    {
        self.intent = Intent::Defend(at);
        if !(Num { bits: GUARD_BITS }).less(self.intent_timer) {
            self.intent_timer = Num { bits: GUARD_BITS };
        }
    }
}

impl WorldV {
    /// The match after a computer sent a worker out to build, and whether it did: someone
    /// has to be free, a site has to be at hand, and the building has to be paid for.
    pub open spec fn granted(
        self,
        me: Team,
        scout: u32,
        kind: Kind,
        site: Option<V2>,
        clear: bool,
    ) -> (WorldV, bool) {
        let i = first_slot(self.ents, free_hand(me, scout));
        if i < self.ents.len() && site is Some {
            self.build_ordered(i, kind, site->0, clear)
        } else {
            (self, false)
        }
    }

    /// The match after the buildings in some slots were given a rally point.
    pub open spec fn rallied(self, slots: Seq<usize>, p: V2) -> WorldV
        decreases slots.len(),
    {
        if slots.len() == 0 {
            self
        } else {
            let w = self.rallied(slots.drop_last(), p);
            let i = slots.last() as int;
            w.with(i, EntV { rally: p, ..w.ents[i] })
        }
    }
}

impl World {
    /// Sends a computer's first free worker out to build, if there is one and a site.
    pub fn grant(&mut self, me: Team, scout: u32, kind: Kind, has_cliffs: bool, site: &Option<Site>) -> (ok: bool)
        requires
            old(self).wf(),
            match site {
                Some(s) => s.fits(old(self)@.ents),
                None => true,
            },
        ensures
            final(self).wf(),
            (final(self)@, ok) == (match site {
                Some(s) => old(self)@.granted(
                    me,
                    scout,
                    kind,
                    Some(s.pt),
                    s.clear_for(old(self)@.ents, has_cliffs, kind),
                ),
                None => old(self)@.granted(me, scout, kind, None, false),
            }),
    {
        match (self.pick_worker(me, scout), site) {
            (Some(i), Some(s)) => self.order_build(i, kind, has_cliffs, s),
            _ => false,
        }
    }

    /// Sends the worker in slot `i` to the patch in slot `m`.
    pub fn employ(&mut self, i: usize, m: usize)
        requires
            old(self).wf(),
            i < old(self)@.ents.len(),
            m < old(self)@.ents.len(),
        ensures
            final(self).wf(),
            final(self)@ == old(self)@.with(
                i as int,
                EntV {
                    order: Order::Gather(old(self)@.ents[m as int].id),
                    ..old(self)@.ents[i as int]
                },
            ),
    {
        assert(self@.ents[m as int] == self.ents@[m as int]@);
        let id: u32 = self.ents[m].id;
        self.reorder(i, Order::Gather(id));
    }

    /// Gives the buildings in some slots a rally point.
    pub fn rally_all(&mut self, slots: &Vec<usize>, p: V2)
        requires
            old(self).wf(),
            forall|k: int| 0 <= k < slots@.len() ==> #[trigger] slots@[k] < old(self)@.ents.len(),
        ensures
            final(self).wf(),
            final(self)@ == old(self)@.rallied(slots@, p),
    {
        let ghost w0 = self@;
        let n: usize = slots.len();
        assert(slots@.take(0) =~= Seq::<usize>::empty());
        for k in 0..n
            invariant
                n == slots@.len(),
                self.wf(),
                w0 == old(self)@,
                self@.ents.len() == w0.ents.len(),
                forall|j: int| 0 <= j < n ==> #[trigger] slots@[j] < w0.ents.len(),
                self@ == w0.rallied(slots@.take(k as int), p),
        {
            let i: usize = slots[k];
            proof {
                assert(slots@.take(k + 1).drop_last() =~= slots@.take(k as int));
                assert(slots@.take(k + 1).last() == i);
                assert(slots@[k as int] < w0.ents.len());
            }
            self.set_rally_point(i, p);
        }
        assert(slots@.take(n as int) =~= slots@);
    }

    /// Sends a scout to a point.
    pub fn send_scout(&mut self, i: usize, p: V2)
        requires
            old(self).wf(),
            i < old(self)@.ents.len(),
        ensures
            final(self).wf(),
            final(self)@ == old(self)@.with(
                i as int,
                EntV { order: Order::Move(p), ..old(self)@.ents[i as int] },
            ),
    {
        self.reorder(i, Order::Move(p));
    }

    /// Calls a scout back to its work.
    pub fn recall_scout(&mut self, i: usize)
        requires
            old(self).wf(),
            i < old(self)@.ents.len(),
        ensures
            final(self).wf(),
            final(self)@ == old(self)@.with(
                i as int,
                EntV { order: Order::Idle, ..old(self)@.ents[i as int] },
            ),
    {
        self.reorder(i, Order::Idle);
    }
}

/// What a computer builds is paid for in full, and a worker is on its way.
pub proof fn grants_are_paid(w: WorldV, me: Team, scout: u32, kind: Kind, site: V2, clear: bool)
    requires
        w.granted(me, scout, kind, Some(site), clear).1,
        me.idx() < MAX_FACTIONS,
        w.minerals.len() == MAX_FACTIONS,
    ensures
        clear,
        w.granted(me, scout, kind, Some(site), clear).0.bank(me) == w.bank(me) - cost(kind),
        underway(w.granted(me, scout, kind, Some(site), clear).0, kind, me),
{
    let f = free_hand(me, scout);
    let i = first_slot(w.ents, f);
    crate::world::lemma_first_slot(w.ents, f);
    let after = w.granted(me, scout, kind, Some(site), clear).0;
    assert(raises(after.ents[i], kind, me));
}

// ---- what holds of a computer ---------------------------------------------------------------

/// A computer sees what is in its sight: an army unit of a foe in a place that it sees is in
/// its intel, a building too, and nothing else is.
pub proof fn what_is_in_sight_is_seen(w: WorldV, me: Team, vis: Seq<u8>, i: int)
    requires
        w.ents.len() <= usize::MAX,
        vis.len() == w.ents.len(),
        0 <= i < w.ents.len(),
    ensures
        ({
            let e = w.ents[i];
            let n = w.ents.len() as int;
            let watched = e.team != me && e.team != Team::Neutral && vis[i] == 2;
            &&& slots_where(n, seen_army(w, me, vis)).contains(i as usize) <==> watched && (e.kind == Kind::Soldier
                || e.kind == Kind::Tank || e.kind == Kind::Pyro || e.kind == Kind::Raider || e.kind == Kind::Mortar
                || e.kind == Kind::Sapper)
            &&& slots_where(n, seen_building(w, me, vis)).contains(i as usize) <==> watched && (e.kind
                == Kind::Base || e.kind == Kind::Barracks || e.kind == Kind::Factory || e.kind == Kind::Depot)
        }),
{
    let n = w.ents.len() as int;
    slots_are_all_listed(n, seen_army(w, me, vis));
    slots_are_all_listed(n, seen_building(w, me, vis));
}

/// Population of the units in some slots.
pub open spec fn mustered(w: WorldV, slots: Seq<usize>) -> int
    decreases slots.len(),
{
    if slots.len() == 0 {
        0
    } else {
        mustered(w, slots.drop_last()) + supply_cost(w.ents[slots.last() as int].kind)
    }
}

/// What a computer takes a foe's army for is the population of the units it sees, all of
/// them and each once.
pub proof fn armies_are_added_up(w: WorldV, me: Team, vis: Seq<u8>, n: int)
    requires
        0 <= n <= usize::MAX,
    ensures
        seen_supply(w, me, vis, n) == mustered(w, slots_where(n, seen_army(w, me, vis))),
    decreases n,
{
    if n > 0 {
        armies_are_added_up(w, me, vis, n - 1);
        let s = slots_where(n, seen_army(w, me, vis));
        let r = slots_where(n - 1, seen_army(w, me, vis));
        if seen_army(w, me, vis)(n - 1) {
            assert(s.drop_last() =~= r);
        }
    }
}

/// A threat is never overlooked: with an army unit of a foe in sight and within 360 units of a
/// base there is a threat, and none of those is nearer to a base than the threat that is met.
/// What is met is such a unit.
pub proof fn threats_are_noticed(w: WorldV, me: Team, vis: Seq<u8>, d: Seq<Num>, r: Option<usize>, i: int)
    requires
        nearest_threat(w, me, vis, d, r),
        vis.len() == w.ents.len(),
        d.len() == w.ents.len(),
        0 <= i < w.ents.len(),
    ensures
        ({
            let e = w.ents[i];
            let army = e.kind == Kind::Soldier || e.kind == Kind::Tank || e.kind == Kind::Pyro || e.kind
                == Kind::Raider || e.kind == Kind::Mortar || e.kind == Kind::Sapper;
            e.team != me && e.team != Team::Neutral && army && vis[i] == 2 && d[i].less(Num::whole(129_600))
                ==> r is Some && !d[i].less(d[r->0 as int])
        }),
        r is Some ==> ({
            let t = w.ents[r->0 as int];
            &&& r->0 < w.ents.len()
            &&& t.team != me
            &&& t.team != Team::Neutral
            &&& t.kind != Kind::Worker && t.kind != Kind::Mineral && t.kind != Kind::Base && t.kind
                != Kind::Barracks && t.kind != Kind::Factory && t.kind != Kind::Depot
            &&& vis[r->0 as int] == 2
            &&& d[r->0 as int].less(Num::whole(129_600))
        }),
{
    let e = w.ents[i];
    if e.team != me && e.team != Team::Neutral && is_army(e.kind) && vis[i] == 2 {
        assert(seen_army(w, me, vis)(i));
    }
}

/// A computer knows its own: every idle worker, every finished barracks and factory, every base
/// and every fighter but the scout is in its count, under its heading and no other.
pub proof fn the_census_leaves_nobody_out(w: WorldV, me: Team, scout: u32, i: int)
    requires
        w.ents.len() <= usize::MAX,
        0 <= i < w.ents.len(),
    ensures
        ({
            let e = w.ents[i];
            let n = w.ents.len() as int;
            let k = i as usize;
            let done = e.build_left.at_most(Num { bits: 0 });
            &&& slots_where(n, idle_worker(w, me)).contains(k) <==> e.team == me && e.kind == Kind::Worker
                && e.order == Order::Idle
            &&& slots_where(n, plant(w, me, Kind::Barracks)).contains(k) <==> e.team == me && e.kind
                == Kind::Barracks && done
            &&& slots_where(n, plant(w, me, Kind::Factory)).contains(k) <==> e.team == me && e.kind
                == Kind::Factory && done
            &&& slots_where(n, base_at(w, me)).contains(k) <==> e.team == me && e.kind == Kind::Base
            &&& slots_where(n, trooper(w, me, scout)).contains(k) <==> e.team == me && e.id != scout && (e.kind
                == Kind::Soldier || e.kind == Kind::Tank || e.kind == Kind::Pyro || e.kind == Kind::Raider
                || e.kind == Kind::Mortar || e.kind == Kind::Sapper)
        }),
{
    let n = w.ents.len() as int;
    slots_are_all_listed(n, idle_worker(w, me));
    slots_are_all_listed(n, plant(w, me, Kind::Barracks));
    slots_are_all_listed(n, plant(w, me, Kind::Factory));
    slots_are_all_listed(n, base_at(w, me));
    slots_are_all_listed(n, trooper(w, me, scout));
}

/// A computer's strength is the population of its army, and its workers are as many as there
/// are.
pub proof fn the_census_adds_up(w: WorldV, me: Team, scout: u32)
    requires
        w.ents.len() <= usize::MAX,
    ensures
        total(w.ents, troop_supply(me, scout)) == mustered(w, slots_where(w.ents.len() as int, trooper(w, me, scout))),
        total(w.ents, worker_count(me)) == slots_where(
            w.ents.len() as int,
            |i: int| w.ents[i].team == me && w.ents[i].kind == Kind::Worker,
        ).len(),
{
    lemma_census_sums(w, me, scout, w.ents.len() as int);
    assert(w.ents.take(w.ents.len() as int) =~= w.ents);
}

proof fn lemma_census_sums(w: WorldV, me: Team, scout: u32, n: int)
    requires
        0 <= n <= w.ents.len() <= usize::MAX,
    ensures
        total(w.ents.take(n), troop_supply(me, scout)) == mustered(w, slots_where(n, trooper(w, me, scout))),
        total(w.ents.take(n), worker_count(me)) == slots_where(
            n,
            |i: int| w.ents[i].team == me && w.ents[i].kind == Kind::Worker,
        ).len(),
    decreases n,
{
    if n > 0 {
        lemma_census_sums(w, me, scout, n - 1);
        assert(w.ents.take(n).drop_last() =~= w.ents.take(n - 1));
        let s = slots_where(n, trooper(w, me, scout));
        if trooper(w, me, scout)(n - 1) {
            assert(s.drop_last() =~= slots_where(n - 1, trooper(w, me, scout)));
        }
    }
}

/// A computer is at home at its first living base; without one, at its first building; and
/// nowhere only when it has none.
pub proof fn home_is_where_the_base_is(w: WorldV, me: Team, i: int)
    requires
        0 <= i < w.ents.len(),
        w.ents[i].team == me,
    ensures
        ({
            let h = home(w, me);
            let e = w.ents[h];
            &&& w.ents[i].kind == Kind::Base && w.ents[i].hp.positive() ==> h <= i && e.kind == Kind::Base
                && e.hp.positive() && e.team == me
            &&& (w.ents[i].kind == Kind::Base || w.ents[i].kind == Kind::Barracks || w.ents[i].kind
                == Kind::Factory || w.ents[i].kind == Kind::Depot) ==> 0 <= h < w.ents.len() && e.team == me && (
            e.kind == Kind::Base || e.kind == Kind::Barracks || e.kind == Kind::Factory || e.kind == Kind::Depot)
        }),
{
    lemma_first_slot(w.ents, |e: EntV| e.kind == Kind::Base && e.team == me && e.hp.positive());
    lemma_first_slot(w.ents, |e: EntV| e.team == me && is_building(e.kind));
}

/// A free worker is found whenever there is one: it neither builds nor scouts, and it is the
/// first of them.
pub proof fn free_hands_are_found(w: WorldV, me: Team, scout: u32, i: int)
    requires
        0 <= i < w.ents.len(),
    ensures
        ({
            let h = first_slot(w.ents, free_hand(me, scout));
            let e = w.ents[i];
            let f = w.ents[h];
            &&& e.team == me && e.kind == Kind::Worker && e.id != scout && !(e.order is Build) ==> h <= i
            &&& 0 <= h < w.ents.len() ==> f.team == me && f.kind == Kind::Worker && f.id != scout && !(
            f.order is Build)
        }),
{
    lemma_first_slot(w.ents, free_hand(me, scout));
}

/// A building is under way exactly while someone of the team has the order to raise it.
pub proof fn plans_are_known(w: WorldV, kind: Kind, me: Team)
    ensures
        underway(w, kind, me) <==> exists|i: int|
            0 <= i < w.ents.len() && (#[trigger] w.ents[i]).team == me && w.ents[i].order is Build
                && w.ents[i].order->Build_0 == kind,
{
    if underway(w, kind, me) {
        let i = choose|i: int| 0 <= i < w.ents.len() && raises(#[trigger] w.ents[i], kind, me);
        assert(w.ents[i].team == me && w.ents[i].order is Build && w.ents[i].order->Build_0 == kind);
    }
    if exists|i: int|
        0 <= i < w.ents.len() && (#[trigger] w.ents[i]).team == me && w.ents[i].order is Build
            && w.ents[i].order->Build_0 == kind {
        let i = choose|i: int|
            0 <= i < w.ents.len() && (#[trigger] w.ents[i]).team == me && w.ents[i].order is Build
                && w.ents[i].order->Build_0 == kind;
        assert(raises(w.ents[i], kind, me));
    }
}

/// A computer builds what it lacks as soon as it can pay: a base when it has none, a depot
/// when fewer than six more can be fed, a first barracks, a first factory once it has the
/// people for it, a second plant later on, and a second base once it has saved up; one of
/// each at a time.
pub proof fn computers_build_what_they_lack(w: WorldV, me: Team, ai: AiState, s: Standing)
    ensures
        wished(w, me, ai, s, Wish::Rebase) is Some <==> !s.have_base && s.minerals >= cost(Kind::Base) && !underway(
            w,
            Kind::Base,
            me,
        ),
        wished(w, me, ai, s, Wish::Depot) is Some <==> s.cap < 120 && s.used + 6 > s.cap && s.minerals >= cost(
            Kind::Depot,
        ) && !underway(w, Kind::Depot, me),
        wished(w, me, ai, s, Wish::Barracks) is Some <==> s.barracks == 0 && s.minerals >= cost(Kind::Barracks)
            && !underway(w, Kind::Barracks, me),
        wished(w, me, ai, s, Wish::Factory) is Some <==> s.factories == 0 && s.barracks > 0 && s.minerals >= cost(
            Kind::Factory,
        ) && !underway(w, Kind::Factory, me) && s.workers >= (if ai.strategy == Strategy::Mech {
            6int
        } else {
            8int
        }) && (ai.strategy == Strategy::Rush ==> s.army_supply >= 4),
        wished(w, me, ai, s, Wish::Expand) is Some <==> !ai.expanded && s.bases == 1 && s.workers >= 10 && s.barracks
            > 0 && s.minerals >= ai.expand_min && !underway(w, Kind::Base, me),
        ({
            let late = Num::whole(80).less(w.time) && s.minerals >= cost(Kind::Barracks) + 80;
            let heavy = (ai.strategy == Strategy::Mech || (Num { bits: 0x3F00_0000 }).less(ai.tank_ratio))
                && s.factories == 1 && !underway(w, Kind::Factory, me);
            let light = s.barracks < 2 && !underway(w, Kind::Barracks, me);
            &&& wished(w, me, ai, s, Wish::Second) is Some <==> late && (heavy || light)
            &&& late && heavy ==> wished(w, me, ai, s, Wish::Second) == Some(Kind::Factory)
            &&& late && !heavy && light ==> wished(w, me, ai, s, Wish::Second) == Some(Kind::Barracks)
        }),
        forall|x: Wish| #[trigger]
            wished(w, me, ai, s, x) is Some && x != Wish::Second ==> wished(w, me, ai, s, x) == Some(
                match x {
                    Wish::Depot => Kind::Depot,
                    Wish::Barracks => Kind::Barracks,
                    Wish::Factory => Kind::Factory,
                    _ => Kind::Base,
                },
            ),
{
}

/// A computer wants the workers of its temperament and eight more for every base after the
/// first, up to twenty-six.
pub proof fn more_bases_want_more_workers(target: u32, bases: int)
    requires
        0 <= bases,
    ensures
        crew(target, bases) <= 26,
        crew(target, 0) == crew(target, 1),
        target <= 26 ==> crew(target, 1) == target,
        bases >= 1 ==> crew(target, bases + 1) == (if crew(target, bases) + 8 < 26 {
            crew(target, bases) + 8
        } else {
            26
        }),
{
}

/// A worker is ordered at one base at most, at the first that is finished, trains nothing and
/// can be paid and fed for; where no base can, nothing is ordered.
pub proof fn one_base_gets_the_order(w: WorldV, bases: Seq<usize>, k: int)
    requires
        0 <= k < bases.len(),
        forall|j: int| 0 <= j < bases.len() ==> #[trigger] bases[j] < w.ents.len(),
        forall|j: int|
            0 <= j < k ==> (#[trigger] w.ents[bases[j] as int]).queue.len() > 0
                || !w.ents[bases[j] as int].build_left.at_most(Num { bits: 0 }),
    ensures
        ({
            let b = bases[k] as int;
            let e = w.ents[b];
            let v = w.worker_ordered(bases);
            e.queue.len() == 0 && e.build_left.at_most(Num { bits: 0 }) && w.bank(e.team) >= cost(Kind::Worker)
                && w.used(e.team) + w.queued(e.team) + supply_cost(Kind::Worker) <= w.cap(e.team) ==> v == w.spent(
                e.team,
                cost(Kind::Worker) as int,
            ).with(b, EntV { queue: seq![Kind::Worker], ..e })
        }),
    decreases bases.len(),
{
    let b = bases[k] as int;
    let e = w.ents[b];
    if k == 0 {
        if e.queue.len() == 0 {
            assert(e.queue.push(Kind::Worker) =~= seq![Kind::Worker]);
        }
    } else {
        let rest = bases.drop_first();
        assert(w.ents[bases[0] as int].queue.len() > 0 || !w.ents[bases[0] as int].build_left.at_most(
            Num { bits: 0 },
        ));
        assert forall|j: int| 0 <= j < rest.len() implies #[trigger] rest[j] < w.ents.len() by {
            assert(rest[j] == bases[j + 1]);
        }
        assert forall|j: int| 0 <= j < k - 1 implies (#[trigger] w.ents[rest[j] as int]).queue.len() > 0
            || !w.ents[rest[j] as int].build_left.at_most(Num { bits: 0 }) by {
            assert(rest[j] == bases[j + 1]);
            let e = w.ents[bases[j + 1] as int];
            assert(e.queue.len() > 0 || !e.build_left.at_most(Num { bits: 0 }));
        }
        one_base_gets_the_order(w, rest, k - 1);
    }
}

/// A plant with fewer than two units waiting is asked for one more, of the kind that the draw
/// falls on: below the first share the first kind, below the second the second, and above both
/// the third. It is paid for. A plant with two waiting is left alone, and no draw is spent.
pub proof fn plants_are_kept_busy(w: WorldV, b: usize, a: Num, ab: Num, mix: (Kind, Kind, Kind))
    requires
        b < w.ents.len(),
    ensures
        ({
            let e = w.ents[b as int];
            let v = w.plants_fed(seq![b], a, ab, mix);
            let k = if w.luck().less(a) {
                mix.0
            } else if w.luck().less(ab) {
                mix.1
            } else {
                mix.2
            };
            &&& e.queue.len() >= 2 ==> v == w
            &&& e.queue.len() < 2 && w.bank(e.team) >= cost(k) && w.used(e.team) + w.queued(e.team) + supply_cost(k)
                <= w.cap(e.team) && !e.build_left.positive() ==> v == (WorldV {
                rng: xorshift(w.rng),
                ..w.spent(e.team, cost(k) as int).with(b as int, EntV { queue: e.queue.push(k), ..e })
            })
            &&& e.queue.len() < 2 ==> v.rng == xorshift(w.rng)
        }),
{
    let p = seq![b];
    assert(p.drop_last() =~= Seq::<usize>::empty());
    assert(w.plants_fed(p.drop_last(), a, ab, mix) == w);
    assert(p.last() == b);
}

/// Plants are fed one after the other.
pub proof fn plants_are_fed_in_turn(w: WorldV, p: Seq<usize>, q: Seq<usize>, a: Num, ab: Num, mix: (Kind, Kind, Kind))
    ensures
        w.plants_fed(p + q, a, ab, mix) == w.plants_fed(p, a, ab, mix).plants_fed(q, a, ab, mix),
        w.plants_fed(Seq::<usize>::empty(), a, ab, mix) == w,
    decreases q.len(),
{
    if q.len() == 0 {
        assert(p + q =~= p);
    } else {
        plants_are_fed_in_turn(w, p, q.drop_last(), a, ab, mix);
        assert((p + q).drop_last() =~= p + q.drop_last());
    }
}

/// A draw below a computer's liking for tanks has its factories served before its barracks, any
/// other the barracks first; both are always served. Barracks train sappers, pyros and
/// soldiers, factories mortars, raiders and tanks.
pub proof fn tanks_come_first_by_liking(w: WorldV, ai: AiState, c: Census, or_pyros: Num, or_raiders: Num)
    ensures
        ({
            let u = WorldV { rng: xorshift(w.rng), ..w };
            let foot = (Kind::Sapper, Kind::Pyro, Kind::Soldier);
            let wheels = (Kind::Mortar, Kind::Raider, Kind::Tank);
            let v = w.armed(ai, c, or_pyros, or_raiders);
            &&& w.luck().less(ai.tank_ratio) ==> v == u.plants_fed(
                c.factories@,
                ai.mortar_ratio,
                or_raiders,
                wheels,
            ).plants_fed(c.barracks@, ai.sapper_ratio, or_pyros, foot)
            &&& !w.luck().less(ai.tank_ratio) ==> v == u.plants_fed(
                c.barracks@,
                ai.sapper_ratio,
                or_pyros,
                foot,
            ).plants_fed(c.factories@, ai.mortar_ratio, or_raiders, wheels)
        }),
{
}

/// A computer has one scout at a time. While it has one it sends no other; a worker that
/// scouts is called back as soon as there is an army; an idle scout is sent on; and a lost one
/// is noticed. Without one it waits for its timer, and then sends a unit of its army or, with
/// more than five workers, a worker that builds nothing.
pub proof fn scouts_go_one_at_a_time(
    w: WorldV,
    me: Team,
    ai: AiState,
    army: Seq<usize>,
    idle: Seq<usize>,
    workers: u32,
)
    requires
        w.ents.len() <= usize::MAX,
    ensures
        ({
            let (m, drew) = scouting(w, me, ai, army, idle, workers);
            let due = ai.scout_id == 0 && !ai.scout_timer.positive();
            &&& ai.scout_id != 0 ==> !drew && match w.slot_of(ai.scout_id) {
                None => m == ScoutMove::Lost,
                Some(s) => {
                    &&& w.ents[s].kind == Kind::Worker && army.len() > 0 ==> m == ScoutMove::Reclaim(s as usize)
                    &&& !(w.ents[s].kind == Kind::Worker && army.len() > 0) && w.ents[s].order == Order::Idle
                        ==> m == ScoutMove::Wander(s as usize)
                    &&& !(w.ents[s].kind == Kind::Worker && army.len() > 0) && w.ents[s].order != Order::Idle
                        ==> m == ScoutMove::Carry
                },
            }
            &&& ai.scout_id == 0 && ai.scout_timer.positive() ==> m == ScoutMove::Wait && !drew
            &&& due ==> (drew <==> army.len() > 0)
            &&& due && army.len() > 0 && w.luck().less(Num { bits: 0x3F33_3333 }) ==> m == ScoutMove::Send(
                army.last(),
            )
            &&& due && !(army.len() > 0 && w.luck().less(Num { bits: 0x3F33_3333 })) ==> {
                &&& workers <= 5 ==> m == ScoutMove::Rest
                &&& workers > 5 && idle.len() > 0 ==> m == ScoutMove::Send(idle[0])
                &&& workers > 5 && idle.len() == 0 ==> m == ScoutMove::Rest || (m is Send && ({
                    let e = w.ents[m->Send_0 as int];
                    m->Send_0 < w.ents.len() && e.team == me && e.kind == Kind::Worker && !(e.order is Build)
                }))
                &&& workers > 5 && m == ScoutMove::Rest ==> forall|j: int|
                    0 <= j < w.ents.len() ==> !((#[trigger] w.ents[j]).team == me && w.ents[j].kind == Kind::Worker
                        && !(w.ents[j].order is Build))
            }
        }),
{
    lemma_first_slot(w.ents, spare_worker(me));
    let s = first_slot(w.ents, spare_worker(me));
    if s == w.ents.len() {
        assert forall|j: int| 0 <= j < w.ents.len() implies !((#[trigger] w.ents[j]).team == me && w.ents[j].kind
            == Kind::Worker && !(w.ents[j].order is Build)) by {
            assert(!spare_worker(me)(w.ents[j]));
        }
    }
}

/// An army that is held to be enough attacks, for show by the draw; one of three or more that
/// is not may poke, by the draw; and a smaller one always builds up.
pub proof fn strength_decides_the_intent(r: Num, army_supply: u32, needed: u32, feint: Num, harass: bool)
    ensures
        ({
            let x = resolved(r, army_supply, needed, feint, harass);
            let strong = army_supply >= needed && army_supply >= 3;
            let bold = r.less(
                if harass {
                    Num { bits: 0x3EB3_3333 }
                } else {
                    Num { bits: 0x3DF5_C28F }
                },
            );
            &&& strong && r.less(feint) <==> x == Resolve::Feint
            &&& strong && !r.less(feint) <==> x == Resolve::Commit
            &&& !strong && army_supply >= 3 && bold <==> x == Resolve::Harass
            &&& army_supply < 3 ==> x == Resolve::Build
        }),
{
}

/// An army on the march: every unit on the list but the scout attacks its way to its own point,
/// and nobody else is sent anywhere.
pub proof fn armies_march_to_their_points(w: WorldV, army: Seq<usize>, scout: u32, dests: Seq<V2>)
    requires
        dests.len() >= army.len(),
        army.no_duplicates(),
        forall|k: int| 0 <= k < army.len() ==> #[trigger] army[k] < w.ents.len(),
    ensures
        ({
            let v = w.marched(army, scout, dests);
            &&& v == WorldV { ents: v.ents, ..w }
            &&& v.ents.len() == w.ents.len()
            &&& forall|k: int|
                0 <= k < army.len() ==> v.ents[#[trigger] army[k] as int] == (if w.ents[army[k] as int].id == scout {
                    w.ents[army[k] as int]
                } else {
                    EntV { order: Order::AttackMove(dests[k]), ..w.ents[army[k] as int] }
                })
            &&& forall|i: int|
                0 <= i < w.ents.len() && !army.contains(i as usize) ==> #[trigger] v.ents[i] == w.ents[i]
        }),
    decreases army.len(),
{
    let v = w.marched(army, scout, dests);
    if army.len() > 0 {
        let front = army.drop_last();
        assert forall|k: int| 0 <= k < front.len() implies #[trigger] front[k] < w.ents.len() by {
            assert(front[k] == army[k]);
        }
        assert(front.no_duplicates());
        armies_march_to_their_points(w, front, scout, dests);
        let u = w.marched(front, scout, dests);
        let last = army.last();
        assert(army[army.len() - 1] == last && last < w.ents.len());
        assert(!front.contains(last)) by {
            if front.contains(last) {
                let j = choose|j: int| 0 <= j < front.len() && front[j] == last;
                assert(army[j] == army[army.len() - 1]);
            }
        }
        assert(u.ents[last as int] == w.ents[last as int]);
        assert forall|k: int| 0 <= k < army.len() implies v.ents[#[trigger] army[k] as int] == (if w.ents[army[k] as int].id
            == scout {
            w.ents[army[k] as int]
        } else {
            EntV { order: Order::AttackMove(dests[k]), ..w.ents[army[k] as int] }
        }) by {
            if k < front.len() {
                assert(front[k] == army[k]);
                assert(army[k] != army[army.len() - 1]);
            }
        }
        assert forall|i: int| 0 <= i < w.ents.len() && !army.contains(i as usize) implies #[trigger] v.ents[i]
            == w.ents[i] by {
            if front.contains(i as usize) {
                let j = choose|j: int| 0 <= j < front.len() && front[j] == i as usize;
                assert(army[j] == i as usize);
            }
            assert(i != last) by {
                if i == last {
                    assert(army[army.len() - 1] == i as usize);
                }
            }
            assert(u.ents[i] == w.ents[i]);
        }
    }
}

/// Every building on the list rallies at the point, and nothing else changes.
pub proof fn plants_rally_at_one_point(w: WorldV, slots: Seq<usize>, p: V2, i: int)
    requires
        forall|k: int| 0 <= k < slots.len() ==> #[trigger] slots[k] < w.ents.len(),
        0 <= i < w.ents.len() <= usize::MAX,
    ensures
        ({
            let v = w.rallied(slots, p);
            &&& v == WorldV { ents: v.ents, ..w }
            &&& v.ents.len() == w.ents.len()
            &&& v.ents[i] == (if slots.contains(i as usize) {
                EntV { rally: p, ..w.ents[i] }
            } else {
                w.ents[i]
            })
        }),
    decreases slots.len(),
{
    if slots.len() > 0 {
        let front = slots.drop_last();
        assert forall|k: int| 0 <= k < front.len() implies #[trigger] front[k] < w.ents.len() by {
            assert(front[k] == slots[k]);
        }
        plants_rally_at_one_point(w, front, p, i);
        assert(slots[slots.len() - 1] < w.ents.len());
        if front.contains(i as usize) {
            let j = choose|j: int| 0 <= j < front.len() && front[j] == i as usize;
            assert(slots[j] == i as usize);
        }
        if slots.contains(i as usize) && !front.contains(i as usize) {
            let j = choose|j: int| 0 <= j < slots.len() && slots[j] == i as usize;
            if j < front.len() {
                assert(front[j] == i as usize);
            }
        }
        if slots.last() == i as usize {
            assert(slots[slots.len() - 1] == i as usize);
        }
    }
}

/// A computer that has a free worker, a clear site and the minerals gets its building started:
/// the first free worker is sent there, and the price is taken.
pub proof fn builders_are_sent_when_they_can_be(w: WorldV, me: Team, scout: u32, kind: Kind, site: V2, clear: bool, i: int)
    requires
        0 <= i < w.ents.len(),
        w.ents[i].team == me,
        w.ents[i].kind == Kind::Worker,
        w.ents[i].id != scout,
        !(w.ents[i].order is Build),
    ensures
        ({
            let (v, ok) = w.granted(me, scout, kind, Some(site), clear);
            &&& ok <==> clear && w.bank(me) >= cost(kind)
            &&& !ok ==> v == w
            &&& ok ==> exists|h: int|
                0 <= h <= i && (#[trigger] w.ents[h]).team == me && w.ents[h].kind == Kind::Worker && w.ents[h].id
                    != scout && v == w.spent(me, cost(kind) as int).with(
                    h,
                    EntV { order: Order::Build(kind, site), build_queue: Seq::empty(), ..w.ents[h] },
                )
        }),
{
    free_hands_are_found(w, me, scout, i);
    lemma_first_slot(w.ents, free_hand(me, scout));
    let h = first_slot(w.ents, free_hand(me, scout));
    assert(w.ents[h].team == me);
}

/// A computer remembers sixteen buildings, wants at most twenty-six workers, and takes a foe
/// within 360 units of a base for a threat.
pub proof fn the_limits_of_a_computer()
    ensures
        KNOWN_MAX == 16,
        WORKERS_MAX == 26,
        THREAT_SQ == 360 * 360,
{
}

/// Where no base can take a worker, because each is busy or unfinished, nothing is ordered.
pub proof fn busy_bases_get_no_order(w: WorldV, bases: Seq<usize>)
    requires
        forall|j: int|
            0 <= j < bases.len() ==> (#[trigger] w.ents[bases[j] as int]).queue.len() > 0
                || !w.ents[bases[j] as int].build_left.at_most(Num { bits: 0 }),
    ensures
        w.worker_ordered(bases) == w,
    decreases bases.len(),
{
    if bases.len() > 0 {
        let e = w.ents[bases[0] as int];
        assert(e.queue.len() > 0 || !e.build_left.at_most(Num { bits: 0 }));
        let rest = bases.drop_first();
        assert forall|j: int| 0 <= j < rest.len() implies (#[trigger] w.ents[rest[j] as int]).queue.len() > 0
            || !w.ents[rest[j] as int].build_left.at_most(Num { bits: 0 }) by {
            assert(rest[j] == bases[j + 1]);
            let f = w.ents[bases[j + 1] as int];
            assert(f.queue.len() > 0 || !f.build_left.at_most(Num { bits: 0 }));
        }
        busy_bases_get_no_order(w, rest);
    }
}

/// A foe is whoever is neither oneself nor neutral, and a foe's base is a base of such a one.
pub proof fn foes_are_the_others(e: EntV, me: Team)
    ensures
        is_foe(e.team, me) <==> e.team != me && e.team != Team::Neutral,
        foe_base(e, me) <==> e.kind == Kind::Base && e.team != me && e.team != Team::Neutral,
{
}

/// The enemy base that a computer goes for is the nearest there is, and it has one to go for
/// while there is any.
pub proof fn the_nearest_base_is_the_target(ents: Seq<EntV>, me: Team, d: Seq<Num>, n: int, j: int)
    requires
        0 <= j < n <= ents.len(),
        forall|i: int| 0 <= i < ents.len() ==> !(#[trigger] d[i]).is_nan(),
    ensures
        ({
            let b = base_so_far(ents, me, d, n);
            &&& ents[j].kind == Kind::Base && ents[j].team != me && ents[j].team != Team::Neutral ==> b is Some
                && !d[j].less(d[b->0])
            &&& b is Some ==> 0 <= b->0 < n && ents[b->0].kind == Kind::Base && ents[b->0].team != me && ents[b->0].team
                != Team::Neutral
        }),
    decreases n,
{
    let k = n - 1;
    assert(!d[k].is_nan() && !d[j].is_nan());
    if n > 1 {
        the_nearest_base_is_the_target(
            ents,
            me,
            d,
            n - 1,
            if j < n - 1 {
                j
            } else {
                0
            },
        );
        if let Some(b) = base_so_far(ents, me, d, n - 1) {
            assert(!d[b].is_nan());
        }
    } else {
        assert(base_so_far(ents, me, d, 0) is None);
    }
}

} // verus!
