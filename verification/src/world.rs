//! The state of a match: everything that stands on the map, each faction's minerals,
//! and what the players are told. Positions, hit points and clocks are single-precision
//! numbers (see `num`); whoever drives the match does the arithmetic on them and hands
//! the results in.

use vstd::prelude::*;
use crate::audio::Sfx;
use crate::kind::{
    cost, kind_to_u8, max_hp, supply_cost, supply_provide, Kind, Team, MAX_FACTIONS, MINERAL_START,
};
use crate::num::{Num, V2};
use crate::rng::{mix_seed, xorshift};

verus! {

/// Most entities a match may hold.
pub const MAX_ENTS: usize = 100_000_000;

/// The population no faction can exceed.
pub const SUPPLY_MAX: u32 = 120;

/// How long a message stays up: 3.2 seconds.
pub const MSG_LIFE_BITS: u32 = 0x404C_CCCD;

/// The number one.
pub const ONE_BITS: u32 = 0x3F80_0000;

/// How many messages stay up at once.
pub const MSG_MAX: usize = 5;

/// How many sounds wait for the mixer at most.
pub const SOUND_MAX: usize = 64;

/// What a unit has been told to do.
#[derive(Clone, Copy, PartialEq, Eq, Structural, Debug)]
pub enum Order {
    Idle,
    Move(V2),
    AttackMove(V2),
    Attack(u32),
    Gather(u32),
    Build(Kind, V2),
    Repair(u32),
}

/// One thing on the map.
pub struct Ent {
    pub id: u32,
    pub team: Team,
    pub kind: Kind,
    pub pos: V2,
    pub hp: Num,
    pub max_hp: Num,
    pub order: Order,
    pub goal: Option<V2>,
    pub cooldown: Num,
    pub carry: u32,
    pub mine_timer: Num,
    /// What is left in a mineral patch.
    pub minerals: u32,
    /// Units a building is to train.
    pub queue: Vec<Kind>,
    /// Buildings a worker is to raise after the one it is on.
    pub build_queue: Vec<(Kind, V2)>,
    /// Orders to carry out after the current one.
    pub order_queue: Vec<Order>,
    /// What a repairing worker still owes, in minerals.
    pub repair_owed: Num,
    pub train_timer: Num,
    pub rally: V2,
    pub rally_set: bool,
    pub facing: V2,
    pub selected: bool,
    pub flash: Num,
    /// Positive while a building is being raised.
    pub build_left: Num,
    pub path: Vec<V2>,
    pub repath: Num,
}

/// One thing on the map, with its lists as sequences.
#[verifier::ext_equal]
pub struct EntV {
    pub id: u32,
    pub team: Team,
    pub kind: Kind,
    pub pos: V2,
    pub hp: Num,
    pub max_hp: Num,
    pub order: Order,
    pub goal: Option<V2>,
    pub cooldown: Num,
    pub carry: u32,
    pub mine_timer: Num,
    pub minerals: u32,
    pub queue: Seq<Kind>,
    pub build_queue: Seq<(Kind, V2)>,
    pub order_queue: Seq<Order>,
    pub repair_owed: Num,
    pub train_timer: Num,
    pub rally: V2,
    pub rally_set: bool,
    pub facing: V2,
    pub selected: bool,
    pub flash: Num,
    pub build_left: Num,
    pub path: Seq<V2>,
    pub repath: Num,
}

impl View for Ent {
    type V = EntV;

    open spec fn view(&self) -> EntV {
        EntV {
            id: self.id,
            team: self.team,
            kind: self.kind,
            pos: self.pos,
            hp: self.hp,
            max_hp: self.max_hp,
            order: self.order,
            goal: self.goal,
            cooldown: self.cooldown,
            carry: self.carry,
            mine_timer: self.mine_timer,
            minerals: self.minerals,
            queue: self.queue@,
            build_queue: self.build_queue@,
            order_queue: self.order_queue@,
            repair_owed: self.repair_owed,
            train_timer: self.train_timer,
            rally: self.rally,
            rally_set: self.rally_set,
            facing: self.facing,
            selected: self.selected,
            flash: self.flash,
            build_left: self.build_left,
            path: self.path@,
            repath: self.repath,
        }
    }
}

/// Feedback on a command: where, for how much longer, in which colour.
#[derive(Clone, Copy, PartialEq, Eq, Structural, Debug)]
pub struct Ping {
    pub pos: V2,
    pub life: Num,
    pub color: u32,
}

/// A match.
pub struct World {
    pub ents: Vec<Ent>,
    pub next_id: u32,
    pub minerals: [u32; 4],
    pub factions: usize,
    pub is_ai: [bool; 4],
    /// Whose eyes the local player sees through.
    pub my_team: Team,
    /// Whether the match is played over a network.
    pub versus: bool,
    pub sounds: Vec<(Sfx, Option<V2>)>,
    pub pings: Vec<Ping>,
    pub messages: Vec<(String, Num)>,
    pub rng: u64,
    /// 0 while the local player is in play, 1 for a win, -1 for a loss.
    pub over: i32,
    pub match_over: bool,
    pub time: Num,
    pub attack_warn: Num,
    pub kills: u32,
}

/// A match, with its lists as sequences.
#[verifier::ext_equal]
pub struct WorldV {
    pub ents: Seq<EntV>,
    pub next_id: u32,
    pub minerals: Seq<u32>,
    pub factions: usize,
    pub is_ai: Seq<bool>,
    pub my_team: Team,
    pub versus: bool,
    pub sounds: Seq<(Sfx, Option<V2>)>,
    pub pings: Seq<Ping>,
    pub messages: Seq<(Seq<char>, Num)>,
    pub rng: u64,
    pub over: i32,
    pub match_over: bool,
    pub time: Num,
    pub attack_warn: Num,
    pub kills: u32,
}

pub open spec fn ents_view(ents: Seq<Ent>) -> Seq<EntV> {
    ents.map_values(|e: Ent| e@)
}

pub open spec fn notes_view(m: Seq<(String, Num)>) -> Seq<(Seq<char>, Num)> {
    m.map_values(|e: (String, Num)| (e.0@, e.1))
}

impl View for World {
    type V = WorldV;

    open spec fn view(&self) -> WorldV {
        WorldV {
            ents: ents_view(self.ents@),
            next_id: self.next_id,
            minerals: self.minerals@,
            factions: self.factions,
            is_ai: self.is_ai@,
            my_team: self.my_team,
            versus: self.versus,
            sounds: self.sounds@,
            pings: self.pings@,
            messages: notes_view(self.messages@),
            rng: self.rng,
            over: self.over,
            match_over: self.match_over,
            time: self.time,
            attack_warn: self.attack_warn,
            kills: self.kills,
        }
    }
}

impl WorldV {
    /// The match with another entity in slot `i`.
    pub open spec fn with(self, i: int, e: EntV) -> WorldV {
        WorldV { ents: self.ents.update(i, e), ..self }
    }

    /// What a faction has in the bank; neutrals have nothing.
    pub open spec fn bank(self, t: Team) -> u32 {
        if t.idx() < MAX_FACTIONS {
            self.minerals[t.idx() as int]
        } else {
            0
        }
    }

    /// The match with another sum in a faction's bank.
    pub open spec fn with_bank(self, t: Team, m: int) -> WorldV {
        if t.idx() < MAX_FACTIONS {
            WorldV { minerals: self.minerals.update(t.idx() as int, m as u32), ..self }
        } else {
            self
        }
    }

    /// The match after a faction has spent; never below nothing.
    pub open spec fn spent(self, t: Team, amt: int) -> WorldV {
        let m = self.bank(t) - amt;
        self.with_bank(t, if m < 0 {
            0
        } else {
            m
        })
    }

    pub open spec fn gained(self, t: Team, amt: int) -> WorldV {
        self.with_bank(t, self.bank(t) + amt)
    }

    /// The match after a message was put up: the newest few stay.
    pub open spec fn told(self, s: Seq<char>) -> WorldV {
        let m = self.messages.push((s, Num { bits: MSG_LIFE_BITS }));
        WorldV {
            messages: if m.len() > MSG_MAX {
                m.drop_first()
            } else {
                m
            },
            ..self
        }
    }

    /// The match after a message to one faction: only the local player is told.
    pub open spec fn told_if(self, cond: bool, s: Seq<char>) -> WorldV {
        if cond {
            self.told(s)
        } else {
            self
        }
    }

    /// The match after a sound: the newest few wait for the mixer.
    pub open spec fn heard(self, s: Sfx, pos: Option<V2>) -> WorldV {
        let q = self.sounds.push((s, pos));
        WorldV {
            sounds: if q.len() > SOUND_MAX {
                q.drop_first()
            } else {
                q
            },
            ..self
        }
    }

    pub open spec fn pinged(self, p: Ping) -> WorldV {
        WorldV { pings: self.pings.push(p), ..self }
    }

    /// Slot of the first entity with an id, or one past the last slot.
    pub open spec fn slot(self, id: u32) -> int {
        first_slot(self.ents, |e: EntV| e.id == id)
    }

    pub open spec fn slot_of(self, id: u32) -> Option<int> {
        if self.slot(id) < self.ents.len() {
            Some(self.slot(id))
        } else {
            None
        }
    }
}

/// First slot whose entity satisfies a condition, or one past the last.
pub open spec fn first_slot(ents: Seq<EntV>, f: spec_fn(EntV) -> bool) -> int
    decreases ents.len(),
{
    if ents.len() == 0 {
        0
    } else if f(ents[0]) {
        0
    } else {
        1 + first_slot(ents.drop_first(), f)
    }
}

/// What the first slot is: the condition holds there and nowhere before.
pub proof fn lemma_first_slot(ents: Seq<EntV>, f: spec_fn(EntV) -> bool)
    ensures
        0 <= first_slot(ents, f) <= ents.len(),
        first_slot(ents, f) < ents.len() ==> f(ents[first_slot(ents, f)]),
        forall|i: int| 0 <= i < first_slot(ents, f) ==> !f(#[trigger] ents[i]),
    decreases ents.len(),
{
    if ents.len() > 0 && !f(ents[0]) {
        let t = ents.drop_first();
        lemma_first_slot(t, f);
        assert forall|i: int| 0 <= i < first_slot(ents, f) implies !f(#[trigger] ents[i]) by {
            if i > 0 {
                assert(ents[i] == t[i - 1]);
            }
        }
    }
}

/// A slot before which the condition never holds, and at which it does, is the first.
pub proof fn lemma_first_slot_is(ents: Seq<EntV>, f: spec_fn(EntV) -> bool, k: int)
    requires
        0 <= k <= ents.len(),
        k < ents.len() ==> f(ents[k]),
        forall|i: int| 0 <= i < k ==> !f(#[trigger] ents[i]),
    ensures
        first_slot(ents, f) == k,
{
    lemma_first_slot(ents, f);
    let s = first_slot(ents, f);
    if s < k {
        assert(!f(ents[s]));
    }
    if k < s {
        assert(!f(ents[k]));
    }
}

/// Sum over all entities.
pub open spec fn total(ents: Seq<EntV>, f: spec_fn(EntV) -> int) -> int
    decreases ents.len(),
{
    if ents.len() == 0 {
        0
    } else {
        total(ents.drop_last(), f) + f(ents.last())
    }
}

/// Replacing one entity changes a sum by what it changes of its share.
pub proof fn lemma_total_update(ents: Seq<EntV>, f: spec_fn(EntV) -> int, i: int, e: EntV)
    requires
        0 <= i < ents.len(),
    ensures
        total(ents.update(i, e), f) == total(ents, f) - f(ents[i]) + f(e),
    decreases ents.len(),
{
    let t = ents.update(i, e);
    if i == ents.len() - 1 {
        assert(t.drop_last() =~= ents.drop_last());
    } else {
        lemma_total_update(ents.drop_last(), f, i, e);
        assert(t.drop_last() =~= ents.drop_last().update(i, e));
    }
}

pub proof fn lemma_total_push(ents: Seq<EntV>, f: spec_fn(EntV) -> int, e: EntV)
    ensures
        total(ents.push(e), f) == total(ents, f) + f(e),
{
    assert(ents.push(e).drop_last() =~= ents);
}

pub proof fn lemma_total_part(ents: Seq<EntV>, f: spec_fn(EntV) -> int, k: int)
    requires
        0 <= k <= ents.len(),
        forall|e: EntV| #[trigger] f(e) >= 0,
    ensures
        0 <= total(ents.take(k), f) <= total(ents, f),
    decreases ents.len() - k,
{
    if k < ents.len() {
        lemma_total_part(ents, f, k + 1);
        assert(ents.take(k + 1).drop_last() =~= ents.take(k));
        lemma_total_nonneg(ents.take(k), f);
    } else {
        assert(ents.take(k) =~= ents);
        lemma_total_nonneg(ents, f);
    }
}

pub proof fn lemma_total_nonneg(ents: Seq<EntV>, f: spec_fn(EntV) -> int)
    requires
        forall|e: EntV| #[trigger] f(e) >= 0,
    ensures
        total(ents, f) >= 0,
    decreases ents.len(),
{
    if ents.len() > 0 {
        lemma_total_nonneg(ents.drop_last(), f);
        assert(f(ents.last()) >= 0);
    }
}

pub proof fn lemma_total_bound(ents: Seq<EntV>, f: spec_fn(EntV) -> int, c: int)
    requires
        forall|e: EntV| 0 <= #[trigger] f(e) <= c,
    ensures
        0 <= total(ents, f) <= c * ents.len(),
    decreases ents.len(),
{
    if ents.len() > 0 {
        lemma_total_bound(ents.drop_last(), f, c);
        assert(0 <= f(ents.last()) <= c);
        let n = ents.len() as int;
        assert(c * (n - 1) + c == c * n) by (nonlinear_arith);
    } else {
        assert(c * ents.len() == 0) by (nonlinear_arith)
            requires
                ents.len() == 0,
        ;
    }
}

/// Population an entity takes up for a team.
pub open spec fn mouths(t: Team) -> spec_fn(EntV) -> int {
    |e: EntV|
        if e.team == t {
            supply_cost(e.kind) as int
        } else {
            0
        }
}

/// Population an entity supplies to a team, once it is raised.
pub open spec fn beds(t: Team) -> spec_fn(EntV) -> int {
    |e: EntV|
        if e.team == t && !e.build_left.positive() && !e.build_left.is_nan() {
            supply_provide(e.kind) as int
        } else {
            0
        }
}

/// Population of a queue of units.
pub open spec fn queue_supply(q: Seq<Kind>) -> int
    decreases q.len(),
{
    if q.len() == 0 {
        0
    } else {
        queue_supply(q.drop_last()) + supply_cost(q.last())
    }
}

/// Population that an entity of a team is going to train.
pub open spec fn unborn(t: Team) -> spec_fn(EntV) -> int {
    |e: EntV|
        if e.team == t {
            queue_supply(e.queue)
        } else {
            0
        }
}

impl WorldV {
    /// Population that a team's units take up.
    pub open spec fn used(self, t: Team) -> int {
        total(self.ents, mouths(t))
    }

    /// Population that a team's raised buildings supply, up to the ceiling.
    pub open spec fn cap(self, t: Team) -> int {
        let c = total(self.ents, beds(t));
        if c > SUPPLY_MAX {
            SUPPLY_MAX as int
        } else {
            c
        }
    }

    /// Population that a team's buildings are going to train.
    pub open spec fn queued(self, t: Team) -> int {
        total(self.ents, unborn(t))
    }

    /// The match after the building in slot `i` was asked to train a unit, and whether it
    /// will.
    pub open spec fn trained(self, i: int, k: Kind) -> (WorldV, bool) {
        let e = self.ents[i];
        if self.bank(e.team) < cost(k) {
            (self.told_if(e.team == self.my_team, "NOT ENOUGH MINERALS"@), false)
        } else if self.used(e.team) + self.queued(e.team) + supply_cost(k) > self.cap(e.team) {
            (self.told_if(e.team == self.my_team, "NEED A SUPPLY DEPOT"@), false)
        } else if e.build_left.positive() {
            (self, false)
        } else {
            (
                self.spent(e.team, cost(k) as int).with(i, EntV { queue: e.queue.push(k), ..e }),
                true,
            )
        }
    }
}

impl World {
    pub open spec fn wf(&self) -> bool {
        &&& self.ents@.len() <= MAX_ENTS
        &&& 2 <= self.factions <= MAX_FACTIONS
    }

    /// What a faction has in the bank.
    pub fn team_min(&self, t: Team) -> (r: u32)
        ensures
            r == self@.bank(t),
    {
        let i: usize = t.idx();
        if i < MAX_FACTIONS {
            self.minerals[i]
        } else {
            0
        }
    }

    /// Takes from a faction's bank, as far as there is something.
    pub fn spend(&mut self, t: Team, amt: u32)
        requires
            old(self).wf(),
        ensures
            final(self).wf(),
            final(self)@ == old(self)@.spent(t, amt as int),
    {
        let i: usize = t.idx();
        if i < MAX_FACTIONS {
            self.minerals[i] = self.minerals[i].saturating_sub(amt);
        }
        assert(self@ =~= old(self)@.spent(t, amt as int));
    }

    /// Adds to a faction's bank.
    pub fn gain(&mut self, t: Team, amt: u32)
        requires
            old(self).wf(),
            old(self)@.bank(t) + amt <= u32::MAX,
        ensures
            final(self).wf(),
            final(self)@ == old(self)@.gained(t, amt as int),
    {
        let i: usize = t.idx();
        if i < MAX_FACTIONS {
            self.minerals[i] = self.minerals[i] + amt;
        }
        assert(self@ =~= old(self)@.gained(t, amt as int));
    }

    /// Puts up a message; the oldest makes room.
    pub fn msg(&mut self, s: &str)
        requires
            old(self).wf(),
        ensures
            final(self).wf(),
            final(self)@ == old(self)@.told(s@),
    {
        let ghost m0 = self.messages@;
        let note: String = s.to_string();
        self.messages.push((note, Num { bits: MSG_LIFE_BITS }));
        proof {
            assert(notes_view(self.messages@) =~= notes_view(m0).push(
                (s@, Num { bits: MSG_LIFE_BITS }),
            ));
        }
        if self.messages.len() > MSG_MAX {
            let ghost m1 = self.messages@;
            let gone = self.messages.remove(0);
            proof {
                assert(notes_view(self.messages@) =~= notes_view(m1).drop_first());
            }
        }
        assert(self@ =~= old(self)@.told(s@));
    }

    /// Hands a sound to the mixer, with the place it comes from if it has one; the oldest
    /// makes room.
    pub fn push_sound(&mut self, s: Sfx, pos: Option<V2>)
        requires
            old(self).wf(),
        ensures
            final(self).wf(),
            final(self)@ == old(self)@.heard(s, pos),
    {
        self.sounds.push((s, pos));
        if self.sounds.len() > SOUND_MAX {
            let gone = self.sounds.remove(0);
        }
        assert(self@.sounds =~= old(self)@.heard(s, pos).sounds);
        assert(self@ =~= old(self)@.heard(s, pos));
    }

    /// Slot of the first entity with an id.
    pub fn index_of(&self, id: u32) -> (r: Option<usize>)
        ensures
            match r {
                Some(i) => self@.slot_of(id) == Some(i as int) && i < self.ents@.len(),
                None => self@.slot_of(id) is None,
            },
    {
        let ghost f = |e: EntV| e.id == id;
        let mut i: usize = 0;
        while i < self.ents.len()
            invariant
                i <= self.ents@.len(),
                f == (|e: EntV| e.id == id),
                forall|j: int| 0 <= j < i ==> !f(#[trigger] self@.ents[j]),
            decreases self.ents@.len() - i,
        {
            assert(self@.ents[i as int] == self.ents@[i as int]@);
            if self.ents[i].id == id {
                proof {
                    lemma_first_slot_is(self@.ents, f, i as int);
                }
                return Some(i);
            }
            i = i + 1;
        }
        proof {
            lemma_first_slot_is(self@.ents, f, i as int);
        }
        None
    }

    /// Slot of the first living base of a team.
    pub fn first_base(&self, team: Team) -> (r: Option<usize>)
        ensures
            match r {
                Some(i) => i < self.ents@.len() && i == first_slot(
                    self@.ents,
                    |e: EntV| e.kind == Kind::Base && e.team == team && e.hp.positive(),
                ),
                None => self.ents@.len() == first_slot(
                    self@.ents,
                    |e: EntV| e.kind == Kind::Base && e.team == team && e.hp.positive(),
                ),
            },
    {
        let ghost f = |e: EntV| e.kind == Kind::Base && e.team == team && e.hp.positive();
        let mut i: usize = 0;
        while i < self.ents.len()
            invariant
                i <= self.ents@.len(),
                f == (|e: EntV| e.kind == Kind::Base && e.team == team && e.hp.positive()),
                forall|j: int| 0 <= j < i ==> !f(#[trigger] self@.ents[j]),
            decreases self.ents@.len() - i,
        {
            assert(self@.ents[i as int] == self.ents@[i as int]@);
            if self.ents[i].kind == Kind::Base && self.ents[i].team == team && self.ents[i].hp.positive() {
                proof {
                    lemma_first_slot_is(self@.ents, f, i as int);
                }
                return Some(i);
            }
            i = i + 1;
        }
        proof {
            lemma_first_slot_is(self@.ents, f, i as int);
        }
        None
    }

    /// Population that a team's units take up.
    pub fn supply_used(&self, team: Team) -> (r: u32)
        requires
            self.wf(),
        ensures
            r == self@.used(team),
    {
        let ghost f = mouths(team);
        let mut sum: u32 = 0;
        let n: usize = self.ents.len();
        assert(self@.ents.take(0) =~= Seq::<EntV>::empty());
        for i in 0..n
            invariant
                self.wf(),
                n == self.ents@.len(),
                f == mouths(team),
                sum == total(self@.ents.take(i as int), f),
                sum <= 3 * i,
        {
            proof {
                assert(self@.ents.take(i + 1).drop_last() =~= self@.ents.take(i as int));
                assert(self@.ents.take(i + 1).last() == self.ents@[i as int]@);
            }
            if self.ents[i].team == team {
                sum = sum + supply_cost(self.ents[i].kind);
            }
        }
        assert(self@.ents.take(n as int) =~= self@.ents);
        sum
    }

    /// Population that a team's raised buildings supply, up to the ceiling.
    pub fn supply_cap(&self, team: Team) -> (r: u32)
        requires
            self.wf(),
        ensures
            r == self@.cap(team),
            r <= SUPPLY_MAX,
    {
        let ghost f = beds(team);
        let mut sum: u32 = 0;
        let n: usize = self.ents.len();
        assert(self@.ents.take(0) =~= Seq::<EntV>::empty());
        for i in 0..n
            invariant
                self.wf(),
                n == self.ents@.len(),
                f == beds(team),
                sum == total(self@.ents.take(i as int), f),
                sum <= 11 * i,
        {
            proof {
                assert(self@.ents.take(i + 1).drop_last() =~= self@.ents.take(i as int));
                assert(self@.ents.take(i + 1).last() == self.ents@[i as int]@);
            }
            let left = self.ents[i].build_left;
            if self.ents[i].team == team && left.at_most(Num { bits: 0 }) {
                sum = sum + supply_provide(self.ents[i].kind);
            }
        }
        assert(self@.ents.take(n as int) =~= self@.ents);
        if sum > SUPPLY_MAX {
            SUPPLY_MAX
        } else {
            sum
        }
    }

    /// Population that a team's buildings are going to train, counted no further than just
    /// past the ceiling.
    fn supply_queued(&self, team: Team) -> (r: u32)
        ensures
            r == (if self@.queued(team) > SUPPLY_MAX {
                SUPPLY_MAX + 1
            } else {
                self@.queued(team)
            }),
    {
        let ghost f = unborn(team);
        let mut sum: u32 = 0;
        let n: usize = self.ents.len();
        assert(self@.ents.take(0) =~= Seq::<EntV>::empty());
        proof {
            lemma_unborn_nonneg(team);
        }
        for i in 0..n
            invariant
                n == self.ents@.len(),
                f == unborn(team),
                forall|e: EntV| #[trigger] f(e) >= 0,
                sum == total(self@.ents.take(i as int), f),
                sum <= SUPPLY_MAX,
        {
            proof {
                assert(self@.ents.take(i + 1).drop_last() =~= self@.ents.take(i as int));
                assert(self@.ents.take(i + 1).last() == self.ents@[i as int]@);
                lemma_total_part(self@.ents, f, i + 1);
            }
            if self.ents[i].team == team {
                let m: usize = self.ents[i].queue.len();
                let ghost q = self.ents@[i as int].queue@;
                let ghost s0 = sum;
                assert(q.take(0) =~= Seq::<Kind>::empty());
                for k in 0..m
                    invariant
                        i < self.ents@.len(),
                        q == self.ents@[i as int].queue@,
                        m == q.len(),
                        sum == s0 + queue_supply(q.take(k as int)),
                        s0 + queue_supply(q) <= self@.queued(team),
                        sum <= SUPPLY_MAX,
                {
                    proof {
                        assert(q.take(k + 1).drop_last() =~= q.take(k as int));
                        assert(q.take(k + 1).last() == q[k as int]);
                        lemma_queue_part(q, k + 1);
                    }
                    sum = sum + supply_cost(self.ents[i].queue[k]);
                    if sum > SUPPLY_MAX {
                        return SUPPLY_MAX + 1;
                    }
                }
                assert(q.take(m as int) =~= q);
            }
        }
        assert(self@.ents.take(n as int) =~= self@.ents);
        sum
    }

    /// Asks the building in slot `bidx` to train a unit: its faction needs the minerals and
    /// the population, units already queued count, and it must have been raised.
    pub fn try_train(&mut self, bidx: usize, kind: Kind) -> (ok: bool)
        requires
            old(self).wf(),
            bidx < old(self).ents@.len(),
        ensures
            final(self).wf(),
            (final(self)@, ok) == old(self)@.trained(bidx as int, kind),
    {
        let ghost w0 = self@;
        assert(w0.ents[bidx as int] == self.ents@[bidx as int]@);
        let team = self.ents[bidx].team;
        let c: u32 = cost(kind);
        if self.team_min(team) < c {
            if team == self.my_team {
                self.msg("NOT ENOUGH MINERALS");
            }
            return false;
        }
        let used: u32 = self.supply_used(team);
        let queued: u32 = self.supply_queued(team);
        proof {
            lemma_used_bound(w0, team);
        }
        if used + queued + supply_cost(kind) > self.supply_cap(team) {
            if team == self.my_team {
                self.msg("NEED A SUPPLY DEPOT");
            }
            return false;
        }
        if self.ents[bidx].build_left.positive() {
            return false;
        }
        self.spend(team, c);
        self.ents[bidx].queue.push(kind);
        proof {
            let e = w0.ents[bidx as int];
            assert(self@.ents =~= w0.ents.update(
                bidx as int,
                EntV { queue: e.queue.push(kind), ..e },
            ));
            assert(self@ =~= w0.trained(bidx as int, kind).0);
        }
        true
    }
}

/// A new entity: whole, idle, with nothing in its queues.
pub open spec fn newborn(id: u32, kind: Kind, team: Team, pos: V2) -> EntV {
    EntV {
        id,
        team,
        kind,
        pos,
        hp: Num::whole(max_hp(kind)),
        max_hp: Num::whole(max_hp(kind)),
        order: Order::Idle,
        goal: None,
        cooldown: Num { bits: 0 },
        carry: 0,
        mine_timer: Num { bits: 0 },
        minerals: 0,
        queue: Seq::empty(),
        build_queue: Seq::empty(),
        order_queue: Seq::empty(),
        repair_owed: Num { bits: 0 },
        train_timer: Num { bits: 0 },
        rally: pos,
        rally_set: false,
        facing: V2 { x: Num { bits: 0 }, y: Num { bits: ONE_BITS } },
        selected: false,
        flash: Num { bits: 0 },
        build_left: Num { bits: 0 },
        path: Seq::empty(),
        repath: Num { bits: 0 },
    }
}

impl WorldV {
    /// The match with a new entity in its last slot.
    pub open spec fn spawned(self, kind: Kind, team: Team, pos: V2) -> WorldV {
        WorldV {
            ents: self.ents.push(newborn(self.next_id, kind, team, pos)),
            next_id: (self.next_id + 1) as u32,
            ..self
        }
    }
}

impl World {
    /// Whether there is room for another entity.
    pub open spec fn has_room(&self) -> bool {
        self.ents@.len() < MAX_ENTS && self.next_id < u32::MAX
    }

    /// Whether there is room for another entity.
    pub fn roomy(&self) -> (r: bool)
        ensures
            r == self.has_room(),
    {
        self.ents.len() < MAX_ENTS && self.next_id < u32::MAX
    }

    /// A match with no entities yet, fifty minerals in every bank.
    pub fn new_match(
        seed: u64,
        factions: usize,
        is_ai: [bool; 4],
        my_team: Team,
        versus: bool,
    ) -> (r: World)
        ensures
            r.wf(),
            r@ == (WorldV {
                ents: Seq::<EntV>::empty(),
                next_id: 1,
                minerals: seq![50u32, 50u32, 50u32, 50u32],
                factions: clamp_factions(factions),
                is_ai: is_ai@,
                my_team,
                versus,
                sounds: Seq::<(Sfx, Option<V2>)>::empty(),
                pings: Seq::<Ping>::empty(),
                messages: Seq::<(Seq<char>, Num)>::empty(),
                rng: mix_seed(seed),
                over: 0,
                match_over: false,
                time: Num { bits: 0 },
                attack_warn: Num { bits: 0 },
                kills: 0,
            }),
    {
        let n: usize = if factions < 2 {
            2
        } else if factions > MAX_FACTIONS {
            MAX_FACTIONS
        } else {
            factions
        };
        let r = World {
            ents: Vec::new(),
            next_id: 1,
            minerals: [50, 50, 50, 50],
            factions: n,
            is_ai,
            my_team,
            versus,
            sounds: Vec::new(),
            pings: Vec::new(),
            messages: Vec::new(),
            rng: mix_seed(seed),
            over: 0,
            match_over: false,
            time: Num { bits: 0 },
            attack_warn: Num { bits: 0 },
            kills: 0,
        };
        proof {
            assert(r@.ents =~= Seq::<EntV>::empty());
            assert(r@.minerals =~= seq![50u32, 50u32, 50u32, 50u32]);
            assert(r@.messages =~= Seq::<(Seq<char>, Num)>::empty());
        }
        r
    }

    /// Draws the next random number.
    pub fn rng_u(&mut self) -> (x: u64)
        requires
            old(self).wf(),
        ensures
            final(self).wf(),
            x == xorshift(old(self).rng),
            final(self)@ == (WorldV { rng: x, ..old(self)@ }),
    {
        self.rng = xorshift(self.rng);
        assert(self@.ents =~= old(self)@.ents);
        self.rng
    }

    /// Puts a new entity on the map, and returns its slot.
    pub fn spawn(&mut self, kind: Kind, team: Team, pos: V2) -> (slot: usize)
        requires
            old(self).wf(),
            old(self).has_room(),
        ensures
            final(self).wf(),
            slot == old(self).ents@.len(),
            final(self).ents@.len() == old(self).ents@.len() + 1,
            final(self)@ == old(self)@.spawned(kind, team, pos),
    {
        let ghost w0 = self@;
        let id: u32 = self.next_id;
        self.next_id = self.next_id + 1;
        let mh = Num::whole(max_hp(kind));
        self.ents.push(
            Ent {
                id,
                team,
                kind,
                pos,
                hp: mh,
                max_hp: mh,
                order: Order::Idle,
                goal: None,
                cooldown: Num { bits: 0 },
                carry: 0,
                mine_timer: Num { bits: 0 },
                minerals: 0,
                queue: Vec::new(),
                build_queue: Vec::new(),
                order_queue: Vec::new(),
                repair_owed: Num { bits: 0 },
                train_timer: Num { bits: 0 },
                rally: pos,
                rally_set: false,
                facing: V2 { x: Num { bits: 0 }, y: Num { bits: ONE_BITS } },
                selected: false,
                flash: Num { bits: 0 },
                build_left: Num { bits: 0 },
                path: Vec::new(),
                repath: Num { bits: 0 },
            },
        );
        proof {
            let n = w0.ents.len() as int;
            assert(self.ents@[n]@ =~= newborn(id, kind, team, pos));
            assert(self@.ents =~= w0.ents.push(newborn(id, kind, team, pos)));
        }
        self.ents.len() - 1
    }

    /// Puts a ring of mineral patches on the map, one at each of the given places.
    pub fn mineral_field(&mut self, places: &Vec<V2>)
        requires
            old(self).wf(),
            old(self).ents@.len() + places@.len() <= MAX_ENTS,
            old(self).next_id + places@.len() <= u32::MAX,
        ensures
            final(self).wf(),
            final(self)@ == fielded(old(self)@, places@),
    {
        let ghost w0 = self@;
        let n: usize = places.len();
        assert(places@.take(0) =~= Seq::<V2>::empty());
        for i in 0..n
            invariant
                n == places@.len(),
                self.wf(),
                w0 == old(self)@,
                self.ents@.len() == old(self).ents@.len() + i,
                self.next_id == old(self).next_id + i,
                old(self).ents@.len() + n <= MAX_ENTS,
                old(self).next_id + n <= u32::MAX,
                self@ == fielded(w0, places@.take(i as int)),
        {
            let ghost w1 = self@;
            let slot: usize = self.spawn(Kind::Mineral, Team::Neutral, places[i]);
            self.ents[slot].minerals = MINERAL_START;
            proof {
                let w2 = w1.spawned(Kind::Mineral, Team::Neutral, places@[i as int]);
                let last = w2.ents.len() - 1;
                assert(self@.ents =~= w2.ents.update(
                    last,
                    EntV { minerals: MINERAL_START, ..w2.ents[last] },
                ));
                assert(places@.take(i + 1).drop_last() =~= places@.take(i as int));
                assert(places@.take(i + 1).last() == places@[i as int]);
            }
        }
        assert(places@.take(n as int) =~= places@);
    }
}

pub open spec fn clamp_factions(n: usize) -> usize {
    if n < 2 {
        2
    } else if n > MAX_FACTIONS {
        MAX_FACTIONS
    } else {
        n
    }
}

/// The match with full mineral patches at some places, in order.
pub open spec fn fielded(w: WorldV, places: Seq<V2>) -> WorldV
    decreases places.len(),
{
    if places.len() == 0 {
        w
    } else {
        let v = fielded(w, places.drop_last()).spawned(Kind::Mineral, Team::Neutral, places.last());
        let last = v.ents.len() - 1;
        v.with(last, EntV { minerals: MINERAL_START, ..v.ents[last] })
    }
}

// ---- the fingerprint ----------------------------------------------------------------

/// A fingerprint of an order.
pub open spec fn order_disc_of(o: Order) -> u64 {
    match o {
        Order::Idle => 1,
        Order::Move(p) => 2u64 ^ (p.x.bits as u64) ^ ((p.y.bits as u64) << 1u64),
        Order::AttackMove(p) => 3u64 ^ (p.x.bits as u64) ^ ((p.y.bits as u64) << 1u64),
        Order::Attack(id) => 4u64 ^ (id as u64),
        Order::Gather(id) => 5u64 ^ (id as u64),
        Order::Build(k, p) => 6u64 ^ (kind_to_u8(k) as u64) ^ (p.x.bits as u64),
        Order::Repair(id) => 7u64 ^ (id as u64),
    }
}

/// A fingerprint of an order.
pub fn order_disc(o: &Order) -> (r: u64)
    ensures
        r == order_disc_of(*o),
{
    match o {
        Order::Idle => 1,
        Order::Move(p) => 2u64 ^ (p.x.bits as u64) ^ ((p.y.bits as u64) << 1u64),
        Order::AttackMove(p) => 3u64 ^ (p.x.bits as u64) ^ ((p.y.bits as u64) << 1u64),
        Order::Attack(id) => 4u64 ^ (*id as u64),
        Order::Gather(id) => 5u64 ^ (*id as u64),
        Order::Build(k, p) => 6u64 ^ (kind_to_u8(*k) as u64) ^ (p.x.bits as u64),
        Order::Repair(id) => 7u64 ^ (*id as u64),
    }
}

/// Number of a team, neutrals last.
pub open spec fn team_number(t: Team) -> u64 {
    match t {
        Team::Player => 0,
        Team::Enemy => 1,
        Team::Faction2 => 2,
        Team::Faction3 => 3,
        Team::Neutral => 4,
    }
}

fn team_no(t: Team) -> (r: u64)
    ensures
        r == team_number(t),
{
    match t {
        Team::Player => 0,
        Team::Enemy => 1,
        Team::Faction2 => 2,
        Team::Faction3 => 3,
        Team::Neutral => 4,
    }
}

/// What goes into the fingerprint of one entity.
pub open spec fn ent_words(e: EntV) -> Seq<u64> {
    seq![
        e.id as u64,
        kind_to_u8(e.kind) as u64,
        team_number(e.team),
        e.pos.x.bits as u64,
        e.pos.y.bits as u64,
        e.hp.bits as u64,
        e.carry as u64,
        e.minerals as u64,
        e.queue.len() as u64,
        e.build_queue.len() as u64,
        e.order_queue.len() as u64,
        order_disc_of(e.order),
    ]
}

pub open spec fn ents_words(ents: Seq<EntV>) -> Seq<u64>
    decreases ents.len(),
{
    if ents.len() == 0 {
        Seq::empty()
    } else {
        ents_words(ents.drop_last()) + ent_words(ents.last())
    }
}

pub open spec fn bank_words(m: Seq<u32>, n: int) -> Seq<u64> {
    Seq::new(n as nat, |i: int| m[i] as u64)
}

/// Everything that goes into the fingerprint of a match.
pub open spec fn world_words(w: WorldV) -> Seq<u64> {
    seq![w.next_id as u64] + bank_words(w.minerals, w.factions as int) + seq![w.time.bits as u64, w.rng]
        + ents_words(w.ents)
}

/// One step of the hash.
pub open spec fn hash_step(h: u64, x: u64) -> u64 {
    (h ^ x).wrapping_mul(0x0000_0100_0000_01b3)
}

/// The hash of some words, from a start value.
pub open spec fn hash_words(h: u64, words: Seq<u64>) -> u64
    decreases words.len(),
{
    if words.len() == 0 {
        h
    } else {
        hash_step(hash_words(h, words.drop_last()), words.last())
    }
}

fn mix(h: u64, x: u64) -> (r: u64)
    ensures
        r == hash_step(h, x),
{
    (h ^ x).wrapping_mul(0x0000_0100_0000_01b3)
}

/// Hashing one more word continues the hash.
proof fn lemma_hash_push(h: u64, words: Seq<u64>, x: u64)
    ensures
        hash_words(h, words.push(x)) == hash_step(hash_words(h, words), x),
{
    assert(words.push(x).drop_last() =~= words);
}

/// Hashing two lists one after the other is hashing them together.
proof fn lemma_hash_concat(h: u64, a: Seq<u64>, b: Seq<u64>)
    ensures
        hash_words(h, a + b) == hash_words(hash_words(h, a), b),
    decreases b.len(),
{
    if b.len() == 0 {
        assert(a + b =~= a);
    } else {
        lemma_hash_concat(h, a, b.drop_last());
        assert((a + b).drop_last() =~= a + b.drop_last());
    }
}

/// The multiplier of the hash has an inverse, so a step of it can be undone.
proof fn lemma_step_injective(g: u64, h: u64, x: u64, y: u64)
    requires
        hash_step(g, x) == hash_step(h, y),
    ensures
        g ^ x == h ^ y,
{
    let a = g ^ x;
    let b = h ^ y;
    let c: int = 0x0000_0100_0000_01b3;
    let inv: int = 0xce965057aff6957b;
    let m: int = 0x1_0000_0000_0000_0000;
    assert((a as int * c) % m == (b as int * c) % m);
    let d = a - b;
    let w = a as int * c / m - b as int * c / m;
    assert(d * c == m * w) by (nonlinear_arith)
        requires
            d == a - b,
            w == a as int * c / m - b as int * c / m,
            (a as int * c) % m == (b as int * c) % m,
            m == 0x1_0000_0000_0000_0000,
    ;
    let q: int = 887285111055;
    assert(c * inv == 1 + q * m);
    assert(d == m * (w * inv - q * d)) by (nonlinear_arith)
        requires
            d * c == m * w,
            c * inv == 1 + q * m,
    ;
    assert(d == 0) by (nonlinear_arith)
        requires
            d == m * (w * inv - q * d),
            -m < d < m,
    ;
}

proof fn lemma_hash_from_other_start(g: u64, h: u64, words: Seq<u64>)
    requires
        g != h,
    ensures
        hash_words(g, words) != hash_words(h, words),
    decreases words.len(),
{
    if words.len() > 0 {
        lemma_hash_from_other_start(g, h, words.drop_last());
        let a = hash_words(g, words.drop_last());
        let b = hash_words(h, words.drop_last());
        let x = words.last();
        if hash_step(a, x) == hash_step(b, x) {
            lemma_step_injective(a, b, x, x);
            assert(a == b) by (bit_vector)
                requires
                    a ^ x == b ^ x,
            ;
        }
    }
}

/// No difference in a single word goes unnoticed: matches whose words differ in exactly
/// one place have different fingerprints.
pub proof fn one_changed_word_is_noticed(h: u64, words: Seq<u64>, i: int, x: u64)
    requires
        0 <= i < words.len(),
        x != words[i],
    ensures
        hash_words(h, words.update(i, x)) != hash_words(h, words),
{
    let a = words.take(i);
    let b = words.skip(i + 1);
    let y = words[i];
    assert(words =~= a.push(y) + b);
    assert(words.update(i, x) =~= a.push(x) + b);
    lemma_hash_concat(h, a.push(y), b);
    lemma_hash_concat(h, a.push(x), b);
    lemma_hash_push(h, a, y);
    lemma_hash_push(h, a, x);
    let g = hash_words(h, a);
    if hash_step(g, x) == hash_step(g, y) {
        lemma_step_injective(g, g, x, y);
        assert(x == y) by (bit_vector)
            requires
                g ^ x == g ^ y,
        ;
    }
    lemma_hash_from_other_start(hash_step(g, x), hash_step(g, y), b);
}

/// Start value of the hash.
pub const HASH_START: u64 = 0xcbf2_9ce4_8422_2325;

impl World {
    /// A fingerprint of the match, swapped between peers to notice that they have come
    /// apart.
    pub fn checksum(&self) -> (h: u64)
        requires
            self.wf(),
        ensures
            h == hash_words(HASH_START, world_words(self@)),
    {
        let ghost w = self@;
        let mut h: u64 = HASH_START;
        let ghost mut done: Seq<u64> = Seq::empty();
        h = mix(h, self.next_id as u64);
        proof {
            lemma_hash_push(HASH_START, done, w.next_id as u64);
            done = done.push(w.next_id as u64);
            assert(done + bank_words(w.minerals, 0) =~= done);
        }
        let ghost head = done;
        for i in 0..self.factions
            invariant
                self.wf(),
                w == self@,
                done == head + bank_words(w.minerals, i as int),
                h == hash_words(HASH_START, done),
        {
            h = mix(h, self.minerals[i] as u64);
            proof {
                let x = w.minerals[i as int] as u64;
                lemma_hash_push(HASH_START, done, x);
                assert(done.push(x) =~= head + bank_words(w.minerals, i + 1));
                done = done.push(x);
            }
        }
        h = mix(h, self.time.bits as u64);
        h = mix(h, self.rng);
        proof {
            lemma_hash_push(HASH_START, done, w.time.bits as u64);
            done = done.push(w.time.bits as u64);
            lemma_hash_push(HASH_START, done, w.rng);
            done = done.push(w.rng);
            assert(done =~= seq![w.next_id as u64] + bank_words(w.minerals, w.factions as int) + seq![
                w.time.bits as u64,
                w.rng,
            ]);
            assert(w.ents.take(0) =~= Seq::<EntV>::empty());
            assert(done + ents_words(w.ents.take(0)) =~= done);
        }
        let ghost front = done;
        let n: usize = self.ents.len();
        for i in 0..n
            invariant
                self.wf(),
                w == self@,
                n == self.ents@.len(),
                h == hash_words(HASH_START, front + ents_words(w.ents.take(i as int))),
        {
            let ghost e = w.ents[i as int];
            let ghost h0 = h;
            assert(e == self.ents@[i as int]@);
            h = self.mix_ent(h, i);
            proof {
                assert(w.ents.take(i + 1).drop_last() =~= w.ents.take(i as int));
                assert(w.ents.take(i + 1).last() == e);
                lemma_hash_concat(
                    HASH_START,
                    front + ents_words(w.ents.take(i as int)),
                    ent_words(e),
                );
                assert(front + ents_words(w.ents.take(i as int)) + ent_words(e) =~= front + (ents_words(
                    w.ents.take(i as int),
                ) + ent_words(e)));
            }
        }
        proof {
            assert(w.ents.take(n as int) =~= w.ents);
            assert(front + ents_words(w.ents) =~= world_words(w));
        }
        h
    }

    fn mix_ent(&self, start: u64, i: usize) -> (h: u64)
        requires
            i < self.ents@.len(),
        ensures
            h == hash_words(start, ent_words(self@.ents[i as int])),
    {
        let e = &self.ents[i];
        let ghost ev = self@.ents[i as int];
        assert(ev == e@);
        let (a0, a1, a2, a3) = (e.id as u64, kind_to_u8(e.kind) as u64, team_no(e.team), e.pos.x.bits as u64);
        let (b0, b1, b2, b3) = (e.pos.y.bits as u64, e.hp.bits as u64, e.carry as u64, e.minerals as u64);
        let (c0, c1, c2) = (e.queue.len() as u64, e.build_queue.len() as u64, e.order_queue.len() as u64);
        let c3: u64 = order_disc(&e.order);
        let h1: u64 = mix_four(start, a0, a1, a2, a3);
        let h2: u64 = mix_four(h1, b0, b1, b2, b3);
        let h3: u64 = mix_four(h2, c0, c1, c2, c3);
        proof {
            let a = seq![a0, a1, a2, a3];
            let b = seq![b0, b1, b2, b3];
            let c = seq![c0, c1, c2, c3];
            lemma_hash_concat(start, a, b);
            lemma_hash_concat(start, a + b, c);
            assert(a + b + c =~= ent_words(ev));
        }
        h3
    }
}

/// Four steps of the hash.
fn mix_four(start: u64, a: u64, b: u64, c: u64, d: u64) -> (h: u64)
    ensures
        h == hash_words(start, seq![a, b, c, d]),
{
    let h: u64 = mix(mix(mix(mix(start, a), b), c), d);
    proof {
        let z = Seq::<u64>::empty();
        lemma_hash_push(start, z, a);
        lemma_hash_push(start, z.push(a), b);
        lemma_hash_push(start, z.push(a).push(b), c);
        lemma_hash_push(start, z.push(a).push(b).push(c), d);
        assert(z.push(a).push(b).push(c).push(d) =~= seq![a, b, c, d]);
    }
    h
}

proof fn lemma_queue_part(q: Seq<Kind>, k: int)
    requires
        0 <= k <= q.len(),
    ensures
        0 <= queue_supply(q.take(k)) <= queue_supply(q),
    decreases q.len() - k,
{
    if k < q.len() {
        lemma_queue_part(q, k + 1);
        assert(q.take(k + 1).drop_last() =~= q.take(k));
        lemma_queue_nonneg(q.take(k));
    } else {
        assert(q.take(k) =~= q);
        lemma_queue_nonneg(q);
    }
}

pub proof fn lemma_queue_nonneg(q: Seq<Kind>)
    ensures
        queue_supply(q) >= 0,
    decreases q.len(),
{
    if q.len() > 0 {
        lemma_queue_nonneg(q.drop_last());
    }
}

pub proof fn lemma_unborn_nonneg(t: Team)
    ensures
        forall|e: EntV| #[trigger] unborn(t)(e) >= 0,
{
    assert forall|e: EntV| #[trigger] unborn(t)(e) >= 0 by {
        lemma_queue_nonneg(e.queue);
    }
}

proof fn lemma_used_bound(w: WorldV, t: Team)
    ensures
        0 <= w.used(t) <= 3 * w.ents.len(),
{
    lemma_total_bound(w.ents, mouths(t), 3);
}

// ---- what holds of the books --------------------------------------------------------------------

/// Population is counted head by head: one more entity takes up what its kind does, for its
/// own team only; it supplies what its kind does once it is finished; and what waits in its
/// queue counts too.
pub proof fn population_is_counted(ents: Seq<EntV>, e: EntV, t: Team)
    ensures
        total(ents.push(e), mouths(t)) == total(ents, mouths(t)) + (if e.team == t {
            supply_cost(e.kind) as int
        } else {
            0
        }),
        total(ents.push(e), beds(t)) == total(ents, beds(t)) + (if e.team == t && e.build_left.at_most(
            Num { bits: 0 },
        ) {
            supply_provide(e.kind) as int
        } else {
            0
        }),
        total(ents.push(e), unborn(t)) == total(ents, unborn(t)) + (if e.team == t {
            queue_supply(e.queue)
        } else {
            0
        }),
        forall|k: Kind| #[trigger] queue_supply(e.queue.push(k)) == queue_supply(e.queue) + supply_cost(k),
        queue_supply(Seq::<Kind>::empty()) == 0,
        total(Seq::<EntV>::empty(), mouths(t)) == 0,
        total(Seq::<EntV>::empty(), beds(t)) == 0,
        total(Seq::<EntV>::empty(), unborn(t)) == 0,
{
    assert(ents.push(e).drop_last() =~= ents);
    assert forall|k: Kind| #[trigger] queue_supply(e.queue.push(k)) == queue_supply(e.queue) + supply_cost(k) by {
        assert(e.queue.push(k).drop_last() =~= e.queue);
    }
}

/// The population of a team is what all its entities make up, and its room never more than 120.
pub proof fn population_has_a_ceiling(w: WorldV, t: Team)
    ensures
        w.used(t) == total(w.ents, |e: EntV| if e.team == t { supply_cost(e.kind) as int } else { 0 }),
        w.cap(t) <= 120,
        total(w.ents, beds(t)) <= 120 ==> w.cap(t) == total(w.ents, beds(t)),
        total(w.ents, beds(t)) > 120 ==> w.cap(t) == 120,
        w.queued(t) == total(w.ents, unborn(t)),
{
    assert(mouths(t) =~= |e: EntV| if e.team == t { supply_cost(e.kind) as int } else { 0 });
}

/// A unit is trained exactly if it can be paid for and fed, with what waits in the queues
/// counted, by a building that is finished. Then its price is taken from its team and it waits
/// last in line; otherwise nothing happens, but that the player may be told why.
pub proof fn training_takes_minerals_and_room(w: WorldV, i: int, k: Kind)
    requires
        0 <= i < w.ents.len(),
        w.minerals.len() == MAX_FACTIONS,
    ensures
        ({
            let e = w.ents[i];
            let (v, ok) = w.trained(i, k);
            &&& ok <==> w.bank(e.team) >= cost(k) && w.used(e.team) + w.queued(e.team) + supply_cost(k) <= w.cap(
                e.team,
            ) && !e.build_left.positive()
            &&& ok ==> v.ents == w.ents.update(i, EntV { queue: e.queue.push(k), ..e }) && v.messages == w.messages
            &&& ok && e.team.idx() < MAX_FACTIONS ==> v.minerals == w.minerals.update(
                e.team.idx() as int,
                (w.minerals[e.team.idx() as int] - cost(k)) as u32,
            )
            &&& !ok ==> v == WorldV { messages: v.messages, ..w }
            &&& !ok && e.team != w.my_team ==> v == w
            &&& v == WorldV { ents: v.ents, minerals: v.minerals, messages: v.messages, ..w }
        }),
{
}

/// Banks are kept apart: what one faction spends or gains is no other's, and nobody spends what
/// they do not have.
pub proof fn banks_are_kept_apart(w: WorldV, t: Team, amt: int, o: Team)
    requires
        w.minerals.len() == MAX_FACTIONS,
        0 <= amt,
    ensures
        t.idx() < MAX_FACTIONS ==> w.spent(t, amt).bank(t) == (if w.bank(t) < amt {
            0
        } else {
            w.bank(t) - amt
        }),
        t.idx() < MAX_FACTIONS && w.bank(t) + amt <= u32::MAX ==> w.gained(t, amt).bank(t) == w.bank(t) + amt,
        o != t ==> w.spent(t, amt).bank(o) == w.bank(o) && w.gained(t, amt).bank(o) == w.bank(o),
        w.spent(t, amt) == (WorldV { minerals: w.spent(t, amt).minerals, ..w }),
        w.gained(t, amt) == (WorldV { minerals: w.gained(t, amt).minerals, ..w }),
{
}

/// The newest message and the newest sound always get through, and what makes room is the
/// oldest.
pub proof fn the_newest_gets_through(w: WorldV, s: Seq<char>, x: Sfx, pos: Option<V2>)
    ensures
        ({
            let m = w.told(s).messages;
            &&& m.len() > 0 && m.last().0 == s
            &&& w.messages.len() < MSG_MAX ==> m.drop_last() == w.messages
            &&& w.messages.len() == MSG_MAX ==> m.drop_last() == w.messages.drop_first()
            &&& w.told(s) == WorldV { messages: m, ..w }
            &&& w.told_if(false, s) == w
            &&& w.told_if(true, s) == w.told(s)
        }),
        ({
            let q = w.heard(x, pos).sounds;
            &&& q.len() > 0 && q.last() == (x, pos)
            &&& w.sounds.len() < SOUND_MAX ==> q.drop_last() == w.sounds
            &&& w.sounds.len() == SOUND_MAX ==> q.drop_last() == w.sounds.drop_first()
            &&& w.heard(x, pos) == WorldV { sounds: q, ..w }
        }),
{
    let m = w.told(s).messages;
    let q = w.heard(x, pos).sounds;
    if w.messages.len() < MSG_MAX {
        assert(m.drop_last() =~= w.messages);
    }
    if w.messages.len() == MSG_MAX {
        assert(m.drop_last() =~= w.messages.drop_first());
    }
    if w.sounds.len() < SOUND_MAX {
        assert(q.drop_last() =~= w.sounds);
    }
    if w.sounds.len() == SOUND_MAX {
        assert(q.drop_last() =~= w.sounds.drop_first());
    }
}

/// Whoever has an id is found by it, the first of them if there are several, and nobody is
/// found by an id that no one has.
pub proof fn everyone_is_found_by_their_id(w: WorldV, id: u32, i: int)
    requires
        0 <= i < w.ents.len(),
    ensures
        w.ents[i].id == id ==> w.slot_of(id) is Some && w.slot_of(id)->0 <= i,
        w.slot_of(id) is Some ==> 0 <= w.slot_of(id)->0 < w.ents.len() && w.ents[w.slot_of(id)->0].id == id,
{
    lemma_first_slot(w.ents, |e: EntV| e.id == id);
}

/// A new entity is whole, idle and finished, has nothing in hand and nothing in line, is not
/// selected, and has an id of its own.
pub proof fn newcomers_start_afresh(w: WorldV, k: Kind, t: Team, p: V2)
    requires
        w.next_id < u32::MAX,
    ensures
        ({
            let v = w.spawned(k, t, p);
            let e = v.ents[w.ents.len() as int];
            &&& v.ents.drop_last() == w.ents
            &&& v.next_id == w.next_id + 1
            &&& v == WorldV { ents: v.ents, next_id: v.next_id, ..w }
            &&& e.id == w.next_id && e.kind == k && e.team == t && e.pos == p
            &&& e.hp == Num::whole(max_hp(k)) && e.max_hp == e.hp
            &&& e.order == Order::Idle && e.goal is None && e.order_queue.len() == 0 && e.build_queue.len() == 0
                && e.queue.len() == 0 && e.path.len() == 0
            &&& e.carry == 0 && e.minerals == 0 && !e.selected && !e.rally_set
            &&& !e.build_left.positive() && !e.cooldown.positive() && !e.flash.positive()
        }),
{
    assert(w.spawned(k, t, p).ents.drop_last() =~= w.ents);
}

/// Peers compare what matters: of every entity its id, kind, side, place, strength, load and
/// what is left of it, how much waits in its three lines and the fingerprint of its order; and
/// of the match the banks, the clock, the draws and the next id.
pub proof fn peers_compare_what_matters(w: WorldV, v: WorldV, i: int, f: int)
    requires
        world_words(w) == world_words(v),
        w.factions == v.factions,
        w.ents.len() == v.ents.len(),
        0 <= i < w.ents.len(),
        0 <= f < w.factions,
    ensures
        w.next_id == v.next_id,
        w.minerals[f] == v.minerals[f],
        w.time == v.time,
        w.rng == v.rng,
        ({
            let (a, b) = (w.ents[i], v.ents[i]);
            &&& a.id == b.id
            &&& a.kind == b.kind
            &&& a.team == b.team
            &&& a.pos == b.pos
            &&& a.hp == b.hp
            &&& a.carry == b.carry
            &&& a.minerals == b.minerals
            &&& a.queue.len() as u64 == b.queue.len() as u64
            &&& a.build_queue.len() as u64 == b.build_queue.len() as u64
            &&& a.order_queue.len() as u64 == b.order_queue.len() as u64
            &&& order_disc_of(a.order) == order_disc_of(b.order)
        }),
{
    let n = w.factions as int;
    let (x, y) = (world_words(w), world_words(v));
    assert(x[0] == w.next_id as u64 && y[0] == v.next_id as u64);
    assert(x[1 + f] == w.minerals[f] as u64 && y[1 + f] == v.minerals[f] as u64);
    assert(x[1 + n] == w.time.bits as u64 && y[1 + n] == v.time.bits as u64);
    assert(x[2 + n] == w.rng && y[2 + n] == v.rng);
    assert(x.skip(3 + n) =~= ents_words(w.ents));
    assert(y.skip(3 + n) =~= ents_words(v.ents));
    lemma_words_of(w.ents, v.ents, i);
    let (p, q) = (ent_words(w.ents[i]), ent_words(v.ents[i]));
    assert(p[0] == q[0] && p[1] == q[1] && p[2] == q[2] && p[3] == q[3] && p[4] == q[4] && p[5] == q[5] && p[6]
        == q[6] && p[7] == q[7] && p[8] == q[8] && p[9] == q[9] && p[10] == q[10] && p[11] == q[11]);
    crate::kind::kind_byte_roundtrip(w.ents[i].kind);
    crate::kind::kind_byte_roundtrip(v.ents[i].kind);
}

proof fn lemma_words_of(a: Seq<EntV>, b: Seq<EntV>, i: int)
    requires
        ents_words(a) == ents_words(b),
        a.len() == b.len(),
        0 <= i < a.len(),
    ensures
        ent_words(a[i]) == ent_words(b[i]),
    decreases a.len(),
{
    let (x, y) = (ents_words(a), ents_words(b));
    let (p, q) = (ents_words(a.drop_last()), ents_words(b.drop_last()));
    lemma_words_len(a);
    lemma_words_len(b);
    lemma_words_len(a.drop_last());
    lemma_words_len(b.drop_last());
    assert(x.take(p.len() as int) =~= p);
    assert(y.take(q.len() as int) =~= q);
    assert(x.skip(p.len() as int) =~= ent_words(a.last()));
    assert(y.skip(q.len() as int) =~= ent_words(b.last()));
    if i < a.len() - 1 {
        lemma_words_of(a.drop_last(), b.drop_last(), i);
    }
}

proof fn lemma_words_len(a: Seq<EntV>)
    ensures
        ents_words(a).len() == 12 * a.len(),
    decreases a.len(),
{
    if a.len() > 0 {
        lemma_words_len(a.drop_last());
    }
}

/// Orders of one sort with another aim have another fingerprint.
pub proof fn another_aim_is_noticed(a: u32, b: u32, p: V2, q: V2)
    ensures
        a != b ==> order_disc_of(Order::Attack(a)) != order_disc_of(Order::Attack(b)) && order_disc_of(
            Order::Gather(a),
        ) != order_disc_of(Order::Gather(b)) && order_disc_of(Order::Repair(a)) != order_disc_of(Order::Repair(b)),
        p.y == q.y && p.x != q.x ==> order_disc_of(Order::Move(p)) != order_disc_of(Order::Move(q))
            && order_disc_of(Order::AttackMove(p)) != order_disc_of(Order::AttackMove(q)),
        p.x == q.x && p.y != q.y ==> order_disc_of(Order::Move(p)) != order_disc_of(Order::Move(q))
            && order_disc_of(Order::AttackMove(p)) != order_disc_of(Order::AttackMove(q)),
        order_disc_of(Order::Attack(a)) != order_disc_of(Order::Gather(a)) && order_disc_of(Order::Gather(a))
            != order_disc_of(Order::Repair(a)) && order_disc_of(Order::Attack(a)) != order_disc_of(Order::Repair(a))
            && order_disc_of(Order::Move(p)) != order_disc_of(Order::AttackMove(p)),
{
    let (px, py, qx, qy) = (p.x.bits, p.y.bits, q.x.bits, q.y.bits);
    assert(a != b ==> 4u64 ^ (a as u64) != 4u64 ^ (b as u64) && 5u64 ^ (a as u64) != 5u64 ^ (b as u64) && 7u64 ^ (
    a as u64) != 7u64 ^ (b as u64)) by (bit_vector);
    assert(4u64 ^ (a as u64) != 5u64 ^ (a as u64) && 5u64 ^ (a as u64) != 7u64 ^ (a as u64) && 4u64 ^ (a as u64)
        != 7u64 ^ (a as u64)) by (bit_vector);
    assert(px != qx ==> 2u64 ^ (px as u64) ^ ((py as u64) << 1u64) != 2u64 ^ (qx as u64) ^ ((py as u64) << 1u64)
        && 3u64 ^ (px as u64) ^ ((py as u64) << 1u64) != 3u64 ^ (qx as u64) ^ ((py as u64) << 1u64)) by (bit_vector);
    assert(py != qy ==> 2u64 ^ (px as u64) ^ ((py as u64) << 1u64) != 2u64 ^ (px as u64) ^ ((qy as u64) << 1u64)
        && 3u64 ^ (px as u64) ^ ((py as u64) << 1u64) != 3u64 ^ (px as u64) ^ ((qy as u64) << 1u64)) by (bit_vector);
    assert(2u64 ^ (px as u64) ^ ((py as u64) << 1u64) != 3u64 ^ (px as u64) ^ ((py as u64) << 1u64)) by (bit_vector);
}

/// Five messages are up at a time, sixty-four sounds wait, and 120 is the most that can be fed.
pub proof fn the_limits_of_a_match()
    ensures
        MSG_MAX == 5,
        SOUND_MAX == 64,
        SUPPLY_MAX == 120,
{
}

} // verus!
