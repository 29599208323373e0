//! What units do of themselves, tick by tick: find something to fight, engage it, and move
//! along to their next order. Distances, headings and clocks come
//! from whoever drives the match; every decision on them is taken here.

use vstd::prelude::*;
use crate::kind::{aggro, atk_range, is_mover, min_range, radius, splash, Kind, Team};
use crate::num::{less_is_a_total_order, whole_numbers_are_ordered, Num, V2};
use crate::query::{foe_of, nearest_foe};
use crate::world::{EntV, Order, World, WorldV};

verus! {

/// How much farther a shot reaches downhill.
pub const HIGH_EDGE: u32 = 22;

/// Squared reach of a flamethrower.
pub const FLAME_SQ: u32 = 6084;

/// Squared radius of a sapper's blast.
pub const BLAST_SQ: u32 = 3364;

/// The number one.
pub const ONE: u32 = 0x3F80_0000;

/// Seconds between two shots of a kind.
pub open spec fn spec_atk_cd(k: Kind) -> Num {
    match k {
        Kind::Worker => Num { bits: 0x3F33_3333 },
        Kind::Soldier => Num { bits: 0x3F59_999A },
        Kind::Tank => Num { bits: 0x3FC0_0000 },
        Kind::Pyro => Num { bits: 0x3ECC_CCCD },
        Kind::Raider => Num { bits: 0x3F4C_CCCD },
        Kind::Mortar => Num { bits: 0x4019_999A },
        Kind::Sapper => Num { bits: 0x3DCC_CCCD },
        _ => Num { bits: 0 },
    }
}

/// Seconds between two shots of a kind.
#[verifier::when_used_as_spec(spec_atk_cd)]
pub fn atk_cd(k: Kind) -> (r: Num)
    ensures
        r == spec_atk_cd(k),
{
    match k {
        Kind::Worker => Num { bits: 0x3F33_3333 },
        Kind::Soldier => Num { bits: 0x3F59_999A },
        Kind::Tank => Num { bits: 0x3FC0_0000 },
        Kind::Pyro => Num { bits: 0x3ECC_CCCD },
        Kind::Raider => Num { bits: 0x3F4C_CCCD },
        Kind::Mortar => Num { bits: 0x4019_999A },
        Kind::Sapper => Num { bits: 0x3DCC_CCCD },
        _ => Num { bits: 0 },
    }
}

// ---- an entity's turn ---------------------------------------------------------------------

/// An entity at the start of its turn: its weapon has cooled, and a walker has no goal yet.
pub open spec fn turn_begun(e: EntV, cooled: Num) -> EntV {
    EntV {
        cooldown: if e.cooldown.positive() {
            cooled
        } else {
            e.cooldown
        },
        goal: if is_mover(e.kind) {
            None
        } else {
            e.goal
        },
        ..e
    }
}

/// An entity done with its order: on to the next, or idle.
pub open spec fn moved_along(e: EntV) -> EntV {
    EntV {
        goal: None,
        order: if e.order_queue.len() == 0 {
            Order::Idle
        } else {
            e.order_queue[0]
        },
        order_queue: if e.order_queue.len() == 0 {
            e.order_queue
        } else {
            e.order_queue.drop_first()
        },
        ..e
    }
}

/// Whether `r` is what an entity is to fight: the one it was told to attack while that one
/// lives; the nearest foe in sight of one that holds its ground or attacks on the move; and
/// nothing for one that was told to do something else.
pub open spec fn quarry(w: WorldV, i: int, d: Seq<Num>, r: Option<usize>) -> bool {
    let e = w.ents[i];
    match e.order {
        Order::Attack(id) => match w.slot_of(id) {
            Some(j) => if w.ents[j].hp.positive() {
                r is Some && r->0 == j
            } else {
                r is None
            },
            None => r is None,
        },
        Order::AttackMove(_) | Order::Idle => if aggro(e.kind) > 0 {
            nearest_foe(w.ents, e.team, d, Num::whole((aggro(e.kind) * aggro(e.kind)) as u32), r)
        } else {
            r is None
        },
        _ => r is None,
    }
}

/// What an entity's turn comes to.
#[derive(Clone, Copy, PartialEq, Eq, Structural, Debug)]
pub enum Turn {
    /// Nothing: it holds its ground, or it is no walker.
    Stand,
    /// It fights what is in a slot.
    Fight(usize),
    /// What it attacked is gone: on to the next order.
    MoveAlong,
    Walk(V2),
    Gather(u32),
    Repair(u32),
    Raise(Kind, V2),
}

/// What an order has an entity do that has nothing to fight.
pub open spec fn duty(o: Order) -> Turn {
    match o {
        Order::Attack(_) => Turn::MoveAlong,
        Order::Move(p) => Turn::Walk(p),
        Order::AttackMove(p) => Turn::Walk(p),
        Order::Gather(id) => Turn::Gather(id),
        Order::Repair(id) => Turn::Repair(id),
        Order::Build(k, p) => Turn::Raise(k, p),
        Order::Idle => Turn::Stand,
    }
}

/// Whether this is the turn of the entity in slot `i`.
pub open spec fn taken(w: WorldV, i: int, d: Seq<Num>, t: Turn) -> bool {
    let e = w.ents[i];
    if !is_mover(e.kind) {
        t == Turn::Stand
    } else if quarry(w, i, d, None) {
        t == duty(e.order)
    } else {
        t is Fight && t->Fight_0 < w.ents.len() && quarry(w, i, d, Some(t->Fight_0))
    }
}

/// A plain move is obeyed strictly, and so is work: only units that hold their ground, or
/// that attack as they go or by name, fight. So a unit can always be pulled out.
pub proof fn only_the_free_fight(w: WorldV, i: int, d: Seq<Num>, t: Turn)
    requires
        0 <= i < w.ents.len(),
        is_mover(w.ents[i].kind),
        taken(w, i, d, t),
        !(w.ents[i].order is Attack),
        !(w.ents[i].order is AttackMove),
        w.ents[i].order != Order::Idle,
    ensures
        t == duty(w.ents[i].order),
        !(t is Fight),
{
}

/// What an entity does about its quarry.
#[derive(Clone, Copy, PartialEq, Eq, Structural, Debug)]
pub enum Action {
    /// It is inside its own dead zone and backs off.
    FallBack,
    /// It blows itself up.
    Blast,
    /// It fires.
    Fire,
    /// It is in range, but its weapon has not cooled.
    Reload,
    /// It is out of range and goes after it.
    Chase,
}

/// How far a kind's attack reaches to the centre of another.
pub open spec fn reach_of(k: Kind, other: Kind, downhill: bool) -> u32 {
    (atk_range(k) + radius(k) + radius(other) + (if downhill && atk_range(k) > 10 {
        HIGH_EDGE as int
    } else {
        0
    })) as u32
}

pub open spec fn action_of(e: EntV, other: Kind, dist: Num, downhill: bool) -> Action {
    if dist.less(Num::whole(min_range(e.kind))) {
        Action::FallBack
    } else if dist.at_most(Num::whole(reach_of(e.kind, other, downhill))) {
        if e.kind == Kind::Sapper {
            Action::Blast
        } else if e.cooldown.at_most(Num { bits: 0 }) {
            Action::Fire
        } else {
            Action::Reload
        }
    } else {
        Action::Chase
    }
}

/// Inside its dead zone a mortar is helpless: it neither fires nor waits to fire, whatever
/// its weapon does. Nobody else has such a zone.
pub proof fn the_dead_zone_is_helpless(e: EntV, other: Kind, dist: Num, downhill: bool)
    requires
        dist.less(Num::whole(min_range(e.kind))),
    ensures
        action_of(e, other, dist, downhill) == Action::FallBack,
        !dist.less(Num::whole(0)) ==> e.kind == Kind::Mortar,
{
}

/// High ground reaches farther: whatever is in range on the level is in range downhill, and
/// a gun gains more than a blow.
pub proof fn high_ground_reaches_farther(e: EntV, other: Kind, dist: Num)
    ensures
        action_of(e, other, dist, false) != Action::Chase ==> action_of(e, other, dist, true) == action_of(
            e,
            other,
            dist,
            false,
        ),
        reach_of(e.kind, other, true) == reach_of(e.kind, other, false) + (if atk_range(e.kind) > 10 {
            HIGH_EDGE as int
        } else {
            0
        }),
{
    let a = reach_of(e.kind, other, false);
    let b = reach_of(e.kind, other, true);
    if a < b {
        whole_numbers_are_ordered(a as int, b as int);
    }
    less_is_a_total_order(dist, Num::whole(a), Num::whole(b));
    less_is_a_total_order(Num::whole(a), Num::whole(b), dist);
}

/// A sapper has one use: its blast is the end of it.
pub proof fn sappers_are_spent(e: EntV, a: Action, quarry_at: V2, h: Headings)
    requires
        a == Action::Blast,
    ensures
        !acted(e, a, quarry_at, h).hp.positive(),
{
}

/// Where an entity may turn and go: toward its quarry (if that is far enough to tell a
/// direction), and away from it.
pub struct Headings {
    pub toward: Option<V2>,
    pub away: V2,
    pub retreat: V2,
}

/// An entity after its action.
pub open spec fn acted(e: EntV, a: Action, quarry_at: V2, h: Headings) -> EntV {
    match a {
        Action::FallBack => EntV { facing: h.away, goal: Some(h.retreat), ..e },
        Action::Chase => EntV { goal: Some(quarry_at), ..e },
        _ => EntV {
            facing: match h.toward {
                Some(f) => f,
                None => e.facing,
            },
            hp: if a == Action::Blast {
                Num { bits: 0 }
            } else {
                e.hp
            },
            cooldown: if a == Action::Fire {
                atk_cd(e.kind)
            } else {
                e.cooldown
            },
            goal: None,
            ..e
        },
    }
}

/// Slots below `n` that satisfy a condition, in order.
pub open spec fn slots_where(n: int, f: spec_fn(int) -> bool) -> Seq<usize>
    decreases n,
{
    if n <= 0 {
        Seq::empty()
    } else if f(n - 1) {
        slots_where(n - 1, f).push((n - 1) as usize)
    } else {
        slots_where(n - 1, f)
    }
}

/// Whom a shot of the entity in slot `i` at slot `j` hits: everyone in the cone of a flame,
/// everyone near the impact of a splash, and otherwise the one it was aimed at.
pub open spec fn shot_hits(w: WorldV, i: int, j: int, from: Seq<Num>, at: Seq<Num>, cone: Seq<bool>) -> Seq<
    usize,
> {
    let e = w.ents[i];
    if e.kind == Kind::Pyro {
        slots_where(
            w.ents.len() as int,
            |k: int|
                foe_of(e.team)(w.ents[k]) && !Num::whole(FLAME_SQ).less(from[k]) && (cone[k] || from[k].less(
                    Num { bits: ONE },
                )),
        )
    } else if splash(e.kind) > 0 {
        slots_where(
            w.ents.len() as int,
            |k: int|
                foe_of(e.team)(w.ents[k]) && at[k].at_most(
                    Num::whole((splash(e.kind) * splash(e.kind)) as u32),
                ),
        )
    } else {
        seq![j as usize]
    }
}

/// Whom a blast of the entity in slot `i` hits.
pub open spec fn blast_hits(w: WorldV, i: int, from: Seq<Num>) -> Seq<usize> {
    slots_where(
        w.ents.len() as int,
        |k: int| foe_of(w.ents[i].team)(w.ents[k]) && from[k].at_most(Num::whole(BLAST_SQ)),
    )
}

impl World {
    /// Begins the turn of the entity in slot `i`; `cooled` is its weapon's clock after the
    /// tick. Returns whether it is one that decides anything.
    pub fn begin_turn(&mut self, i: usize, cooled: Num) -> (walks: bool)
        requires
            old(self).wf(),
            i < old(self)@.ents.len(),
        ensures
            final(self).wf(),
            walks == is_mover(old(self)@.ents[i as int].kind),
            final(self)@ == old(self)@.with(i as int, turn_begun(old(self)@.ents[i as int], cooled)),
    {
        let ghost v = self@;
        let ghost e = v.ents[i as int];
        assert(e == self.ents@[i as int]@);
        if self.ents[i].cooldown.positive() {
            self.ents[i].cooldown = cooled;
        }
        let walks: bool = is_mover(self.ents[i].kind);
        if walks {
            self.ents[i].goal = None;
        }
        proof {
            assert(self.ents@[i as int]@ =~= turn_begun(e, cooled));
            assert(self@.ents =~= v.ents.update(i as int, turn_begun(e, cooled)));
        }
        walks
    }

    /// What the entity in slot `i` is to fight. `d` are the squared distances from it.
    pub fn acquire(&self, i: usize, d: &Vec<Num>) -> (r: Option<usize>)
        requires
            i < self@.ents.len(),
            d@.len() == self.ents@.len(),
        ensures
            quarry(self@, i as int, d@, r),
            r is Some ==> r->0 < self@.ents.len(),
    {
        assert(self@.ents[i as int] == self.ents@[i as int]@);
        match self.ents[i].order {
            Order::Attack(id) => {
                match self.index_of(id) {
                    Some(j) => {
                        assert(self@.ents[j as int] == self.ents@[j as int]@);
                        if self.ents[j].hp.positive() {
                            Some(j)
                        } else {
                            None
                        }
                    },
                    None => None,
                }
            },
            Order::AttackMove(_) | Order::Idle => {
                let a: u32 = aggro(self.ents[i].kind);
                if a > 0 {
                    assert(0 <= a * a <= 57_600) by (nonlinear_arith)
                        requires
                            0 <= a <= 240,
                    ;
                    self.nearest_enemy(self.ents[i].team, d, Num::whole(a * a))
                } else {
                    None
                }
            },
            _ => None,
        }
    }

    /// The turn of the entity in slot `i`: what it fights, or else what its order has it do.
    /// `cooled` is its weapon's clock after the tick, `d` the squared distances from it.
    pub fn decide(&mut self, i: usize, cooled: Num, d: &Vec<Num>) -> (t: Turn)
        requires
            old(self).wf(),
            i < old(self)@.ents.len(),
            d@.len() == old(self)@.ents.len(),
        ensures
            final(self).wf(),
            final(self)@ == old(self)@.with(i as int, turn_begun(old(self)@.ents[i as int], cooled)),
            taken(final(self)@, i as int, d@, t),
    {
        let ghost e = self@.ents[i as int];
        if !self.begin_turn(i, cooled) {
            return Turn::Stand;
        }
        assert(self@.ents[i as int] == self.ents@[i as int]@);
        let r: Option<usize> = self.acquire(i, d);
        match r {
            Some(j) => Turn::Fight(j),
            None => {
                let t: Turn = match self.ents[i].order {
                    Order::Attack(_) => Turn::MoveAlong,
                    Order::Move(p) => Turn::Walk(p),
                    Order::AttackMove(p) => Turn::Walk(p),
                    Order::Gather(id) => Turn::Gather(id),
                    Order::Repair(id) => Turn::Repair(id),
                    Order::Build(k, p) => Turn::Raise(k, p),
                    Order::Idle => Turn::Stand,
                };
                t
            },
        }
    }

    /// Engages the entity in slot `j`, at distance `dist`.
    pub fn engage(&mut self, i: usize, j: usize, dist: Num, downhill: bool, h: &Headings) -> (a: Action)
        requires
            old(self).wf(),
            i < old(self)@.ents.len(),
            j < old(self)@.ents.len(),
        ensures
            final(self).wf(),
            a == action_of(
                old(self)@.ents[i as int],
                old(self)@.ents[j as int].kind,
                dist,
                downhill,
            ),
            final(self)@ == old(self)@.with(
                i as int,
                acted(old(self)@.ents[i as int], a, old(self)@.ents[j as int].pos, *h),
            ),
    {
        let ghost v = self@;
        let ghost e = v.ents[i as int];
        assert(e == self.ents@[i as int]@);
        assert(v.ents[j as int] == self.ents@[j as int]@);
        let kind = self.ents[i].kind;
        let at = self.ents[j].pos;
        let edge: u32 = if downhill && atk_range(kind) > 10 { HIGH_EDGE } else { 0 };
        let reach: u32 = atk_range(kind) + radius(kind) + radius(self.ents[j].kind) + edge;
        let a = if dist.less(Num::whole(min_range(kind))) {
            Action::FallBack
        } else if dist.at_most(Num::whole(reach)) {
            if kind == Kind::Sapper {
                Action::Blast
            } else if self.ents[i].cooldown.at_most(Num { bits: 0 }) {
                Action::Fire
            } else {
                Action::Reload
            }
        } else {
            Action::Chase
        };
        match a {
            Action::FallBack => {
                self.ents[i].facing = h.away;
                self.ents[i].goal = Some(h.retreat);
            },
            Action::Chase => {
                self.ents[i].goal = Some(at);
            },
            _ => {
                if let Some(f) = h.toward {
                    self.ents[i].facing = f;
                }
                if a == Action::Blast {
                    self.ents[i].hp = Num { bits: 0 };
                }
                if a == Action::Fire {
                    self.ents[i].cooldown = atk_cd(kind);
                }
                self.ents[i].goal = None;
            },
        }
        proof {
            assert(self.ents@[i as int]@ =~= acted(e, a, at, *h));
            assert(self@.ents =~= v.ents.update(i as int, acted(e, a, at, *h)));
        }
        a
    }

    /// Whom a shot of the entity in slot `i` at slot `j` hits. `from` and `at` are squared
    /// distances from the shooter and from the one shot at, `cone` tells who is in front.
    pub fn victims(&self, i: usize, j: usize, from: &Vec<Num>, at: &Vec<Num>, cone: &Vec<bool>) -> (r: Vec<
        usize,
    >)
        requires
            self.wf(),
            i < self@.ents.len(),
            j < self@.ents.len(),
            from@.len() == self.ents@.len(),
            at@.len() == self.ents@.len(),
            cone@.len() == self.ents@.len(),
        ensures
            r@ == shot_hits(self@, i as int, j as int, from@, at@, cone@),
    {
        let ghost w = self@;
        assert(w.ents[i as int] == self.ents@[i as int]@);
        let kind = self.ents[i].kind;
        let team = self.ents[i].team;
        let sp: u32 = splash(kind);
        let n: usize = self.ents.len();
        let mut out: Vec<usize> = Vec::new();
        if kind == Kind::Pyro {
            let far = Num::whole(FLAME_SQ);
            let near = Num { bits: ONE };
            let ghost f = |k: int|
                foe_of(team)(w.ents[k]) && !Num::whole(FLAME_SQ).less(from@[k]) && (cone@[k] || from@[k].less(
                    Num { bits: ONE },
                ));
            for k in 0..n
                invariant
                    n == self.ents@.len(),
                    w == self@,
                    from@.len() == n,
                    cone@.len() == n,
                    far == Num::whole(FLAME_SQ),
                    near == (Num { bits: ONE }),
                    f == (|k: int|
                        foe_of(team)(w.ents[k]) && !Num::whole(FLAME_SQ).less(from@[k]) && (cone@[k]
                            || from@[k].less(Num { bits: ONE }))),
                    out@ == slots_where(k as int, f),
            {
                assert(w.ents[k as int] == self.ents@[k as int]@);
                let e = &self.ents[k];
                if e.team != Team::Neutral && e.team != team && !e.hp.at_most(Num { bits: 0 })
                    && !far.less(from[k]) && (cone[k] || from[k].less(near)) {
                    out.push(k);
                }
            }
            assert(out@ == shot_hits(w, i as int, j as int, from@, at@, cone@));
        } else if sp > 0 {
            assert(0 <= sp * sp <= 1764) by (nonlinear_arith)
                requires
                    0 <= sp <= 42,
            ;
            let near = Num::whole(sp * sp);
            let ghost f = |k: int|
                foe_of(team)(w.ents[k]) && at@[k].at_most(Num::whole((splash(kind) * splash(kind)) as u32));
            for k in 0..n
                invariant
                    n == self.ents@.len(),
                    w == self@,
                    at@.len() == n,
                    near == Num::whole((splash(kind) * splash(kind)) as u32),
                    f == (|k: int|
                        foe_of(team)(w.ents[k]) && at@[k].at_most(
                            Num::whole((splash(kind) * splash(kind)) as u32),
                        )),
                    out@ == slots_where(k as int, f),
            {
                assert(w.ents[k as int] == self.ents@[k as int]@);
                let e = &self.ents[k];
                if e.team != Team::Neutral && e.team != team && !e.hp.at_most(Num { bits: 0 })
                    && at[k].at_most(near) {
                    out.push(k);
                }
            }
            assert(out@ == shot_hits(w, i as int, j as int, from@, at@, cone@));
        } else {
            out.push(j);
            assert(out@ =~= seq![j]);
        }
        out
    }

    /// Whom a blast of the entity in slot `i` hits. `from` are squared distances from it.
    pub fn blasted(&self, i: usize, from: &Vec<Num>) -> (r: Vec<usize>)
        requires
            self.wf(),
            i < self@.ents.len(),
            from@.len() == self.ents@.len(),
        ensures
            r@ == blast_hits(self@, i as int, from@),
    {
        let ghost w = self@;
        assert(w.ents[i as int] == self.ents@[i as int]@);
        let team = self.ents[i].team;
        let near = Num::whole(BLAST_SQ);
        let n: usize = self.ents.len();
        let mut out: Vec<usize> = Vec::new();
        let ghost f = |k: int|
            foe_of(w.ents[i as int].team)(w.ents[k]) && from@[k].at_most(Num::whole(BLAST_SQ));
        for k in 0..n
            invariant
                n == self.ents@.len(),
                w == self@,
                i < n,
                team == w.ents[i as int].team,
                from@.len() == n,
                near == Num::whole(BLAST_SQ),
                f == (|k: int|
                    foe_of(w.ents[i as int].team)(w.ents[k]) && from@[k].at_most(Num::whole(BLAST_SQ))),
                out@ == slots_where(k as int, f),
        {
            assert(w.ents[k as int] == self.ents@[k as int]@);
            let e = &self.ents[k];
            if e.team != Team::Neutral && e.team != team && !e.hp.at_most(Num { bits: 0 }) && from[k].at_most(
                near,
            ) {
                out.push(k);
            }
        }
        out
    }

    /// Moves the entity in slot `i` along to its next order.
    pub fn advance_order(&mut self, i: usize)
        requires
            old(self).wf(),
            i < old(self)@.ents.len(),
        ensures
            final(self).wf(),
            final(self)@ == old(self)@.with(i as int, moved_along(old(self)@.ents[i as int])),
    {
        let ghost v = self@;
        let ghost e = v.ents[i as int];
        assert(e == self.ents@[i as int]@);
        self.ents[i].goal = None;
        if self.ents[i].order_queue.len() == 0 {
            self.ents[i].order = Order::Idle;
        } else {
            let next = self.ents[i].order_queue.remove(0);
            self.ents[i].order = next;
        }
        proof {
            assert(self.ents@[i as int].order_queue@ =~= moved_along(e).order_queue);
            assert(self.ents@[i as int]@ =~= moved_along(e));
            assert(self@.ents =~= v.ents.update(i as int, moved_along(e)));
        }
    }

    /// Sends the entity in slot `i` somewhere.
    pub(crate) fn set_goal(&mut self, i: usize, goal: Option<V2>)
        requires
            old(self).wf(),
            i < old(self)@.ents.len(),
        ensures
            final(self).wf(),
            final(self)@ == old(self)@.with(
                i as int,
                EntV { goal, ..old(self)@.ents[i as int] },
            ),
    {
        let ghost v = self@;
        let ghost e = v.ents[i as int];
        assert(e == self.ents@[i as int]@);
        self.ents[i].goal = goal;
        proof {
            assert(self.ents@[i as int]@ =~= EntV { goal, ..e });
            assert(self@.ents =~= v.ents.update(i as int, EntV { goal, ..e }));
        }
    }

    /// Gives the entity in slot `i` another order and leaves the rest.
    pub(crate) fn reorder(&mut self, i: usize, order: Order)
        requires
            old(self).wf(),
            i < old(self)@.ents.len(),
        ensures
            final(self).wf(),
            final(self)@ == old(self)@.with(
                i as int,
                EntV { order, ..old(self)@.ents[i as int] },
            ),
    {
        let ghost v = self@;
        let ghost e = v.ents[i as int];
        assert(e == self.ents@[i as int]@);
        self.ents[i].order = order;
        proof {
            assert(self.ents@[i as int]@ =~= EntV { order, ..e });
            assert(self@.ents =~= v.ents.update(i as int, EntV { order, ..e }));
        }
    }
}

// ---- what holds of fights -----------------------------------------------------------------

/// A list of slots holds each slot that satisfies the condition, once and in order, and no
/// other.
pub proof fn slots_are_all_listed(n: int, f: spec_fn(int) -> bool)
    requires
        0 <= n <= usize::MAX,
    ensures
        forall|k: int| 0 <= k < n ==> (#[trigger] slots_where(n, f).contains(k as usize) <==> f(k)),
        forall|k: usize| #[trigger] slots_where(n, f).contains(k) ==> k < n && f(k as int),
        forall|a: int, b: int|
            0 <= a < b < slots_where(n, f).len() ==> (#[trigger] slots_where(n, f)[a]) < (#[trigger] slots_where(
                n,
                f,
            )[b]),
    decreases n,
{
    let s = slots_where(n, f);
    if n > 0 {
        slots_are_all_listed(n - 1, f);
        let r = slots_where(n - 1, f);
        assert forall|k: usize| #[trigger] s.contains(k) implies k < n && f(k as int) by {
            let j = choose|j: int| 0 <= j < s.len() && s[j] == k;
            if j < r.len() {
                assert(r[j] == k);
                assert(r.contains(k));
            }
        }
        assert forall|k: int| 0 <= k < n implies (#[trigger] s.contains(k as usize) <==> f(k)) by {
            if f(k) {
                if k < n - 1 {
                    assert(r.contains(k as usize));
                    let j = choose|j: int| 0 <= j < r.len() && r[j] == k as usize;
                    assert(s[j] == k as usize);
                } else {
                    assert(s[r.len() as int] == k as usize);
                }
            }
        }
        assert forall|a: int, b: int| 0 <= a < b < s.len() implies (#[trigger] s[a]) < (#[trigger] s[b]) by {
            if b < r.len() {
                assert(r[a] < r[b]);
            } else {
                assert(r[a] == s[a]);
                assert(r.contains(r[a]));
            }
        }
    }
}

/// No friendly fire: whatever the weapon, a shot at a foe hurts nobody of the shooter's own
/// side and nothing neutral; and a blast hurts nobody of its own side either.
pub proof fn no_friendly_fire(w: WorldV, i: int, j: int, from: Seq<Num>, at: Seq<Num>, cone: Seq<bool>, k: usize)
    requires
        w.ents.len() <= usize::MAX,
        0 <= i < w.ents.len(),
        0 <= j < w.ents.len(),
        w.ents[j].team != w.ents[i].team,
        w.ents[j].team != Team::Neutral,
        shot_hits(w, i, j, from, at, cone).contains(k) || blast_hits(w, i, from).contains(k),
    ensures
        k < w.ents.len(),
        w.ents[k as int].team != w.ents[i].team,
        w.ents[k as int].team != Team::Neutral,
{
    let n = w.ents.len() as int;
    let e = w.ents[i];
    slots_are_all_listed(
        n,
        |k: int|
            foe_of(e.team)(w.ents[k]) && !Num::whole(FLAME_SQ).less(from[k]) && (cone[k] || from[k].less(
                Num { bits: ONE },
            )),
    );
    slots_are_all_listed(
        n,
        |k: int|
            foe_of(e.team)(w.ents[k]) && at[k].at_most(Num::whole((splash(e.kind) * splash(e.kind)) as u32)),
    );
    slots_are_all_listed(
        n,
        |k: int| foe_of(w.ents[i].team)(w.ents[k]) && from[k].at_most(Num::whole(BLAST_SQ)),
    );
}

/// Every foe in reach of a shot is hurt, and nobody out of its reach: the flame takes all in
/// its cone up to 78 units away, and what it touches; a shell all within 28 units of its
/// impact, a mortar's 42; a blast all within 58 units; and any other shot the one it was
/// aimed at and no one else.
pub proof fn shots_hit_everyone_in_reach(
    w: WorldV,
    i: int,
    j: int,
    from: Seq<Num>,
    at: Seq<Num>,
    cone: Seq<bool>,
    k: int,
)
    requires
        w.ents.len() <= usize::MAX,
        0 <= i < w.ents.len(),
        0 <= j < w.ents.len(),
        0 <= k < w.ents.len(),
        from.len() == w.ents.len(),
        at.len() == w.ents.len(),
        cone.len() == w.ents.len(),
    ensures
        ({
            let e = w.ents[i];
            let v = w.ents[k];
            let foe = v.team != e.team && v.team != Team::Neutral && !v.hp.at_most(Num { bits: 0 });
            let hit = shot_hits(w, i, j, from, at, cone).contains(k as usize);
            &&& e.kind == Kind::Pyro ==> (hit <==> foe && !Num::whole(6084).less(from[k]) && (cone[k]
                || from[k].less(Num { bits: 0x3F80_0000 })))
            &&& e.kind == Kind::Tank ==> (hit <==> foe && at[k].at_most(Num::whole(784)))
            &&& e.kind == Kind::Mortar ==> (hit <==> foe && at[k].at_most(Num::whole(1764)))
            &&& e.kind != Kind::Pyro && e.kind != Kind::Tank && e.kind != Kind::Mortar ==> (hit <==> k == j)
                && shot_hits(w, i, j, from, at, cone).len() == 1
            &&& blast_hits(w, i, from).contains(k as usize) <==> foe && from[k].at_most(Num::whole(3364))
        }),
{
    let n = w.ents.len() as int;
    let e = w.ents[i];
    let hits = shot_hits(w, i, j, from, at, cone);
    slots_are_all_listed(
        n,
        |k: int| foe_of(w.ents[i].team)(w.ents[k]) && from[k].at_most(Num::whole(BLAST_SQ)),
    );
    assert(28 * 28 == 784 && 42 * 42 == 1764);
    if e.kind == Kind::Pyro {
        slots_are_all_listed(
            n,
            |k: int|
                foe_of(e.team)(w.ents[k]) && !Num::whole(FLAME_SQ).less(from[k]) && (cone[k] || from[k].less(
                    Num { bits: ONE },
                )),
        );
    } else if e.kind == Kind::Tank || e.kind == Kind::Mortar {
        assert(splash(Kind::Tank) * splash(Kind::Tank) == 784);
        assert(splash(Kind::Mortar) * splash(Kind::Mortar) == 1764);
        slots_are_all_listed(
            n,
            |k: int|
                foe_of(e.team)(w.ents[k]) && at[k].at_most(Num::whole((splash(e.kind) * splash(e.kind)) as u32)),
        );
    } else {
        assert(hits[0] == j as usize);
        if hits.contains(k as usize) {
            assert(k as usize == j as usize);
        }
    }
}

/// A fighter that stands idle or attacks on the move turns on the nearest living foe in its
/// sight, and on nobody when there is none; one that was told whom to attack turns on that
/// one while it lives; and everyone else does what they were told.
pub proof fn fighters_find_their_foes(w: WorldV, i: int, d: Seq<Num>, t: Turn, k: int)
    requires
        w.ents.len() <= usize::MAX,
        0 <= i < w.ents.len(),
        0 <= k < w.ents.len(),
        is_mover(w.ents[i].kind),
        taken(w, i, d, t),
    ensures
        ({
            let e = w.ents[i];
            let v = w.ents[k];
            let near = Num::whole((aggro(e.kind) * aggro(e.kind)) as u32);
            let ready = e.order == Order::Idle || e.order is AttackMove;
            let foe = v.team != e.team && v.team != Team::Neutral && !v.hp.at_most(Num { bits: 0 })
                && d[k].at_most(near);
            &&& ready && aggro(e.kind) > 0 && foe ==> t is Fight && !d[k].less(d[t->Fight_0 as int])
            &&& ready && t is Fight ==> ({
                let q = w.ents[t->Fight_0 as int];
                &&& t->Fight_0 < w.ents.len()
                &&& aggro(e.kind) > 0
                &&& q.team != e.team
                &&& q.team != Team::Neutral
                &&& !q.hp.at_most(Num { bits: 0 })
                &&& d[t->Fight_0 as int].at_most(near)
            })
            &&& ready && !(t is Fight) ==> t == (match e.order {
                Order::AttackMove(p) => Turn::Walk(p),
                _ => Turn::Stand,
            })
            &&& e.order is Attack ==> match w.slot_of(e.order->Attack_0) {
                Some(s) => if w.ents[s].hp.positive() {
                    t is Fight && t->Fight_0 == s
                } else {
                    t == Turn::MoveAlong
                },
                None => t == Turn::MoveAlong,
            }
            &&& e.order is Move ==> t == Turn::Walk(e.order->Move_0)
            &&& e.order is Gather ==> t == Turn::Gather(e.order->Gather_0)
            &&& e.order is Repair ==> t == Turn::Repair(e.order->Repair_0)
            &&& e.order is Build ==> t == Turn::Raise(e.order->Build_0, e.order->Build_1)
        }),
{
    let e = w.ents[i];
    if quarry(w, i, d, None) {
        assert(foe_of(e.team)(w.ents[k]) == foe_of(e.team)(w.ents[k]));
    } else if t is Fight {
        assert(foe_of(e.team)(w.ents[k]) == foe_of(e.team)(w.ents[k]));
        less_is_a_total_order(d[k], d[t->Fight_0 as int], d[k]);
    }
}

/// What does not walk has no turn.
pub proof fn buildings_stand(w: WorldV, i: int, d: Seq<Num>, t: Turn)
    requires
        0 <= i < w.ents.len(),
        taken(w, i, d, t),
        w.ents[i].kind == Kind::Base || w.ents[i].kind == Kind::Barracks || w.ents[i].kind == Kind::Factory
            || w.ents[i].kind == Kind::Depot || w.ents[i].kind == Kind::Mineral,
    ensures
        t == Turn::Stand,
{
}

/// In reach one fires as soon as the weapon has cooled, and not before; out of reach one goes
/// after the quarry; a sapper in reach blows up; and only a mortar ever backs off.
pub proof fn weapons_fire_in_reach(e: EntV, other: Kind, dist: Num, downhill: bool)
    requires
        !dist.is_nan(),
        !dist.less(Num { bits: 0 }),
    ensures
        ({
            let reach = atk_range(e.kind) + radius(e.kind) + radius(other) + (if downhill && atk_range(e.kind)
                > 10 {
                22int
            } else {
                0int
            });
            let near = e.kind == Kind::Mortar && dist.less(Num::whole(85));
            let far = Num::whole(reach as u32).less(dist);
            let a = action_of(e, other, dist, downhill);
            &&& 0 <= reach <= u32::MAX
            &&& a == Action::FallBack <==> near
            &&& a == Action::Chase <==> !near && far
            &&& a == Action::Blast <==> !near && !far && e.kind == Kind::Sapper
            &&& a == Action::Fire <==> !near && !far && e.kind != Kind::Sapper && e.cooldown.at_most(Num { bits: 0 })
            &&& a == Action::Reload <==> !near && !far && e.kind != Kind::Sapper && !e.cooldown.at_most(
                Num { bits: 0 },
            )
        }),
{
    let r = reach_of(e.kind, other, downhill);
    whole_numbers_are_ordered(0, 85);
    lemma_reach(e.kind, other, downhill);
    less_is_a_total_order(dist, Num::whole(r), dist);
    less_is_a_total_order(Num::whole(r), dist, dist);
}

proof fn lemma_reach(k: Kind, other: Kind, downhill: bool)
    ensures
        reach_of(k, other, downhill) < 0x100_0000,
        !Num::whole(reach_of(k, other, downhill)).is_nan(),
        Num::whole(0) == (Num { bits: 0 }),
{
    whole_numbers_are_ordered(reach_of(k, other, downhill) as int, 0xFF_FFFF);
}

/// A shot starts the weapon's clock anew and costs the shooter nothing else; only a blast
/// costs a life. Whoever gives chase heads for the quarry, whoever backs off heads away, and
/// whoever is in reach stands still. Nobody changes place, side, order or cargo by it.
pub proof fn actions_do_what_they_say(e: EntV, a: Action, quarry_at: V2, h: Headings)
    ensures
        ({
            let f = acted(e, a, quarry_at, h);
            &&& f.cooldown == (if a == Action::Fire {
                atk_cd(e.kind)
            } else {
                e.cooldown
            })
            &&& a != Action::Blast ==> f.hp == e.hp
            &&& a == Action::Blast ==> f.hp.at_most(Num { bits: 0 })
            &&& a == Action::Chase ==> f.goal == Some(quarry_at) && f.facing == e.facing
            &&& a == Action::FallBack ==> f.goal == Some(h.retreat) && f.facing == h.away
            &&& a == Action::Fire || a == Action::Reload || a == Action::Blast ==> f.goal is None && f.facing == (
            match h.toward {
                Some(x) => x,
                None => e.facing,
            })
            &&& f == EntV { cooldown: f.cooldown, hp: f.hp, goal: f.goal, facing: f.facing, ..e }
        }),
{
}

/// Orders are carried out in turn: whoever is done takes up the next one waiting, and the
/// others wait on in their order; whoever has none waiting is idle.
pub proof fn orders_are_taken_in_turn(e: EntV)
    ensures
        ({
            let f = moved_along(e);
            &&& f.goal is None
            &&& e.order_queue.len() == 0 ==> f.order == Order::Idle && f.order_queue.len() == 0
            &&& e.order_queue.len() > 0 ==> seq![f.order] + f.order_queue == e.order_queue
            &&& f == EntV { goal: f.goal, order: f.order, order_queue: f.order_queue, ..e }
        }),
{
    let f = moved_along(e);
    if e.order_queue.len() > 0 {
        assert(seq![f.order] + f.order_queue =~= e.order_queue);
    }
}

/// A turn begins with the weapon a little cooler, if it was hot, and a walker headed nowhere.
pub proof fn turns_begin_afresh(e: EntV, cooled: Num)
    ensures
        ({
            let f = turn_begun(e, cooled);
            &&& e.cooldown.positive() ==> f.cooldown == cooled
            &&& !e.cooldown.positive() ==> f.cooldown == e.cooldown
            &&& is_mover(e.kind) ==> f.goal is None
            &&& !is_mover(e.kind) ==> f.goal == e.goal
            &&& f == EntV { cooldown: f.cooldown, goal: f.goal, ..e }
        }),
{
}

} // verus!
