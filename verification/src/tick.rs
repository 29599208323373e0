//! A tick: the order of its passes, the steps that they are made of, and what holds of any run
//! of steps.

use vstd::prelude::*;
use crate::ai::{free_hand, AiState, Census};
use crate::cmd::CmdV;
use crate::combat::{acted, action_of, Headings};
use crate::economy::{fix_of, headed, site_reach, Haul, Shift};
use crate::kind::{Kind, Team, MAX_FACTIONS};
use crate::num::{Num, V2};
use crate::orders::{Ground, Site};
use crate::query::{first_least, minable, FAR_BITS};
use crate::rules::{ai_turn, turns_go_round};
use crate::watch::{
    commands_do_not_tell_who_watches, damage_does_not_tell_who_watches, death_does_not_tell_who_watches,
    fading_does_not_tell_who_watches, fingerprints_do_not_tell_who_watches, lemma_same_built_at,
    lemma_same_clear, lemma_same_first, lemma_same_least, lemma_same_put, lemma_same_trained, lemma_same_with,
    mining_does_not_tell_who_watches, production_does_not_tell_who_watches, raising_does_not_tell_who_watches,
    repairs_do_not_tell_who_watches, same_ent, same_match, the_end_does_not_tell_who_watches,
    ticks_do_not_tell_who_watches, unbiased,
};
use crate::world::{first_slot, lemma_first_slot, world_words, EntV, World, WorldV};

verus! {

/// A part of a tick.
#[derive(Clone, Copy, PartialEq, Eq, Structural, Debug)]
pub enum Pass {
    /// A computer thinks for its faction.
    Think(Team),
    /// Buildings rise and train.
    Produce,
    /// Everyone has a turn.
    Decide,
    /// The damage of all turns is dealt.
    Damage,
    /// Which tiles are covered is found anew.
    Block,
    /// Everyone moves.
    Move,
    /// The dead are taken off the map.
    Clear,
    /// Marks, messages and flashes fade.
    Fade,
    /// What flies flies on.
    Effects,
    /// Every faction looks round.
    Fog,
    /// It is seen who is left.
    Judge,
}

impl WorldV {
    /// The computers that think in the first `n` turns, from turn `rot` on.
    pub open spec fn thinkers(self, rot: int, n: int) -> Seq<Pass>
        decreases n,
    {
        if n <= 0 {
            Seq::empty()
        } else {
            let f = (n - 1 + rot) % (self.factions as int);
            let before = self.thinkers(rot, n - 1);
            if self.is_ai[f] {
                before.push(Pass::Think(Team::from_idx(f as usize)))
            } else {
                before
            }
        }
    }

    /// The passes of a tick, in their order. In a decided match there is nothing left but to
    /// fade.
    pub open spec fn passes(self, rot: int) -> Seq<Pass> {
        if self.match_over {
            seq![Pass::Fade, Pass::Effects]
        } else {
            self.thinkers(rot, self.factions as int) + seq![
                Pass::Produce,
                Pass::Decide,
                Pass::Damage,
                Pass::Block,
                Pass::Move,
                Pass::Clear,
                Pass::Fade,
                Pass::Effects,
                Pass::Fog,
                Pass::Judge,
            ]
        }
    }
}

impl World {
    /// The passes of a tick, in their order. The computers take turns at who thinks first,
    /// `rot` counts the ticks.
    pub fn passes(&self, rot: usize) -> (r: Vec<Pass>)
        requires
            self.wf(),
        ensures
            r@ == self@.passes(rot as int),
    {
        if self.match_over {
            let r = vec![Pass::Fade, Pass::Effects];
            assert(r@ =~= self@.passes(rot as int));
            return r;
        }
        let mut r: Vec<Pass> = Vec::new();
        let n: usize = self.factions;
        for k in 0..n
            invariant
                self.wf(),
                n == self.factions,
                r@ == self@.thinkers(rot as int, k as int),
        {
            let f: usize = ai_turn(k, rot, n);
            if self.is_ai[f] {
                r.push(Pass::Think(Team::from_idx(f)));
            }
        }
        let ghost before = r@;
        r.push(Pass::Produce);
        r.push(Pass::Decide);
        r.push(Pass::Damage);
        r.push(Pass::Block);
        r.push(Pass::Move);
        r.push(Pass::Clear);
        r.push(Pass::Fade);
        r.push(Pass::Effects);
        r.push(Pass::Fog);
        r.push(Pass::Judge);
        assert(r@ =~= self@.passes(rot as int));
        r
    }
}

proof fn lemma_thinkers(w: WorldV, rot: int, n: int)
    requires
        2 <= w.factions <= MAX_FACTIONS,
        0 <= rot,
        0 <= n <= w.factions,
    ensures
        w.thinkers(rot, n).len() <= n,
        forall|j: int|
            0 <= j < w.thinkers(rot, n).len() ==> exists|k: int|
                0 <= k < n && w.is_ai[(k + rot) % (w.factions as int)] && #[trigger] w.thinkers(rot, n)[j]
                    == #[trigger] thought(w, rot, k),
        forall|k: int|
            0 <= k < n && w.is_ai[(k + rot) % (w.factions as int)] ==> w.thinkers(rot, n).contains(
                #[trigger] thought(w, rot, k),
            ),
        w.thinkers(rot, n).no_duplicates(),
    decreases n,
{
    let m = w.factions as int;
    let t = w.thinkers(rot, n);
    if n > 0 {
        lemma_thinkers(w, rot, n - 1);
        let s = w.thinkers(rot, n - 1);
        let last = thought(w, rot, n - 1);
        if w.is_ai[(n - 1 + rot) % m] {
            assert(t == s.push(last));
            assert(t[s.len() as int] == last);
        }
        assert forall|j: int| 0 <= j < t.len() implies exists|k: int|
            0 <= k < n && w.is_ai[(k + rot) % m] && #[trigger] t[j] == #[trigger] thought(w, rot, k) by {
            if j < s.len() {
                assert(t[j] == s[j]);
                let k = choose|k: int|
                    0 <= k < n - 1 && w.is_ai[(k + rot) % m] && s[j] == #[trigger] thought(w, rot, k);
                assert(t[j] == thought(w, rot, k));
            } else {
                assert(t[j] == thought(w, rot, n - 1));
            }
        }
        assert forall|k: int| 0 <= k < n && w.is_ai[(k + rot) % m] implies t.contains(
            #[trigger] thought(w, rot, k),
        ) by {
            if k < n - 1 {
                assert(s.contains(thought(w, rot, k)));
                let j = choose|j: int| 0 <= j < s.len() && s[j] == thought(w, rot, k);
                assert(t[j] == s[j]);
            }
        }
        assert forall|i: int, j: int| 0 <= i < j < t.len() implies t[i] != t[j] by {
            if j == s.len() {
                let k = choose|k: int|
                    0 <= k < n - 1 && w.is_ai[(k + rot) % m] && s[i] == #[trigger] thought(w, rot, k);
                assert(t[i] == s[i]);
                if s[i] == last {
                    assert(Team::from_idx(((k + rot) % m) as usize) == Team::from_idx(((n - 1 + rot) % m) as usize));
                    turns_go_round(k, n - 1, rot, m);
                }
            } else {
                assert(s[i] != s[j]);
            }
        }
    }
}

proof fn lemma_turn_of(f: int, rot: int, m: int) -> (k: int)
    requires
        2 <= m <= 4,
        0 <= rot,
        0 <= f < m,
    ensures
        0 <= k < m,
        (k + rot) % m == f,
{
    if m == 2 {
        (f + 2 - rot % 2) % 2
    } else if m == 3 {
        (f + 3 - rot % 3) % 3
    } else {
        (f + 4 - rot % 4) % 4
    }
}

/// The thought of whoever has turn `k`.
pub open spec fn thought(w: WorldV, rot: int, k: int) -> Pass {
    Pass::Think(Team::from_idx(((k + rot) % (w.factions as int)) as usize))
}

/// Every computer thinks once in a tick, and nobody else does; and a decided match thinks,
/// trains, moves and judges no more.
pub proof fn every_computer_thinks_once(w: WorldV, rot: int, f: int)
    requires
        2 <= w.factions <= MAX_FACTIONS,
        0 <= rot,
        0 <= f < w.factions,
    ensures
        !w.match_over ==> (w.passes(rot).contains(Pass::Think(Team::from_idx(f as usize))) <==> w.is_ai[f]),
        w.passes(rot).no_duplicates(),
        w.match_over ==> w.passes(rot) == seq![Pass::Fade, Pass::Effects],
{
    let m = w.factions as int;
    let t = w.thinkers(rot, m);
    let p = w.passes(rot);
    let me = Pass::Think(Team::from_idx(f as usize));
    lemma_thinkers(w, rot, m);
    if !w.match_over {
        let n = t.len() as int;
        assert forall|i: int| 0 <= i < n implies #[trigger] p[i] == t[i] && p[i] is Think by {
            let k = choose|k: int| 0 <= k < m && t[i] == #[trigger] thought(w, rot, k);
            assert(t[i] == thought(w, rot, k));
        }
        assert(forall|i: int| n <= i < p.len() ==> !(#[trigger] p[i] is Think));
        assert forall|i: int, j: int| 0 <= i < j < p.len() implies p[i] != p[j] by {
            if j < n {
                assert(t[i] != t[j]);
            } else if i < n {
                assert(p[i] is Think);
            }
        }
        if w.is_ai[f] {
            let k = lemma_turn_of(f, rot, m);
            assert(t.contains(thought(w, rot, k)));
            let j = choose|j: int| 0 <= j < t.len() && t[j] == me;
            assert(p[j] == me);
        }
        if p.contains(me) {
            let j = choose|j: int| 0 <= j < p.len() && p[j] == me;
            assert(j < n);
            let k = choose|k: int|
                0 <= k < m && w.is_ai[(k + rot) % m] && t[j] == #[trigger] thought(w, rot, k);
            assert(t[j] == thought(w, rot, k));
            assert(Team::from_idx(f as usize) == Team::from_idx(((k + rot) % m) as usize));
            assert((k + rot) % m == f);
        }
    }
}

// ---- steps --------------------------------------------------------------------------------

/// Whether what is made of an entity has nothing to do with the selection.
pub open spec fn blind(f: spec_fn(EntV) -> EntV) -> bool {
    forall|a: EntV, b: EntV| same_ent(a, b) ==> same_ent(#[trigger] f(a), #[trigger] f(b))
}

/// One step of a match: a call that changes it, with the numbers that come from outside.
pub enum Step {
    /// A command is carried out.
    Obey { team: Team, cmd: CmdV, ground: Ground },
    /// A tick begins.
    Begin { time: Num },
    /// A number is drawn.
    Draw,
    /// A computer orders a worker at one of its bases.
    Worker { bases: Seq<usize> },
    /// A computer feeds its plants.
    Arm { ai: AiState, census: Census, or_pyros: Num, or_raiders: Num },
    /// A computer has a worker build.
    Grant { me: Team, scout: u32, kind: Kind, cliffs: bool, site: Option<Site> },
    /// A computer sends its army out.
    March { army: Seq<usize>, scout: u32, dests: Seq<V2> },
    /// A computer has its plants rally.
    Rally { slots: Seq<usize>, at: V2 },
    /// A building rises or trains.
    Produce { i: int, shift: Shift },
    /// Something is made of one entity alone: its turn begins, it is done with an order, it
    /// walks, its clocks run, it is sent out.
    One { i: int, f: spec_fn(EntV) -> EntV },
    /// Two meet.
    Engage { i: int, j: int, dist: Num, downhill: bool, headings: Headings },
    /// A worker looks for a patch.
    Seek { i: int, score: Seq<Num> },
    /// A miner's turn.
    Mine { i: int, patch: u32, score: Seq<Num>, home: Seq<Num>, h: Haul, dist: Num, timer: Num, aim: V2 },
    /// A repairer's turn.
    Repair { i: int, id: u32, dist: Num, owed: Seq<Num>, hp: Num, score: Seq<Num> },
    /// A builder's turn.
    Raise { i: int, kind: Kind, place: V2, dist: Num, hp: Num, rally: V2, score: Seq<Num> },
    /// Damage is dealt.
    Hit { i: int, hp: Num },
    /// The dead are taken off the map.
    Clear,
    /// Marks, messages and flashes fade.
    Fade { flashes: Seq<Num> },
    /// It is seen who is left.
    Judge,
    /// The watcher is shown or told something, or selects.
    Show,
}

pub open spec fn slots_in(slots: Seq<usize>, w: WorldV) -> bool {
    forall|k: int| 0 <= k < slots.len() ==> #[trigger] slots[k] < w.ents.len()
}

/// Whether `after` is what a step may make of a match.
pub open spec fn steps_to(w: WorldV, s: Step, after: WorldV) -> bool {
    let far = Num { bits: FAR_BITS };
    match s {
        Step::Obey { team, cmd, ground } => w.obeyed(team, cmd, ground, after),
        Step::Begin { time } => exists|warn: Num| after == #[trigger] w.ticked(time, warn),
        Step::Draw => after == w.drawn(),
        Step::Worker { bases } => slots_in(bases, w) && after == w.worker_ordered(bases),
        Step::Arm { ai, census, or_pyros, or_raiders } => slots_in(census.barracks@, w) && slots_in(
            census.factories@,
            w,
        ) && after == w.armed(ai, census, or_pyros, or_raiders),
        Step::Grant { me, scout, kind, cliffs, site } => after == (match site {
            Some(s) => w.granted(me, scout, kind, Some(s.pt), s.clear_for(w.ents, cliffs, kind)).0,
            None => w.granted(me, scout, kind, None, false).0,
        }),
        Step::March { army, scout, dests } => slots_in(army, w) && after == w.marched(army, scout, dests),
        Step::Rally { slots, at } => slots_in(slots, w) && after == w.rallied(slots, at),
        Step::Produce { i, shift } => 0 <= i < w.ents.len() && exists|
            under: Option<usize>,
            patch: Option<usize>,
        | #[trigger]
            first_least(w.ents, minable(), shift.from_rally@, far, under) && #[trigger] first_least(
                w.ents,
                minable(),
                shift.score@,
                far,
                patch,
            ) && after == w.produced(i, shift, under, patch).0,
        Step::One { i, f } => 0 <= i < w.ents.len() && blind(f) && after == w.with(i, f(w.ents[i])),
        Step::Engage { i, j, dist, downhill, headings } => 0 <= i < w.ents.len() && 0 <= j < w.ents.len() && after
            == w.with(
            i,
            acted(
                w.ents[i],
                action_of(w.ents[i], w.ents[j].kind, dist, downhill),
                w.ents[j].pos,
                headings,
            ),
        ),
        Step::Seek { i, score } => 0 <= i < w.ents.len() && exists|patch: Option<usize>| #[trigger]
            first_least(w.ents, minable(), score, far, patch) && after == w.put_to_mine(i, patch),
        Step::Mine { i, patch, score, home, h, dist, timer, aim } => 0 <= i < w.ents.len() && headed(
            w,
            i,
            patch,
            score,
            home,
            h,
        ) && (h is Patch ==> h->Patch_0 < w.ents.len()) && (h is Base ==> h->Base_0 < w.ents.len()) && after
            == w.hauled(i, h, dist, timer, aim),
        Step::Repair { i, id, dist, owed, hp, score } => 0 <= i < w.ents.len() && exists|
            patch: Option<usize>,
        | #[trigger]
            first_least(w.ents, minable(), score, far, patch) && after == w.repaired(
                i,
                fix_of(w, i, id),
                dist,
                owed,
                hp,
                patch,
            ),
        Step::Raise { i, kind, place, dist, hp, rally, score } => 0 <= i < w.ents.len() && if dist.at_most(
            Num::whole(site_reach(kind, w.ents[i].kind)),
        ) {
            exists|patch: Option<usize>| #[trigger]
                first_least(w.ents, minable(), score, far, patch) && after == w.raised(
                    i,
                    kind,
                    place,
                    hp,
                    rally,
                    patch,
                )
        } else {
            after == w.with(i, EntV { goal: Some(place), ..w.ents[i] })
        },
        Step::Hit { i, hp } => after == w.hit(i, hp),
        Step::Clear => after == w.cleared(),
        Step::Fade { flashes } => exists|pings: Seq<Num>, notes: Seq<Num>| after == #[trigger] w.faded(
            pings,
            notes,
            flashes,
        ),
        Step::Judge => after == w.judged(),
        Step::Show => same_match(w, after),
    }
}

/// Whether `trail` is how a match goes through some steps: it starts as the first entry, and
/// every step makes the next entry of the one before.
pub open spec fn goes(trail: Seq<WorldV>, steps: Seq<Step>) -> bool {
    &&& trail.len() == steps.len() + 1
    &&& forall|k: int| #![trigger steps[k]]
        0 <= k < steps.len() ==> steps_to(trail[k], steps[k], trail[k + 1])
}

proof fn lemma_workers(w: WorldV, v: WorldV, bases: Seq<usize>)
    requires
        same_match(w, v),
        slots_in(bases, w),
    ensures
        same_match(w.worker_ordered(bases), v.worker_ordered(bases)),
    decreases bases.len(),
{
    if bases.len() > 0 {
        let b = bases[0] as int;
        assert(bases[0] < w.ents.len());
        assert(same_ent(w.ents[b], v.ents[b]));
        let rest = bases.drop_first();
        assert forall|k: int| 0 <= k < rest.len() implies #[trigger] rest[k] < w.ents.len() by {
            assert(rest[k] == bases[k + 1]);
        }
        lemma_same_trained(w, v, b, Kind::Worker);
        if w.ents[b].queue.len() == 0 && crate::ai::up(w.ents[b]) {
            if !w.trained(b, Kind::Worker).1 {
                lemma_workers(w.trained(b, Kind::Worker).0, v.trained(b, Kind::Worker).0, rest);
            }
        } else {
            lemma_workers(w, v, rest);
        }
    }
}

proof fn lemma_plants(w: WorldV, v: WorldV, plants: Seq<usize>, a: Num, ab: Num, mix: (Kind, Kind, Kind))
    requires
        same_match(w, v),
        slots_in(plants, w),
    ensures
        same_match(w.plants_fed(plants, a, ab, mix), v.plants_fed(plants, a, ab, mix)),
        w.plants_fed(plants, a, ab, mix).ents.len() == w.ents.len(),
    decreases plants.len(),
{
    if plants.len() > 0 {
        let front = plants.drop_last();
        assert forall|k: int| 0 <= k < front.len() implies #[trigger] front[k] < w.ents.len() by {
            assert(front[k] == plants[k]);
        }
        lemma_plants(w, v, front, a, ab, mix);
        let (x, y) = (w.plants_fed(front, a, ab, mix), v.plants_fed(front, a, ab, mix));
        let b = plants.last() as int;
        assert(plants[plants.len() - 1] < w.ents.len());
        assert(same_ent(x.ents[b], y.ents[b]));
        assert(same_match(x.drawn(), y.drawn()));
        lemma_same_trained(x.drawn(), y.drawn(), b, crate::ai::mixed(x.luck(), a, ab, mix));
    }
}

proof fn lemma_armed(w: WorldV, v: WorldV, ai: AiState, c: Census, p: Num, r: Num)
    requires
        same_match(w, v),
        slots_in(c.barracks@, w),
        slots_in(c.factories@, w),
    ensures
        same_match(w.armed(ai, c, p, r), v.armed(ai, c, p, r)),
{
    let foot = (Kind::Sapper, Kind::Pyro, Kind::Soldier);
    let wheels = (Kind::Mortar, Kind::Raider, Kind::Tank);
    let (x, y) = (w.drawn(), v.drawn());
    assert(same_match(x, y));
    lemma_plants(x, y, c.factories@, ai.mortar_ratio, r, wheels);
    lemma_plants(x, y, c.barracks@, ai.sapper_ratio, p, foot);
    if w.luck().less(ai.tank_ratio) {
        let (s, t) = (
            x.plants_fed(c.factories@, ai.mortar_ratio, r, wheels),
            y.plants_fed(c.factories@, ai.mortar_ratio, r, wheels),
        );
        lemma_plants(s, t, c.barracks@, ai.sapper_ratio, p, foot);
    } else {
        let (s, t) = (
            x.plants_fed(c.barracks@, ai.sapper_ratio, p, foot),
            y.plants_fed(c.barracks@, ai.sapper_ratio, p, foot),
        );
        lemma_plants(s, t, c.factories@, ai.mortar_ratio, r, wheels);
    }
}

proof fn lemma_granted(w: WorldV, v: WorldV, me: Team, scout: u32, kind: Kind, cliffs: bool, site: Site)
    requires
        same_match(w, v),
    ensures
        same_match(
            w.granted(me, scout, kind, Some(site.pt), site.clear_for(w.ents, cliffs, kind)).0,
            v.granted(me, scout, kind, Some(site.pt), site.clear_for(v.ents, cliffs, kind)).0,
        ),
{
    let f = free_hand(me, scout);
    assert(unbiased(f));
    lemma_same_first(w.ents, v.ents, f);
    lemma_first_slot(w.ents, f);
    let i = first_slot(w.ents, f);
    lemma_same_clear(site, w.ents, v.ents, cliffs, kind);
    if i < w.ents.len() {
        lemma_same_built_at(w, v, i, kind, site.pt, site.clear_for(w.ents, cliffs, kind));
    }
}

proof fn lemma_marched(w: WorldV, v: WorldV, army: Seq<usize>, scout: u32, dests: Seq<V2>)
    requires
        same_match(w, v),
        slots_in(army, w),
    ensures
        same_match(w.marched(army, scout, dests), v.marched(army, scout, dests)),
        w.marched(army, scout, dests).ents.len() == w.ents.len(),
    decreases army.len(),
{
    if army.len() > 0 {
        let front = army.drop_last();
        assert forall|k: int| 0 <= k < front.len() implies #[trigger] front[k] < w.ents.len() by {
            assert(front[k] == army[k]);
        }
        lemma_marched(w, v, front, scout, dests);
        let (x, y) = (w.marched(front, scout, dests), v.marched(front, scout, dests));
        let i = army.last() as int;
        assert(army[army.len() - 1] < w.ents.len());
        assert(same_ent(x.ents[i], y.ents[i]));
        let o = crate::world::Order::AttackMove(dests[army.len() - 1]);
        lemma_same_with(x, y, i, EntV { order: o, ..x.ents[i] }, EntV { order: o, ..y.ents[i] });
    }
}

proof fn lemma_rallied(w: WorldV, v: WorldV, slots: Seq<usize>, at: V2)
    requires
        same_match(w, v),
        slots_in(slots, w),
    ensures
        same_match(w.rallied(slots, at), v.rallied(slots, at)),
        w.rallied(slots, at).ents.len() == w.ents.len(),
    decreases slots.len(),
{
    if slots.len() > 0 {
        let front = slots.drop_last();
        assert forall|k: int| 0 <= k < front.len() implies #[trigger] front[k] < w.ents.len() by {
            assert(front[k] == slots[k]);
        }
        lemma_rallied(w, v, front, at);
        let (x, y) = (w.rallied(front, at), v.rallied(front, at));
        let i = slots.last() as int;
        assert(slots[slots.len() - 1] < w.ents.len());
        assert(same_ent(x.ents[i], y.ents[i]));
        lemma_same_with(x, y, i, EntV { rally: at, ..x.ents[i] }, EntV { rally: at, ..y.ents[i] });
    }
}

proof fn lemma_produced(w: WorldV, v: WorldV, i: int, shift: Shift, a: WorldV, b: WorldV)
    requires
        same_match(w, v),
        steps_to(w, Step::Produce { i, shift }, a),
        steps_to(v, Step::Produce { i, shift }, b),
    ensures
        same_match(a, b),
{
    let far = Num { bits: FAR_BITS };
    let (uw, pw) = choose|under: Option<usize>, patch: Option<usize>| #[trigger]
        first_least(w.ents, minable(), shift.from_rally@, far, under) && #[trigger] first_least(
            w.ents,
            minable(),
            shift.score@,
            far,
            patch,
        ) && a == w.produced(i, shift, under, patch).0;
    let (uv, pv) = choose|under: Option<usize>, patch: Option<usize>| #[trigger]
        first_least(v.ents, minable(), shift.from_rally@, far, under) && #[trigger] first_least(
            v.ents,
            minable(),
            shift.score@,
            far,
            patch,
        ) && b == v.produced(i, shift, under, patch).0;
    production_does_not_tell_who_watches(w, v, i, shift, uw, uv, pw, pv);
}

proof fn lemma_work(w: WorldV, v: WorldV, s: Step, a: WorldV, b: WorldV)
    requires
        same_match(w, v),
        w.ents.len() <= usize::MAX,
        s is Seek || s is Repair || s is Raise,
        steps_to(w, s, a),
        steps_to(v, s, b),
    ensures
        same_match(a, b),
{
    let far = Num { bits: FAR_BITS };
    match s {
        Step::Seek { i, score } => {
            let p = choose|patch: Option<usize>| #[trigger]
                first_least(w.ents, minable(), score, far, patch) && a == w.put_to_mine(i, patch);
            let q = choose|patch: Option<usize>| #[trigger]
                first_least(v.ents, minable(), score, far, patch) && b == v.put_to_mine(i, patch);
            lemma_same_least(w.ents, v.ents, score, far, p, q);
            lemma_same_put(w, v, i, p);
        },
        Step::Repair { i, id, dist, owed, hp, score } => {
            let p = choose|patch: Option<usize>| #[trigger]
                first_least(w.ents, minable(), score, far, patch) && a == w.repaired(
                    i,
                    fix_of(w, i, id),
                    dist,
                    owed,
                    hp,
                    patch,
                );
            let q = choose|patch: Option<usize>| #[trigger]
                first_least(v.ents, minable(), score, far, patch) && b == v.repaired(
                    i,
                    fix_of(v, i, id),
                    dist,
                    owed,
                    hp,
                    patch,
                );
            lemma_same_least(w.ents, v.ents, score, far, p, q);
            repairs_do_not_tell_who_watches(w, v, i, id, dist, owed, hp, p);
        },
        Step::Raise { i, kind, place, dist, hp, rally, score } => {
            assert(same_ent(w.ents[i], v.ents[i]));
            if dist.at_most(Num::whole(site_reach(kind, w.ents[i].kind))) {
                let p = choose|patch: Option<usize>| #[trigger]
                    first_least(w.ents, minable(), score, far, patch) && a == w.raised(
                        i,
                        kind,
                        place,
                        hp,
                        rally,
                        patch,
                    );
                let q = choose|patch: Option<usize>| #[trigger]
                    first_least(v.ents, minable(), score, far, patch) && b == v.raised(
                        i,
                        kind,
                        place,
                        hp,
                        rally,
                        patch,
                    );
                lemma_same_least(w.ents, v.ents, score, far, p, q);
                raising_does_not_tell_who_watches(w, v, i, kind, place, hp, rally, p);
            } else {
                lemma_same_with(w, v, i, a.ents[i], b.ents[i]);
            }
        },
        _ => {},
    }
}

/// A step does the same whoever watches.
pub proof fn steps_do_not_tell_who_watches(w: WorldV, v: WorldV, s: Step, a: WorldV, b: WorldV)
    requires
        same_match(w, v),
        w.ents.len() <= usize::MAX,
        s is Judge ==> w.versus,
        steps_to(w, s, a),
        steps_to(v, s, b),
    ensures
        same_match(a, b),
        world_words(a) == world_words(b),
{
    match s {
        Step::Obey { team, cmd, ground } => {
            commands_do_not_tell_who_watches(w, v, team, cmd, ground, a, b);
        },
        Step::Begin { time } => {
            let x = choose|warn: Num| a == #[trigger] w.ticked(time, warn);
            let y = choose|warn: Num| b == #[trigger] v.ticked(time, warn);
            ticks_do_not_tell_who_watches(w, v, time, x, y);
        },
        Step::Draw => {},
        Step::Worker { bases } => lemma_workers(w, v, bases),
        Step::Arm { ai, census, or_pyros, or_raiders } => lemma_armed(w, v, ai, census, or_pyros, or_raiders),
        Step::Grant { me, scout, kind, cliffs, site } => {
            if let Some(x) = site {
                lemma_granted(w, v, me, scout, kind, cliffs, x);
            }
        },
        Step::March { army, scout, dests } => lemma_marched(w, v, army, scout, dests),
        Step::Rally { slots, at } => lemma_rallied(w, v, slots, at),
        Step::Produce { i, shift } => lemma_produced(w, v, i, shift, a, b),
        Step::One { i, f } => {
            assert(same_ent(w.ents[i], v.ents[i]));
            lemma_same_with(w, v, i, f(w.ents[i]), f(v.ents[i]));
        },
        Step::Engage { i, j, dist, downhill, headings } => {
            assert(same_ent(w.ents[i], v.ents[i]));
            assert(same_ent(w.ents[j], v.ents[j]));
            let c = action_of(w.ents[i], w.ents[j].kind, dist, downhill);
            let p = w.ents[j].pos;
            lemma_same_with(w, v, i, acted(w.ents[i], c, p, headings), acted(v.ents[i], c, p, headings));
        },
        Step::Mine { i, patch, score, home, h, dist, timer, aim } => {
            mining_does_not_tell_who_watches(w, v, i, patch, score, home, h, dist, timer, aim);
        },
        Step::Hit { i, hp } => damage_does_not_tell_who_watches(w, v, i, hp),
        Step::Clear => death_does_not_tell_who_watches(w, v),
        Step::Fade { flashes } => {
            let (p, n) = choose|pings: Seq<Num>, notes: Seq<Num>| a == #[trigger] w.faded(pings, notes, flashes);
            let (q, m) = choose|pings: Seq<Num>, notes: Seq<Num>| b == #[trigger] v.faded(pings, notes, flashes);
            fading_does_not_tell_who_watches(w, v, p, q, n, m, flashes);
        },
        Step::Judge => the_end_does_not_tell_who_watches(w, v),
        Step::Show => lemma_shown(w, v, a, b),
        _ => lemma_work(w, v, s, a, b),
    }
    fingerprints_do_not_tell_who_watches(a, b);
}

proof fn lemma_shown(w: WorldV, v: WorldV, a: WorldV, b: WorldV)
    requires
        same_match(w, v),
        same_match(w, a),
        same_match(v, b),
    ensures
        same_match(a, b),
{
    assert forall|j: int| 0 <= j < a.ents.len() implies same_ent(#[trigger] a.ents[j], b.ents[j]) by {
        assert(same_ent(w.ents[j], v.ents[j]));
        assert(same_ent(w.ents[j], a.ents[j]));
        assert(same_ent(v.ents[j], b.ents[j]));
    }
}

/// The passes of a tick are the same whoever watches.
pub proof fn passes_do_not_tell_who_watches(w: WorldV, v: WorldV, rot: int)
    requires
        same_match(w, v),
    ensures
        w.passes(rot) == v.passes(rot),
{
    lemma_same_thinkers(w, v, rot, w.factions as int);
}

proof fn lemma_same_thinkers(w: WorldV, v: WorldV, rot: int, n: int)
    requires
        same_match(w, v),
    ensures
        w.thinkers(rot, n) == v.thinkers(rot, n),
    decreases n,
{
    if n > 0 {
        lemma_same_thinkers(w, v, rot, n - 1);
    }
}

/// Whoever watches, a whole run of a networked match is the same: two peers that start from
/// one match and go through the same steps, however many ticks of them, have the same match
/// at every step, and the same fingerprint of it, whoever each of them watches for.
pub proof fn runs_do_not_tell_who_watches(mine: Seq<WorldV>, theirs: Seq<WorldV>, steps: Seq<Step>, k: int)
    requires
        goes(mine, steps),
        goes(theirs, steps),
        same_match(mine[0], theirs[0]),
        forall|j: int| 0 <= j < mine.len() ==> (#[trigger] mine[j]).ents.len() <= usize::MAX && mine[j].versus,
        0 <= k <= steps.len(),
    ensures
        same_match(mine[k], theirs[k]),
        world_words(mine[k]) == world_words(theirs[k]),
    decreases k,
{
    if k == 0 {
        fingerprints_do_not_tell_who_watches(mine[0], theirs[0]);
    } else {
        runs_do_not_tell_who_watches(mine, theirs, steps, k - 1);
        assert(steps_to(mine[k - 1], steps[k - 1], mine[k - 1 + 1]));
        assert(steps_to(theirs[k - 1], steps[k - 1], theirs[k - 1 + 1]));
        assert(mine[k - 1].versus);
        steps_do_not_tell_who_watches(mine[k - 1], theirs[k - 1], steps[k - 1], mine[k], theirs[k]);
    }
}

/// After the computers have thought, a running tick produces, lets everyone decide, deals the
/// damage of all of it at once, finds out what is in the way, moves, clears away the dead, fades,
/// looks round, and only then judges.
pub proof fn passes_come_in_order(w: WorldV, rot: int)
    requires
        !w.match_over,
    ensures
        ({
            let p = w.passes(rot);
            let n = p.len() - 10;
            &&& n >= 0
            &&& p[n] == Pass::Produce && p[n + 1] == Pass::Decide && p[n + 2] == Pass::Damage && p[n + 3]
                == Pass::Block && p[n + 4] == Pass::Move && p[n + 5] == Pass::Clear && p[n + 6] == Pass::Fade && p[n
                + 7] == Pass::Effects && p[n + 8] == Pass::Fog && p[n + 9] == Pass::Judge
        }),
{
}

/// The computers take turns at who thinks first: with one more tick everyone has moved up by
/// one.
pub proof fn turns_move_up(w: WorldV, rot: int, n: int)
    requires
        n > 0,
    ensures
        ({
            let f = (n - 1 + rot) % (w.factions as int);
            w.thinkers(rot, n) == (if w.is_ai[f] {
                w.thinkers(rot, n - 1).push(Pass::Think(Team::from_idx(f as usize)))
            } else {
                w.thinkers(rot, n - 1)
            })
        }),
        w.thinkers(rot, 0).len() == 0,
{
}

} // verus!
