//! How a unit keeps to its way: when it looks for a path, which waypoints it has passed,
//! what it steers for, and how a faction's first people are put on the map.

use vstd::prelude::*;
use crate::kind::{is_building, is_mover, radius, Kind, Team};
use crate::num::{within_is_within, Num, V2};
use crate::path::{Grid, T_CLIFF};
use crate::world::{fielded, Ent, EntV, World, WorldV, MAX_ENTS};

verus! {

/// How long a path is kept before it is looked for anew: 0.4 seconds.
pub const REPATH_BITS: u32 = 0x3ECC_CCCD;

/// A waypoint closer than this has been passed: half a tile.
pub const PASSED: u32 = 30;

/// A goal this close is walked to directly, unless a cliff is in the way: a tile and a
/// half.
pub const HOP: u32 = 90;

/// Whether an entity stands in the way of paths: a building that is up or going up, or a
/// patch that is not mined out.
pub open spec fn bars_the_way(e: EntV) -> bool {
    is_building(e.kind) && e.hp.positive() || e.kind == Kind::Mineral && e.minerals > 0
}

impl Ent {
    /// Whether this entity stands in the way of paths.
    pub fn blocks(&self) -> (r: bool)
        ensures
            r == bars_the_way(self@),
    {
        is_building(self.kind) && self.hp.positive() || self.kind == Kind::Mineral && self.minerals > 0
    }
}

/// Whether the straight line to a goal at distance `dist` is no way to go, by the tiles that
/// it crosses. A short hop goes through whatever stands there, but never through a cliff.
pub open spec fn detour_needed(g: Grid, dist: Num, samples: Seq<(i32, i32)>) -> bool {
    exists|i: int|
        0 <= i < samples.len() && if dist.at_most(Num::whole(HOP)) {
            g.tile((#[trigger] samples[i]).0 as int, samples[i].1 as int) == T_CLIFF
        } else {
            !g@.passable(samples[i].0 as int, samples[i].1 as int)
        }
}

/// Whether the straight line to a goal is no way to go.
pub fn needs_path(g: &Grid, dist: Num, samples: &Vec<(i32, i32)>) -> (r: bool)
    requires
        g.wf(),
    ensures
        r == detour_needed(*g, dist, samples@),
{
    if dist.at_most(Num::whole(HOP)) {
        g.line_blocked_cliff(samples)
    } else {
        g.line_blocked(samples)
    }
}

/// A unit whose clock for the next path has run down to `left`.
pub open spec fn waited(e: EntV, left: Num) -> EntV {
    EntV {
        repath: if left.at_most(Num { bits: 0 }) {
            Num { bits: REPATH_BITS }
        } else {
            left
        },
        ..e
    }
}

/// A unit with another path.
pub open spec fn led(e: EntV, path: Seq<V2>) -> EntV {
    EntV { path, ..e }
}

/// A unit in another place, looking the way it went, if it went anywhere.
pub open spec fn placed(e: EntV, pos: V2, facing: Option<V2>) -> EntV {
    EntV {
        pos,
        facing: match facing {
            Some(f) => f,
            None => e.facing,
        },
        ..e
    }
}

/// A walker in another place, or as near to it as it is wholly on the map.
pub open spec fn kept(e: EntV, pos: V2, far: V2) -> EntV {
    let r = Num::whole(radius(e.kind));
    if is_mover(e.kind) {
        placed(e, V2 { x: pos.x.within(r, far.x), y: pos.y.within(r, far.y) }, None)
    } else {
        e
    }
}

/// How many waypoints at the head of a path have been passed, by their distances.
pub open spec fn passed(d: Seq<Num>) -> int
    decreases d.len(),
{
    if d.len() == 0 || !d[0].less(Num::whole(PASSED)) {
        0
    } else {
        1 + passed(d.drop_first())
    }
}

proof fn lemma_passed(d: Seq<Num>, k: int)
    requires
        0 <= k <= d.len(),
        forall|j: int| 0 <= j < k ==> (#[trigger] d[j]).less(Num::whole(PASSED)),
        k < d.len() ==> !d[k].less(Num::whole(PASSED)),
    ensures
        passed(d) == k,
    decreases d.len(),
{
    if k > 0 {
        assert(d[0].less(Num::whole(PASSED)));
        let t = d.drop_first();
        assert forall|j: int| 0 <= j < k - 1 implies (#[trigger] t[j]).less(Num::whole(PASSED)) by {
            assert(t[j] == d[j + 1]);
        }
        lemma_passed(t, k - 1);
    }
}

impl World {
    /// Counts down to the next search for a path; `left` is what the tick leaves of the
    /// clock. Says whether it is time.
    pub fn due_for_path(&mut self, i: usize, left: Num) -> (due: bool)
        requires
            old(self).wf(),
            i < old(self)@.ents.len(),
        ensures
            final(self).wf(),
            due == left.at_most(Num { bits: 0 }),
            final(self)@ == old(self)@.with(i as int, waited(old(self)@.ents[i as int], left)),
    {
        let ghost v = self@;
        let ghost e = v.ents[i as int];
        assert(e == self.ents@[i as int]@);
        let due: bool = left.at_most(Num { bits: 0 });
        let next: Num = if due {
            Num { bits: REPATH_BITS }
        } else {
            left
        };
        self.ents[i].repath = next;
        proof {
            assert(self.ents@[i as int]@ =~= EntV { repath: next, ..e });
            assert(self@.ents =~= v.ents.update(i as int, EntV { repath: next, ..e }));
        }
        due
    }

    /// Gives a unit a path; none if it goes straight.
    pub fn set_path(&mut self, i: usize, path: Vec<V2>)
        requires
            old(self).wf(),
            i < old(self)@.ents.len(),
        ensures
            final(self).wf(),
            final(self)@ == old(self)@.with(i as int, led(old(self)@.ents[i as int], path@)),
    {
        let ghost v = self@;
        let ghost e = v.ents[i as int];
        let ghost p = path@;
        assert(e == self.ents@[i as int]@);
        self.ents[i].path = path;
        proof {
            assert(self.ents@[i as int]@ =~= EntV { path: p, ..e });
            assert(self@.ents =~= v.ents.update(i as int, EntV { path: p, ..e }));
        }
    }

    /// Drops the waypoints that a unit has passed, by the distances `d` of all of them, and
    /// returns what it steers for: the next waypoint, or else its goal.
    pub fn follow(&mut self, i: usize, d: &Vec<Num>) -> (steer: Option<V2>)
        requires
            old(self).wf(),
            i < old(self)@.ents.len(),
            d@.len() == old(self)@.ents[i as int].path.len(),
        ensures
            final(self).wf(),
            0 <= passed(d@) <= d@.len(),
            final(self)@ == old(self)@.with(
                i as int,
                led(old(self)@.ents[i as int], old(self)@.ents[i as int].path.skip(passed(d@))),
            ),
            steer == (if passed(d@) < d@.len() {
                Some(old(self)@.ents[i as int].path[passed(d@)])
            } else {
                old(self)@.ents[i as int].goal
            }),
    {
        let ghost v = self@;
        let ghost e = v.ents[i as int];
        assert(e == self.ents@[i as int]@);
        let n: usize = d.len();
        let mut k: usize = 0;
        while k < n && d[k].less(Num::whole(PASSED))
            invariant
                n == d@.len(),
                k <= n,
                forall|j: int| 0 <= j < k ==> (#[trigger] d@[j]).less(Num::whole(PASSED)),
            decreases n - k,
        {
            k = k + 1;
        }
        proof {
            lemma_passed(d@, k as int);
        }
        let mut rest: Vec<V2> = Vec::new();
        let mut j: usize = k;
        while j < n
            invariant
                i < self.ents@.len(),
                self@ == v,
                self.wf(),
                e == self.ents@[i as int]@,
                n == e.path.len(),
                k <= j <= n,
                rest@ == e.path.subrange(k as int, j as int),
            decreases n - j,
        {
            rest.push(self.ents[i].path[j]);
            assert(rest@ =~= e.path.subrange(k as int, j + 1));
            j = j + 1;
        }
        assert(rest@ =~= e.path.skip(k as int));
        let steer: Option<V2> = if k < n {
            Some(rest[0])
        } else {
            self.ents[i].goal
        };
        self.set_path(i, rest);
        steer
    }

    /// Moves a unit to a place; it looks the way it went, if it went anywhere.
    pub fn moved_to(&mut self, i: usize, pos: V2, facing: Option<V2>)
        requires
            old(self).wf(),
            i < old(self)@.ents.len(),
        ensures
            final(self).wf(),
            final(self)@ == old(self)@.with(i as int, placed(old(self)@.ents[i as int], pos, facing)),
    {
        let ghost v = self@;
        let ghost e = v.ents[i as int];
        assert(e == self.ents@[i as int]@);
        let look: V2 = match facing {
            Some(f) => f,
            None => self.ents[i].facing,
        };
        self.ents[i].pos = pos;
        self.ents[i].facing = look;
        proof {
            let e2 = EntV { pos, facing: look, ..e };
            assert(self.ents@[i as int]@ =~= e2);
            assert(self@.ents =~= v.ents.update(i as int, e2));
        }
    }

    /// Moves a unit to a place, or to the nearest one that has all of the unit on the map;
    /// `far` is the last place that does. What does not walk stays where it is.
    pub fn keep_on_map(&mut self, i: usize, pos: V2, far: V2)
        requires
            old(self).wf(),
            i < old(self)@.ents.len(),
            Num::whole(radius(old(self)@.ents[i as int].kind)).at_most(far.x),
            Num::whole(radius(old(self)@.ents[i as int].kind)).at_most(far.y),
        ensures
            final(self).wf(),
            final(self)@ == old(self)@.with(i as int, kept(old(self)@.ents[i as int], pos, far)),
    {
        let ghost v = self@;
        let ghost e = v.ents[i as int];
        assert(e == self.ents@[i as int]@);
        if is_mover(self.ents[i].kind) {
            let r: Num = Num::whole(radius(self.ents[i].kind));
            self.moved_to(i, V2 { x: pos.x.within(r, far.x), y: pos.y.within(r, far.y) }, None);
        } else {
            assert(self@ =~= v.with(i as int, kept(e, pos, far)));
        }
    }
}

/// Whether motion alone tells two states of an entity apart: its place, where it looks, its
/// path and the clock for the next one.
pub open spec fn same_but_for_motion(a: EntV, b: EntV) -> bool {
    b == (EntV { pos: b.pos, facing: b.facing, path: b.path, repath: b.repath, ..a })
}

/// Moving changes nothing but motion: every step of it leaves a unit's orders, its health,
/// its side and its goal alone.
pub proof fn motion_is_only_motion(e: EntV, left: Num, path: Seq<V2>, pos: V2, facing: Option<V2>, far: V2)
    ensures
        same_but_for_motion(e, waited(e, left)),
        same_but_for_motion(e, led(e, path)),
        same_but_for_motion(e, placed(e, pos, facing)),
        same_but_for_motion(e, kept(e, pos, far)),
        !is_mover(e.kind) ==> kept(e, pos, far) == e,
{
}

/// What one unit does as it moves concerns nobody else: no entity comes or goes, all others
/// stay as they are, and so do the banks, the clock and the draws.
pub proof fn motion_concerns_one(w: WorldV, i: int, e: EntV)
    requires
        0 <= i < w.ents.len(),
        same_but_for_motion(w.ents[i], e),
    ensures
        ({
            let v = w.with(i, e);
            &&& v.ents.len() == w.ents.len()
            &&& v == WorldV { ents: v.ents, ..w }
            &&& forall|j: int| 0 <= j < w.ents.len() && j != i ==> #[trigger] v.ents[j] == w.ents[j]
            &&& same_but_for_motion(w.ents[i], v.ents[i])
        }),
{
}

/// Walkers stay on the map, all of them: from one radius off either edge to one radius off
/// the other.
pub proof fn walkers_stay_on_the_map(e: EntV, pos: V2, far: V2)
    requires
        is_mover(e.kind),
        !pos.x.is_nan(),
        !pos.y.is_nan(),
        Num::whole(radius(e.kind)).at_most(far.x),
        Num::whole(radius(e.kind)).at_most(far.y),
    ensures
        Num::whole(radius(e.kind)).at_most(kept(e, pos, far).pos.x),
        kept(e, pos, far).pos.x.at_most(far.x),
        Num::whole(radius(e.kind)).at_most(kept(e, pos, far).pos.y),
        kept(e, pos, far).pos.y.at_most(far.y),
{
    within_is_within(pos.x, Num::whole(radius(e.kind)), far.x);
    within_is_within(pos.y, Num::whole(radius(e.kind)), far.y);
}

/// One step of the motion of a tick: the clock for the next path, a path given or followed,
/// a walk, or the push that ends in a place on the map.
pub enum Stride {
    Wait { i: int, left: Num },
    Lead { i: int, path: Seq<V2> },
    Walk { i: int, pos: V2, facing: Option<V2> },
    Keep { i: int, pos: V2, far: V2 },
}

impl Stride {
    /// Whose step it is.
    pub open spec fn who(self) -> int {
        match self {
            Stride::Wait { i, .. } => i,
            Stride::Lead { i, .. } => i,
            Stride::Walk { i, .. } => i,
            Stride::Keep { i, .. } => i,
        }
    }

    /// What the step makes of its entity.
    pub open spec fn of(self, e: EntV) -> EntV {
        match self {
            Stride::Wait { left, .. } => waited(e, left),
            Stride::Lead { path, .. } => led(e, path),
            Stride::Walk { pos, facing, .. } => placed(e, pos, facing),
            Stride::Keep { pos, far, .. } => kept(e, pos, far),
        }
    }

    /// Whether the step puts its entity on the map whose last places, by kind, are `edges`.
    pub open spec fn confines(self, k: Kind, edges: spec_fn(Kind) -> V2) -> bool {
        match self {
            Stride::Keep { pos, far, .. } => far == edges(k) && !pos.x.is_nan() && !pos.y.is_nan()
                && Num::whole(radius(k)).at_most(far.x) && Num::whole(radius(k)).at_most(far.y),
            _ => false,
        }
    }
}

/// Whether an entity is wholly on the map whose last places, by kind, are `edges`.
pub open spec fn on_map(e: EntV, edges: spec_fn(Kind) -> V2) -> bool {
    let r = Num::whole(radius(e.kind));
    &&& r.at_most(e.pos.x)
    &&& e.pos.x.at_most(edges(e.kind).x)
    &&& r.at_most(e.pos.y)
    &&& e.pos.y.at_most(edges(e.kind).y)
}

/// The match after some steps.
pub open spec fn strode(w: WorldV, steps: Seq<Stride>) -> WorldV
    decreases steps.len(),
{
    if steps.len() == 0 {
        w
    } else {
        let v = strode(w, steps.drop_last());
        let s = steps.last();
        v.with(s.who(), s.of(v.ents[s.who()]))
    }
}

/// Whether all steps are those of walkers.
pub open spec fn walkers_only(w: WorldV, steps: Seq<Stride>) -> bool {
    forall|k: int|
        0 <= k < steps.len() ==> 0 <= (#[trigger] steps[k]).who() < w.ents.len() && is_mover(
            w.ents[steps[k].who()].kind,
        )
}

/// However many steps walkers take: nobody comes or goes, nothing but motion changes on
/// anyone, what does not walk stays exactly as it is, and so do the banks, the clock and the
/// draws.
pub proof fn a_pass_is_only_motion(w: WorldV, steps: Seq<Stride>)
    requires
        walkers_only(w, steps),
    ensures
        ({
            let v = strode(w, steps);
            &&& v.ents.len() == w.ents.len()
            &&& v == WorldV { ents: v.ents, ..w }
            &&& forall|j: int| 0 <= j < w.ents.len() ==> same_but_for_motion(#[trigger] w.ents[j], v.ents[j])
            &&& forall|j: int|
                0 <= j < w.ents.len() && !is_mover((#[trigger] w.ents[j]).kind) ==> v.ents[j] == w.ents[j]
        }),
    decreases steps.len(),
{
    if steps.len() > 0 {
        let before = steps.drop_last();
        assert forall|k: int| 0 <= k < before.len() implies 0 <= (#[trigger] before[k]).who() < w.ents.len()
            && is_mover(w.ents[before[k].who()].kind) by {
            assert(before[k] == steps[k]);
        }
        a_pass_is_only_motion(w, before);
        let u = strode(w, before);
        let s = steps.last();
        assert(s == steps[steps.len() - 1]);
        let v = strode(w, steps);
        assert forall|j: int| 0 <= j < w.ents.len() implies same_but_for_motion(#[trigger] w.ents[j], v.ents[j]) by {
            assert(same_but_for_motion(w.ents[j], u.ents[j]));
        }
        assert forall|j: int| 0 <= j < w.ents.len() && !is_mover((#[trigger] w.ents[j]).kind) implies v.ents[j]
            == w.ents[j] by {
            assert(u.ents[j] == w.ents[j]);
        }
    }
}

/// A walker whose last step puts it on the map is on the map after all steps, whatever it and
/// the others did before.
pub proof fn a_pass_ends_on_the_map(w: WorldV, steps: Seq<Stride>, k: int, edges: spec_fn(Kind) -> V2)
    requires
        walkers_only(w, steps),
        0 <= k < steps.len(),
        steps[k].confines(w.ents[steps[k].who()].kind, edges),
        forall|j: int| k < j < steps.len() ==> (#[trigger] steps[j]).who() != steps[k].who(),
    ensures
        on_map(strode(w, steps).ents[steps[k].who()], edges),
    decreases steps.len(),
{
    let before = steps.drop_last();
    let i = steps[k].who();
    assert forall|j: int| 0 <= j < before.len() implies 0 <= (#[trigger] before[j]).who() < w.ents.len()
        && is_mover(w.ents[before[j].who()].kind) by {
        assert(before[j] == steps[j]);
    }
    a_pass_is_only_motion(w, before);
    let u = strode(w, before);
    assert(same_but_for_motion(w.ents[i], u.ents[i]));
    if k == steps.len() - 1 {
        if let Stride::Keep { pos, far, .. } = steps[k] {
            walkers_stay_on_the_map(u.ents[i], pos, far);
        }
    } else {
        assert(before[k] == steps[k]);
        assert forall|j: int| k < j < before.len() implies (#[trigger] before[j]).who() != before[k].who() by {
            assert(before[j] == steps[j]);
        }
        a_pass_ends_on_the_map(w, before, k, edges);
        assert(steps[steps.len() - 1].who() != i);
        assert(0 <= steps[steps.len() - 1].who() < w.ents.len());
    }
}

/// A path only ever gets shorter as it is followed, and what is steered for lies ahead on
/// it.
pub proof fn following_makes_progress(path: Seq<V2>, d: Seq<Num>)
    requires
        d.len() == path.len(),
    ensures
        0 <= passed(d) <= path.len(),
        path.skip(passed(d)).len() <= path.len(),
        passed(d) < path.len() ==> path.skip(passed(d))[0] == path[passed(d)] && !d[passed(d)].less(
            Num::whole(PASSED),
        ),
    decreases d.len(),
{
    if d.len() > 0 && d[0].less(Num::whole(PASSED)) {
        following_makes_progress(path.drop_first(), d.drop_first());
        let k = passed(d.drop_first());
        if k < d.drop_first().len() {
            assert(d.drop_first()[k] == d[k + 1]);
        }
    }
}

impl WorldV {
    /// The match with units of a kind at some places, in order.
    pub open spec fn peopled(self, kind: Kind, team: Team, places: Seq<V2>) -> WorldV
        decreases places.len(),
    {
        if places.len() == 0 {
            self
        } else {
            self.peopled(kind, team, places.drop_last()).spawned(kind, team, places.last())
        }
    }

    /// The match with a faction's base, its mineral line and its first workers.
    pub open spec fn set_up(self, team: Team, base: V2, rally: V2, line: Seq<V2>, hands: Seq<V2>) -> WorldV {
        let n = self.ents.len() as int;
        let a = self.spawned(Kind::Base, team, base);
        let b = a.with(n, EntV { rally, ..a.ents[n] });
        fielded(b, line).peopled(Kind::Worker, team, hands)
    }
}

impl World {
    /// Gives a building a rally point.
    pub(crate) fn set_rally_point(&mut self, i: usize, rally: V2)
        requires
            old(self).wf(),
            i < old(self)@.ents.len(),
        ensures
            final(self).wf(),
            final(self)@ == old(self)@.with(i as int, EntV { rally, ..old(self)@.ents[i as int] }),
            final(self).next_id == old(self).next_id,
    {
        let ghost v = self@;
        let ghost e = v.ents[i as int];
        assert(e == self.ents@[i as int]@);
        self.ents[i].rally = rally;
        proof {
            assert(self.ents@[i as int]@ =~= EntV { rally, ..e });
            assert(self@.ents =~= v.ents.update(i as int, EntV { rally, ..e }));
        }
    }

    /// Puts a faction on the map: its base, whose units gather at `rally`, its mineral line
    /// and its first workers, in this order.
    pub fn setup(&mut self, team: Team, base: V2, rally: V2, line: &Vec<V2>, hands: &Vec<V2>)
        requires
            old(self).wf(),
            old(self).ents@.len() + line@.len() + hands@.len() + 1 <= MAX_ENTS,
            old(self).next_id + line@.len() + hands@.len() + 1 <= u32::MAX,
        ensures
            final(self).wf(),
            final(self)@ == old(self)@.set_up(team, base, rally, line@, hands@),
    {
        let slot: usize = self.spawn(Kind::Base, team, base);
        self.set_rally_point(slot, rally);
        let ghost w1 = self@;
        proof {
            lemma_fielded_size(w1, line@);
        }
        self.mineral_field(line);
        let ghost w2 = self@;
        let n: usize = hands.len();
        assert(hands@.take(0) =~= Seq::<V2>::empty());
        for k in 0..n
            invariant
                n == hands@.len(),
                self.wf(),
                w2 == fielded(w1, line@),
                w1.ents.len() == old(self).ents@.len() + 1,
                w1.next_id == old(self).next_id + 1,
                w2.ents.len() == w1.ents.len() + line@.len(),
                w2.next_id == w1.next_id + line@.len(),
                self.ents@.len() == w2.ents.len() + k,
                self.next_id == w2.next_id + k,
                old(self).ents@.len() + line@.len() + n + 1 <= MAX_ENTS,
                old(self).next_id + line@.len() + n + 1 <= u32::MAX,
                self@ == w2.peopled(Kind::Worker, team, hands@.take(k as int)),
        {
            let s: usize = self.spawn(Kind::Worker, team, hands[k]);
            proof {
                assert(hands@.take(k + 1).drop_last() =~= hands@.take(k as int));
                assert(hands@.take(k + 1).last() == hands@[k as int]);
            }
        }
        assert(hands@.take(n as int) =~= hands@);
    }
}

pub proof fn lemma_fielded_size(w: WorldV, places: Seq<V2>)
    requires
        w.next_id + places.len() <= u32::MAX,
    ensures
        fielded(w, places).ents.len() == w.ents.len() + places.len(),
        fielded(w, places).next_id == w.next_id + places.len(),
    decreases places.len(),
{
    if places.len() > 0 {
        lemma_fielded_size(w, places.drop_last());
    }
}

/// A waypoint is passed once it is nearer than half a tile, and every one before it too; the
/// one that is steered for is not, nor is any waypoint skipped that was not reached.
pub proof fn only_reached_waypoints_are_dropped(d: Seq<Num>, j: int)
    requires
        0 <= j < passed(d),
    ensures
        j < d.len(),
        d[j].less(Num::whole(30)),
    decreases d.len(),
{
    if j > 0 {
        only_reached_waypoints_are_dropped(d.drop_first(), j - 1);
        assert(d.drop_first()[j - 1] == d[j]);
    }
}

/// The waypoint that is steered for has yet to be reached.
pub proof fn the_next_waypoint_is_ahead(d: Seq<Num>)
    ensures
        0 <= passed(d) <= d.len(),
        passed(d) < d.len() ==> !d[passed(d)].less(Num::whole(30)),
        d.len() > 0 && d[0].less(Num::whole(30)) ==> passed(d) > 0,
    decreases d.len(),
{
    if d.len() > 0 && d[0].less(Num::whole(30)) {
        the_next_waypoint_is_ahead(d.drop_first());
        let k = passed(d.drop_first());
        if k < d.drop_first().len() {
            assert(d.drop_first()[k] == d[k + 1]);
        }
    }
}

/// A path is looked for when the clock has run out, and the clock then starts anew; a walk ends
/// where it ends; and a walker is kept at its place, if that is on the map.
pub proof fn steps_lead_where_they_should(e: EntV, left: Num, path: Seq<V2>, pos: V2, facing: Option<V2>, far: V2)
    ensures
        left.at_most(Num { bits: 0 }) ==> waited(e, left).repath == (Num { bits: 0x3ECC_CCCD }),
        !left.at_most(Num { bits: 0 }) ==> waited(e, left).repath == left,
        led(e, path).path == path,
        placed(e, pos, facing).pos == pos,
        placed(e, pos, facing).facing == (match facing {
            Some(f) => f,
            None => e.facing,
        }),
        ({
            let r = Num::whole(radius(e.kind));
            is_mover(e.kind) && r.at_most(pos.x) && pos.x.at_most(far.x) && r.at_most(pos.y) && pos.y.at_most(far.y)
                ==> kept(e, pos, far).pos == pos
        }),
{
    let r = Num::whole(radius(e.kind));
    if is_mover(e.kind) && r.at_most(pos.x) && pos.x.at_most(far.x) && r.at_most(pos.y) && pos.y.at_most(far.y) {
        within_is_within(pos.x, r, far.x);
        within_is_within(pos.y, r, far.y);
    }
}

/// What stands in the way: a building that is up or going up, and a patch with something left;
/// never a unit, nor what is dead or mined out.
pub proof fn buildings_and_patches_are_in_the_way(e: EntV)
    ensures
        bars_the_way(e) <==> ((e.kind == Kind::Base || e.kind == Kind::Barracks || e.kind == Kind::Factory || e.kind
            == Kind::Depot) && e.hp.positive()) || (e.kind == Kind::Mineral && e.minerals > 0),
{
}

/// A straight line will do unless something on it is in the way: over a tile and a half at most
/// only a cliff, and farther anything that cannot be walked on.
pub proof fn straight_lines_will_do_when_free(g: Grid, dist: Num, samples: Seq<(i32, i32)>)
    ensures
        dist.at_most(Num::whole(90)) ==> (detour_needed(g, dist, samples) <==> exists|i: int|
            0 <= i < samples.len() && g.tile((#[trigger] samples[i]).0 as int, samples[i].1 as int) == T_CLIFF),
        !dist.at_most(Num::whole(90)) ==> (detour_needed(g, dist, samples) <==> exists|i: int|
            0 <= i < samples.len() && !g@.passable((#[trigger] samples[i]).0 as int, samples[i].1 as int)),
{
}

} // verus!
