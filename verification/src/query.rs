//! Who is nearest: scans over the entities for the closest enemy, patch, base or body
//! under a click. The squared distances are handed in, one for each entity.

use vstd::prelude::*;
use crate::kind::{radius, tie_key, Kind, Team};
use crate::num::Num;
use crate::world::{ents_view, Ent, EntV, Order, World};

verus! {

/// The largest finite number.
pub const FAR_BITS: u32 = 0x7F7F_FFFF;

/// Whether `r` is the first entity, of those that satisfy a condition, with the least
/// distance below a bound.
pub open spec fn first_least(
    ents: Seq<EntV>,
    ok: spec_fn(EntV) -> bool,
    d: Seq<Num>,
    bound: Num,
    r: Option<usize>,
) -> bool {
    match r {
        Some(i) => {
            &&& 0 <= i < ents.len()
            &&& ok(ents[i as int])
            &&& d[i as int].less(bound)
            &&& forall|j: int|
                0 <= j < ents.len() && ok(#[trigger] ents[j]) && d[j].less(bound) ==> {
                    &&& !d[j].less(d[i as int])
                    &&& j < i ==> d[i as int].less(d[j])
                }
        },
        None => forall|j: int|
            0 <= j < ents.len() && ok(#[trigger] ents[j]) ==> !d[j].less(bound),
    }
}

/// Only one entity is the first with the least distance.
pub proof fn first_least_is_unique(
    ents: Seq<EntV>,
    ok: spec_fn(EntV) -> bool,
    d: Seq<Num>,
    bound: Num,
    r: Option<usize>,
    s: Option<usize>,
)
    requires
        first_least(ents, ok, d, bound, r),
        first_least(ents, ok, d, bound, s),
    ensures
        r == s,
{
    if r is Some && s is Some {
        assert(ok(ents[r->0 as int]));
        assert(ok(ents[s->0 as int]));
    } else if r is Some {
        assert(ok(ents[r->0 as int]));
    } else if s is Some {
        assert(ok(ents[s->0 as int]));
    }
}

/// The first entity, of those marked, with the least distance below a bound.
fn scan(ents: &Vec<Ent>, marked: &Vec<bool>, d: &Vec<Num>, bound: Num, ok: Ghost<spec_fn(EntV) -> bool>) -> (r: Option<usize>)
    requires
        marked@.len() == ents@.len(),
        d@.len() == ents@.len(),
        forall|i: int| 0 <= i < ents@.len() ==> marked@[i] == (ok@)(#[trigger] ents_view(ents@)[i]),
    ensures
        first_least(ents_view(ents@), ok@, d@, bound, r),
{
    let ghost ev = ents_view(ents@);
    let mut best: Option<usize> = None;
    let mut bd: Num = bound;
    let n: usize = ents.len();
    for i in 0..n
        invariant
            n == ents@.len(),
            ev == ents_view(ents@),
            marked@.len() == n,
            d@.len() == n,
            forall|i: int| 0 <= i < n ==> marked@[i] == (ok@)(#[trigger] ev[i]),
            match best {
                Some(b) => {
                    &&& b < i
                    &&& (ok@)(ev[b as int])
                    &&& bd == d@[b as int]
                    &&& bd.less(bound)
                    &&& forall|j: int|
                        0 <= j < i && (ok@)(#[trigger] ev[j]) && d@[j].less(bound) ==> {
                            &&& !d@[j].less(bd)
                            &&& j < b ==> bd.less(d@[j])
                        }
                },
                None => bd == bound && forall|j: int|
                    0 <= j < i && (ok@)(#[trigger] ev[j]) ==> !d@[j].less(bound),
            },
    {
        assert(marked@[i as int] == (ok@)(ev[i as int]));
        if marked[i] && d[i].less(bd) {
            bd = d[i];
            best = Some(i);
        }
    }
    best
}

/// All entities.
pub open spec fn anything() -> spec_fn(EntV) -> bool {
    |e: EntV| true
}

/// Which entities can be mined.
pub open spec fn minable() -> spec_fn(EntV) -> bool {
    |e: EntV| e.kind == Kind::Mineral && e.minerals != 0
}

/// Which entities are a team's bases.
pub open spec fn base_of(t: Team) -> spec_fn(EntV) -> bool {
    |e: EntV| e.kind == Kind::Base && e.team == t
}

/// Which entities a team can shoot at.
pub open spec fn foe_of(t: Team) -> spec_fn(EntV) -> bool {
    |e: EntV| e.team != Team::Neutral && e.team != t && !e.hp.at_most(Num { bits: 0 })
}

/// Whether `r` is the foe nearest to a point, within a bound: the least distance, and of
/// several at that distance the least tie-break key.
pub open spec fn nearest_foe(ents: Seq<EntV>, t: Team, d: Seq<Num>, within: Num, r: Option<usize>) -> bool {
    match r {
        Some(i) => {
            &&& 0 <= i < ents.len()
            &&& foe_of(t)(ents[i as int])
            &&& d[i as int].at_most(within)
            &&& forall|j: int|
                0 <= j < ents.len() && foe_of(t)(#[trigger] ents[j]) && d[j].at_most(within)
                    ==> d[i as int].less(d[j]) || (d[i as int].same(d[j]) && tie_key(ents[i as int].id)
                    <= tie_key(ents[j].id))
        },
        None => forall|j: int|
            0 <= j < ents.len() && foe_of(t)(#[trigger] ents[j]) ==> !d[j].at_most(within),
    }
}

/// Squared reach of a click around a body.
pub open spec fn click_sq(k: Kind, slack: int) -> int {
    (radius(k) + slack) * (radius(k) + slack)
}

impl World {
    /// The patch nearest to a point, of those with something left.
    pub fn nearest_mineral(&self, d: &Vec<Num>) -> (r: Option<usize>)
        requires
            d@.len() == self.ents@.len(),
        ensures
            first_least(self@.ents, minable(), d@, Num { bits: FAR_BITS }, r),
    {
        let mut marked: Vec<bool> = Vec::new();
        let n: usize = self.ents.len();
        for i in 0..n
            invariant
                n == self.ents@.len(),
                marked@.len() == i,
                forall|j: int| 0 <= j < i ==> marked@[j] == minable()(#[trigger] self@.ents[j]),
        {
            assert(self@.ents[i as int] == self.ents@[i as int]@);
            marked.push(self.ents[i].kind == Kind::Mineral && self.ents[i].minerals != 0);
        }
        assert(self@.ents == ents_view(self.ents@));
        scan(&self.ents, &marked, d, Num { bits: FAR_BITS }, Ghost(minable()))
    }

    /// How many workers other than `exclude` are on their way to a patch.
    pub fn crowd(&self, patch: u32, exclude: u32) -> (r: u32)
        requires
            self.wf(),
        ensures
            r == crate::world::total(self@.ents, on_patch(patch, exclude)),
    {
        let ghost f = on_patch(patch, exclude);
        let mut sum: u32 = 0;
        let n: usize = self.ents.len();
        assert(self@.ents.take(0) =~= Seq::<EntV>::empty());
        for i in 0..n
            invariant
                self.wf(),
                n == self.ents@.len(),
                f == on_patch(patch, exclude),
                sum == crate::world::total(self@.ents.take(i as int), f),
                sum <= i,
        {
            proof {
                assert(self@.ents.take(i + 1).drop_last() =~= self@.ents.take(i as int));
                assert(self@.ents.take(i + 1).last() == self.ents@[i as int]@);
            }
            let e = &self.ents[i];
            if e.id != exclude && e.kind == Kind::Worker && e.order == Order::Gather(patch) {
                sum = sum + 1;
            }
        }
        assert(self@.ents.take(n as int) =~= self@.ents);
        sum
    }

    /// The patch a worker takes: the one with the least score, of those with something
    /// left. A score is the squared distance plus a penalty for the crowd on it.
    pub fn pick_patch(&self, score: &Vec<Num>) -> (r: Option<usize>)
        requires
            score@.len() == self.ents@.len(),
        ensures
            first_least(self@.ents, minable(), score@, Num { bits: FAR_BITS }, r),
    {
        self.nearest_mineral(score)
    }

    /// The base of a team nearest to a point.
    pub fn nearest_base(&self, team: Team, d: &Vec<Num>) -> (r: Option<usize>)
        requires
            d@.len() == self.ents@.len(),
        ensures
            first_least(self@.ents, base_of(team), d@, Num { bits: FAR_BITS }, r),
    {
        let mut marked: Vec<bool> = Vec::new();
        let n: usize = self.ents.len();
        for i in 0..n
            invariant
                n == self.ents@.len(),
                marked@.len() == i,
                forall|j: int| 0 <= j < i ==> marked@[j] == base_of(team)(#[trigger] self@.ents[j]),
        {
            assert(self@.ents[i as int] == self.ents@[i as int]@);
            marked.push(self.ents[i].kind == Kind::Base && self.ents[i].team == team);
        }
        assert(self@.ents == ents_view(self.ents@));
        scan(&self.ents, &marked, d, Num { bits: FAR_BITS }, Ghost(base_of(team)))
    }

    /// The nearest living foe of the local player within a radius of a point, so that an
    /// attack on the minimap need not be aimed exactly.
    pub fn snap_to_enemy(&self, d: &Vec<Num>, r_sq: Num) -> (r: Option<usize>)
        requires
            d@.len() == self.ents@.len(),
        ensures
            first_least(self@.ents, foe_of(self@.my_team), d@, r_sq, r),
    {
        let mut marked: Vec<bool> = Vec::new();
        let n: usize = self.ents.len();
        for i in 0..n
            invariant
                n == self.ents@.len(),
                marked@.len() == i,
                forall|j: int|
                    0 <= j < i ==> marked@[j] == foe_of(self@.my_team)(#[trigger] self@.ents[j]),
        {
            assert(self@.ents[i as int] == self.ents@[i as int]@);
            let e = &self.ents[i];
            marked.push(
                e.team != Team::Neutral && e.team != self.my_team && !e.hp.at_most(Num { bits: 0 }),
            );
        }
        assert(self@.ents == ents_view(self.ents@));
        scan(&self.ents, &marked, d, r_sq, Ghost(foe_of(self@.my_team)))
    }

    /// The foe nearest to a point, within a bound. Ties go by a key that no faction's
    /// place in the list favours.
    pub fn nearest_enemy(&self, team: Team, d: &Vec<Num>, within_sq: Num) -> (r: Option<usize>)
        requires
            d@.len() == self.ents@.len(),
        ensures
            nearest_foe(self@.ents, team, d@, within_sq, r),
    {
        let ghost ev = self@.ents;
        let mut best: Option<usize> = None;
        let mut bd: Num = within_sq;
        let mut bk: u64 = 0;
        let n: usize = self.ents.len();
        for i in 0..n
            invariant
                n == self.ents@.len(),
                ev == self@.ents,
                d@.len() == n,
                match best {
                    Some(b) => {
                        &&& b < i
                        &&& foe_of(team)(ev[b as int])
                        &&& bd == d@[b as int]
                        &&& bk == tie_key(ev[b as int].id)
                        &&& bd.at_most(within_sq)
                        &&& forall|j: int|
                            0 <= j < i && foe_of(team)(#[trigger] ev[j]) && d@[j].at_most(within_sq)
                                ==> bd.less(d@[j]) || (bd.same(d@[j]) && bk <= tie_key(ev[j].id))
                    },
                    None => bd == within_sq && forall|j: int|
                        0 <= j < i && foe_of(team)(#[trigger] ev[j]) ==> !d@[j].at_most(within_sq),
                },
        {
            assert(ev[i as int] == self.ents@[i as int]@);
            let e = &self.ents[i];
            if e.team != Team::Neutral && e.team != team && !e.hp.at_most(Num { bits: 0 }) && d[i].at_most(bd) {
                let k: u64 = tie_key(e.id);
                if best.is_none() || d[i].less(bd) || k < bk {
                    bd = d[i];
                    bk = k;
                    best = Some(i);
                }
            }
        }
        best
    }

    /// The body under a point: the nearest of those whose reach, a little beyond their
    /// radius, covers it.
    pub fn pick(&self, d: &Vec<Num>) -> (r: Option<usize>)
        requires
            d@.len() == self.ents@.len(),
        ensures
            first_touched(self@.ents, d@, 3, anything(), r),
    {
        self.touched(d, 3, &covered_all(self.ents.len()), Ghost(anything()))
    }

    /// The nearest marked body whose reach, `slack` beyond its radius, covers a point.
    pub(crate) fn touched(
        &self,
        d: &Vec<Num>,
        slack: u32,
        marked: &Vec<bool>,
        ok: Ghost<spec_fn(EntV) -> bool>,
    ) -> (r: Option<usize>)
        requires
            d@.len() == self.ents@.len(),
            marked@.len() == self.ents@.len(),
            slack <= 100,
            forall|i: int| 0 <= i < self.ents@.len() ==> marked@[i] == (ok@)(#[trigger] self@.ents[i]),
        ensures
            first_touched(self@.ents, d@, slack as int, ok@, r),
    {
        let ghost ev = self@.ents;
        let far = Num { bits: FAR_BITS };
        let mut best: Option<usize> = None;
        let mut bd: Num = far;
        let n: usize = self.ents.len();
        for i in 0..n
            invariant
                n == self.ents@.len(),
                ev == self@.ents,
                d@.len() == n,
                marked@.len() == n,
                slack <= 100,
                far == (Num { bits: FAR_BITS }),
                forall|i: int| 0 <= i < n ==> marked@[i] == (ok@)(#[trigger] ev[i]),
                match best {
                    Some(b) => {
                        &&& b < i
                        &&& touches(ev, d@, slack as int, ok@, b as int)
                        &&& bd == d@[b as int]
                        &&& bd.less(far)
                        &&& forall|j: int|
                            0 <= j < i && #[trigger] touches(ev, d@, slack as int, ok@, j) && d@[j].less(far)
                                ==> {
                                &&& !d@[j].less(bd)
                                &&& j < b ==> bd.less(d@[j])
                            }
                    },
                    None => bd == far && forall|j: int|
                        0 <= j < i && #[trigger] touches(ev, d@, slack as int, ok@, j) ==> !d@[j].less(far),
                },
        {
            assert(ev[i as int] == self.ents@[i as int]@);
            let r: u32 = radius(self.ents[i].kind) + slack;
            assert(0 <= r * r <= 16_900) by (nonlinear_arith)
                requires
                    0 <= r <= 130,
            ;
            let reach = Num::whole(r * r);
            if marked[i] && d[i].at_most(reach) && d[i].less(bd) {
                bd = d[i];
                best = Some(i);
            }
        }
        best
    }
}

fn covered_all(n: usize) -> (r: Vec<bool>)
    ensures
        r@.len() == n,
        forall|i: int| 0 <= i < n ==> r@[i],
{
    vec![true; n]
}

/// A worker on its way to a patch counts once.
pub open spec fn on_patch(patch: u32, exclude: u32) -> spec_fn(EntV) -> int {
    |e: EntV|
        if e.id != exclude && e.kind == Kind::Worker && e.order == Order::Gather(patch) {
            1
        } else {
            0
        }
}

/// Whether the entity in slot `i` satisfies a condition and its reach covers the point.
pub open spec fn touches(
    ents: Seq<EntV>,
    d: Seq<Num>,
    slack: int,
    ok: spec_fn(EntV) -> bool,
    i: int,
) -> bool {
    ok(ents[i]) && d[i].at_most(Num::whole(click_sq(ents[i].kind, slack) as u32))
}

/// Whether `r` is the first of the nearest entities that satisfy a condition and whose
/// reach covers the point.
pub open spec fn first_touched(
    ents: Seq<EntV>,
    d: Seq<Num>,
    slack: int,
    ok: spec_fn(EntV) -> bool,
    r: Option<usize>,
) -> bool {
    let far = Num { bits: FAR_BITS };
    match r {
        Some(i) => {
            &&& 0 <= i < ents.len()
            &&& touches(ents, d, slack, ok, i as int)
            &&& d[i as int].less(far)
            &&& forall|j: int|
                0 <= j < ents.len() && #[trigger] touches(ents, d, slack, ok, j) && d[j].less(far) ==> {
                    &&& !d[j].less(d[i as int])
                    &&& j < i ==> d[i as int].less(d[j])
                }
        },
        None => forall|j: int|
            0 <= j < ents.len() && #[trigger] touches(ents, d, slack, ok, j) ==> !d[j].less(far),
    }
}

/// Nothing nearer is overlooked: while something that satisfies the condition is within the
/// bound, something is found; it satisfies the condition, is within the bound, and nothing
/// that does is nearer.
pub proof fn nothing_nearer_is_overlooked(
    ents: Seq<EntV>,
    ok: spec_fn(EntV) -> bool,
    d: Seq<Num>,
    bound: Num,
    r: Option<usize>,
    j: int,
)
    requires
        first_least(ents, ok, d, bound, r),
        0 <= j < ents.len(),
        ok(ents[j]),
        d[j].less(bound),
    ensures
        r is Some,
        r->0 < ents.len(),
        ok(ents[r->0 as int]),
        d[r->0 as int].less(bound),
        !d[j].less(d[r->0 as int]),
        j < r->0 ==> d[r->0 as int].less(d[j]),
{
}

/// What can be mined is a patch with something left; what can be delivered to is a base of
/// one's own; and what can be shot at lives, and is neither one's own nor neutral.
pub proof fn what_is_what(e: EntV, t: Team)
    ensures
        minable()(e) <==> e.kind == Kind::Mineral && e.minerals > 0,
        base_of(t)(e) <==> e.kind == Kind::Base && e.team == t,
        foe_of(t)(e) <==> e.team != t && e.team != Team::Neutral && !e.hp.at_most(Num { bits: 0 }),
        anything()(e),
{
}

/// The nearest foe is found whenever one is within the bound, and nobody else is taken for it.
pub proof fn the_nearest_foe_is_found(ents: Seq<EntV>, t: Team, d: Seq<Num>, within: Num, r: Option<usize>, j: int)
    requires
        nearest_foe(ents, t, d, within, r),
        0 <= j < ents.len(),
    ensures
        ents[j].team != t && ents[j].team != Team::Neutral && !ents[j].hp.at_most(Num { bits: 0 }) && d[j].at_most(
            within,
        ) ==> r is Some && !d[j].less(d[r->0 as int]) && (d[j].same(d[r->0 as int]) ==> tie_key(
            ents[r->0 as int].id,
        ) <= tie_key(ents[j].id)),
        r is Some ==> r->0 < ents.len() && ents[r->0 as int].team != t && ents[r->0 as int].team != Team::Neutral
            && !ents[r->0 as int].hp.at_most(Num { bits: 0 }) && d[r->0 as int].at_most(within),
{
    what_is_what(ents[j], t);
    if foe_of(t)(ents[j]) && d[j].at_most(within) {
        assert(r is Some);
    }
}

/// A click takes the nearest of the bodies that it touches, with a little slack round each, and
/// misses none.
pub proof fn clicks_take_the_nearest_body(
    ents: Seq<EntV>,
    d: Seq<Num>,
    slack: int,
    ok: spec_fn(EntV) -> bool,
    r: Option<usize>,
    j: int,
)
    requires
        first_touched(ents, d, slack, ok, r),
        0 <= j < ents.len(),
    ensures
        ok(ents[j]) && d[j].at_most(
            Num::whole(((radius(ents[j].kind) + slack) * (radius(ents[j].kind) + slack)) as u32),
        ) && d[j].less(Num { bits: 0x7F7F_FFFF }) ==> r is Some && !d[j].less(d[r->0 as int]),
        r is Some ==> r->0 < ents.len() && ok(ents[r->0 as int]) && d[r->0 as int].at_most(
            Num::whole(
                ((radius(ents[r->0 as int].kind) + slack) * (radius(ents[r->0 as int].kind) + slack)) as u32,
            ),
        ),
{
    if ok(ents[j]) && d[j].at_most(Num::whole(click_sq(ents[j].kind, slack) as u32)) {
        assert(touches(ents, d, slack, ok, j));
    }
}

/// A patch is as crowded as there are workers on their way to it, the one that asks left out.
pub proof fn crowds_are_counted(ents: Seq<EntV>, e: EntV, patch: u32, exclude: u32)
    ensures
        crate::world::total(ents.push(e), on_patch(patch, exclude)) == crate::world::total(
            ents,
            on_patch(patch, exclude),
        ) + (if e.kind == Kind::Worker && e.id != exclude && e.order == Order::Gather(patch) {
            1int
        } else {
            0int
        }),
        crate::world::total(Seq::<EntV>::empty(), on_patch(patch, exclude)) == 0,
{
    assert(ents.push(e).drop_last() =~= ents);
}

} // verus!
