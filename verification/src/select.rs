//! The local player's selection: clicks, boxes, types, the whole army, control groups,
//! and what the selection consists of.

use vstd::prelude::*;
use crate::kind::{is_army, is_building, is_mover, Kind, Team};
use crate::num::{Num, V2};
use crate::query::first_touched;
use crate::world::{EntV, World, WorldV};

verus! {

/// How much farther than its radius a body can be clicked.
pub const CLICK_SLACK: u32 = 12;

/// Squared radius of a cluster of buildings that a double click selects.
pub const CLUSTER_SQ: u32 = 291_600;

/// How long a box may be at most and still count as a click.
pub const TINY_BOX: u32 = 6;

/// Entities with a new selection: what is picked, and what was selected before if that is
/// kept.
pub open spec fn selecting(ents: Seq<EntV>, keep: bool, pick: spec_fn(int, EntV) -> bool) -> Seq<EntV> {
    ents.map(|i: int, e: EntV| EntV { selected: (keep && e.selected) || pick(i, e), ..e })
}

impl WorldV {
    pub open spec fn selected_by(self, keep: bool, pick: spec_fn(int, EntV) -> bool) -> WorldV {
        WorldV { ents: selecting(self.ents, keep, pick), ..self }
    }
}

/// Whether a point is in a box, borders and all.
pub open spec fn in_box(p: V2, lo: V2, hi: V2) -> bool {
    lo.x.at_most(p.x) && p.x.at_most(hi.x) && lo.y.at_most(p.y) && p.y.at_most(hi.y)
}

fn boxed(p: V2, lo: V2, hi: V2) -> (r: bool)
    ensures
        r == in_box(p, lo, hi),
{
    lo.x.at_most(p.x) && p.x.at_most(hi.x) && lo.y.at_most(p.y) && p.y.at_most(hi.y)
}

/// The corners of a box dragged from `a` to `b`.
pub open spec fn low_corner(a: V2, b: V2) -> V2 {
    V2 { x: a.x.least(b.x), y: a.y.least(b.y) }
}

pub open spec fn high_corner(a: V2, b: V2) -> V2 {
    V2 { x: a.x.most(b.x), y: a.y.most(b.y) }
}

impl World {
    fn apply_selection(&mut self, keep: bool, marks: &Vec<bool>, pick: Ghost<spec_fn(int, EntV) -> bool>)
        requires
            old(self).wf(),
            marks@.len() == old(self).ents@.len(),
            forall|i: int|
                0 <= i < marks@.len() ==> #[trigger] marks@[i] == (pick@)(i, old(self)@.ents[i]),
        ensures
            final(self).wf(),
            final(self).ents@.len() == old(self).ents@.len(),
            final(self)@ == old(self)@.selected_by(keep, pick@),
    {
        let ghost w0 = self@;
        let n: usize = self.ents.len();
        for i in 0..n
            invariant
                n == w0.ents.len(),
                self.ents@.len() == n,
                marks@.len() == n,
                w0 == old(self)@,
                self@ == (WorldV { ents: self@.ents, ..w0 }),
                self.factions == old(self).factions,
                forall|j: int| i <= j < n ==> (#[trigger] self.ents@[j])@ == w0.ents[j],
                forall|j: int|
                    0 <= j < i ==> (#[trigger] self.ents@[j])@ == (EntV {
                        selected: (keep && w0.ents[j].selected) || marks@[j],
                        ..w0.ents[j]
                    }),
        {
            assert(self.ents@[i as int]@ == w0.ents[i as int]);
            let was: bool = self.ents[i].selected;
            self.ents[i].selected = (keep && was) || marks[i];
        }
        proof {
            assert(self@.ents =~= selecting(w0.ents, keep, pick@));
        }
    }

    /// Selects nothing.
    pub fn clear_selection(&mut self)
        requires
            old(self).wf(),
        ensures
            final(self).wf(),
            final(self)@ == old(self)@.selected_by(false, |i: int, e: EntV| false),
    {
        let marks: Vec<bool> = vec![false; self.ents.len()];
        self.apply_selection(false, &marks, Ghost(|i: int, e: EntV| false));
    }

    /// The nearest body of the local player under a click.
    pub fn own_body_at(&self, d: &Vec<Num>) -> (r: Option<usize>)
        requires
            d@.len() == self.ents@.len(),
        ensures
            first_touched(
                self@.ents,
                d@,
                CLICK_SLACK as int,
                owned_by(self.my_team),
                r,
            ),
    {
        let mut marked: Vec<bool> = Vec::new();
        let n: usize = self.ents.len();
        for i in 0..n
            invariant
                n == self.ents@.len(),
                marked@.len() == i,
                forall|j: int|
                    0 <= j < i ==> marked@[j] == owned_by(self.my_team)(#[trigger] self@.ents[j]),
        {
            assert(self@.ents[i as int] == self.ents@[i as int]@);
            marked.push(self.ents[i].team == self.my_team);
        }
        self.touched(d, CLICK_SLACK, &marked, Ghost(owned_by(self.my_team)))
    }

    /// A click: the nearest body of the local player under it, if any.
    pub fn select_single(&mut self, d: &Vec<Num>, additive: bool)
        requires
            old(self).wf(),
            d@.len() == old(self).ents@.len(),
        ensures
            final(self).wf(),
            exists|hit: Option<usize>| #[trigger]
                first_touched(
                    old(self)@.ents,
                    d@,
                    CLICK_SLACK as int,
                    owned_by(old(self).my_team),
                    hit,
                ) && final(self)@ == old(self)@.selected_by(
                    additive,
                    |i: int, e: EntV| hit == Some(i as usize),
                ),
    {
        let hit = self.own_body_at(d);
        let mut marks: Vec<bool> = vec![false; self.ents.len()];
        if let Some(k) = hit {
            marks[k] = true;
        }
        self.apply_selection(additive, &marks, Ghost(|i: int, e: EntV| hit == Some(i as usize)));
    }

    /// A double click. On a building: every building of that kind nearby; on a unit: every
    /// unit of that kind in view; on nothing: a click. `d_hit` are the squared distances
    /// from the body that was hit.
    pub fn select_type_in_view(
        &mut self,
        d: &Vec<Num>,
        d_hit: &Vec<Num>,
        vmin: V2,
        vmax: V2,
        additive: bool,
    )
        requires
            old(self).wf(),
            d@.len() == old(self).ents@.len(),
            d_hit@.len() == old(self).ents@.len(),
        ensures
            final(self).wf(),
            exists|hit: Option<usize>| #[trigger]
                first_touched(
                    old(self)@.ents,
                    d@,
                    CLICK_SLACK as int,
                    owned_by(old(self).my_team),
                    hit,
                ) && final(self)@ == old(self)@.selected_by(
                    additive,
                    same_type(old(self)@, hit, d_hit@, vmin, vmax),
                ),
    {
        let ghost w0 = self@;
        let hit = self.own_body_at(d);
        let mut marks: Vec<bool> = Vec::new();
        let n: usize = self.ents.len();
        let near = Num::whole(CLUSTER_SQ);
        let ghost pick = same_type(w0, hit, d_hit@, vmin, vmax);
        for i in 0..n
            invariant
                n == self.ents@.len(),
                w0 == self@,
                d_hit@.len() == n,
                near == Num::whole(CLUSTER_SQ),
                pick == same_type(w0, hit, d_hit@, vmin, vmax),
                hit is Some ==> hit->0 < n,
                marks@.len() == i,
                forall|j: int| 0 <= j < i ==> #[trigger] marks@[j] == pick(j, w0.ents[j]),
        {
            assert(w0.ents[i as int] == self.ents@[i as int]@);
            let e = &self.ents[i];
            let on: bool = match hit {
                Some(h) => {
                    assert(w0.ents[h as int] == self.ents@[h as int]@);
                    let k = self.ents[h].kind;
                    e.team == self.my_team && e.kind == k && (if is_building(k) {
                        d_hit[i].at_most(near)
                    } else {
                        boxed(e.pos, vmin, vmax)
                    })
                },
                None => false,
            };
            marks.push(on);
        }
        self.apply_selection(additive, &marks, Ghost(pick));
    }

    /// Selects every army unit of the local player; no workers, no buildings.
    pub fn select_all_army(&mut self, additive: bool)
        requires
            old(self).wf(),
        ensures
            final(self).wf(),
            final(self)@ == old(self)@.selected_by(
                additive,
                |i: int, e: EntV| e.team == old(self).my_team && is_army(e.kind),
            ),
    {
        let ghost w0 = self@;
        let ghost pick = |i: int, e: EntV| e.team == w0.my_team && is_army(e.kind);
        let mut marks: Vec<bool> = Vec::new();
        let n: usize = self.ents.len();
        for i in 0..n
            invariant
                n == self.ents@.len(),
                w0 == self@,
                marks@.len() == i,
                pick == (|i: int, e: EntV| e.team == w0.my_team && is_army(e.kind)),
                forall|j: int| 0 <= j < i ==> #[trigger] marks@[j] == pick(j, w0.ents[j]),
        {
            assert(w0.ents[i as int] == self.ents@[i as int]@);
            marks.push(self.ents[i].team == self.my_team && is_army(self.ents[i].kind));
        }
        self.apply_selection(additive, &marks, Ghost(pick));
        proof {
            let other = |i: int, e: EntV| e.team == old(self).my_team && is_army(e.kind);
            assert(selecting(w0.ents, additive, pick) =~= selecting(w0.ents, additive, other));
        }
    }

    /// Ids of the local player's selection, in order: a control group.
    pub fn selected_ids(&self) -> (r: Vec<u32>)
        ensures
            r@ == ids_of(self@.ents, self.my_team),
    {
        let mut out: Vec<u32> = Vec::new();
        let n: usize = self.ents.len();
        assert(self@.ents.take(0) =~= Seq::<EntV>::empty());
        for i in 0..n
            invariant
                n == self.ents@.len(),
                out@ == ids_of(self@.ents.take(i as int), self.my_team),
        {
            proof {
                assert(self@.ents.take(i + 1).drop_last() =~= self@.ents.take(i as int));
                assert(self@.ents.take(i + 1).last() == self.ents@[i as int]@);
            }
            if self.ents[i].selected && self.ents[i].team == self.my_team {
                out.push(self.ents[i].id);
            }
        }
        assert(self@.ents.take(n as int) =~= self@.ents);
        out
    }

    /// Selects the local player's entities with the given ids: a control group called up.
    /// Ids of the dead find nothing.
    pub fn select_ids(&mut self, ids: &Vec<u32>, additive: bool)
        requires
            old(self).wf(),
        ensures
            final(self).wf(),
            final(self)@ == old(self)@.selected_by(
                additive,
                |i: int, e: EntV| e.team == old(self).my_team && ids@.contains(e.id),
            ),
    {
        let ghost w0 = self@;
        let ghost pick = |i: int, e: EntV| e.team == w0.my_team && ids@.contains(e.id);
        let mut marks: Vec<bool> = Vec::new();
        let n: usize = self.ents.len();
        for i in 0..n
            invariant
                n == self.ents@.len(),
                w0 == self@,
                marks@.len() == i,
                pick == (|i: int, e: EntV| e.team == w0.my_team && ids@.contains(e.id)),
                forall|j: int| 0 <= j < i ==> #[trigger] marks@[j] == pick(j, w0.ents[j]),
        {
            assert(w0.ents[i as int] == self.ents@[i as int]@);
            marks.push(self.ents[i].team == self.my_team && holds_id(ids, self.ents[i].id));
        }
        self.apply_selection(additive, &marks, Ghost(pick));
        proof {
            let other = |i: int, e: EntV| e.team == old(self).my_team && ids@.contains(e.id);
            assert(selecting(w0.ents, additive, pick) =~= selecting(w0.ents, additive, other));
        }
    }

    /// A box: every walker of the local player inside it. A tiny box that catches nothing
    /// is a click on its first corner, from which `d` are the squared distances.
    pub fn select_box(&mut self, a: V2, b: V2, length: Num, d: &Vec<Num>, additive: bool)
        requires
            old(self).wf(),
            d@.len() == old(self).ents@.len(),
        ensures
            final(self).wf(),
            exists|hit: Option<usize>| #[trigger]
                first_touched(
                    old(self)@.ents,
                    d@,
                    CLICK_SLACK as int,
                    owned_by(old(self).my_team),
                    hit,
                ) && final(self)@ == old(self)@.selected_by(
                    additive,
                    box_pick(old(self)@, a, b, length, hit),
                ),
    {
        let ghost w0 = self@;
        let lo = V2 { x: a.x.least(b.x), y: a.y.least(b.y) };
        let hi = V2 { x: a.x.most(b.x), y: a.y.most(b.y) };
        let hit = self.own_body_at(d);
        let mut marks: Vec<bool> = Vec::new();
        let mut any: bool = false;
        let n: usize = self.ents.len();
        for i in 0..n
            invariant
                n == self.ents@.len(),
                w0 == self@,
                lo == low_corner(a, b),
                hi == high_corner(a, b),
                marks@.len() == i,
                forall|j: int| 0 <= j < i ==> #[trigger] marks@[j] == caught(w0, lo, hi, w0.ents[j]),
                any == exists|j: int| 0 <= j < i && caught(w0, lo, hi, #[trigger] w0.ents[j]),
        {
            assert(w0.ents[i as int] == self.ents@[i as int]@);
            let e = &self.ents[i];
            let on: bool = e.team == self.my_team && is_mover(e.kind) && boxed(e.pos, lo, hi);
            marks.push(on);
            if on {
                assert(caught(w0, lo, hi, w0.ents[i as int]));
                any = true;
            }
        }
        let ghost pick = box_pick(w0, a, b, length, hit);
        if !any && length.less(Num::whole(TINY_BOX)) {
            if let Some(k) = hit {
                marks[k] = true;
            }
        }
        self.apply_selection(additive, &marks, Ghost(pick));
    }

    /// What the selection consists of: workers, army units, and whether there is a base, a
    /// barracks, a factory, a depot.
    pub fn selected_kinds(&self) -> (r: (u32, u32, bool, bool, bool, bool))
        requires
            self.wf(),
        ensures
            r.0 == crate::world::total(self@.ents, |e: EntV| one(e.selected && e.kind == Kind::Worker)),
            r.1 == crate::world::total(self@.ents, |e: EntV| one(e.selected && is_army(e.kind))),
            r.2 == has_selected(self@.ents, Kind::Base),
            r.3 == has_selected(self@.ents, Kind::Barracks),
            r.4 == has_selected(self@.ents, Kind::Factory),
            r.5 == has_selected(self@.ents, Kind::Depot),
    {
        let ghost ev = self@.ents;
        let ghost fw = |e: EntV| one(e.selected && e.kind == Kind::Worker);
        let ghost fa = |e: EntV| one(e.selected && is_army(e.kind));
        let mut w: u32 = 0;
        let mut army: u32 = 0;
        let mut base: bool = false;
        let mut barr: bool = false;
        let mut fact: bool = false;
        let mut depot: bool = false;
        let n: usize = self.ents.len();
        assert(ev.take(0) =~= Seq::<EntV>::empty());
        for i in 0..n
            invariant
                self.wf(),
                n == self.ents@.len(),
                ev == self@.ents,
                fw == (|e: EntV| one(e.selected && e.kind == Kind::Worker)),
                fa == (|e: EntV| one(e.selected && is_army(e.kind))),
                w == crate::world::total(ev.take(i as int), fw),
                army == crate::world::total(ev.take(i as int), fa),
                w <= i,
                army <= i,
                base == has_selected(ev.take(i as int), Kind::Base),
                barr == has_selected(ev.take(i as int), Kind::Barracks),
                fact == has_selected(ev.take(i as int), Kind::Factory),
                depot == has_selected(ev.take(i as int), Kind::Depot),
        {
            proof {
                assert(ev.take(i + 1).drop_last() =~= ev.take(i as int));
                assert(ev.take(i + 1).last() == self.ents@[i as int]@);
                lemma_has_step(ev, i as int, Kind::Base);
                lemma_has_step(ev, i as int, Kind::Barracks);
                lemma_has_step(ev, i as int, Kind::Factory);
                lemma_has_step(ev, i as int, Kind::Depot);
            }
            if self.ents[i].selected {
                let k = self.ents[i].kind;
                if k == Kind::Worker {
                    w = w + 1;
                } else if is_army(k) {
                    army = army + 1;
                } else if k == Kind::Base {
                    base = true;
                } else if k == Kind::Barracks {
                    barr = true;
                } else if k == Kind::Factory {
                    fact = true;
                } else if k == Kind::Depot {
                    depot = true;
                }
            }
        }
        assert(ev.take(n as int) =~= ev);
        (w, army, base, barr, fact, depot)
    }

    /// Of the local player's selected and raised buildings of a kind, the id of the one
    /// with the shortest queue, the lowest id on a tie.
    pub fn least_loaded_selected(&self, bkind: Kind) -> (r: Option<u32>)
        ensures
            match r {
                Some(id) => exists|i: int|
                    0 <= i < self@.ents.len() && (#[trigger] self@.ents[i]).id == id && trainer(
                        self@,
                        bkind,
                        self@.ents[i],
                    ) && forall|j: int|
                        0 <= j < self@.ents.len() && trainer(self@, bkind, #[trigger] self@.ents[j])
                            ==> less_loaded(self@.ents[i], self@.ents[j]),
                None => forall|j: int|
                    0 <= j < self@.ents.len() ==> !trainer(self@, bkind, #[trigger] self@.ents[j]),
            },
    {
        let ghost w = self@;
        let mut best: Option<usize> = None;
        let n: usize = self.ents.len();
        for i in 0..n
            invariant
                n == self.ents@.len(),
                w == self@,
                match best {
                    Some(b) => b < i && trainer(w, bkind, w.ents[b as int]) && forall|j: int|
                        0 <= j < i && trainer(w, bkind, #[trigger] w.ents[j]) ==> less_loaded(
                            w.ents[b as int],
                            w.ents[j],
                        ),
                    None => forall|j: int| 0 <= j < i ==> !trainer(w, bkind, #[trigger] w.ents[j]),
                },
        {
            assert(w.ents[i as int] == self.ents@[i as int]@);
            let e = &self.ents[i];
            if e.selected && e.team == self.my_team && e.kind == bkind && e.build_left.at_most(
                Num { bits: 0 },
            ) {
                match best {
                    None => {
                        best = Some(i);
                    },
                    Some(b) => {
                        assert(w.ents[b as int] == self.ents@[b as int]@);
                        let c = &self.ents[b];
                        if e.queue.len() < c.queue.len() || (e.queue.len() == c.queue.len() && e.id
                            < c.id) {
                            best = Some(i);
                        }
                    },
                }
            }
        }
        match best {
            Some(b) => {
                assert(w.ents[b as int] == self.ents@[b as int]@);
                Some(self.ents[b].id)
            },
            None => None,
        }
    }

    /// Slots of the entities whose ids are listed.
    pub fn members(&self, ids: &Vec<u32>) -> (r: Vec<usize>)
        ensures
            forall|k: int| 0 <= k < r@.len() ==> #[trigger] r@[k] < self.ents@.len(),
            forall|a: int, b: int| 0 <= a < b < r@.len() ==> r@[a] < r@[b],
            forall|i: int|
                0 <= i < self.ents@.len() ==> (r@.contains(i as usize) <==> ids@.contains(
                    (#[trigger] self@.ents[i]).id,
                )),
    {
        let mut out: Vec<usize> = Vec::new();
        let n: usize = self.ents.len();
        for i in 0..n
            invariant
                n == self.ents@.len(),
                forall|k: int| 0 <= k < out@.len() ==> #[trigger] out@[k] < i,
                forall|a: int, b: int| 0 <= a < b < out@.len() ==> out@[a] < out@[b],
                forall|j: int|
                    0 <= j < i ==> (out@.contains(j as usize) <==> ids@.contains(
                        (#[trigger] self@.ents[j]).id,
                    )),
        {
            assert(self@.ents[i as int] == self.ents@[i as int]@);
            let ghost before = out@;
            if holds_id(ids, self.ents[i].id) {
                out.push(i);
                proof {
                    assert(out@[before.len() as int] == i);
                    assert forall|j: int| 0 <= j < i implies before.contains(j as usize)
                        == #[trigger] out@.contains(j as usize) by {
                        if before.contains(j as usize) {
                            let q = choose|q: int| 0 <= q < before.len() && before[q] == j as usize;
                            assert(out@[q] == j as usize);
                        }
                    }
                }
            } else {
                assert(!out@.contains(i));
            }
        }
        out
    }
}

fn holds_id(ids: &Vec<u32>, id: u32) -> (r: bool)
    ensures
        r == ids@.contains(id),
{
    let mut i: usize = 0;
    while i < ids.len()
        invariant
            i <= ids@.len(),
            forall|j: int| 0 <= j < i ==> ids@[j] != id,
        decreases ids@.len() - i,
    {
        if ids[i] == id {
            return true;
        }
        i = i + 1;
    }
    false
}

/// Which entities are a team's.
pub open spec fn owned_by(t: Team) -> spec_fn(EntV) -> bool {
    |e: EntV| e.team == t
}

pub open spec fn one(b: bool) -> int {
    if b {
        1
    } else {
        0
    }
}

pub open spec fn has_selected(ents: Seq<EntV>, k: Kind) -> bool {
    exists|i: int| 0 <= i < ents.len() && (#[trigger] ents[i]).selected && ents[i].kind == k
}

proof fn lemma_has_step(ents: Seq<EntV>, i: int, k: Kind)
    requires
        0 <= i < ents.len(),
    ensures
        has_selected(ents.take(i + 1), k) == (has_selected(ents.take(i), k) || (ents[i].selected
            && ents[i].kind == k)),
{
    let a = ents.take(i);
    let b = ents.take(i + 1);
    if has_selected(a, k) {
        let j = choose|j: int| 0 <= j < a.len() && (#[trigger] a[j]).selected && a[j].kind == k;
        assert(b[j] == a[j]);
    }
    if ents[i].selected && ents[i].kind == k {
        assert(b[i] == ents[i]);
    }
    if has_selected(b, k) {
        let j = choose|j: int| 0 <= j < b.len() && (#[trigger] b[j]).selected && b[j].kind == k;
        if j < i {
            assert(a[j] == b[j]);
        }
    }
}

/// What a double click selects, given the body it hit.
pub open spec fn same_type(
    w: WorldV,
    hit: Option<usize>,
    d_hit: Seq<Num>,
    vmin: V2,
    vmax: V2,
) -> spec_fn(int, EntV) -> bool {
    |i: int, e: EntV|
        match hit {
            Some(h) => {
                let k = w.ents[h as int].kind;
                e.team == w.my_team && e.kind == k && (if is_building(k) {
                    d_hit[i].at_most(Num::whole(CLUSTER_SQ))
                } else {
                    in_box(e.pos, vmin, vmax)
                })
            },
            None => false,
        }
}

/// Whether a box catches an entity.
pub open spec fn caught(w: WorldV, lo: V2, hi: V2, e: EntV) -> bool {
    e.team == w.my_team && is_mover(e.kind) && in_box(e.pos, lo, hi)
}

/// What a box selects, given the body under its first corner.
pub open spec fn box_pick(w: WorldV, a: V2, b: V2, length: Num, hit: Option<usize>) -> spec_fn(
    int,
    EntV,
) -> bool {
    let lo = low_corner(a, b);
    let hi = high_corner(a, b);
    let click = length.less(Num::whole(TINY_BOX)) && !exists|j: int|
        0 <= j < w.ents.len() && caught(w, lo, hi, #[trigger] w.ents[j]);
    |i: int, e: EntV| caught(w, lo, hi, e) || (click && hit == Some(i as usize))
}

/// Ids of a team's selected entities, in order.
pub open spec fn ids_of(ents: Seq<EntV>, t: Team) -> Seq<u32>
    decreases ents.len(),
{
    if ents.len() == 0 {
        Seq::empty()
    } else if ents.last().selected && ents.last().team == t {
        ids_of(ents.drop_last(), t).push(ents.last().id)
    } else {
        ids_of(ents.drop_last(), t)
    }
}

/// A building of the local player that can take a train order.
pub open spec fn trainer(w: WorldV, k: Kind, e: EntV) -> bool {
    e.selected && e.team == w.my_team && e.kind == k && e.build_left.at_most(Num { bits: 0 })
}

/// Whether a building has the shorter queue, or an equal one and no higher id.
pub open spec fn less_loaded(a: EntV, b: EntV) -> bool {
    a.queue.len() < b.queue.len() || (a.queue.len() == b.queue.len() && a.id <= b.id)
}

/// Grabbing the army never selects a worker, a building or anything of another faction.
pub proof fn army_selection_is_army(w: WorldV, i: int)
    requires
        0 <= i < w.ents.len(),
    ensures
        ({
            let v = w.selected_by(false, |i: int, e: EntV| e.team == w.my_team && is_army(e.kind));
            &&& v.ents[i].selected ==> v.ents[i].team == w.my_team && v.ents[i].kind != Kind::Worker
                && !is_building(v.ents[i].kind)
            &&& w.ents[i].team == w.my_team && is_army(w.ents[i].kind) ==> v.ents[i].selected
        }),
{
}

/// A control group called up selects exactly what was selected when it was stored, as long
/// as ids are unique: whatever happened to the selection in between, and whoever died.
pub proof fn control_group_roundtrip(stored: WorldV, now: WorldV, i: int, j: int)
    requires
        0 <= i < stored.ents.len(),
        0 <= j < now.ents.len(),
        now.my_team == stored.my_team,
        now.ents[j].id == stored.ents[i].id,
        now.ents[j].team == stored.ents[i].team,
        forall|a: int, b: int|
            0 <= a < stored.ents.len() && 0 <= b < stored.ents.len() && a != b ==> (
            #[trigger] stored.ents[a]).id != (#[trigger] stored.ents[b]).id,
    ensures
        ({
            let group = ids_of(stored.ents, stored.my_team);
            let v = now.selected_by(
                false,
                |i: int, e: EntV| e.team == now.my_team && group.contains(e.id),
            );
            v.ents[j].selected == (stored.ents[i].selected && stored.ents[i].team == stored.my_team)
        }),
{
    lemma_ids_of(stored.ents, stored.my_team);
    let group = ids_of(stored.ents, stored.my_team);
    let e = stored.ents[i];
    if e.selected && e.team == stored.my_team {
        assert(group.contains(e.id));
    }
    if group.contains(e.id) {
        let k = choose|k: int|
            0 <= k < stored.ents.len() && (#[trigger] stored.ents[k]).id == e.id
                && stored.ents[k].selected && stored.ents[k].team == stored.my_team;
        if k != i {
            assert(stored.ents[k].id != stored.ents[i].id);
        }
    }
}

proof fn lemma_ids_of(ents: Seq<EntV>, t: Team)
    ensures
        forall|i: int|
            0 <= i < ents.len() && (#[trigger] ents[i]).selected && ents[i].team == t ==> ids_of(
                ents,
                t,
            ).contains(ents[i].id),
        forall|id: u32| #[trigger]
            ids_of(ents, t).contains(id) ==> exists|k: int|
                0 <= k < ents.len() && (#[trigger] ents[k]).id == id && ents[k].selected && ents[k].team == t,
    decreases ents.len(),
{
    if ents.len() > 0 {
        let f = ents.drop_last();
        lemma_ids_of(f, t);
        let a = ids_of(f, t);
        let b = ids_of(ents, t);
        let l = ents.last();
        assert forall|i: int| 0 <= i < ents.len() && (#[trigger] ents[i]).selected && ents[i].team == t implies
            b.contains(ents[i].id) by {
            if i < f.len() {
                assert(f[i] == ents[i]);
                let q = choose|q: int| 0 <= q < a.len() && a[q] == ents[i].id;
                assert(b[q] == ents[i].id);
            } else {
                assert(b[a.len() as int] == l.id);
            }
        }
        assert forall|id: u32| #[trigger] b.contains(id) implies exists|k: int|
            0 <= k < ents.len() && (#[trigger] ents[k]).id == id && ents[k].selected && ents[k].team == t by {
            let q = choose|q: int| 0 <= q < b.len() && b[q] == id;
            if q < a.len() {
                assert(a.contains(a[q]));
                let k = choose|k: int|
                    0 <= k < f.len() && (#[trigger] f[k]).id == id && f[k].selected && f[k].team == t;
                assert(ents[k] == f[k]);
            } else {
                assert(ents[ents.len() - 1].id == id);
            }
        }
    }
}

/// A train order that goes to the least loaded building keeps queues even: where it goes,
/// no other selected building of the kind had a shorter queue.
pub proof fn training_fills_the_shortest_queue(w: WorldV, k: Kind, i: int, j: int)
    requires
        0 <= i < w.ents.len(),
        0 <= j < w.ents.len(),
        trainer(w, k, w.ents[i]),
        trainer(w, k, w.ents[j]),
        forall|x: int|
            0 <= x < w.ents.len() && trainer(w, k, #[trigger] w.ents[x]) ==> less_loaded(
                w.ents[i],
                w.ents[x],
            ),
    ensures
        w.ents[i].queue.len() <= w.ents[j].queue.len(),
{
}

// ---- what holds of selections -----------------------------------------------------------------------

/// A selection selects: what is picked is selected, what was selected stays so only if it is
/// to be kept, and nothing else about anyone changes.
pub proof fn selecting_only_selects(w: WorldV, keep: bool, pick: spec_fn(int, EntV) -> bool, i: int)
    requires
        0 <= i < w.ents.len(),
    ensures
        ({
            let v = w.selected_by(keep, pick);
            &&& v.ents.len() == w.ents.len()
            &&& pick(i, w.ents[i]) ==> v.ents[i].selected
            &&& !pick(i, w.ents[i]) && keep ==> v.ents[i].selected == w.ents[i].selected
            &&& !pick(i, w.ents[i]) && !keep ==> !v.ents[i].selected
            &&& v.ents[i] == EntV { selected: v.ents[i].selected, ..w.ents[i] }
            &&& v == WorldV { ents: v.ents, ..w }
        }),
{
}

/// A box takes every walker of the player's own in it, edges included, whichever corner it was
/// dragged from; nobody outside it and nobody else's. A drag of under six units that catches
/// nobody takes the body under it instead.
pub proof fn boxes_take_the_walkers_inside(w: WorldV, a: V2, b: V2, length: Num, hit: Option<usize>, i: int)
    requires
        0 <= i < w.ents.len() <= usize::MAX,
        !a.x.is_nan() && !a.y.is_nan() && !b.x.is_nan() && !b.y.is_nan(),
    ensures
        ({
            let e = w.ents[i];
            let inside = ((a.x.at_most(e.pos.x) && e.pos.x.at_most(b.x)) || (b.x.at_most(e.pos.x) && e.pos.x.at_most(
                a.x,
            ))) && ((a.y.at_most(e.pos.y) && e.pos.y.at_most(b.y)) || (b.y.at_most(e.pos.y) && e.pos.y.at_most(a.y)));
            let mine = e.team == w.my_team && is_mover(e.kind);
            let picked = box_pick(w, a, b, length, hit)(i, e);
            &&& mine && inside ==> picked
            &&& picked && hit != Some(i as usize) ==> mine && inside
            &&& picked && !length.less(Num::whole(6)) ==> mine && inside
            &&& box_pick(w, a, b, length, hit)(i, e) == box_pick(w, b, a, length, hit)(i, e)
        }),
{
    let e = w.ents[i];
    lemma_corners(a, b, e.pos);
    lemma_corners(b, a, e.pos);
    assert forall|j: int| 0 <= j < w.ents.len() implies caught(w, low_corner(a, b), high_corner(a, b), #[trigger] w.ents[j])
        == caught(w, low_corner(b, a), high_corner(b, a), w.ents[j]) by {
        lemma_corners(a, b, w.ents[j].pos);
        lemma_corners(b, a, w.ents[j].pos);
    }
    let (lo, hi, lo2, hi2) = (low_corner(a, b), high_corner(a, b), low_corner(b, a), high_corner(b, a));
    if exists|j: int| 0 <= j < w.ents.len() && caught(w, lo, hi, #[trigger] w.ents[j]) {
        let j = choose|j: int| 0 <= j < w.ents.len() && caught(w, lo, hi, #[trigger] w.ents[j]);
        assert(caught(w, lo2, hi2, w.ents[j]));
    }
    if exists|j: int| 0 <= j < w.ents.len() && caught(w, lo2, hi2, #[trigger] w.ents[j]) {
        let j = choose|j: int| 0 <= j < w.ents.len() && caught(w, lo2, hi2, #[trigger] w.ents[j]);
        assert(caught(w, lo, hi, w.ents[j]));
    }
}

proof fn lemma_corners(a: V2, b: V2, p: V2)
    requires
        !a.x.is_nan() && !a.y.is_nan() && !b.x.is_nan() && !b.y.is_nan(),
    ensures
        in_box(p, low_corner(a, b), high_corner(a, b)) <==> ((a.x.at_most(p.x) && p.x.at_most(b.x)) || (b.x.at_most(p.x)
            && p.x.at_most(a.x))) && ((a.y.at_most(p.y) && p.y.at_most(b.y)) || (b.y.at_most(p.y) && p.y.at_most(a.y))),
{
}

/// A tiny drag that catches nobody is a click: the body under it is taken.
pub proof fn tiny_boxes_are_clicks(w: WorldV, a: V2, b: V2, length: Num, h: usize)
    requires
        h < w.ents.len(),
        length.less(Num::whole(6)),
        forall|j: int|
            0 <= j < w.ents.len() ==> !((#[trigger] w.ents[j]).team == w.my_team && is_mover(w.ents[j].kind)),
    ensures
        box_pick(w, a, b, length, Some(h))(h as int, w.ents[h as int]),
{
}

/// A double click takes all of the player's own of the kind that was hit: buildings nearby,
/// and units in view; and nothing when nothing was hit.
pub proof fn double_clicks_take_the_kind(w: WorldV, hit: Option<usize>, d_hit: Seq<Num>, vmin: V2, vmax: V2, i: int)
    requires
        0 <= i < w.ents.len(),
        hit is Some ==> hit->0 < w.ents.len(),
    ensures
        ({
            let e = w.ents[i];
            let k = w.ents[hit->0 as int].kind;
            let house = k == Kind::Base || k == Kind::Barracks || k == Kind::Factory || k == Kind::Depot;
            let picked = same_type(w, hit, d_hit, vmin, vmax)(i, e);
            &&& hit is None ==> !picked
            &&& hit is Some && house ==> (picked <==> e.team == w.my_team && e.kind == k && d_hit[i].at_most(
                Num::whole(CLUSTER_SQ),
            ))
            &&& hit is Some && !house ==> (picked <==> e.team == w.my_team && e.kind == k && vmin.x.at_most(e.pos.x)
                && e.pos.x.at_most(vmax.x) && vmin.y.at_most(e.pos.y) && e.pos.y.at_most(vmax.y))
        }),
{
}

/// A control group holds the ids of all that is selected and the player's own, in order.
pub proof fn groups_hold_the_selection(ents: Seq<EntV>, e: EntV, t: Team)
    ensures
        e.selected && e.team == t ==> ids_of(ents.push(e), t) == ids_of(ents, t).push(e.id),
        !(e.selected && e.team == t) ==> ids_of(ents.push(e), t) == ids_of(ents, t),
        ids_of(Seq::<EntV>::empty(), t).len() == 0,
        owned_by(t)(e) <==> e.team == t,
{
    assert(ents.push(e).drop_last() =~= ents);
}

/// A building can be asked to train if it is selected, the player's own, of the kind and
/// finished; and of two the one with the shorter line goes first, then the older.
pub proof fn trainers_are_finished_and_own(w: WorldV, k: Kind, e: EntV, f: EntV)
    ensures
        trainer(w, k, e) <==> e.selected && e.team == w.my_team && e.kind == k && !e.build_left.positive()
            && !e.build_left.is_nan(),
        e.queue.len() < f.queue.len() ==> less_loaded(e, f) && !less_loaded(f, e),
        e.queue.len() == f.queue.len() && e.id < f.id ==> less_loaded(e, f) && !less_loaded(f, e),
{
}

/// A click reaches twelve units beyond a body, a double click on a building takes those of its
/// kind within 540 units, and a drag of under six units is a click.
pub proof fn clicks_have_their_reach()
    ensures
        CLICK_SLACK == 12,
        CLUSTER_SQ == 540 * 540,
        TINY_BOX == 6,
{
}

} // verus!
