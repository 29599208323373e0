//! How a match starts: the size of the map, who and what is put on it, and how many of each.

use vstd::prelude::*;
use crate::input::is_one;
use crate::kind::{Kind, Team, MAX_FACTIONS, MINERAL_START};
use crate::motion::lemma_fielded_size;
use crate::num::{Num, V2};
use crate::select::one;
use crate::world::{
    fielded, lemma_total_push, lemma_total_update, total, EntV, World, WorldV,
};

verus! {

/// Where a faction starts: its base, the point its units gather at, its mineral line and its
/// first workers.
#[derive(Clone, Copy)]
pub struct Start {
    pub base: V2,
    pub rally: V2,
    pub line: [V2; 7],
    pub hands: [V2; 4],
}

/// The size of the map of a match: it grows with the number of factions, by eighteen
/// hundredths for each after the second.
pub open spec fn board(factions: int) -> V2 {
    if factions <= 2 {
        V2 { x: Num { bits: 0x452F_0000 }, y: Num { bits: 0x44E1_0000 } }
    } else if factions == 3 {
        V2 { x: Num { bits: 0x454E_8001 }, y: Num { bits: 0x4504_C000 } }
    } else {
        V2 { x: Num { bits: 0x456E_0000 }, y: Num { bits: 0x4519_0000 } }
    }
}

/// The size of the map of a match.
pub fn board_size(factions: usize) -> (r: V2)
    requires
        factions <= MAX_FACTIONS,
    ensures
        r == board(factions as int),
{
    if factions <= 2 {
        V2 { x: Num { bits: 0x452F_0000 }, y: Num { bits: 0x44E1_0000 } }
    } else if factions == 3 {
        V2 { x: Num { bits: 0x454E_8001 }, y: Num { bits: 0x4504_C000 } }
    } else {
        V2 { x: Num { bits: 0x456E_0000 }, y: Num { bits: 0x4519_0000 } }
    }
}

/// More factions have more room, either way; two have 2800 by 1800.
pub proof fn maps_grow_with_the_players(a: int, b: int)
    requires
        2 <= a < b <= MAX_FACTIONS,
    ensures
        board(a).x.less(board(b).x),
        board(a).y.less(board(b).y),
        !board(2).x.less(Num { bits: 0x452F_0000 }),
        (Num { bits: 0x452F_0000 }).less(board(b).x),
{
}

/// How many patches the contested fields have: one in the middle, two more from three
/// factions on, and another two for four.
pub open spec fn field_sizes(factions: int) -> Seq<nat> {
    if factions <= 2 {
        seq![6nat]
    } else if factions == 3 {
        seq![6nat, 5nat, 5nat]
    } else {
        seq![6nat, 5nat, 5nat, 5nat, 5nat]
    }
}

/// How many patches each of the contested fields has.
pub fn contested_fields(factions: usize) -> (r: Vec<usize>)
    ensures
        r@.map_values(|n: usize| n as nat) == field_sizes(factions as int),
{
    let r: Vec<usize> = if factions <= 2 {
        vec![6]
    } else if factions == 3 {
        vec![6, 5, 5]
    } else {
        vec![6, 5, 5, 5, 5]
    };
    assert(r@.map_values(|n: usize| n as nat) =~= field_sizes(factions as int));
    r
}

/// Whether there is a start for each faction, and the contested fields have their sizes.
pub open spec fn planned(factions: int, starts: Seq<Start>, fields: Seq<Seq<V2>>) -> bool {
    &&& starts.len() == factions
    &&& fields.len() == field_sizes(factions).len()
    &&& forall|k: int| 0 <= k < fields.len() ==> (#[trigger] fields[k]).len() == field_sizes(factions)[k]
}

/// Points by field.
pub open spec fn fields_view(fields: Seq<Vec<V2>>) -> Seq<Seq<V2>> {
    fields.map_values(|f: Vec<V2>| f@)
}

impl WorldV {
    /// The match with the first `n` factions on the map.
    pub open spec fn peopled_by(self, starts: Seq<Start>, n: int) -> WorldV
        decreases n,
    {
        if n <= 0 {
            self
        } else {
            let s = starts[n - 1];
            self.peopled_by(starts, n - 1).set_up(
                Team::from_idx((n - 1) as usize),
                s.base,
                s.rally,
                s.line@,
                s.hands@,
            )
        }
    }

    /// The match with the first `n` contested fields on the map.
    pub open spec fn contested(self, fields: Seq<Seq<V2>>, n: int) -> WorldV
        decreases n,
    {
        if n <= 0 {
            self
        } else {
            fielded(self.contested(fields, n - 1), fields[n - 1])
        }
    }

    /// The match with everyone and everything on the map.
    pub open spec fn laid_out(self, starts: Seq<Start>, fields: Seq<Seq<V2>>) -> WorldV {
        self.peopled_by(starts, starts.len() as int).contested(fields, fields.len() as int)
    }
}

/// Whether every patch is full.
pub open spec fn untouched(ents: Seq<EntV>) -> bool {
    forall|i: int|
        0 <= i < ents.len() && (#[trigger] ents[i]).kind == Kind::Mineral ==> ents[i].minerals == MINERAL_START
}

/// How many of the patches of a map are in the first `n` contested fields.
pub open spec fn ore_in(fields: Seq<Seq<V2>>, n: int) -> int
    decreases n,
{
    if n <= 0 {
        0
    } else {
        ore_in(fields, n - 1) + fields[n - 1].len()
    }
}

proof fn lemma_fielded(w: WorldV, places: Seq<V2>, t: Team, k: Kind)
    requires
        w.next_id + places.len() <= u32::MAX,
    ensures
        total(fielded(w, places).ents, is_one(t, k)) == total(w.ents, is_one(t, k)) + one(
            t == Team::Neutral && k == Kind::Mineral,
        ) * places.len(),
        untouched(w.ents) ==> untouched(fielded(w, places).ents),
        fielded(w, places) == (WorldV {
            ents: fielded(w, places).ents,
            next_id: fielded(w, places).next_id,
            ..w
        }),
    decreases places.len(),
{
    let f = is_one(t, k);
    let c = one(t == Team::Neutral && k == Kind::Mineral);
    let n = places.len() as int;
    if n > 0 {
        lemma_fielded(w, places.drop_last(), t, k);
        let a = fielded(w, places.drop_last());
        let b = a.spawned(Kind::Mineral, Team::Neutral, places.last());
        let last = b.ents.len() - 1;
        let e = EntV { minerals: MINERAL_START, ..b.ents[last] };
        lemma_total_push(a.ents, f, b.ents[last]);
        lemma_total_update(b.ents, f, last, e);
        assert(c * n == c * (n - 1) + c) by (nonlinear_arith);
        assert forall|i: int|
            untouched(w.ents) && 0 <= i < fielded(w, places).ents.len() && (#[trigger] fielded(w, places).ents[i]).kind
                == Kind::Mineral implies fielded(w, places).ents[i].minerals == MINERAL_START by {
            if i < last {
                assert(fielded(w, places).ents[i] == a.ents[i]);
            }
        }
    } else {
        assert(c * n == 0) by (nonlinear_arith)
            requires
                n == 0,
        ;
    }
}

proof fn lemma_peopled(w: WorldV, team: Team, places: Seq<V2>, t: Team, k: Kind)
    requires
        w.next_id + places.len() <= u32::MAX,
    ensures
        ({
            let v = w.peopled(Kind::Worker, team, places);
            &&& total(v.ents, is_one(t, k)) == total(w.ents, is_one(t, k)) + one(
                t == team && k == Kind::Worker,
            ) * places.len()
            &&& untouched(w.ents) ==> untouched(v.ents)
            &&& v.ents.len() == w.ents.len() + places.len()
            &&& v.next_id == w.next_id + places.len()
            &&& v == WorldV { ents: v.ents, next_id: v.next_id, ..w }
        }),
    decreases places.len(),
{
    let f = is_one(t, k);
    let c = one(t == team && k == Kind::Worker);
    let n = places.len() as int;
    if n > 0 {
        lemma_peopled(w, team, places.drop_last(), t, k);
        let a = w.peopled(Kind::Worker, team, places.drop_last());
        let b = w.peopled(Kind::Worker, team, places);
        lemma_total_push(a.ents, f, b.ents[b.ents.len() - 1]);
        assert(c * n == c * (n - 1) + c) by (nonlinear_arith);
        assert forall|i: int|
            untouched(w.ents) && 0 <= i < b.ents.len() && (#[trigger] b.ents[i]).kind == Kind::Mineral implies
                b.ents[i].minerals == MINERAL_START by {
            if i < a.ents.len() {
                assert(b.ents[i] == a.ents[i]);
            }
        }
    } else {
        assert(c * n == 0) by (nonlinear_arith)
            requires
                n == 0,
        ;
    }
}

proof fn lemma_set_up(w: WorldV, team: Team, s: Start, t: Team, k: Kind)
    requires
        team != Team::Neutral,
        w.next_id + 12 <= u32::MAX,
    ensures
        ({
            let v = w.set_up(team, s.base, s.rally, s.line@, s.hands@);
            &&& total(v.ents, is_one(t, k)) == total(w.ents, is_one(t, k)) + one(t == team && k == Kind::Base)
                + 4 * one(t == team && k == Kind::Worker) + 7 * one(t == Team::Neutral && k == Kind::Mineral)
            &&& untouched(w.ents) ==> untouched(v.ents)
            &&& v.ents.len() == w.ents.len() + 12
            &&& v.next_id == w.next_id + 12
            &&& v == WorldV { ents: v.ents, next_id: v.next_id, ..w }
        }),
{
    let f = is_one(t, k);
    let n = w.ents.len() as int;
    let a = w.spawned(Kind::Base, team, s.base);
    let e = EntV { rally: s.rally, ..a.ents[n] };
    let b = a.with(n, e);
    lemma_total_push(w.ents, f, a.ents[n]);
    lemma_total_update(a.ents, f, n, e);
    assert(untouched(w.ents) ==> untouched(b.ents)) by {
        assert forall|i: int|
            untouched(w.ents) && 0 <= i < b.ents.len() && (#[trigger] b.ents[i]).kind == Kind::Mineral implies
                b.ents[i].minerals == MINERAL_START by {
            if i < n {
                assert(b.ents[i] == w.ents[i]);
            }
        }
    }
    lemma_fielded(b, s.line@, t, k);
    lemma_fielded_size(b, s.line@);
    lemma_peopled(fielded(b, s.line@), team, s.hands@, t, k);
}

proof fn lemma_factions(w: WorldV, starts: Seq<Start>, n: int, t: Team, k: Kind)
    requires
        0 <= n <= MAX_FACTIONS,
        n <= starts.len(),
        w.next_id + 12 * n <= u32::MAX,
    ensures
        ({
            let v = w.peopled_by(starts, n);
            &&& total(v.ents, is_one(t, k)) == total(w.ents, is_one(t, k)) + one(t.idx() < n && k == Kind::Base)
                + 4 * one(t.idx() < n && k == Kind::Worker) + 7 * n * one(
                t == Team::Neutral && k == Kind::Mineral,
            )
            &&& untouched(w.ents) ==> untouched(v.ents)
            &&& v.ents.len() == w.ents.len() + 12 * n
            &&& v.next_id == w.next_id + 12 * n
            &&& v == WorldV { ents: v.ents, next_id: v.next_id, ..w }
        }),
    decreases n,
{
    let c = one(t == Team::Neutral && k == Kind::Mineral);
    if n > 0 {
        lemma_factions(w, starts, n - 1, t, k);
        lemma_set_up(w.peopled_by(starts, n - 1), Team::from_idx((n - 1) as usize), starts[n - 1], t, k);
        assert(7 * n * c == 7 * (n - 1) * c + 7 * c) by (nonlinear_arith);
    } else {
        assert(7 * n * c == 0) by (nonlinear_arith)
            requires
                n == 0,
        ;
    }
}

proof fn lemma_contested(w: WorldV, fields: Seq<Seq<V2>>, n: int, t: Team, k: Kind)
    requires
        0 <= n <= fields.len(),
        w.next_id + ore_in(fields, n) <= u32::MAX,
    ensures
        ({
            let v = w.contested(fields, n);
            &&& total(v.ents, is_one(t, k)) == total(w.ents, is_one(t, k)) + ore_in(fields, n) * one(
                t == Team::Neutral && k == Kind::Mineral,
            )
            &&& untouched(w.ents) ==> untouched(v.ents)
            &&& v.ents.len() == w.ents.len() + ore_in(fields, n)
            &&& v.next_id == w.next_id + ore_in(fields, n)
            &&& v == WorldV { ents: v.ents, next_id: v.next_id, ..w }
            &&& ore_in(fields, n) >= 0
        }),
    decreases n,
{
    let c = one(t == Team::Neutral && k == Kind::Mineral);
    if n > 0 {
        lemma_contested(w, fields, n - 1, t, k);
        lemma_fielded(w.contested(fields, n - 1), fields[n - 1], t, k);
        lemma_fielded_size(w.contested(fields, n - 1), fields[n - 1]);
        let (a, b) = (ore_in(fields, n - 1), fields[n - 1].len() as int);
        assert((a + b) * c == a * c + c * b) by (nonlinear_arith);
    } else {
        assert(0 * c == 0);
    }
}

/// How many patches the contested fields of a match have together.
pub open spec fn contested_ore(factions: int) -> int {
    if factions <= 2 {
        6
    } else if factions == 3 {
        16
    } else {
        26
    }
}

proof fn lemma_ore(factions: int, starts: Seq<Start>, fields: Seq<Seq<V2>>)
    requires
        planned(factions, starts, fields),
    ensures
        ore_in(fields, fields.len() as int) == contested_ore(factions),
{
    reveal_with_fuel(ore_in, 6);
    assert(fields[0].len() == field_sizes(factions)[0]);
    if factions >= 3 {
        assert(fields[1].len() == field_sizes(factions)[1]);
        assert(fields[2].len() == field_sizes(factions)[2]);
    }
    if factions > 3 {
        assert(fields[3].len() == field_sizes(factions)[3]);
        assert(fields[4].len() == field_sizes(factions)[4]);
    }
}

/// What is on the map when a match starts: of every faction one base and four workers; seven
/// patches for each faction and those of the contested fields, all of them full; and nothing
/// else. Every faction is in play, and the banks are as they were.
pub proof fn a_match_starts_with_this(w: WorldV, starts: Seq<Start>, fields: Seq<Seq<V2>>, f: int)
    requires
        w.ents.len() == 0,
        w.next_id == 1,
        2 <= w.factions <= MAX_FACTIONS,
        planned(w.factions as int, starts, fields),
        0 <= f < w.factions,
    ensures
        ({
            let v = w.laid_out(starts, fields);
            let n = w.factions as int;
            let t = Team::from_idx(f as usize);
            &&& v.ents.len() == 12 * n + contested_ore(n)
            &&& total(v.ents, is_one(t, Kind::Base)) == 1
            &&& total(v.ents, is_one(t, Kind::Worker)) == 4
            &&& total(v.ents, is_one(Team::Neutral, Kind::Mineral)) == 7 * n + contested_ore(n)
            &&& untouched(v.ents)
            &&& v.in_play(t)
            &&& v == WorldV { ents: v.ents, next_id: v.next_id, ..w }
        }),
{
    let n = w.factions as int;
    let t = Team::from_idx(f as usize);
    let u = w.peopled_by(starts, n);
    let m = fields.len() as int;
    lemma_ore(n, starts, fields);
    lemma_factions(w, starts, n, t, Kind::Base);
    lemma_factions(w, starts, n, t, Kind::Worker);
    lemma_factions(w, starts, n, Team::Neutral, Kind::Mineral);
    lemma_contested(u, fields, m, t, Kind::Base);
    lemma_contested(u, fields, m, t, Kind::Worker);
    lemma_contested(u, fields, m, Team::Neutral, Kind::Mineral);
    assert(t.idx() == f);
    let v = w.laid_out(starts, fields);
    lemma_one_of(v.ents, t, Kind::Base);
}

proof fn lemma_one_of(ents: Seq<EntV>, t: Team, k: Kind)
    requires
        total(ents, is_one(t, k)) > 0,
    ensures
        exists|i: int| 0 <= i < ents.len() && (#[trigger] ents[i]).team == t && ents[i].kind == k,
    decreases ents.len(),
{
    if ents.len() > 0 {
        let last = ents.len() - 1;
        if ents[last].team == t && ents[last].kind == k {
        } else {
            lemma_one_of(ents.drop_last(), t, k);
            let i = choose|i: int|
                0 <= i < ents.drop_last().len() && (#[trigger] ents.drop_last()[i]).team == t
                    && ents.drop_last()[i].kind == k;
            assert(ents[i].team == t);
        }
    }
}

/// Whether a faction has what everyone starts with: one base and four workers.
pub open spec fn stocked(v: WorldV, t: Team) -> bool {
    &&& total(v.ents, is_one(t, Kind::Base)) == 1
    &&& total(v.ents, is_one(t, Kind::Worker)) == 4
    &&& v.in_play(t)
}

/// Whether every faction has what everyone starts with, and the map has all its patches, all
/// of them full.
pub open spec fn fairly_stocked(v: WorldV) -> bool {
    &&& forall|f: int| 0 <= f < v.factions ==> stocked(v, #[trigger] Team::from_idx(f as usize))
    &&& total(v.ents, is_one(Team::Neutral, Kind::Mineral)) == 7 * v.factions + contested_ore(v.factions as int)
    &&& untouched(v.ents)
}

impl World {
    /// Puts everyone and everything on the map of a new match: the factions one after the
    /// other, and then the contested fields.
    pub fn lay_out(&mut self, starts: &Vec<Start>, fields: &Vec<Vec<V2>>)
        requires
            old(self).wf(),
            old(self).ents@.len() == 0,
            old(self).next_id == 1,
            planned(old(self).factions as int, starts@, fields_view(fields@)),
        ensures
            final(self).wf(),
            final(self)@ == old(self)@.laid_out(starts@, fields_view(fields@)),
            final(self)@.ents.len() == 12 * old(self).factions + contested_ore(old(self).factions as int),
            fairly_stocked(final(self)@),
            final(self)@.minerals == old(self)@.minerals,
    {
        let ghost w0 = self@;
        let ghost fv = fields_view(fields@);
        let n: usize = starts.len();
        for i in 0..n
            invariant
                self.wf(),
                n == starts@.len(),
                n <= MAX_FACTIONS,
                w0 == old(self)@,
                w0.ents.len() == 0,
                w0.next_id == 1,
                self@ == w0.peopled_by(starts@, i as int),
        {
            proof {
                lemma_factions(w0, starts@, i as int, Team::Neutral, Kind::Mineral);
            }
            let s: Start = starts[i];
            let mut line: Vec<V2> = Vec::new();
            for j in 0..7usize
                invariant
                    line@ == s.line@.take(j as int),
            {
                line.push(s.line[j]);
                assert(line@ =~= s.line@.take(j + 1));
            }
            let mut hands: Vec<V2> = Vec::new();
            for j in 0..4usize
                invariant
                    hands@ == s.hands@.take(j as int),
            {
                hands.push(s.hands[j]);
                assert(hands@ =~= s.hands@.take(j + 1));
            }
            assert(line@ =~= s.line@);
            assert(hands@ =~= s.hands@);
            self.setup(Team::from_idx(i), s.base, s.rally, &line, &hands);
        }
        let ghost w1 = self@;
        let m: usize = fields.len();
        proof {
            lemma_factions(w0, starts@, n as int, Team::Neutral, Kind::Mineral);
            lemma_ore(self.factions as int, starts@, fv);
        }
        for i in 0..m
            invariant
                self.wf(),
                m == fields@.len(),
                fv == fields_view(fields@),
                w1.ents.len() <= 48,
                w1.next_id <= 49,
                ore_in(fv, m as int) <= 26,
                self@ == w1.contested(fv, i as int),
        {
            proof {
                lemma_ore_part(fv, i + 1, m as int);
                lemma_ore_part(fv, i as int, m as int);
                lemma_contested(w1, fv, i as int, Team::Neutral, Kind::Mineral);
                assert(fv[i as int] == fields@[i as int]@);
            }
            self.mineral_field(&fields[i]);
        }
        proof {
            lemma_contested(w1, fv, m as int, Team::Neutral, Kind::Mineral);
            a_match_starts_with_this(w0, starts@, fv, 0);
            assert forall|f: int| 0 <= f < w0.factions implies stocked(self@, #[trigger] Team::from_idx(f as usize)) by {
                a_match_starts_with_this(w0, starts@, fv, f);
            }
        }
    }
}

proof fn lemma_ore_part(fields: Seq<Seq<V2>>, i: int, n: int)
    requires
        0 <= i <= n,
    ensures
        0 <= ore_in(fields, i) <= ore_in(fields, n),
    decreases n,
{
    if i < n {
        lemma_ore_part(fields, i, n - 1);
    } else if n > 0 {
        lemma_ore_part(fields, n - 1, n - 1);
    }
}

// ---- where everything is ------------------------------------------------------------------------------

proof fn lemma_fielded_places(w: WorldV, places: Seq<V2>, k: int)
    requires
        0 <= k < w.ents.len() + places.len(),
    ensures
        fielded(w, places).ents.len() == w.ents.len() + places.len(),
        k < w.ents.len() ==> fielded(w, places).ents[k] == w.ents[k],
        k >= w.ents.len() ==> ({
            let e = fielded(w, places).ents[k];
            e.pos == places[k - w.ents.len()] && e.kind == Kind::Mineral && e.team == Team::Neutral && e.minerals == 1500
        }),
    decreases places.len(),
{
    if places.len() > 0 {
        if k < w.ents.len() + places.len() - 1 {
            lemma_fielded_places(w, places.drop_last(), k);
        } else if places.len() > 1 {
            lemma_fielded_places(w, places.drop_last(), w.ents.len() as int);
        }
    }
}

proof fn lemma_peopled_places(w: WorldV, t: Team, places: Seq<V2>, k: int)
    requires
        0 <= k < w.ents.len() + places.len(),
    ensures
        w.peopled(Kind::Worker, t, places).ents.len() == w.ents.len() + places.len(),
        k < w.ents.len() ==> w.peopled(Kind::Worker, t, places).ents[k] == w.ents[k],
        k >= w.ents.len() ==> ({
            let e = w.peopled(Kind::Worker, t, places).ents[k];
            e.pos == places[k - w.ents.len()] && e.kind == Kind::Worker && e.team == t
        }),
    decreases places.len(),
{
    if places.len() > 0 {
        if k < w.ents.len() + places.len() - 1 {
            lemma_peopled_places(w, t, places.drop_last(), k);
        } else if places.len() > 1 {
            lemma_peopled_places(w, t, places.drop_last(), w.ents.len() as int);
        }
    }
}

/// A faction is put where its start says: its base with its rally point, its patches along its
/// line and its workers at their places; and whatever is on the map already stays as it is.
pub proof fn factions_stand_at_their_starts(w: WorldV, t: Team, s: Start, k: int, j: int)
    requires
        0 <= k < 7,
        0 <= j < w.ents.len() || w.ents.len() == 0,
    ensures
        ({
            let n = w.ents.len() as int;
            let v = w.set_up(t, s.base, s.rally, s.line@, s.hands@);
            let (b, p, h) = (v.ents[n], v.ents[n + 1 + k], v.ents[n + 8 + k]);
            &&& v.ents.len() == n + 12
            &&& b.kind == Kind::Base && b.team == t && b.pos == s.base && b.rally == s.rally && !b.rally_set
            &&& p.kind == Kind::Mineral && p.team == Team::Neutral && p.pos == s.line[k] && p.minerals == 1500
            &&& k < 4 ==> h.kind == Kind::Worker && h.team == t && h.pos == s.hands[k]
            &&& n > 0 ==> v.ents[j] == w.ents[j]
        }),
{
    let n = w.ents.len() as int;
    let a = w.spawned(Kind::Base, t, s.base);
    let b = a.with(n, EntV { rally: s.rally, ..a.ents[n] });
    let f = fielded(b, s.line@);
    lemma_fielded_places(b, s.line@, n);
    lemma_fielded_places(b, s.line@, n + 1 + k);
    lemma_peopled_places(f, t, s.hands@, n);
    lemma_peopled_places(f, t, s.hands@, n + 1 + k);
    if k < 4 {
        lemma_peopled_places(f, t, s.hands@, n + 8 + k);
    }
    if n > 0 {
        lemma_fielded_places(b, s.line@, j);
        lemma_peopled_places(f, t, s.hands@, j);
    }
}

/// Everyone starts where they were told to: the factions one after the other, each at its own
/// start and under its own colours.
pub proof fn everyone_starts_in_their_place(w: WorldV, starts: Seq<Start>, n: int, f: int, k: int)
    requires
        w.ents.len() == 0,
        0 <= f < n <= starts.len(),
        n <= MAX_FACTIONS,
        0 <= k < 7,
    ensures
        ({
            let v = w.peopled_by(starts, n);
            let t = Team::from_idx(f as usize);
            let s = starts[f];
            &&& v.ents.len() == 12 * n
            &&& v.ents[12 * f].kind == Kind::Base && v.ents[12 * f].team == t && v.ents[12 * f].pos == s.base
            &&& v.ents[12 * f + 1 + k].kind == Kind::Mineral && v.ents[12 * f + 1 + k].pos == s.line[k]
            &&& k < 4 ==> v.ents[12 * f + 8 + k].kind == Kind::Worker && v.ents[12 * f + 8 + k].team == t
                && v.ents[12 * f + 8 + k].pos == s.hands[k]
        }),
    decreases n,
{
    let u = w.peopled_by(starts, n - 1);
    let t = Team::from_idx((n - 1) as usize);
    let s = starts[n - 1];
    lemma_people(w, starts, n - 1);
    if f == n - 1 {
        factions_stand_at_their_starts(u, t, s, k, 0);
    } else {
        everyone_starts_in_their_place(w, starts, n - 1, f, k);
        factions_stand_at_their_starts(u, t, s, k, 12 * f);
        factions_stand_at_their_starts(u, t, s, k, 12 * f + 1 + k);
        if k < 4 {
            factions_stand_at_their_starts(u, t, s, k, 12 * f + 8 + k);
        }
    }
}

proof fn lemma_people(w: WorldV, starts: Seq<Start>, n: int)
    requires
        w.ents.len() == 0,
        0 <= n <= starts.len(),
    ensures
        w.peopled_by(starts, n).ents.len() == 12 * n,
    decreases n,
{
    if n > 0 {
        lemma_people(w, starts, n - 1);
        factions_stand_at_their_starts(
            w.peopled_by(starts, n - 1),
            Team::from_idx((n - 1) as usize),
            starts[n - 1],
            0,
            0,
        );
    }
}

/// A contested field is where it was planned, one full patch at each of its points, and nothing
/// that was there before is moved for it.
pub proof fn fields_lie_where_planned(w: WorldV, fields: Seq<Seq<V2>>, i: int, k: int, j: int)
    requires
        0 <= i < fields.len(),
        0 <= k < fields[i].len(),
        0 <= j < w.contested(fields, i).ents.len() || w.contested(fields, i).ents.len() == 0,
    ensures
        ({
            let u = w.contested(fields, i);
            let v = w.contested(fields, i + 1);
            let e = v.ents[u.ents.len() + k];
            &&& v.ents.len() == u.ents.len() + fields[i].len()
            &&& e.kind == Kind::Mineral && e.team == Team::Neutral && e.pos == fields[i][k] && e.minerals == 1500
            &&& u.ents.len() > 0 ==> v.ents[j] == u.ents[j]
        }),
        w.contested(fields, 0) == w,
{
    let u = w.contested(fields, i);
    lemma_fielded_places(u, fields[i], u.ents.len() + k);
    if u.ents.len() > 0 {
        lemma_fielded_places(u, fields[i], j);
    }
}

/// The sizes of the contested fields: one of six, with three factions two more of five, and with
/// four another two.
pub proof fn more_factions_have_more_fields(n: int)
    requires
        2 <= n <= 4,
    ensures
        field_sizes(n)[0] == 6,
        field_sizes(n).len() == 2 * n - 3,
        forall|i: int| 1 <= i < field_sizes(n).len() ==> #[trigger] field_sizes(n)[i] == 5,
        contested_ore(n) == 6 + 10 * (n - 2),
{
}

} // verus!
