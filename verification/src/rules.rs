//! Damage, death, the end of messages and marks, and who has won.

use vstd::prelude::*;
use crate::audio::Sfx;
use crate::kind::{is_building, is_mover, Kind, Team, MAX_FACTIONS};
use crate::num::{Num, V2};
use crate::select::one;
use crate::world::{
    ent_words, ents_view, ents_words, notes_view, total, world_words, Ent, EntV, Ping, World, WorldV,
};

verus! {

/// How long something that was hit flashes: a tenth of a second.
pub const FLASH_BITS: u32 = 0x3DCC_CCCD;

/// How long no further alarm is raised: six seconds.
pub const WARN_SECONDS: u32 = 6;

// ---- damage ---------------------------------------------------------------------------------

impl WorldV {
    /// The match after the entity in slot `i` was hit. The first hit on the local player in a
    /// while raises the alarm.
    pub open spec fn hit(self, i: int, hp: Num) -> WorldV {
        if !(0 <= i < self.ents.len()) {
            self
        } else {
            let e = self.ents[i];
            let w = self.with(i, EntV { hp, flash: Num { bits: FLASH_BITS }, ..e });
            if e.team == self.my_team && self.attack_warn.at_most(Num { bits: 0 }) {
                (WorldV { attack_warn: Num::whole(WARN_SECONDS), ..w }).told("UNDER ATTACK!"@).heard(
                    Sfx::Alarm,
                    None,
                )
            } else {
                w
            }
        }
    }
}

impl World {
    /// Takes the entity in slot `i` down to `hp` hit points. A slot that is no longer there
    /// is passed over.
    pub fn apply_damage(&mut self, i: usize, hp: Num)
        requires
            old(self).wf(),
        ensures
            final(self).wf(),
            final(self)@ == old(self)@.hit(i as int, hp),
    {
        let ghost w0 = self@;
        if i >= self.ents.len() {
            return;
        }
        let ghost e0 = w0.ents[i as int];
        assert(e0 == self.ents@[i as int]@);
        self.ents[i].hp = hp;
        self.ents[i].flash = Num { bits: FLASH_BITS };
        proof {
            let e1 = EntV { hp, flash: Num { bits: FLASH_BITS }, ..e0 };
            assert(self.ents@[i as int]@ =~= e1);
            assert(self@.ents =~= w0.ents.update(i as int, e1));
        }
        if self.ents[i].team == self.my_team && self.attack_warn.at_most(Num { bits: 0 }) {
            let ghost w1 = self@;
            self.attack_warn = Num::whole(WARN_SECONDS);
            assert(self@ =~= (WorldV { attack_warn: Num::whole(WARN_SECONDS), ..w1 }));
            self.msg("UNDER ATTACK!");
            self.push_sound(Sfx::Alarm, None);
        }
    }
}

// ---- death ----------------------------------------------------------------------------------

/// Whether an entity stays: a patch with something left, anything else with hit points left.
pub open spec fn stays(e: EntV) -> bool {
    if e.kind == Kind::Mineral {
        e.minerals > 0
    } else {
        e.hp.positive()
    }
}

/// Whether an entity is going: a patch that is empty, anything else without hit points.
pub open spec fn goes(e: EntV) -> bool {
    if e.kind == Kind::Mineral {
        e.minerals == 0
    } else {
        e.hp.at_most(Num { bits: 0 })
    }
}

/// Unless its hit points are no number, an entity stays or goes.
pub proof fn stays_or_goes(e: EntV)
    requires
        !e.hp.is_nan(),
    ensures
        stays(e) <==> !goes(e),
{
}

/// Those of the entities that stay, in order.
pub open spec fn staying(ents: Seq<EntV>) -> Seq<EntV>
    decreases ents.len(),
{
    if ents.len() == 0 {
        Seq::empty()
    } else if stays(ents.last()) {
        staying(ents.drop_last()).push(ents.last())
    } else {
        staying(ents.drop_last())
    }
}

/// Place, kind and team of those that are going, in order.
pub open spec fn going(ents: Seq<EntV>) -> Seq<(V2, Kind, Team)>
    decreases ents.len(),
{
    if ents.len() == 0 {
        Seq::empty()
    } else if goes(ents.last()) {
        going(ents.drop_last()).push((ents.last().pos, ents.last().kind, ents.last().team))
    } else {
        going(ents.drop_last())
    }
}

/// A walker of the second faction that is going counts once on the scoreboard.
pub open spec fn scored() -> spec_fn(EntV) -> int {
    |e: EntV| one(goes(e) && e.team == Team::Enemy && is_mover(e.kind))
}

impl WorldV {
    /// The match after the dead and the empty patches were taken off the map, and the
    /// second faction's walkers among them counted.
    pub open spec fn cleared(self) -> WorldV {
        WorldV {
            ents: staying(self.ents),
            kills: (self.kills + total(self.ents, scored())) as u32,
            ..self
        }
    }
}

impl World {
    /// Takes the dead and the empty patches off the map. Returns them, for their effects.
    pub fn cleanup(&mut self) -> (gone: Vec<(V2, Kind, Team)>)
        requires
            old(self).wf(),
            old(self).kills + old(self).ents@.len() <= u32::MAX,
        ensures
            final(self).wf(),
            gone@ == going(old(self)@.ents),
            final(self)@ == old(self)@.cleared(),
    {
        let ghost w0 = self@;
        let ghost ev = w0.ents;
        let mut gone: Vec<(V2, Kind, Team)> = Vec::new();
        let mut kills: u32 = 0;
        let n: usize = self.ents.len();
        assert(ev.take(0) =~= Seq::<EntV>::empty());
        for i in 0..n
            invariant
                n == self.ents@.len(),
                ev == self@.ents,
                w0 == self@,
                *self == *old(self),
                gone@ == going(ev.take(i as int)),
                kills == total(ev.take(i as int), scored()),
                kills <= i,
                old(self).kills + n <= u32::MAX,
        {
            proof {
                assert(ev.take(i + 1).drop_last() =~= ev.take(i as int));
                assert(ev.take(i + 1).last() == self.ents@[i as int]@);
            }
            let e = &self.ents[i];
            let dead: bool = if e.kind == Kind::Mineral {
                e.minerals == 0
            } else {
                e.hp.at_most(Num { bits: 0 })
            };
            if dead {
                gone.push((e.pos, e.kind, e.team));
                if e.team == Team::Enemy && is_mover(e.kind) {
                    kills = kills + 1;
                }
            }
        }
        assert(ev.take(n as int) =~= ev);
        self.kills = self.kills + kills;
        let mut back: Vec<Ent> = Vec::new();
        let mut rest: Vec<Ent> = Vec::new();
        std::mem::swap(&mut rest, &mut self.ents);
        proof {
            assert(ents_view(rest@) == ev);
            assert(staying_from(ev, n as int) =~= Seq::<EntV>::empty());
            assert(ents_view(back@).reverse() =~= Seq::<EntV>::empty());
        }
        while rest.len() > 0
            invariant
                ents_view(rest@) == ev.take(rest@.len() as int),
                rest@.len() <= ev.len(),
                ents_view(back@).reverse() == staying_from(ev, rest@.len() as int),
                self.ents@.len() == 0,
                self.wf(),
                back@.len() + rest@.len() <= ev.len(),
            decreases rest@.len(),
        {
            let ghost r0 = rest@;
            let e = rest.pop().unwrap();
            assert(r0 =~= rest@.push(e));
            let ghost k = rest@.len() as int;
            let ghost b0 = back@;
            proof {
                assert(ents_view(rest@.push(e)) == ev.take(k + 1));
                assert(ents_view(rest@.push(e))[k] == e@);
                assert(ev[k] == e@);
                assert(ents_view(rest@) =~= ev.take(k));
            }
            let keep: bool = if e.kind == Kind::Mineral {
                e.minerals > 0
            } else {
                e.hp.positive()
            };
            if keep {
                back.push(e);
                proof {
                    assert(ents_view(back@) =~= ents_view(b0).push(e@));
                    assert(ents_view(b0).push(e@).reverse() =~= seq![e@] + ents_view(b0).reverse());
                }
            }
        }
        proof {
            lemma_staying_from(ev, 0);
            assert(ev.take(0) =~= Seq::<EntV>::empty());
            assert(staying(ev.take(0)) + staying_from(ev, 0) =~= staying_from(ev, 0));
        }
        let ghost total_kept = ents_view(back@).reverse();
        assert(total_kept == staying(ev));
        proof {
            assert(ents_view(self.ents@) + ents_view(back@).reverse() =~= total_kept);
        }
        while back.len() > 0
            invariant
                ents_view(self.ents@) + ents_view(back@).reverse() == total_kept,
                self.ents@.len() + back@.len() == total_kept.len(),
                total_kept.len() <= crate::world::MAX_ENTS,
                2 <= self.factions <= MAX_FACTIONS,
                self@ == (WorldV {
                    ents: ents_view(self.ents@),
                    kills: (w0.kills + total(w0.ents, scored())) as u32,
                    ..w0
                }),
            decreases back@.len(),
        {
            let ghost s0 = self.ents@;
            let ghost b0 = back@;
            let e = back.pop().unwrap();
            let ghost b1 = back@;
            assert(b0 =~= b1.push(e));
            proof {
                assert(ents_view(b1.push(e)).reverse() =~= seq![e@] + ents_view(b1).reverse());
            }
            self.ents.push(e);
            proof {
                assert(ents_view(self.ents@) =~= ents_view(s0).push(e@));
                assert(ents_view(self.ents@) + ents_view(b1).reverse() =~= ents_view(s0) + (seq![e@]
                    + ents_view(b1).reverse()));
            }
        }
        proof {
            assert(ents_view(self.ents@) =~= total_kept);
        }
        gone
    }
}

/// Those of the entities from slot `k` on that stay, in order.
spec fn staying_from(ents: Seq<EntV>, k: int) -> Seq<EntV>
    decreases ents.len() - k,
{
    if k < 0 || k >= ents.len() {
        Seq::empty()
    } else if stays(ents[k]) {
        seq![ents[k]] + staying_from(ents, k + 1)
    } else {
        staying_from(ents, k + 1)
    }
}

proof fn lemma_staying_from(ents: Seq<EntV>, k: int)
    requires
        0 <= k <= ents.len(),
    ensures
        staying(ents.take(k)) + staying_from(ents, k) == staying(ents),
    decreases ents.len() - k,
{
    if k < ents.len() {
        lemma_staying_from(ents, k + 1);
        assert(ents.take(k + 1).drop_last() =~= ents.take(k));
        if stays(ents[k]) {
            assert(staying(ents.take(k)).push(ents[k]) + staying_from(ents, k + 1) =~= staying(
                ents.take(k),
            ) + (seq![ents[k]] + staying_from(ents, k + 1)));
        }
    } else {
        assert(ents.take(k) =~= ents);
        assert(staying(ents) + staying_from(ents, k) =~= staying(ents));
    }
}

/// Only those stay that are alive: nothing dead and no empty patch is left on the map.
pub proof fn only_the_living_stay(ents: Seq<EntV>, i: int)
    requires
        0 <= i < staying(ents).len(),
    ensures
        stays(staying(ents)[i]),
        ents.contains(staying(ents)[i]),
    decreases ents.len(),
{
    let f = ents.drop_last();
    let s = staying(ents);
    if stays(ents.last()) && i == s.len() - 1 {
        assert(ents[ents.len() - 1] == s[i]);
    } else {
        only_the_living_stay(f, i);
        let q = choose|q: int| 0 <= q < f.len() && f[q] == staying(f)[i];
        assert(ents[q] == s[i]);
    }
}

// ---- fading ---------------------------------------------------------------------------------

/// Marks with the time they have left; those with none are gone.
pub open spec fn faded_pings(pings: Seq<Ping>, left: Seq<Num>) -> Seq<Ping>
    decreases pings.len(),
{
    if pings.len() == 0 {
        Seq::empty()
    } else {
        let l = left[pings.len() - 1];
        let front = faded_pings(pings.drop_last(), left);
        if l.positive() {
            front.push(Ping { life: l, ..pings.last() })
        } else {
            front
        }
    }
}

/// Messages with the time they have left; those with none are gone.
pub open spec fn faded_notes(notes: Seq<(Seq<char>, Num)>, left: Seq<Num>) -> Seq<(Seq<char>, Num)>
    decreases notes.len(),
{
    if notes.len() == 0 {
        Seq::empty()
    } else {
        let l = left[notes.len() - 1];
        let front = faded_notes(notes.drop_last(), left);
        if l.positive() {
            front.push((notes.last().0, l))
        } else {
            front
        }
    }
}

/// Entities with the time they flash on.
pub open spec fn faded_ents(ents: Seq<EntV>, left: Seq<Num>) -> Seq<EntV> {
    ents.map(
        |i: int, e: EntV|
            EntV {
                flash: if e.flash.positive() {
                    left[i]
                } else {
                    e.flash
                },
                ..e
            },
    )
}

impl WorldV {
    /// The match after marks, messages and flashes have faded. The three lists hold what each
    /// has left.
    pub open spec fn faded(self, ping_left: Seq<Num>, note_left: Seq<Num>, flash_left: Seq<Num>) -> WorldV {
        WorldV {
            pings: faded_pings(self.pings, ping_left),
            messages: faded_notes(self.messages, note_left),
            ents: faded_ents(self.ents, flash_left),
            ..self
        }
    }

    /// The match at the start of a tick: its clock is set on, unless it is decided.
    pub open spec fn ticked(self, time: Num, warn: Num) -> WorldV {
        if self.match_over {
            self
        } else {
            WorldV { time, attack_warn: warn, ..self }
        }
    }
}

proof fn lemma_faded_words(ents: Seq<EntV>, left: Seq<Num>)
    ensures
        ents_words(faded_ents(ents, left)) == ents_words(ents),
    decreases ents.len(),
{
    if ents.len() > 0 {
        lemma_faded_words(ents.drop_last(), left);
        let f = faded_ents(ents, left);
        assert(f.drop_last() =~= faded_ents(ents.drop_last(), left));
        assert(ent_words(f.last()) =~= ent_words(ents.last()));
    }
}

/// A decided match is frozen, alike on every peer: a tick of it sets nothing on, and what
/// fades in it is only what is there to be looked at. Nothing that the peers compare changes,
/// nor the outcome, the clock, the banks, or any entity but for its flash.
pub proof fn decided_matches_are_frozen(
    w: WorldV,
    time: Num,
    warn: Num,
    ping_left: Seq<Num>,
    note_left: Seq<Num>,
    flash_left: Seq<Num>,
)
    requires
        w.match_over,
    ensures
        ({
            let v = w.ticked(time, warn).faded(ping_left, note_left, flash_left);
            &&& world_words(v) == world_words(w)
            &&& v == WorldV { ents: v.ents, pings: v.pings, messages: v.messages, ..w }
            &&& v.ents.len() == w.ents.len()
            &&& forall|i: int|
                0 <= i < w.ents.len() ==> #[trigger] v.ents[i] == (EntV { flash: v.ents[i].flash, ..w.ents[i] })
        }),
{
    lemma_faded_words(w.ents, flash_left);
}

impl World {
    /// Begins a tick: the clock is set on to `time`, and the alarm's to `warn`. Says whether
    /// there is anything to play; in a decided match there is not, and its clocks stand.
    pub fn begin_tick(&mut self, time: Num, warn: Num) -> (runs: bool)
        requires
            old(self).wf(),
        ensures
            final(self).wf(),
            runs == !old(self)@.match_over,
            final(self)@ == old(self)@.ticked(time, warn),
    {
        if self.match_over {
            return false;
        }
        self.time = time;
        self.attack_warn = warn;
        assert(self@ =~= old(self)@.ticked(time, warn));
        true
    }

    /// Lets marks, messages and flashes fade. The three lists hold what each has left after
    /// the tick.
    pub fn decay(&mut self, ping_left: &Vec<Num>, note_left: &Vec<Num>, flash_left: &Vec<Num>)
        requires
            old(self).wf(),
            ping_left@.len() == old(self).pings@.len(),
            note_left@.len() == old(self).messages@.len(),
            flash_left@.len() == old(self).ents@.len(),
        ensures
            final(self).wf(),
            final(self)@ == old(self)@.faded(ping_left@, note_left@, flash_left@),
    {
        let ghost w0 = self@;
        let mut pings: Vec<Ping> = Vec::new();
        let np: usize = self.pings.len();
        assert(w0.pings.take(0) =~= Seq::<Ping>::empty());
        for i in 0..np
            invariant
                np == self.pings@.len(),
                w0 == self@,
                *self == *old(self),
                ping_left@.len() == np,
                pings@ == faded_pings(w0.pings.take(i as int), ping_left@),
        {
            proof {
                assert(w0.pings.take(i + 1).drop_last() =~= w0.pings.take(i as int));
            }
            if ping_left[i].positive() {
                let p = self.pings[i];
                pings.push(Ping { pos: p.pos, life: ping_left[i], color: p.color });
            }
        }
        assert(w0.pings.take(np as int) =~= w0.pings);
        self.pings = pings;
        self.fade_notes(note_left);
        let ghost w1 = self@;
        assert(w1.ents =~= w0.ents);
        let n: usize = self.ents.len();
        assert(n == w0.ents.len());
        for i in 0..n
            invariant
                n == self.ents@.len(),
                n == w1.ents.len(),
                flash_left@.len() == n,
                self.wf(),
                self@ == (WorldV { ents: self@.ents, ..w1 }),
                forall|j: int| i <= j < n ==> (#[trigger] self.ents@[j])@ == w1.ents[j],
                forall|j: int|
                    0 <= j < i ==> (#[trigger] self.ents@[j])@ == faded_ents(w1.ents, flash_left@)[j],
        {
            assert(self.ents@[i as int]@ == w1.ents[i as int]);
            if self.ents[i].flash.positive() {
                self.ents[i].flash = flash_left[i];
            }
            assert(self.ents@[i as int]@ =~= faded_ents(w1.ents, flash_left@)[i as int]);
        }
        assert(self@.ents =~= faded_ents(w1.ents, flash_left@));
    }

    fn fade_notes(&mut self, left: &Vec<Num>)
        requires
            old(self).wf(),
            left@.len() == old(self).messages@.len(),
        ensures
            final(self).wf(),
            final(self).ents@ == old(self).ents@,
            final(self)@ == (WorldV {
                messages: faded_notes(old(self)@.messages, left@),
                ..old(self)@
            }),
    {
        let ghost w0 = self@;
        let ghost m0 = self.messages@;
        let mut kept: Vec<(String, Num)> = Vec::new();
        let mut rest: Vec<(String, Num)> = Vec::new();
        std::mem::swap(&mut rest, &mut self.messages);
        let n: usize = rest.len();
        let mut i: usize = 0;
        proof {
            assert(w0.messages.take(0) =~= Seq::<(Seq<char>, Num)>::empty());
            assert(notes_view(kept@) =~= Seq::<(Seq<char>, Num)>::empty());
            assert(rest@ =~= m0.skip(0));
        }
        while i < n
            invariant
                i <= n,
                n == m0.len(),
                left@.len() == n,
                w0.messages == notes_view(m0),
                rest@ == m0.skip(i as int),
                notes_view(kept@) == faded_notes(w0.messages.take(i as int), left@),
            decreases n - i,
        {
            let ghost k0 = kept@;
            let (text, life) = rest.remove(0);
            proof {
                assert(rest@ =~= m0.skip(i + 1));
                assert(w0.messages.take(i + 1).drop_last() =~= w0.messages.take(i as int));
                assert(w0.messages.take(i + 1).last() == (m0[i as int].0@, m0[i as int].1));
                assert(m0[i as int] == m0.skip(i as int)[0]);
            }
            if left[i].positive() {
                kept.push((text, left[i]));
                proof {
                    assert(notes_view(kept@) =~= notes_view(k0).push((text@, left@[i as int])));
                }
            }
            i = i + 1;
        }
        assert(w0.messages.take(n as int) =~= w0.messages);
        self.messages = kept;
        assert(self@.ents =~= w0.ents);
    }
}

// ---- who has won ----------------------------------------------------------------------------

impl WorldV {
    /// Whether a faction is in play: it holds at least one building.
    pub open spec fn in_play(self, t: Team) -> bool {
        exists|i: int|
            0 <= i < self.ents.len() && (#[trigger] self.ents[i]).team == t && is_building(self.ents[i].kind)
    }

    /// How many of the first `n` factions are in play.
    pub open spec fn survivors(self, n: int) -> int
        decreases n,
    {
        if n <= 0 {
            0
        } else {
            self.survivors(n - 1) + one(self.in_play(Team::from_idx((n - 1) as usize)))
        }
    }

    /// The match after asking who has won. The local player has lost once its last building
    /// is gone, and has won as the last faction in play. The match ends with one faction
    /// left, and without a network as soon as the local player has lost.
    pub open spec fn judged(self) -> WorldV {
        let alive = self.survivors(self.factions as int);
        let mine = self.in_play(self.my_team);
        WorldV {
            over: if !mine {
                -1i32
            } else if alive <= 1 {
                1i32
            } else {
                self.over
            },
            match_over: self.match_over || alive <= 1 || (!mine && !self.versus),
            ..self
        }
    }
}

impl World {
    /// Whether a faction is in play.
    pub fn faction_alive(&self, t: Team) -> (r: bool)
        ensures
            r == self@.in_play(t),
    {
        let mut i: usize = 0;
        while i < self.ents.len()
            invariant
                i <= self.ents@.len(),
                forall|j: int|
                    0 <= j < i ==> !((#[trigger] self@.ents[j]).team == t && is_building(self@.ents[j].kind)),
            decreases self.ents@.len() - i,
        {
            assert(self@.ents[i as int] == self.ents@[i as int]@);
            if self.ents[i].team == t && is_building(self.ents[i].kind) {
                return true;
            }
            i = i + 1;
        }
        false
    }

    /// Asks who has won.
    pub fn check_over(&mut self)
        requires
            old(self).wf(),
        ensures
            final(self).wf(),
            final(self)@ == old(self)@.judged(),
    {
        let ghost w0 = self@;
        let mut alive: usize = 0;
        let n: usize = self.factions;
        for f in 0..n
            invariant
                n == self.factions,
                n <= MAX_FACTIONS,
                w0 == self@,
                *self == *old(self),
                alive == w0.survivors(f as int),
                alive <= f,
        {
            if self.faction_alive(Team::from_idx(f)) {
                alive = alive + 1;
            }
        }
        let mine: bool = self.faction_alive(self.my_team);
        if !mine {
            self.over = -1;
        } else if alive <= 1 {
            self.over = 1;
        }
        if alive <= 1 || (!mine && !self.versus) {
            self.match_over = true;
        }
        assert(self@.ents =~= w0.ents);
        assert(self@ =~= w0.judged());
    }
}

/// A faction without buildings is out, whatever else it has; one with any building is not.
pub proof fn last_building_decides(w: WorldV)
    ensures
        !w.in_play(w.my_team) ==> w.judged().over == -1,
        w.in_play(w.my_team) && w.survivors(w.factions as int) > 1 ==> w.judged().over == w.over,
        w.in_play(w.my_team) && w.survivors(w.factions as int) <= 1 ==> w.judged().over == 1
            && w.judged().match_over,
        w.match_over ==> w.judged().match_over,
{
}

/// Which faction's computer moves `k`-th in a tick.
pub fn ai_turn(k: usize, rot: usize, factions: usize) -> (f: usize)
    requires
        k < factions,
        2 <= factions <= MAX_FACTIONS,
    ensures
        f == (k + rot) % (factions as int),
        f < factions,
{
    proof {
        vstd::arithmetic::div_mod::lemma_add_mod_noop(k as int, rot as int, factions as int);
        vstd::arithmetic::div_mod::lemma_add_mod_noop(k as int, rot as int % factions as int, factions as int);
        vstd::arithmetic::div_mod::lemma_mod_twice(rot as int, factions as int);
    }
    (k + rot % factions) % factions
}

/// Everyone moves once a tick: no two places in the order are the same faction's.
pub proof fn turns_go_round(a: int, b: int, rot: int, n: int)
    requires
        2 <= n <= 4,
        0 <= a < n,
        0 <= b < n,
        0 <= rot,
        (a + rot) % n == (b + rot) % n,
    ensures
        a == b,
{
    if n == 2 {
    } else if n == 3 {
    } else {
    }
}

// ---- what holds of life and death -----------------------------------------------------------------

/// A hit leaves the hit points that it leaves, and a flash; nobody else feels it. The local
/// player is warned of the first hit on their own in a while, and of no hit on others.
pub proof fn hits_are_felt(w: WorldV, i: int, hp: Num, j: int)
    requires
        0 <= i < w.ents.len(),
        0 <= j < w.ents.len(),
    ensures
        ({
            let v = w.hit(i, hp);
            let alarm = w.ents[i].team == w.my_team && !w.attack_warn.positive() && !w.attack_warn.is_nan();
            &&& v.ents[i].hp == hp
            &&& v.ents[i].flash.positive()
            &&& v.ents[i] == EntV { hp, flash: v.ents[i].flash, ..w.ents[i] }
            &&& j != i ==> v.ents[j] == w.ents[j]
            &&& v.ents.len() == w.ents.len()
            &&& alarm ==> v.attack_warn == Num::whole(6) && v.messages.last().0 == "UNDER ATTACK!"@ && v.sounds.last().0
                == Sfx::Alarm
            &&& !alarm ==> v.attack_warn == w.attack_warn && v.messages == w.messages && v.sounds == w.sounds
            &&& v == WorldV {
                ents: v.ents,
                attack_warn: v.attack_warn,
                messages: v.messages,
                sounds: v.sounds,
                ..w
            }
        }),
{
}

/// The living stay and the dead go: a patch with something left and anything else with hit
/// points left stay on the map, just as they were and in their order; nothing else does. Of
/// those that go, each is reported.
pub proof fn the_living_stay_and_the_dead_go(ents: Seq<EntV>, e: EntV)
    ensures
        ({
            let alive = if e.kind == Kind::Mineral {
                e.minerals > 0
            } else {
                e.hp.positive()
            };
            let dead = if e.kind == Kind::Mineral {
                e.minerals == 0
            } else {
                e.hp.at_most(Num { bits: 0 })
            };
            &&& alive ==> staying(ents.push(e)) == staying(ents).push(e)
            &&& !alive ==> staying(ents.push(e)) == staying(ents)
            &&& dead ==> going(ents.push(e)) == going(ents).push((e.pos, e.kind, e.team))
            &&& !dead ==> going(ents.push(e)) == going(ents)
            &&& staying(Seq::<EntV>::empty()).len() == 0
            &&& going(Seq::<EntV>::empty()).len() == 0
        }),
{
    assert(ents.push(e).drop_last() =~= ents);
}

/// Nobody alive is taken off the map.
pub proof fn nobody_alive_is_taken(ents: Seq<EntV>, i: int)
    requires
        0 <= i < ents.len(),
        ents[i].kind == Kind::Mineral ==> ents[i].minerals > 0,
        ents[i].kind != Kind::Mineral ==> ents[i].hp.positive(),
    ensures
        staying(ents).contains(ents[i]),
    decreases ents.len(),
{
    let front = ents.drop_last();
    let s = staying(ents);
    if i < ents.len() - 1 {
        nobody_alive_is_taken(front, i);
        assert(front[i] == ents[i]);
        let k = choose|k: int| 0 <= k < staying(front).len() && staying(front)[k] == ents[i];
        assert(s[k] == ents[i]);
    } else {
        assert(s[s.len() - 1] == ents[i]);
    }
}

/// The scoreboard counts every walker of the second faction that dies, once, and nobody else.
pub proof fn the_score_goes_up_by_kills(ents: Seq<EntV>, e: EntV)
    ensures
        total(ents.push(e), scored()) == total(ents, scored()) + (if e.team == Team::Enemy && e.kind != Kind::Mineral
            && e.hp.at_most(Num { bits: 0 }) && e.kind != Kind::Base && e.kind != Kind::Barracks && e.kind
            != Kind::Factory && e.kind != Kind::Depot {
            1int
        } else {
            0int
        }),
        total(Seq::<EntV>::empty(), scored()) == 0,
{
    assert(ents.push(e).drop_last() =~= ents);
}

/// Clearing takes nobody's minerals, draws nothing and tells nobody.
pub proof fn clearing_only_clears(w: WorldV)
    requires
        w.kills + total(w.ents, scored()) <= u32::MAX,
        total(w.ents, scored()) >= 0,
    ensures
        w.cleared().kills == w.kills + total(w.ents, scored()),
        w.cleared() == (WorldV { ents: w.cleared().ents, kills: w.cleared().kills, ..w }),
        w.cleared().ents == staying(w.ents),
{
}

/// What fades is there while it has time left, and gone as soon as it has none: marks,
/// messages, each on its own clock and in its order; a flash burns down, and what does not
/// flash does not start to.
pub proof fn what_fades_is_gone_in_time(
    pings: Seq<Ping>,
    p: Ping,
    notes: Seq<(Seq<char>, Num)>,
    n: (Seq<char>, Num),
    left: Seq<Num>,
)
    ensures
        ({
            let l = left[pings.len() as int];
            &&& l.positive() ==> faded_pings(pings.push(p), left) == faded_pings(pings, left).push(
                Ping { pos: p.pos, life: l, color: p.color },
            )
            &&& !l.positive() ==> faded_pings(pings.push(p), left) == faded_pings(pings, left)
            &&& faded_pings(Seq::<Ping>::empty(), left).len() == 0
        }),
        ({
            let l = left[notes.len() as int];
            &&& l.positive() ==> faded_notes(notes.push(n), left) == faded_notes(notes, left).push((n.0, l))
            &&& !l.positive() ==> faded_notes(notes.push(n), left) == faded_notes(notes, left)
            &&& faded_notes(Seq::<(Seq<char>, Num)>::empty(), left).len() == 0
        }),
{
    assert(pings.push(p).drop_last() =~= pings);
    assert(notes.push(n).drop_last() =~= notes);
}

/// A flash burns down by its own clock, and nothing else about an entity changes.
pub proof fn flashes_burn_down(ents: Seq<EntV>, left: Seq<Num>, i: int)
    requires
        0 <= i < ents.len(),
    ensures
        faded_ents(ents, left).len() == ents.len(),
        ents[i].flash.positive() ==> faded_ents(ents, left)[i] == (EntV { flash: left[i], ..ents[i] }),
        !ents[i].flash.positive() ==> faded_ents(ents, left)[i] == ents[i],
{
}

/// Who is left: a faction with any building is in play, one with none is not, and the
/// survivors are all that are in play. A player without buildings has lost; one with buildings
/// has won once nobody else has any. A match is over when at most one faction is left, or,
/// off the network, when its player has lost; and once over it stays so.
pub proof fn buildings_keep_a_faction_in_play(w: WorldV, t: Team, n: int)
    requires
        0 <= n < MAX_FACTIONS,
    ensures
        w.in_play(t) <==> exists|i: int|
            0 <= i < w.ents.len() && (#[trigger] w.ents[i]).team == t && (w.ents[i].kind == Kind::Base
                || w.ents[i].kind == Kind::Barracks || w.ents[i].kind == Kind::Factory || w.ents[i].kind
                == Kind::Depot),
        w.survivors(0) == 0,
        w.in_play(Team::from_idx(n as usize)) ==> w.survivors(n + 1) == w.survivors(n) + 1,
        !w.in_play(Team::from_idx(n as usize)) ==> w.survivors(n + 1) == w.survivors(n),
        ({
            let v = w.judged();
            let alive = w.survivors(w.factions as int);
            let mine = w.in_play(w.my_team);
            &&& !mine ==> v.over == -1
            &&& mine && alive <= 1 ==> v.over == 1
            &&& mine && alive > 1 ==> v.over == w.over
            &&& v.match_over <==> w.match_over || alive <= 1 || (!mine && !w.versus)
            &&& v == WorldV { over: v.over, match_over: v.match_over, ..w }
        }),
{
    if exists|i: int|
        0 <= i < w.ents.len() && (#[trigger] w.ents[i]).team == t && (w.ents[i].kind == Kind::Base || w.ents[i].kind
            == Kind::Barracks || w.ents[i].kind == Kind::Factory || w.ents[i].kind == Kind::Depot) {
        let i = choose|i: int|
            0 <= i < w.ents.len() && (#[trigger] w.ents[i]).team == t && (w.ents[i].kind == Kind::Base
                || w.ents[i].kind == Kind::Barracks || w.ents[i].kind == Kind::Factory || w.ents[i].kind
                == Kind::Depot);
        assert(is_building(w.ents[i].kind));
    }
}

/// A running match's clock is set on, a decided one's stands.
pub proof fn clocks_run_while_the_match_does(w: WorldV, time: Num, warn: Num)
    ensures
        w.match_over ==> w.ticked(time, warn) == w,
        !w.match_over ==> w.ticked(time, warn) == (WorldV { time, attack_warn: warn, ..w }),
{
}

} // verus!
