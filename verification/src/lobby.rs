//! Before the match: the host hands out faction slots to joiners and starts the match
//! with computers in the empty ones; a joiner learns its slot, waits for the start, and
//! refuses a match that cannot be. Also the datagrams by which joiners find a host.

use vstd::prelude::*;
use crate::kind::MAX_FACTIONS;
use crate::link::{after_send, decoded, msgs_view, parse, Link, LinkV};
use crate::lockstep::{links_view, Lockstep, LockstepV};
use crate::wire::{pack_teams, team_bits, unpack_teams, Msg, MsgV, TEAMS_FFA};

verus! {

/// UDP port that hosts answer on.
pub const DISCO_PORT: u16 = 50321;

/// What is wrong with a handshake.
#[derive(Clone, Copy, PartialEq, Eq, Structural, Debug)]
pub enum Refusal {
    /// No welcome, or one to a slot that nobody can join.
    BadWelcome,
    /// No start, or one with an impossible number of factions.
    BadStart,
    /// A match too small for the slot we were given.
    FactionOutOfRange,
}

/// What a start message settles.
#[derive(Clone, Copy)]
pub struct MatchCfg {
    pub seed: u64,
    pub factions: usize,
    pub is_ai: [bool; 4],
    pub alliance: [u8; 4],
}

/// Whether bit `f` of a mask is set.
pub open spec fn mask_bit(mask: u8, f: int) -> bool {
    if f == 0 {
        mask % 2 == 1
    } else if f == 1 {
        mask / 2 % 2 == 1
    } else if f == 2 {
        mask / 4 % 2 == 1
    } else {
        mask / 8 % 2 == 1
    }
}

/// Which factions a mask marks as computers.
pub fn unmask(mask: u8) -> (r: [bool; 4])
    ensures
        forall|f: int| 0 <= f < 4 ==> #[trigger] r[f] == mask_bit(mask, f),
{
    [mask % 2 == 1, mask / 2 % 2 == 1, mask / 4 % 2 == 1, mask / 8 % 2 == 1]
}

/// The mask of the factions that are computers.
pub fn mask_of(is_ai: &[bool; 4]) -> (r: u8)
    ensures
        r < 16,
        forall|f: int| 0 <= f < 4 ==> mask_bit(r, f) == #[trigger] is_ai[f],
{
    let a: u8 = if is_ai[0] { 1 } else { 0 };
    let b: u8 = if is_ai[1] { 2 } else { 0 };
    let c: u8 = if is_ai[2] { 4 } else { 0 };
    let d: u8 = if is_ai[3] { 8 } else { 0 };
    a + b + c + d
}

/// A mask gives back the computers it was made from.
pub proof fn masks_roundtrip(mask: u8, other: u8)
    requires
        mask < 16,
        other < 16,
        forall|f: int| 0 <= f < 4 ==> mask_bit(mask, f) == #[trigger] mask_bit(other, f),
    ensures
        mask == other,
{
    assert(mask_bit(mask, 0) == mask_bit(other, 0));
    assert(mask_bit(mask, 1) == mask_bit(other, 1));
    assert(mask_bit(mask, 2) == mask_bit(other, 2));
    assert(mask_bit(mask, 3) == mask_bit(other, 3));
}

/// The slot that a welcome assigns: only slots past the host's can be joined.
pub fn check_welcome(m: &Msg) -> (r: Result<usize, Refusal>)
    ensures
        match m@ {
            MsgV::Welcome { faction } => if 1 <= faction < MAX_FACTIONS {
                r == Ok::<usize, Refusal>(faction as usize)
            } else {
                r == Err::<usize, Refusal>(Refusal::BadWelcome)
            },
            _ => r == Err::<usize, Refusal>(Refusal::BadWelcome),
        },
{
    match m {
        Msg::Welcome { faction } => if 1 <= *faction && *faction < 4 {
            Ok(*faction as usize)
        } else {
            Err(Refusal::BadWelcome)
        },
        _ => Err(Refusal::BadWelcome),
    }
}

/// Whether a configuration is what a start message says.
pub open spec fn cfg_of(c: MatchCfg, seed: u64, factions: u8, ai_mask: u8, teams: u8) -> bool {
    &&& c.seed == seed
    &&& c.factions == factions
    &&& forall|f: int| 0 <= f < 4 ==> #[trigger] c.is_ai[f] == mask_bit(ai_mask, f)
    &&& forall|f: int| 0 <= f < 4 ==> #[trigger] c.alliance[f] == team_bits(teams, f)
}

/// The match that a start message describes, for the holder of a slot.
pub fn check_start(m: &Msg, my_faction: usize) -> (r: Result<MatchCfg, Refusal>)
    ensures
        match m@ {
            MsgV::Start { seed, factions, ai_mask, teams } => if !(2 <= factions <= MAX_FACTIONS) {
                r == Err::<MatchCfg, Refusal>(Refusal::BadStart)
            } else if my_faction >= factions {
                r == Err::<MatchCfg, Refusal>(Refusal::FactionOutOfRange)
            } else {
                r is Ok && cfg_of(r->Ok_0, seed, factions, ai_mask, teams)
            },
            _ => r == Err::<MatchCfg, Refusal>(Refusal::BadStart),
        },
{
    match m {
        Msg::Start { seed, factions, ai_mask, teams } => {
            let n: usize = *factions as usize;
            if n < 2 || n > MAX_FACTIONS {
                Err(Refusal::BadStart)
            } else if my_faction >= n {
                Err(Refusal::FactionOutOfRange)
            } else {
                Ok(
                    MatchCfg {
                        seed: *seed,
                        factions: n,
                        is_ai: unmask(*ai_mask),
                        alliance: unpack_teams(*teams),
                    },
                )
            }
        },
        _ => Err(Refusal::BadStart),
    }
}

// ---- the host ---------------------------------------------------------------------

/// A host gathering players. Each link carries the slot it was welcomed with.
pub struct Host {
    pub port: u16,
    pub seed: u64,
    pub factions: usize,
    pub teams: [u8; 4],
    pub peers: Vec<Link>,
}

/// Whether some link holds slot `f`.
pub open spec fn taken(peers: Seq<LinkV>, f: int) -> bool {
    exists|k: int| 0 <= k < peers.len() && (#[trigger] peers[k]).faction == f
}

/// Every joiner has a slot of its own.
pub open spec fn slots_distinct(peers: Seq<LinkV>) -> bool {
    forall|i: int, j: int|
        0 <= i < peers.len() && 0 <= j < peers.len() && i != j ==> (#[trigger] peers[i]).faction != (
        #[trigger] peers[j]).faction
}

/// The links that are still open.
pub open spec fn survivors(peers: Seq<LinkV>) -> Seq<LinkV> {
    peers.filter(|l: LinkV| !l.closed)
}

/// A link after the messages on it were read and dropped.
pub open spec fn drained(l: LinkV) -> LinkV {
    LinkV { inbuf: parse(l.inbuf).rest, closed: l.closed || parse(l.inbuf).bad, ..l }
}

/// The lowest slot from `f` up, below `n`, that nobody holds.
pub open spec fn lowest_free(peers: Seq<LinkV>, f: int, n: int) -> Option<int>
    decreases n - f,
{
    if f >= n {
        None
    } else if !taken(peers, f) {
        Some(f)
    } else {
        lowest_free(peers, f + 1, n)
    }
}

/// A link on which nothing has been said yet.
pub open spec fn newcomer(f: usize) -> LinkV {
    LinkV { faction: f, inbuf: Seq::<u8>::empty(), outbuf: Seq::<u8>::empty(), closed: false }
}

/// Those who are still in the lobby once what they said has been read.
pub open spec fn remaining(peers: Seq<LinkV>) -> Seq<LinkV> {
    survivors(peers.map_values(|l: LinkV| drained(l)))
}

/// The lobby after a look round it, with a caller at the door who accepts a welcome or
/// without.
pub open spec fn polled(peers: Seq<LinkV>, factions: int, caller: bool) -> Seq<LinkV> {
    let here = remaining(peers);
    match lowest_free(here, 1, factions) {
        Some(f) => if caller {
            here.push(newcomer(f as usize))
        } else {
            here
        },
        None => here,
    }
}

/// What a caller at the door is to be told.
#[derive(Clone, Copy, PartialEq, Eq, Structural, Debug)]
pub enum Door {
    /// That they play the faction of a slot.
    Open(usize),
    /// Nothing: they are hung up on.
    Full,
}

/// What a lobby tells a caller.
pub open spec fn door_of(peers: Seq<LinkV>, factions: int) -> Door {
    match lowest_free(peers, 1, factions) {
        Some(f) => Door::Open(f as usize),
        None => Door::Full,
    }
}

/// The message that gives a joiner their slot.
pub fn welcome(faction: usize) -> (m: Msg)
    requires
        faction < MAX_FACTIONS,
    ensures
        m@ == (MsgV::Welcome { faction: faction as u8 }),
{
    Msg::Welcome { faction: faction as u8 }
}

impl Host {
    pub open spec fn wf(&self) -> bool {
        &&& 2 <= self.factions <= MAX_FACTIONS
        &&& forall|k: int|
            0 <= k < self.peers@.len() ==> (#[trigger] self.peers@[k]).wf() && 1 <= self.peers@[k].faction
                < self.factions
        &&& slots_distinct(links_view(self.peers@))
    }

    /// An empty lobby for two to four factions, free for all.
    pub fn new(port: u16, seed: u64, factions: usize) -> (r: Host)
        ensures
            r.wf(),
            r.port == port,
            r.seed == seed,
            r.factions == (if factions < 2 {
                2
            } else if factions > MAX_FACTIONS {
                MAX_FACTIONS as int
            } else {
                factions as int
            }),
            forall|f: int| 0 <= f < 4 ==> #[trigger] r.teams[f] == f,
            r.peers@.len() == 0,
    {
        let n: usize = if factions < 2 {
            2
        } else if factions > MAX_FACTIONS {
            MAX_FACTIONS
        } else {
            factions
        };
        Host { port, seed, factions: n, teams: unpack_teams(TEAMS_FFA), peers: Vec::new() }
    }

    /// Reads and drops what joiners said in the lobby, and lets go of those who have
    /// left. The others keep the slots they were welcomed with.
    pub fn sweep(&mut self)
        requires
            old(self).wf(),
        ensures
            final(self).wf(),
            final(self).port == old(self).port,
            final(self).seed == old(self).seed,
            final(self).factions == old(self).factions,
            final(self).teams == old(self).teams,
            links_view(final(self).peers@) == remaining(links_view(old(self).peers@)),
    {
        let ghost p0 = links_view(self.peers@);
        let ghost d = p0.map_values(|l: LinkV| drained(l));
        let ghost n0 = self.peers@.len();
        let mut kept: Vec<Link> = Vec::new();
        let mut rest: Vec<Link> = Vec::new();
        std::mem::swap(&mut rest, &mut self.peers);
        let mut i: usize = 0;
        proof {
            assert(d.take(0) =~= Seq::<LinkV>::empty());
            reveal_with_fuel(Seq::filter, 1);
            assert(survivors(d.take(0)) =~= Seq::<LinkV>::empty());
            assert(links_view(kept@) =~= Seq::<LinkV>::empty());
        }
        let n: usize = rest.len();
        while i < n
            invariant
                i <= n,
                n == n0,
                n0 == d.len(),
                p0 == links_view(old(self).peers@),
                d == p0.map_values(|l: LinkV| drained(l)),
                rest@.len() == n - i,
                forall|k: int| 0 <= k < rest@.len() ==> (#[trigger] rest@[k]) == old(self).peers@[i + k],
                old(self).wf(),
                self.peers@.len() == 0,
                self.port == old(self).port,
                self.seed == old(self).seed,
                self.factions == old(self).factions,
                self.teams == old(self).teams,
                links_view(kept@) == survivors(d.take(i as int)),
                forall|k: int|
                    0 <= k < kept@.len() ==> (#[trigger] kept@[k]).wf() && 1 <= kept@[k].faction
                        < self.factions,
            decreases n - i,
        {
            let ghost kb = kept@;
            let ghost rb = rest@;
            assert(rest@[0] == old(self).peers@[i as int]);
            let mut l = rest.remove(0);
            proof {
                assert forall|k: int| 0 <= k < rest@.len() implies (#[trigger] rest@[k]) == old(
                    self,
                ).peers@[i + 1 + k] by {
                    assert(rest@[k] == rb[k + 1]);
                }
            }
            let said = l.take_messages();
            proof {
                assert(l@ == d[i as int]);
                assert(d.take(i + 1) =~= d.take(i as int).push(d[i as int]));
                lemma_filter_push(d.take(i as int), d[i as int]);
            }
            if !l.closed {
                kept.push(l);
                proof {
                    assert(links_view(kept@) =~= links_view(kb).push(l@));
                }
            }
            i = i + 1;
        }
        proof {
            assert(d.take(n as int) =~= d);
            lemma_survivors_distinct(d);
        }
        self.peers = kept;
    }

    /// The lowest slot that nobody holds.
    pub fn free_slot(&self) -> (r: Option<usize>)
        requires
            self.wf(),
        ensures
            match r {
                Some(f) => {
                    &&& 1 <= f < self.factions
                    &&& !taken(links_view(self.peers@), f as int)
                    &&& forall|g: int| 1 <= g < f ==> #[trigger] taken(links_view(self.peers@), g)
                },
                None => forall|g: int|
                    1 <= g < self.factions ==> #[trigger] taken(links_view(self.peers@), g),
            },
            lowest_free(links_view(self.peers@), 1, self.factions as int) == (match r {
                Some(f) => Some(f as int),
                None => None,
            }),
    {
        let mut f: usize = 1;
        while f < self.factions
            invariant
                self.wf(),
                1 <= f <= self.factions,
                lowest_free(links_view(self.peers@), 1, self.factions as int) == lowest_free(
                    links_view(self.peers@),
                    f as int,
                    self.factions as int,
                ),
                forall|g: int| 1 <= g < f ==> #[trigger] taken(links_view(self.peers@), g),
            decreases self.factions - f,
        {
            if !self.is_taken(f) {
                return Some(f);
            }
            f = f + 1;
        }
        None
    }

    fn is_taken(&self, f: usize) -> (r: bool)
        ensures
            r == taken(links_view(self.peers@), f as int),
    {
        let mut k: usize = 0;
        while k < self.peers.len()
            invariant
                k <= self.peers@.len(),
                forall|j: int| 0 <= j < k ==> (#[trigger] links_view(self.peers@)[j]).faction != f,
            decreases self.peers@.len() - k,
        {
            assert(links_view(self.peers@)[k as int].faction == self.peers@[k as int].faction);
            if self.peers[k].faction == f {
                return true;
            }
            k = k + 1;
        }
        false
    }

    /// Seats a joiner on a free slot.
    pub fn seat(&mut self, faction: usize)
        requires
            old(self).wf(),
            1 <= faction < old(self).factions,
            !taken(links_view(old(self).peers@), faction as int),
        ensures
            final(self).wf(),
            final(self).port == old(self).port,
            final(self).seed == old(self).seed,
            final(self).factions == old(self).factions,
            final(self).teams == old(self).teams,
            links_view(final(self).peers@) == links_view(old(self).peers@).push(newcomer(faction)),
    {
        let ghost p0 = links_view(self.peers@);
        let l = Link::new(faction);
        let ghost lv = newcomer(faction);
        assert(l@ =~= lv);
        self.peers.push(l);
        proof {
            let p1 = links_view(self.peers@);
            assert(p1 =~= p0.push(lv));
            assert forall|i: int, j: int|
                0 <= i < p1.len() && 0 <= j < p1.len() && i != j implies (#[trigger] p1[i]).faction != (
            #[trigger] p1[j]).faction by {
                if i < p0.len() {
                    assert(p1[i] == p0[i]);
                }
                if j < p0.len() {
                    assert(p1[j] == p0[j]);
                }
            }
        }
    }

    /// Looks round the lobby: lets go of those who have left, and says what the next caller
    /// is to be told.
    pub fn poll(&mut self) -> (door: Door)
        requires
            old(self).wf(),
        ensures
            final(self).wf(),
            final(self).port == old(self).port,
            final(self).seed == old(self).seed,
            final(self).factions == old(self).factions,
            final(self).teams == old(self).teams,
            links_view(final(self).peers@) == polled(
                links_view(old(self).peers@),
                old(self).factions as int,
                false,
            ),
            door == door_of(links_view(final(self).peers@), final(self).factions as int),
    {
        self.sweep();
        match self.free_slot() {
            Some(f) => Door::Open(f),
            None => Door::Full,
        }
    }

    /// Seats a caller who has accepted the welcome, if there is a slot; says where.
    pub fn let_in(&mut self) -> (seat: Door)
        requires
            old(self).wf(),
        ensures
            final(self).wf(),
            final(self).port == old(self).port,
            final(self).seed == old(self).seed,
            final(self).factions == old(self).factions,
            final(self).teams == old(self).teams,
            seat == door_of(links_view(old(self).peers@), old(self).factions as int),
            links_view(final(self).peers@) == (match seat {
                Door::Open(f) => links_view(old(self).peers@).push(newcomer(f)),
                Door::Full => links_view(old(self).peers@),
            }),
    {
        match self.free_slot() {
            Some(f) => {
                self.seat(f);
                Door::Open(f)
            },
            None => Door::Full,
        }
    }

    /// Players so far, the host one of them.
    pub fn players(&self) -> (n: usize)
        requires
            self.wf(),
        ensures
            n == self.peers@.len() + 1,
            n <= self.factions,
    {
        proof {
            lemma_few_slots(links_view(self.peers@), self.factions as int);
        }
        self.peers.len() + 1
    }

    /// Begins the match: empty slots become computers, everyone is told, and the links
    /// go over into the match.
    pub fn start(self) -> (r: Lockstep)
        requires
            self.wf(),
        ensures
            r.wf(),
            r@.is_host,
            r@.my_faction == 0,
            r@.seed == self.seed,
            r@.factions == self.factions,
            r@.alliance == self.teams@,
            forall|f: int|
                0 <= f < 4 ==> #[trigger] r@.is_ai[f] == (1 <= f < self.factions && !taken(
                    links_view(self.peers@),
                    f,
                )),
            exists|m: MsgV| #[trigger]
                announces(m, self, r@.is_ai) && r@.peers == all_told(links_view(self.peers@), m),
            r@.sim_step == 0,
            r@.sent_step == 0,
            r@.cmds == Seq::new(4, |f: int| Map::<u64, Seq<crate::cmd::CmdV>>::empty()),
            r@.local_checks == Map::<u64, u64>::empty(),
            r@.remote_checks == Map::<u64, u64>::empty(),
            r@.pending == Seq::<crate::cmd::CmdV>::empty(),
            r@.desync_step is None,
            r@.last_synced == 0,
            !r@.disconnected,
    {
        let ghost h = self;
        let ghost p0 = links_view(self.peers@);
        let n: usize = self.factions;
        let one: bool = 1 < n && !self.is_taken(1);
        let two: bool = 2 < n && !self.is_taken(2);
        let three: bool = 3 < n && !self.is_taken(3);
        let is_ai: [bool; 4] = [false, one, two, three];
        let ai_mask: u8 = mask_of(&is_ai);
        let msg = Msg::Start {
            seed: self.seed,
            factions: n as u8,
            ai_mask,
            teams: pack_teams(&self.teams),
        };
        let mut peers = self.peers;
        let count: usize = peers.len();
        for k in 0..count
            invariant
                count == peers@.len(),
                count == p0.len(),
                forall|j: int| 0 <= j < count ==> (#[trigger] peers@[j]).wf(),
                forall|j: int|
                    0 <= j < count ==> (#[trigger] peers@[j])@ == (if j < k {
                        after_send(p0[j], msg@)
                    } else {
                        p0[j]
                    }),
        {
            assert(peers@[k as int].wf());
            peers[k].send(&msg);
        }
        proof {
            assert(links_view(peers@) =~= all_told(p0, msg@));
            assert(announces(msg@, h, is_ai@));
        }
        let r = Lockstep::new(peers, true, self.seed, n, is_ai, self.teams, 0);
        assert(announces(msg@, h, r@.is_ai));
        r
    }
}

/// Links after a message was queued on each of them.
pub open spec fn all_told(peers: Seq<LinkV>, m: MsgV) -> Seq<LinkV> {
    peers.map_values(|l: LinkV| after_send(l, m))
}

/// Whether a message announces the match that a host starts with the given computers.
pub open spec fn announces(m: MsgV, h: Host, is_ai: Seq<bool>) -> bool {
    match m {
        MsgV::Start { seed, factions, ai_mask, teams } => {
            &&& seed == h.seed
            &&& factions == h.factions
            &&& ai_mask < 16
            &&& forall|f: int| 0 <= f < 4 ==> mask_bit(ai_mask, f) == #[trigger] is_ai[f]
            &&& forall|f: int| 0 <= f < 4 ==> team_bits(teams, f) == #[trigger] h.teams[f] % 4
        },
        _ => false,
    }
}

/// There are never more joiners than slots.
proof fn lemma_few_slots(peers: Seq<LinkV>, factions: int)
    requires
        2 <= factions <= 4,
        slots_distinct(peers),
        forall|k: int| 0 <= k < peers.len() ==> 1 <= (#[trigger] peers[k]).faction < factions,
    ensures
        peers.len() < factions,
{
    if peers.len() >= factions {
        assert(peers[0].faction != peers[1].faction);
        if factions >= 3 {
            assert(peers[0].faction != peers[2].faction);
            assert(peers[1].faction != peers[2].faction);
        }
        if factions >= 4 {
            assert(peers[0].faction != peers[3].faction);
            assert(peers[1].faction != peers[3].faction);
            assert(peers[2].faction != peers[3].faction);
        }
    }
}

proof fn lemma_filter_push(s: Seq<LinkV>, l: LinkV)
    ensures
        survivors(s.push(l)) == (if l.closed {
            survivors(s)
        } else {
            survivors(s).push(l)
        }),
{
    reveal_with_fuel(Seq::filter, 2);
    assert(s.push(l).drop_last() =~= s);
}

/// Whoever stays in the lobby keeps a slot of their own.
proof fn lemma_survivors_distinct(s: Seq<LinkV>)
    requires
        slots_distinct(s),
    ensures
        slots_distinct(survivors(s)),
    decreases s.len(),
{
    reveal_with_fuel(Seq::filter, 2);
    if s.len() > 0 {
        let t = s.drop_last();
        assert(slots_distinct(t)) by {
            assert forall|i: int, j: int|
                0 <= i < t.len() && 0 <= j < t.len() && i != j implies (#[trigger] t[i]).faction != (
            #[trigger] t[j]).faction by {
                assert(s[i].faction != s[j].faction);
            }
        }
        lemma_survivors_distinct(t);
        let a = survivors(t);
        let b = survivors(s);
        assert(s =~= t.push(s.last()));
        lemma_filter_push(t, s.last());
        assert forall|i: int, j: int|
            0 <= i < b.len() && 0 <= j < b.len() && i != j implies (#[trigger] b[i]).faction != (
        #[trigger] b[j]).faction by {
            if b.len() > a.len() {
                if i == a.len() {
                    lemma_survivor_is_member(t, j);
                    let q = choose|q: int| 0 <= q < t.len() && t[q] == a[j];
                    assert(s[q].faction != s[s.len() - 1].faction);
                } else if j == a.len() {
                    lemma_survivor_is_member(t, i);
                    let q = choose|q: int| 0 <= q < t.len() && t[q] == a[i];
                    assert(s[q].faction != s[s.len() - 1].faction);
                } else {
                    assert(b[i] == a[i] && b[j] == a[j]);
                }
            }
        }
    }
}

proof fn lemma_survivor_is_member(s: Seq<LinkV>, i: int)
    requires
        0 <= i < survivors(s).len(),
    ensures
        exists|q: int| 0 <= q < s.len() && s[q] == survivors(s)[i] && !s[q].closed,
    decreases s.len(),
{
    reveal_with_fuel(Seq::filter, 2);
    if s.len() > 0 {
        let t = s.drop_last();
        assert(s =~= t.push(s.last()));
        lemma_filter_push(t, s.last());
        if i < survivors(t).len() {
            lemma_survivor_is_member(t, i);
            let q = choose|q: int| 0 <= q < t.len() && t[q] == survivors(t)[i] && !t[q].closed;
            assert(s[q] == survivors(s)[i]);
        } else {
            assert(s[s.len() - 1] == survivors(s)[i]);
        }
    }
}

/// Nobody's slot changes when others leave: a link that is still there plays the
/// faction it played before.
pub proof fn leavers_do_not_renumber(before: Seq<LinkV>, i: int)
    requires
        0 <= i < survivors(before.map_values(|l: LinkV| drained(l))).len(),
    ensures
        exists|q: int|
            0 <= q < before.len() && (#[trigger] before[q]).faction == survivors(
                before.map_values(|l: LinkV| drained(l)),
            )[i].faction,
{
    let d = before.map_values(|l: LinkV| drained(l));
    lemma_survivor_is_member(d, i);
    let q = choose|q: int| 0 <= q < d.len() && d[q] == survivors(d)[i] && !d[q].closed;
    assert(before[q].faction == d[q].faction);
}

proof fn lemma_lowest_free(peers: Seq<LinkV>, f: int, n: int)
    ensures
        match lowest_free(peers, f, n) {
            Some(k) => {
                &&& f <= k < n
                &&& !taken(peers, k)
                &&& forall|g: int| f <= g < k ==> #[trigger] taken(peers, g)
            },
            None => forall|g: int| f <= g < n ==> #[trigger] taken(peers, g),
        },
    decreases n - f,
{
    if f < n && taken(peers, f) {
        lemma_lowest_free(peers, f + 1, n);
    }
}

/// A look round the lobby keeps it in order. Everyone who has not left keeps the slot they
/// were welcomed with, and those who have left are gone. A caller gets the lowest slot that
/// nobody holds, behind the others; if there is none, they change nothing. All slots stay
/// distinct, and there are never more players than factions.
pub proof fn the_lobby_stays_in_order(peers: Seq<LinkV>, factions: int, caller: bool)
    requires
        2 <= factions <= MAX_FACTIONS,
        slots_distinct(peers),
        forall|k: int| 0 <= k < peers.len() ==> 1 <= (#[trigger] peers[k]).faction < factions,
    ensures
        ({
            let here = remaining(peers);
            let after = polled(peers, factions, caller);
            &&& forall|i: int|
                0 <= i < here.len() ==> {
                    &&& !(#[trigger] here[i]).closed
                    &&& after[i] == here[i]
                    &&& exists|q: int| 0 <= q < peers.len() && here[i] == drained(#[trigger] peers[q])
                }
            &&& forall|q: int|
                0 <= q < peers.len() && !drained(#[trigger] peers[q]).closed ==> here.contains(drained(peers[q]))
            &&& match lowest_free(here, 1, factions) {
                Some(f) => {
                    &&& 1 <= f < factions && !taken(here, f)
                    &&& forall|g: int| 1 <= g < f ==> #[trigger] taken(here, g)
                    &&& caller ==> after == here.push(newcomer(f as usize))
                    &&& !caller ==> after == here
                },
                None => after == here && forall|g: int| 1 <= g < factions ==> #[trigger] taken(here, g),
            }
            &&& slots_distinct(after)
            &&& after.len() + 1 <= factions
        }),
{
    let d = peers.map_values(|l: LinkV| drained(l));
    let here = remaining(peers);
    let after = polled(peers, factions, caller);
    assert(slots_distinct(d)) by {
        assert forall|i: int, j: int|
            0 <= i < d.len() && 0 <= j < d.len() && i != j implies (#[trigger] d[i]).faction != (
        #[trigger] d[j]).faction by {
            assert(peers[i].faction != peers[j].faction);
        }
    }
    lemma_survivors_distinct(d);
    lemma_lowest_free(here, 1, factions);
    assert forall|q: int| 0 <= q < peers.len() && !drained(#[trigger] peers[q]).closed implies here.contains(
        drained(peers[q]),
    ) by {
        broadcast use vstd::seq_lib::group_filter_ensures;

        assert(d[q] == drained(peers[q]));
    }
    assert forall|i: int| 0 <= i < here.len() implies !(#[trigger] here[i]).closed && after[i] == here[i] && (
    exists|q: int| 0 <= q < peers.len() && here[i] == drained(#[trigger] peers[q])) && 1 <= here[i].faction
        < factions by {
        lemma_survivor_is_member(d, i);
        let q = choose|q: int| 0 <= q < d.len() && d[q] == survivors(d)[i] && !d[q].closed;
        assert(here[i] == drained(peers[q]));
        assert(1 <= peers[q].faction < factions);
    }
    assert(slots_distinct(after)) by {
        assert forall|i: int, j: int|
            0 <= i < after.len() && 0 <= j < after.len() && i != j implies (#[trigger] after[i]).faction != (
        #[trigger] after[j]).faction by {
            if i < here.len() && j < here.len() {
                assert(here[i].faction != here[j].faction);
            } else if i < here.len() {
                assert(taken(here, here[i].faction as int));
            } else {
                assert(taken(here, here[j].faction as int));
            }
        }
    }
    assert forall|k: int| 0 <= k < after.len() implies 1 <= (#[trigger] after[k]).faction < factions by {
        if k < here.len() {
            assert(here[k].faction < factions);
        }
    }
    lemma_few_slots(after, factions);
}

// ---- the joiner -------------------------------------------------------------------

/// A joiner waiting for the host to start the match.
pub struct Joiner {
    pub peer: Option<Link>,
    pub my_faction: usize,
}

/// Position of the first start message, or the length if there is none.
pub open spec fn first_start(msgs: Seq<MsgV>) -> int
    decreases msgs.len(),
{
    if msgs.len() == 0 {
        0
    } else if msgs[0] is Start {
        0
    } else {
        1 + first_start(msgs.drop_first())
    }
}

proof fn lemma_first_start(msgs: Seq<MsgV>)
    ensures
        0 <= first_start(msgs) <= msgs.len(),
        first_start(msgs) < msgs.len() ==> msgs[first_start(msgs)] is Start,
        forall|i: int| 0 <= i < first_start(msgs) ==> !((#[trigger] msgs[i]) is Start),
    decreases msgs.len(),
{
    if msgs.len() > 0 && !(msgs[0] is Start) {
        lemma_first_start(msgs.drop_first());
        let t = msgs.drop_first();
        assert forall|i: int| 0 <= i < first_start(msgs) implies !((#[trigger] msgs[i]) is Start) by {
            if i > 0 {
                assert(msgs[i] == t[i - 1]);
            }
        }
    }
}

/// The state after messages came in over the only link.
pub open spec fn caught_up(v: LockstepV, msgs: Seq<MsgV>) -> LockstepV
    decreases msgs.len(),
{
    if msgs.len() == 0 {
        v
    } else {
        caught_up(v, msgs.drop_last()).ingested(0, msgs.last())
    }
}

/// Whether a start message describes a match that the holder of a slot can play.
pub open spec fn playable(m: MsgV, my_faction: int) -> bool {
    match m {
        MsgV::Start { factions, .. } => 2 <= factions <= MAX_FACTIONS && my_faction < factions,
        _ => false,
    }
}

/// A fresh match on one link, as a start message describes it.
pub open spec fn fresh(v: LockstepV, m: MsgV, link: LinkV, my_faction: int) -> bool {
    match m {
        MsgV::Start { seed, factions, ai_mask, teams } => {
            &&& v.peers == seq![link]
            &&& !v.is_host
            &&& v.seed == seed
            &&& v.factions == factions
            &&& v.is_ai.len() == 4
            &&& forall|f: int| 0 <= f < 4 ==> #[trigger] v.is_ai[f] == mask_bit(ai_mask, f)
            &&& v.alliance.len() == 4
            &&& forall|f: int| 0 <= f < 4 ==> #[trigger] v.alliance[f] == team_bits(teams, f)
            &&& v.my_faction == my_faction
            &&& v.sim_step == 0
            &&& v.sent_step == 0
            &&& v.cmds == Seq::new(4, |f: int| Map::<u64, Seq<crate::cmd::CmdV>>::empty())
            &&& v.local_checks == Map::<u64, u64>::empty()
            &&& v.remote_checks == Map::<u64, u64>::empty()
            &&& v.pending == Seq::<crate::cmd::CmdV>::empty()
            &&& v.desync_step is None
            &&& v.last_synced == 0
            &&& !v.disconnected
        },
        _ => false,
    }
}

impl Joiner {
    pub open spec fn wf(&self) -> bool {
        self.peer is Some ==> self.peer->0.wf()
    }

    /// A joiner that was welcomed to a slot.
    pub fn new(my_faction: usize) -> (r: Joiner)
        ensures
            r.wf(),
            r.my_faction == my_faction,
            r.peer is Some,
            r.peer->0@ == (LinkV {
                faction: 0,
                inbuf: Seq::<u8>::empty(),
                outbuf: Seq::<u8>::empty(),
                closed: false,
            }),
    {
        let l = Link::new(0);
        assert(l@ =~= LinkV {
            faction: 0,
            inbuf: Seq::<u8>::empty(),
            outbuf: Seq::<u8>::empty(),
            closed: false,
        });
        Joiner { peer: Some(l), my_faction }
    }

    /// Whether the link to the host stands. One that went over into a match does.
    pub fn alive(&self) -> (r: bool)
        ensures
            r == match self.peer {
                Some(l) => !l.closed,
                None => true,
            },
    {
        match &self.peer {
            Some(l) => !l.closed,
            None => true,
        }
    }

    /// Begins the match once the host has started it. Whatever else came in with the
    /// start, before it or after it, goes into the match, so that no early step is
    /// lost; a start that describes an impossible match hangs up instead.
    pub fn poll_start(&mut self) -> (r: Option<Lockstep>)
        requires
            old(self).wf(),
        ensures
            final(self).wf(),
            final(self).my_faction == old(self).my_faction,
            match old(self).peer {
                None => r is None && final(self).peer is None,
                Some(l) => {
                    let msgs = decoded(parse(l@.inbuf).frames);
                    let at = first_start(msgs);
                    if at == msgs.len() {
                        r is None && final(self).peer is Some && final(self).peer->0@ == drained(l@)
                    } else if !playable(msgs[at], old(self).my_faction as int) {
                        r is None && final(self).peer is Some && final(self).peer->0@ == (LinkV {
                            closed: true,
                            ..drained(l@)
                        })
                    } else {
                        &&& final(self).peer is None
                        &&& r is Some
                        &&& r->0.wf()
                        &&& exists|v: LockstepV| #[trigger]
                            fresh(v, msgs[at], drained(l@), old(self).my_faction as int) && r->0@
                                == caught_up(v, msgs.take(at) + msgs.skip(at + 1))
                    }
                },
            },
    {
        let mut link = match self.peer.take() {
            Some(l) => l,
            None => {
                return None;
            },
        };
        let ghost l0 = link@;
        let mut msgs = link.take_messages();
        let ghost mv = msgs_view(msgs@);
        let ghost at = first_start(mv);
        proof {
            assert(link@ =~= drained(l0));
            lemma_first_start(mv);
        }
        let mut i: usize = 0;
        let n: usize = msgs.len();
        while i < n && !is_start(&msgs[i])
            invariant
                i <= n,
                n == msgs@.len(),
                mv == msgs_view(msgs@),
                forall|j: int| 0 <= j < i ==> !((#[trigger] mv[j]) is Start),
            decreases n - i,
        {
            assert(mv[i as int] == msgs@[i as int]@);
            i = i + 1;
        }
        proof {
            if i < n {
                assert(mv[i as int] == msgs@[i as int]@);
            }
            if at < i {
                assert(mv[at] is Start);
            }
            if i < at {
                assert(!(mv[i as int] is Start));
            }
            assert(i == at);
        }
        if i == n {
            self.peer = Some(link);
            return None;
        }
        let start = msgs.remove(i);
        proof {
            assert(msgs_view(msgs@) =~= mv.take(at) + mv.skip(at + 1));
            assert(start@ == mv[at]);
        }
        let cfg = match check_start(&start, self.my_faction) {
            Ok(c) => c,
            Err(_) => {
                link.hang_up();
                proof {
                    assert(link@ =~= LinkV { closed: true, ..drained(l0) });
                }
                self.peer = Some(link);
                return None;
            },
        };
        let mut peers: Vec<Link> = Vec::new();
        peers.push(link);
        let mut ls = Lockstep::new(
            peers,
            false,
            cfg.seed,
            cfg.factions,
            cfg.is_ai,
            cfg.alliance,
            self.my_faction,
        );
        let ghost v = ls@;
        let ghost back = mv.take(at) + mv.skip(at + 1);
        proof {
            assert(links_view(peers@) =~= seq![drained(l0)]);
            assert(fresh(v, mv[at], drained(l0), self.my_faction as int));
            assert(back.take(0) =~= Seq::<MsgV>::empty());
        }
        let m: usize = msgs.len();
        let mut k: usize = 0;
        while k < m
            invariant
                k <= m,
                m == back.len(),
                msgs@.len() == m - k,
                forall|j: int| 0 <= j < msgs@.len() ==> (#[trigger] msgs@[j])@ == back[k + j],
                ls.wf(),
                ls@ == caught_up(v, back.take(k as int)),
            decreases m - k,
        {
            let ghost mb = msgs@;
            assert(msgs@[0]@ == back[k as int]);
            let next = msgs.remove(0);
            proof {
                assert forall|j: int| 0 <= j < msgs@.len() implies (#[trigger] msgs@[j])@ == back[k + 1 + j] by {
                    assert(msgs@[j] == mb[j + 1]);
                }
                assert(back.take(k + 1).drop_last() =~= back.take(k as int));
                assert(back.take(k + 1).last() == next@);
            }
            ls.ingest(0, next);
            k = k + 1;
        }
        proof {
            assert(back.take(m as int) =~= back);
        }
        Some(ls)
    }
}

fn is_start(m: &Msg) -> (r: bool)
    ensures
        r == (m@ is Start),
{
    match m {
        Msg::Start { .. } => true,
        _ => false,
    }
}

/// A joiner that starts from the host's announcement sees the match as the host does.
pub proof fn joiner_agrees_with_host(m: MsgV, h: Host, is_ai: Seq<bool>, v: LockstepV, link: LinkV, me: int)
    requires
        announces(m, h, is_ai),
        fresh(v, m, link, me),
        is_ai.len() == 4,
        forall|f: int| 0 <= f < 4 ==> #[trigger] h.teams[f] < 4,
    ensures
        v.seed == h.seed,
        v.factions == h.factions,
        v.is_ai == is_ai,
        v.alliance == h.teams@,
{
    assert forall|f: int| 0 <= f < 4 implies v.alliance[f] == h.teams[f] by {
        assert(h.teams[f] < 4);
    }
    assert(v.alliance =~= h.teams@);
    assert(v.is_ai =~= is_ai);
}

// ---- finding a host ----------------------------------------------------------------

/// What a joiner asks.
pub open spec fn ping_bytes() -> Seq<u8> {
    seq![78u8, 65, 78, 79, 82, 84, 83, 45, 87, 72, 69, 82, 69, 63]
}

/// What a host's answer starts with.
pub open spec fn pong_head() -> Seq<u8> {
    seq![78u8, 65, 78, 79, 82, 84, 83, 45, 72, 69, 82, 69, 33]
}

/// The question, `NANORTS-WHERE?`.
pub fn ping() -> (r: Vec<u8>)
    ensures
        r@ == ping_bytes(),
{
    let v: Vec<u8> = vec![78u8, 65, 78, 79, 82, 84, 83, 45, 87, 72, 69, 82, 69, 63];
    assert(v@ =~= ping_bytes());
    v
}

/// Whether a datagram is the question.
pub fn is_ping(bytes: &[u8]) -> (r: bool)
    ensures
        r == (bytes@ == ping_bytes()),
{
    let want = ping();
    if bytes.len() != want.len() {
        return false;
    }
    let mut i: usize = 0;
    while i < want.len()
        invariant
            i <= want@.len(),
            want@ == ping_bytes(),
            bytes@.len() == want@.len(),
            forall|j: int| 0 <= j < i ==> bytes@[j] == want@[j],
        decreases want@.len() - i,
    {
        if bytes[i] != want[i] {
            return false;
        }
        i = i + 1;
    }
    assert(bytes@ =~= ping_bytes());
    true
}

/// The answer, `NANORTS-HERE!` and the port the host listens on.
pub fn pong(port: u16) -> (r: Vec<u8>)
    ensures
        r@ == pong_head() + seq![(port % 256) as u8, (port / 256) as u8],
{
    let mut v: Vec<u8> = vec![78u8, 65, 78, 79, 82, 84, 83, 45, 72, 69, 82, 69, 33];
    v.push((port % 256) as u8);
    v.push((port / 256) as u8);
    assert(v@ =~= pong_head() + seq![(port % 256) as u8, (port / 256) as u8]);
    v
}

/// The port in a datagram that starts like an answer.
pub open spec fn pong_port(s: Seq<u8>) -> Option<u16> {
    if s.len() >= 15 && s.take(13) == pong_head() {
        Some((s[13] + 256 * s[14]) as u16)
    } else {
        None
    }
}

/// The port in a datagram that starts like an answer.
pub fn read_pong(bytes: &[u8]) -> (r: Option<u16>)
    ensures
        r == pong_port(bytes@),
{
    let want: Vec<u8> = vec![78u8, 65, 78, 79, 82, 84, 83, 45, 72, 69, 82, 69, 33];
    assert(want@ =~= pong_head());
    if bytes.len() < 15 {
        return None;
    }
    let mut i: usize = 0;
    while i < 13
        invariant
            i <= 13,
            want@ == pong_head(),
            bytes@.len() >= 15,
            forall|j: int| 0 <= j < i ==> bytes@[j] == want@[j],
        decreases 13 - i,
    {
        if bytes[i] != want[i] {
            assert(bytes@.take(13)[i as int] != pong_head()[i as int]);
            return None;
        }
        i = i + 1;
    }
    assert(bytes@.take(13) =~= pong_head());
    Some(bytes[13] as u16 + 256 * (bytes[14] as u16))
}

/// A host's answer is understood, and the question is not taken for one.
pub proof fn pong_roundtrip(port: u16)
    ensures
        pong_port(pong_head() + seq![(port % 256) as u8, (port / 256) as u8]) == Some(port),
        pong_port(ping_bytes()) is None,
{
    let s = pong_head() + seq![(port % 256) as u8, (port / 256) as u8];
    assert(s.take(13) =~= pong_head());
}

// ---- what holds of the lobby ------------------------------------------------------------------------

/// A slot is taken exactly while some link holds it, and a computer gets it exactly if none
/// does: the host's own is never a computer's, nor is one past the last faction.
pub proof fn empty_slots_are_nobodys(peers: Seq<LinkV>, l: LinkV, f: int)
    ensures
        taken(peers.push(l), f) <==> taken(peers, f) || l.faction == f,
        !taken(Seq::<LinkV>::empty(), f),
{
    let more = peers.push(l);
    if taken(peers, f) {
        let k = choose|k: int| 0 <= k < peers.len() && (#[trigger] peers[k]).faction == f;
        assert(more[k].faction == f);
    }
    if l.faction == f {
        assert(more[peers.len() as int].faction == f);
    }
    if taken(more, f) {
        let k = choose|k: int| 0 <= k < more.len() && (#[trigger] more[k]).faction == f;
        if k < peers.len() {
            assert(peers[k].faction == f);
        }
    }
}

/// A joiner loses nothing that came early: what was heard before the match is heard in it, in
/// the order in which it came.
pub proof fn early_messages_are_not_lost(v: LockstepV, msgs: Seq<MsgV>, m: MsgV)
    ensures
        caught_up(v, msgs.push(m)) == caught_up(v, msgs).ingested(0, m),
        caught_up(v, Seq::<MsgV>::empty()) == v,
{
    assert(msgs.push(m).drop_last() =~= msgs);
}

/// The match begins with the first start that comes, and not before one has.
pub proof fn the_first_start_counts(msgs: Seq<MsgV>, j: int)
    requires
        0 <= j < msgs.len(),
    ensures
        0 <= first_start(msgs) <= msgs.len(),
        msgs[j] is Start ==> first_start(msgs) <= j,
        first_start(msgs) < msgs.len() ==> msgs[first_start(msgs)] is Start,
    decreases msgs.len(),
{
    if !(msgs[0] is Start) {
        let rest = msgs.drop_first();
        if rest.len() > 0 {
            let k = if j > 0 {
                j - 1
            } else {
                0
            };
            the_first_start_counts(rest, k);
            if j > 0 {
                assert(rest[j - 1] == msgs[j]);
            }
            if first_start(rest) < rest.len() {
                assert(rest[first_start(rest)] == msgs[first_start(rest) + 1]);
            }
        }
    }
}

/// A match has two to four factions, and a place for the one who joins it.
pub proof fn impossible_matches_are_refused(m: MsgV, me: int)
    ensures
        playable(m, me) <==> m is Start && 2 <= m->Start_factions <= 4 && me < m->Start_factions,
{
}

} // verus!
