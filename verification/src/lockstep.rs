//! Lockstep. Peers exchange commands, never state: a command issued now runs a few
//! steps later, and a step runs once every human faction's commands for it are held.
//! Every so often the peers swap a checksum of their worlds, and a mismatch with any
//! of them is a desync.

use vstd::prelude::*;
use crate::cmd::{cmds_view, copy_cmds, Cmd, CmdV};
use crate::kind::MAX_FACTIONS;
use crate::link::{after_send, Link, LinkV};
use crate::table::Table;
use crate::wire::{clamp_step, fits_exactly, trimmed, Msg, MsgV};

verus! {

/// How many steps ahead commands are scheduled.
pub const INPUT_DELAY: u32 = 3;

/// How many steps lie between two checksums.
pub const CHECK_EVERY: u32 = 20;

/// A step or check this far past what was sent is garbage: peers stay within the
/// input delay of each other.
pub const MAX_AHEAD: u32 = 1200;

/// Last step a match can reach.
pub const LAST_STEP: u32 = 0xFFFF_0000;

/// Key of a faction's check of a step.
pub open spec fn check_key(step: int, f: int) -> u64 {
    (step * 256 + f) as u64
}

fn check_key_at(step: u32, f: u8) -> (k: u64)
    ensures
        k == check_key(step as int, f as int),
{
    step as u64 * 256 + f as u64
}

/// Links as a sequence of views.
pub open spec fn links_view(peers: Seq<Link>) -> Seq<LinkV> {
    peers.map_values(|l: Link| l@)
}

/// Every link but `from` after a message was queued on it.
pub open spec fn relayed(peers: Seq<LinkV>, from: int, m: MsgV) -> Seq<LinkV> {
    Seq::new(
        peers.len(),
        |k: int|
            if k == from {
                peers[k]
            } else {
                after_send(peers[k], m)
            },
    )
}

/// A match in progress.
pub struct Lockstep {
    /// The host holds one link per joiner, a joiner just the one to the host.
    pub peers: Vec<Link>,
    pub is_host: bool,
    pub seed: u64,
    pub factions: usize,
    pub is_ai: [bool; 4],
    pub alliance: [u8; 4],
    pub my_faction: usize,
    pub sim_step: u32,
    pub sent_step: u32,
    /// Per faction, the commands of each step.
    pub cmds: Vec<Table<Vec<Cmd>>>,
    pub local_checks: Table<u64>,
    pub remote_checks: Table<u64>,
    pub pending: Vec<Cmd>,
    pub desync_step: Option<u32>,
    pub last_synced: u32,
    pub disconnected: bool,
}

/// A match in progress, with every collection as a mathematical one.
#[verifier::ext_equal]
pub struct LockstepV {
    pub peers: Seq<LinkV>,
    pub is_host: bool,
    pub seed: u64,
    pub factions: int,
    pub is_ai: Seq<bool>,
    pub alliance: Seq<u8>,
    pub my_faction: int,
    pub sim_step: int,
    pub sent_step: int,
    pub cmds: Seq<Map<u64, Seq<CmdV>>>,
    pub local_checks: Map<u64, u64>,
    pub remote_checks: Map<u64, u64>,
    pub pending: Seq<CmdV>,
    pub desync_step: Option<u32>,
    pub last_synced: u32,
    pub disconnected: bool,
}

/// A faction's commands by step.
pub open spec fn steps_view(t: Table<Vec<Cmd>>) -> Map<u64, Seq<CmdV>> {
    t@.map_values(|c: Vec<Cmd>| cmds_view(c@))
}

impl View for Lockstep {
    type V = LockstepV;

    open spec fn view(&self) -> LockstepV {
        LockstepV {
            peers: links_view(self.peers@),
            is_host: self.is_host,
            seed: self.seed,
            factions: self.factions as int,
            is_ai: self.is_ai@,
            alliance: self.alliance@,
            my_faction: self.my_faction as int,
            sim_step: self.sim_step as int,
            sent_step: self.sent_step as int,
            cmds: self.cmds@.map_values(|t: Table<Vec<Cmd>>| steps_view(t)),
            local_checks: self.local_checks@,
            remote_checks: self.remote_checks@,
            pending: cmds_view(self.pending@),
            desync_step: self.desync_step,
            last_synced: self.last_synced,
            disconnected: self.disconnected,
        }
    }
}

impl LockstepV {
    /// Whether faction `f` is played by someone else's hand: not ours, and no computer.
    pub open spec fn remote_human(self, f: int) -> bool {
        0 <= f < self.factions && f != self.my_faction && !self.is_ai[f]
    }

    /// Whether a message that claims faction `f` may come in over link `from`. The host
    /// knows which faction each link plays, and anything else is spoofed; a joiner hears
    /// everyone through the host.
    pub open spec fn may_speak(self, from: int, f: int) -> bool {
        self.is_host ==> 0 <= from < self.peers.len() && self.peers[from].faction == f
    }

    /// Whether a step number is within what peers can have reached.
    pub open spec fn in_window(self, step: int) -> bool {
        step <= self.sent_step + MAX_AHEAD
    }

    /// The state after a message came in over link `from`.
    pub open spec fn ingested(self, from: int, m: MsgV) -> LockstepV {
        match m {
            MsgV::Step { faction, step, cmds } => {
                if !self.may_speak(from, faction as int) || !self.in_window(step as int) {
                    self
                } else {
                    LockstepV {
                        peers: if self.is_host {
                            relayed(self.peers, from, m)
                        } else {
                            self.peers
                        },
                        cmds: if faction < MAX_FACTIONS && !self.cmds[faction as int].dom().contains(
                            step as u64,
                        ) {
                            self.cmds.update(
                                faction as int,
                                self.cmds[faction as int].insert(step as u64, cmds),
                            )
                        } else {
                            self.cmds
                        },
                        ..self
                    }
                }
            },
            MsgV::Check { faction, step, hash } => {
                if !self.may_speak(from, faction as int) {
                    self
                } else {
                    LockstepV {
                        peers: if self.is_host {
                            relayed(self.peers, from, m)
                        } else {
                            self.peers
                        },
                        remote_checks: if self.desync_step is None && self.in_window(step as int) {
                            self.remote_checks.insert(check_key(step as int, faction as int), hash)
                        } else {
                            self.remote_checks
                        },
                        ..self
                    }
                }
            },
            _ => self,
        }
    }

    /// Whether the next step can run: every human faction's commands for it are held.
    pub open spec fn is_ready(self) -> bool {
        forall|f: int|
            0 <= f < self.factions && !self.is_ai[f] ==> (#[trigger] self.cmds[f]).dom().contains(
                self.sim_step as u64,
            )
    }

    /// A faction's commands for the next step; none if none are held.
    pub open spec fn next_cmds(self, f: int) -> Seq<CmdV> {
        if self.cmds[f].dom().contains(self.sim_step as u64) {
            self.cmds[f][self.sim_step as u64]
        } else {
            Seq::empty()
        }
    }

    /// Whether every other human has reported the hash that we computed for step `s`.
    pub open spec fn agreed(self, s: u64) -> bool {
        forall|f: int| #[trigger]
            self.remote_human(f) ==> self.remote_checks.dom().contains(check_key(s as int, f))
                && self.remote_checks[check_key(s as int, f)] == self.local_checks[s]
    }

    /// Whether some other human has reported another hash for step `s` than ours.
    pub open spec fn disputed(self, s: u64) -> bool {
        exists|f: int| #[trigger]
            self.remote_human(f) && self.remote_checks.dom().contains(check_key(s as int, f))
                && self.remote_checks[check_key(s as int, f)] != self.local_checks[s]
    }

    /// Whether `s` is a step of ours that everyone agrees on.
    pub open spec fn settles(self, s: u64) -> bool {
        self.local_checks.dom().contains(s) && self.agreed(s)
    }

    /// Whether a key of the remote checks belongs to a step that settles.
    pub open spec fn spent(self, k: u64) -> bool {
        exists|s: u64, f: int| #[trigger]
            self.settles(s) && 0 <= f < self.factions && k == #[trigger] check_key(s as int, f)
    }

    /// The state after our own checksum of the current step was noted and sent.
    pub open spec fn noted(self, checksum: u64) -> LockstepV {
        if self.sim_step % (CHECK_EVERY as int) == 0 {
            LockstepV {
                local_checks: self.local_checks.insert(self.sim_step as u64, checksum),
                peers: relayed(
                    self.peers,
                    -1,
                    MsgV::Check {
                        faction: self.my_faction as u8,
                        step: self.sim_step as u32,
                        hash: checksum,
                    },
                ),
                ..self
            }
        } else {
            self
        }
    }
}

/// Whether `d` is the first disputed step of ours, if there is one.
pub open spec fn first_dispute(v: LockstepV, d: Option<u32>) -> bool {
    match d {
        Some(s) => {
            &&& v.local_checks.dom().contains(s as u64)
            &&& v.disputed(s as u64)
            &&& forall|t: u64| #[trigger]
                v.local_checks.dom().contains(t) && v.disputed(t) ==> s <= t
        },
        None => forall|t: u64| #[trigger] v.local_checks.dom().contains(t) ==> !v.disputed(t),
    }
}

/// Whether `l` is the last step known to be in sync: the last that settles now, if that
/// is later than what was known.
pub open spec fn last_agreement(v: LockstepV, was: u32, l: u32) -> bool {
    &&& was <= l
    &&& (l == was || v.settles(l as u64))
    &&& forall|t: u64| #[trigger] v.settles(t) ==> t <= l
}

/// What `advanced` makes of a state `v` in which our checksum was noted.
pub open spec fn moved_on(v: LockstepV, w: LockstepV) -> bool {
    &&& w.sim_step == v.sim_step + 1
    &&& w.cmds == v.cmds.map(
        |f: int, m: Map<u64, Seq<CmdV>>|
            if f < v.factions {
                m.restrict(Set::new(|k: u64| k >= v.sim_step + 1))
            } else {
                m
            },
    )
    &&& w.peers == v.peers
    &&& w.is_host == v.is_host
    &&& w.seed == v.seed
    &&& w.factions == v.factions
    &&& w.is_ai == v.is_ai
    &&& w.alliance == v.alliance
    &&& w.my_faction == v.my_faction
    &&& w.sent_step == v.sent_step
    &&& w.pending == v.pending
    &&& w.disconnected == v.disconnected
    &&& if v.desync_step is Some {
        // Once a desync is flagged, the checks stay as evidence.
        &&& w.desync_step == v.desync_step
        &&& w.last_synced == v.last_synced
        &&& w.local_checks == v.local_checks
        &&& w.remote_checks == v.remote_checks
    } else {
        &&& first_dispute(v, w.desync_step)
        &&& last_agreement(v, v.last_synced, w.last_synced)
        &&& w.local_checks == v.local_checks.restrict(Set::new(|s: u64| !v.agreed(s)))
        &&& w.remote_checks == v.remote_checks.restrict(Set::new(|k: u64| !v.spent(k)))
    }
}

impl Lockstep {
    pub open spec fn wf(&self) -> bool {
        &&& 2 <= self.factions <= MAX_FACTIONS
        &&& self.my_faction < self.factions
        &&& self.cmds@.len() == MAX_FACTIONS
        &&& forall|k: int| 0 <= k < self.peers@.len() ==> (#[trigger] self.peers@[k]).wf()
        &&& self.sim_step <= LAST_STEP
        &&& self.sent_step <= LAST_STEP + INPUT_DELAY
        &&& forall|s: u64| #[trigger] self.local_checks@.dom().contains(s) ==> s <= LAST_STEP
    }

    /// A match about to begin.
    pub fn new(
        peers: Vec<Link>,
        is_host: bool,
        seed: u64,
        factions: usize,
        is_ai: [bool; 4],
        alliance: [u8; 4],
        my_faction: usize,
    ) -> (r: Lockstep)
        requires
            2 <= factions <= MAX_FACTIONS,
            my_faction < factions,
            forall|k: int| 0 <= k < peers@.len() ==> (#[trigger] peers@[k]).wf(),
        ensures
            r.wf(),
            r@ == (LockstepV {
                peers: links_view(peers@),
                is_host,
                seed,
                factions: factions as int,
                is_ai: is_ai@,
                alliance: alliance@,
                my_faction: my_faction as int,
                sim_step: 0,
                sent_step: 0,
                cmds: Seq::new(4, |f: int| Map::<u64, Seq<CmdV>>::empty()),
                local_checks: Map::<u64, u64>::empty(),
                remote_checks: Map::<u64, u64>::empty(),
                pending: Seq::<CmdV>::empty(),
                desync_step: None,
                last_synced: 0,
                disconnected: false,
            }),
    {
        let mut cmds: Vec<Table<Vec<Cmd>>> = Vec::new();
        for f in 0..4usize
            invariant
                cmds@.len() == f,
                forall|g: int| 0 <= g < f ==> (#[trigger] cmds@[g])@ == Map::<
                    u64,
                    Vec<Cmd>,
                >::empty(),
        {
            cmds.push(Table::new());
        }
        let r = Lockstep {
            peers,
            is_host,
            seed,
            factions,
            is_ai,
            alliance,
            my_faction,
            sim_step: 0,
            sent_step: 0,
            cmds,
            local_checks: Table::new(),
            remote_checks: Table::new(),
            pending: Vec::new(),
            desync_step: None,
            last_synced: 0,
            disconnected: false,
        };
        proof {
            assert forall|f: int| 0 <= f < 4 implies steps_view(#[trigger] r.cmds@[f]) == Map::<
                u64,
                Seq<CmdV>,
            >::empty() by {
                assert(steps_view(r.cmds@[f]) =~= Map::<u64, Seq<CmdV>>::empty());
            }
            assert(r@.cmds =~= Seq::new(4, |f: int| Map::<u64, Seq<CmdV>>::empty()));
            assert(r@.pending =~= Seq::<CmdV>::empty());
        }
        r
    }

    /// Whether the match still has all its links.
    pub fn alive(&self) -> (r: bool)
        ensures
            r == !self.disconnected,
    {
        !self.disconnected
    }

    /// Issues a command; it goes out with the next step.
    pub fn queue(&mut self, c: Cmd)
        requires
            old(self).wf(),
        ensures
            final(self).wf(),
            final(self)@ == (LockstepV { pending: old(self)@.pending.push(c@), ..old(self)@ }),
    {
        self.pending.push(c);
        assert(self@.pending =~= old(self)@.pending.push(c@));
        assert(self@.cmds =~= old(self)@.cmds);
    }

    /// Queues a message on every link but `from`.
    fn relay(&mut self, from: usize, m: &Msg)
        requires
            old(self).wf(),
        ensures
            final(self).wf(),
            final(self)@ == (LockstepV {
                peers: relayed(old(self)@.peers, from as int, m@),
                ..old(self)@
            }),
    {
        let ghost v0 = self@;
        let ghost p0 = self.peers@;
        let n: usize = self.peers.len();
        for k in 0..n
            invariant
                n == p0.len(),
                self.peers@.len() == n,
                v0 == old(self)@,
                self.wf(),
                self@ == (LockstepV { peers: links_view(self.peers@), ..v0 }),
                forall|j: int|
                    0 <= j < n ==> (#[trigger] self.peers@[j])@ == (if j < k && j != from {
                        after_send(p0[j]@, m@)
                    } else {
                        p0[j]@
                    }),
        {
            if k != from {
                assert(self.peers@[k as int].wf());
                self.peers[k].send(m);
            }
        }
        proof {
            assert(self@.peers =~= relayed(v0.peers, from as int, m@));
        }
    }

    /// Queues a message on every link.
    fn broadcast_msg(&mut self, m: &Msg)
        requires
            old(self).wf(),
        ensures
            final(self).wf(),
            final(self)@ == (LockstepV { peers: relayed(old(self)@.peers, -1, m@), ..old(self)@ }),
    {
        let n: usize = self.peers.len();
        self.relay(n, m);
        proof {
            assert(self@.peers =~= relayed(old(self)@.peers, -1, m@));
        }
    }

    /// Takes in one message from link `from`. The host passes what it accepts on to
    /// every other link.
    pub fn ingest(&mut self, from: usize, m: Msg)
        requires
            old(self).wf(),
        ensures
            final(self).wf(),
            final(self)@ == old(self)@.ingested(from as int, m@),
    {
        let ghost v0 = self@;
        let spoken: usize = match &m {
            Msg::Step { faction, .. } => *faction as usize,
            Msg::Check { faction, .. } => *faction as usize,
            _ => {
                return;
            },
        };
        if self.is_host {
            if from >= self.peers.len() || self.peers[from].faction != spoken {
                return;
            }
        }
        assert(v0.may_speak(from as int, spoken as int)) by {
            if self.is_host {
                assert(v0.peers[from as int] == self.peers@[from as int]@);
            }
        }
        if let Msg::Step { step, .. } = &m {
            if *step > self.sent_step + MAX_AHEAD {
                return;
            }
        }
        if self.is_host {
            self.relay(from, &m);
        }
        let ghost v1 = self@;
        match m {
            Msg::Step { faction, step, cmds } => {
                let f: usize = faction as usize;
                if f < self.cmds.len() {
                    let ghost t0 = self.cmds@[f as int];
                    self.cmds[f].insert_new(step as u64, cmds);
                    proof {
                        let t1 = self.cmds@[f as int];
                        assert(steps_view(t1) =~= (if t0@.dom().contains(step as u64) {
                            steps_view(t0)
                        } else {
                            steps_view(t0).insert(step as u64, cmds_view(cmds@))
                        }));
                        assert(v1.cmds[f as int] == steps_view(t0));
                        assert(self@.cmds =~= v1.cmds.update(f as int, steps_view(t1)));
                        if t0@.dom().contains(step as u64) {
                            assert(self@.cmds =~= v1.cmds);
                        }
                    }
                }
            },
            Msg::Check { faction, step, hash } => {
                if self.desync_step.is_none() && step <= self.sent_step + MAX_AHEAD {
                    self.remote_checks.insert(check_key_at(step, faction), hash);
                }
            },
            _ => {},
        }
    }

    /// Sends off our commands for one more step, if that step is due: everything
    /// issued so far, clamped. What is kept here is exactly what goes out.
    pub fn push_step(&mut self) -> (pushed: bool)
        requires
            old(self).wf(),
        ensures
            final(self).wf(),
            pushed == (old(self).sent_step < old(self).sim_step + INPUT_DELAY),
            !pushed ==> final(self)@ == old(self)@,
            pushed ==> exists|k: int| #[trigger]
                fits_exactly(old(self)@.pending, k) && final(self)@ == pushed_with(
                    old(self)@,
                    old(self)@.pending.take(k).map_values(|c: CmdV| trimmed(c)),
                ),
    {
        if self.sent_step >= self.sim_step + INPUT_DELAY {
            return false;
        }
        let ghost v0 = self@;
        let mut cmds: Vec<Cmd> = Vec::new();
        std::mem::swap(&mut cmds, &mut self.pending);
        let ghost issued = cmds_view(cmds@);
        clamp_step(&mut cmds);
        let ghost kept = cmds_view(cmds@);
        let ghost k = cmds@.len() as int;
        let own = copy_cmds(&cmds);
        let me: usize = self.my_faction;
        let step: u32 = self.sent_step;
        let ghost t0 = self.cmds@[me as int];
        self.cmds[me].insert(step as u64, own);
        proof {
            let t1 = self.cmds@[me as int];
            assert(steps_view(t1) =~= steps_view(t0).insert(step as u64, kept));
            assert(v0.cmds[me as int] == steps_view(t0));
            assert(self@.cmds =~= v0.cmds.update(me as int, steps_view(t1)));
            assert(self@.pending =~= Seq::<CmdV>::empty());
        }
        let msg = Msg::Step { faction: me as u8, step, cmds };
        self.broadcast_msg(&msg);
        self.sent_step = step + 1;
        proof {
            assert(fits_exactly(v0.pending, k));
            assert(self@ =~= pushed_with(v0, kept));
        }
        true
    }

    /// Notes whether some link is gone.
    pub fn note_closed(&mut self)
        requires
            old(self).wf(),
        ensures
            final(self).wf(),
            final(self)@ == (LockstepV {
                disconnected: old(self).disconnected || exists|k: int|
                    0 <= k < old(self)@.peers.len() && (#[trigger] old(self)@.peers[k]).closed,
                ..old(self)@
            }),
    {
        let ghost v0 = self@;
        let mut gone: bool = self.disconnected;
        let n: usize = self.peers.len();
        for k in 0..n
            invariant
                n == self.peers@.len(),
                v0 == self@,
                *self == *old(self),
                gone == (self.disconnected || exists|j: int|
                    0 <= j < k && (#[trigger] v0.peers[j]).closed),
        {
            if self.peers[k].closed {
                assert(v0.peers[k as int].closed);
                gone = true;
            } else {
                assert(!v0.peers[k as int].closed);
            }
        }
        self.disconnected = gone;
        assert(self@.cmds =~= v0.cmds);
        assert(self@.peers =~= v0.peers);
    }

    /// Whether the next step can run.
    pub fn ready(&self) -> (r: bool)
        requires
            self.wf(),
        ensures
            r == self@.is_ready(),
    {
        for f in 0..self.factions
            invariant
                self.wf(),
                forall|g: int|
                    0 <= g < f && !self@.is_ai[g] ==> (#[trigger] self@.cmds[g]).dom().contains(
                        self.sim_step as u64,
                    ),
        {
            assert(self@.cmds[f as int] == steps_view(self.cmds@[f as int]));
            if !self.is_ai[f] && !self.cmds[f].contains(self.sim_step as u64) {
                assert(!self@.cmds[f as int].dom().contains(self.sim_step as u64));
                return false;
            }
        }
        true
    }

    /// Every faction's commands for the next step.
    pub fn step_cmds(&self) -> (r: Vec<Vec<Cmd>>)
        requires
            self.wf(),
        ensures
            r@.len() == self.factions,
            forall|f: int|
                0 <= f < self.factions ==> cmds_view((#[trigger] r@[f])@) == self@.next_cmds(f),
    {
        let mut out: Vec<Vec<Cmd>> = Vec::new();
        for f in 0..self.factions
            invariant
                self.wf(),
                out@.len() == f,
                forall|g: int| 0 <= g < f ==> cmds_view((#[trigger] out@[g])@) == self@.next_cmds(g),
        {
            assert(self@.cmds[f as int] == steps_view(self.cmds@[f as int]));
            match self.cmds[f].get(self.sim_step as u64) {
                Some(c) => {
                    let own = copy_cmds(c);
                    out.push(own);
                },
                None => {
                    let none: Vec<Cmd> = Vec::new();
                    assert(cmds_view(none@) =~= Seq::<CmdV>::empty());
                    out.push(none);
                },
            }
        }
        out
    }
}

impl Lockstep {
    /// Holds our hash of step `s` against everyone else's: do they all agree, and does
    /// one of them differ?
    fn compare(&self, s: u64, ours: u64) -> (r: (bool, bool))
        requires
            self.wf(),
            s <= LAST_STEP,
            self.local_checks@.dom().contains(s),
            ours == self.local_checks@[s],
        ensures
            r.0 == self@.agreed(s),
            r.1 == self@.disputed(s),
    {
        let ghost v = self@;
        let mut complete: bool = true;
        let mut differs: bool = false;
        for f in 0..self.factions
            invariant
                self.wf(),
                v == self@,
                s <= LAST_STEP,
                ours == v.local_checks[s],
                complete == (forall|g: int| #[trigger]
                    v.remote_human(g) && g < f ==> v.remote_checks.dom().contains(check_key(s as int, g))
                        && v.remote_checks[check_key(s as int, g)] == ours),
                differs == (exists|g: int| #[trigger]
                    v.remote_human(g) && g < f && v.remote_checks.dom().contains(check_key(s as int, g))
                        && v.remote_checks[check_key(s as int, g)] != ours),
        {
            if f != self.my_faction && !self.is_ai[f] {
                assert(v.remote_human(f as int));
                match self.remote_checks.get(check_key_at(s as u32, f as u8)) {
                    Some(h) => {
                        if *h != ours {
                            complete = false;
                            differs = true;
                        }
                    },
                    None => {
                        complete = false;
                    },
                }
            } else {
                assert(!v.remote_human(f as int));
            }
        }
        (complete, differs)
    }

    /// Drops the checks of the given steps.
    fn forget(&mut self, settled: &Vec<u64>)
        requires
            old(self).wf(),
            forall|i: int| 0 <= i < settled@.len() ==> #[trigger] settled@[i] <= LAST_STEP,
        ensures
            final(self).wf(),
            final(self)@ == (LockstepV {
                local_checks: old(self)@.local_checks.restrict(
                    Set::new(|s: u64| !settled@.contains(s)),
                ),
                remote_checks: old(self)@.remote_checks.restrict(
                    Set::new(|k: u64| !among(settled@, old(self).factions as int, k)),
                ),
                ..old(self)@
            }),
    {
        let ghost v0 = self@;
        let n: usize = settled.len();
        let players: usize = self.factions;
        proof {
            assert(self@.local_checks =~= v0.local_checks.restrict(
                Set::new(|s: u64| !settled@.take(0).contains(s)),
            ));
            assert(self@.remote_checks =~= v0.remote_checks.restrict(
                Set::new(|k: u64| !among(settled@.take(0), self.factions as int, k)),
            ));
        }
        for i in 0..n
            invariant
                n == settled@.len(),
                v0 == old(self)@,
                players == v0.factions,
                self.wf(),
                forall|i: int| 0 <= i < settled@.len() ==> #[trigger] settled@[i] <= LAST_STEP,
                self@ == (LockstepV {
                    local_checks: v0.local_checks.restrict(
                        Set::new(|s: u64| !settled@.take(i as int).contains(s)),
                    ),
                    remote_checks: v0.remote_checks.restrict(
                        Set::new(|k: u64| !among(settled@.take(i as int), v0.factions, k)),
                    ),
                    ..v0
                }),
        {
            let s: u64 = settled[i];
            let ghost before = settled@.take(i as int);
            let ghost after = settled@.take(i + 1);
            let ghost v1 = self@;
            proof {
                assert(after =~= before.push(s));
                assert forall|t: u64| #[trigger] after.contains(t) == (before.contains(t) || t == s) by {
                    assert(after[i as int] == s);
                    if before.contains(t) {
                        let j = choose|j: int| 0 <= j < before.len() && before[j] == t;
                        assert(after[j] == t);
                    }
                }
            }
            self.local_checks.remove(s);
            assert(self@.local_checks =~= v0.local_checks.restrict(Set::new(|t: u64| !after.contains(t))));
            assert(s <= LAST_STEP);
            for f in 0..players
                invariant
                    self.wf(),
                    s <= LAST_STEP,
                    self.factions == v0.factions,
                    players == v0.factions,
                    self@ == (LockstepV {
                        local_checks: self@.local_checks,
                        remote_checks: v1.remote_checks.restrict(
                            Set::new(|k: u64| !key_below(s, f as int, k)),
                        ),
                        ..v1
                    }),
                    self@.local_checks == v0.local_checks.restrict(Set::new(|t: u64| !after.contains(t))),
                    f == 0 ==> self@.remote_checks == v1.remote_checks,
            {
                let ghost r0 = self.remote_checks@;
                self.remote_checks.remove(check_key_at(s as u32, f as u8));
                proof {
                    assert forall|k: u64| #[trigger] key_below(s, f + 1, k) == (key_below(s, f as int, k)
                        || k == check_key(s as int, f as int)) by {
                        assert(check_key(s as int, f as int) == check_key(s as int, f as int));
                    }
                    assert(self.remote_checks@ =~= v1.remote_checks.restrict(
                        Set::new(|k: u64| !key_below(s, f + 1, k)),
                    ));
                }
            }
            proof {
                assert forall|k: u64| #[trigger] among(after, v0.factions, k) == (among(
                    before,
                    v0.factions,
                    k,
                ) || key_below(s, v0.factions, k)) by {
                    if among(before, v0.factions, k) {
                        let (t, f) = choose|t: u64, f: int| #[trigger]
                            before.contains(t) && 0 <= f < v0.factions && k == #[trigger] check_key(
                                t as int,
                                f,
                            );
                        assert(after.contains(t));
                    }
                    if key_below(s, v0.factions, k) {
                        assert(after.contains(s));
                    }
                }
                assert(self@.remote_checks =~= v0.remote_checks.restrict(
                    Set::new(|k: u64| !among(after, v0.factions, k)),
                ));
            }
        }
        proof {
            assert(settled@.take(n as int) =~= settled@);
        }
    }

    /// Notes and sends our checksum of the step that just ran, moves on to the next,
    /// and holds every checksum of ours against what the others reported: a step is
    /// settled once all of them agree, and a single mismatch is a desync.
    pub fn advanced(&mut self, checksum: u64)
        requires
            old(self).wf(),
            old(self).sim_step < LAST_STEP,
        ensures
            final(self).wf(),
            moved_on(old(self)@.noted(checksum), final(self)@),
    {
        let ghost v0 = self@;
        if self.sim_step % CHECK_EVERY == 0 {
            self.local_checks.insert(self.sim_step as u64, checksum);
            let msg = Msg::Check {
                faction: self.my_faction as u8,
                step: self.sim_step,
                hash: checksum,
            };
            assert(self@.cmds =~= v0.cmds);
            self.broadcast_msg(&msg);
        }
        let ghost v = self@;
        assert(v =~= v0.noted(checksum));
        if self.desync_step.is_none() {
            let mut settled: Vec<u64> = Vec::new();
            let mut desync: Option<u32> = None;
            let mut synced: u32 = self.last_synced;
            let steps: Vec<u64> = self.local_checks.keys();
            let n: usize = steps.len();
            let ghost ord = steps@;
            assert forall|j: int| 0 <= j < n implies v.local_checks.dom().contains(#[trigger] ord[j]) by {
                assert(ord.contains(ord[j]));
            }
            for i in 0..n
                invariant
                    self.wf(),
                    v == self@,
                    n == ord.len(),
                    ord == steps@,
                    forall|j: int| 0 <= j < n ==> v.local_checks.dom().contains(#[trigger] ord[j]),
                    forall|j: int| 0 <= j < settled@.len() ==> v.settles(#[trigger] settled@[j]),
                    forall|j: int| 0 <= j < i && v.agreed(#[trigger] ord[j]) ==> settled@.contains(ord[j]),
                    match desync {
                        Some(d) => v.local_checks.dom().contains(d as u64) && v.disputed(d as u64)
                            && forall|j: int|
                            0 <= j < i && v.disputed(#[trigger] ord[j]) ==> d <= ord[j],
                        None => forall|j: int| 0 <= j < i ==> !v.disputed(#[trigger] ord[j]),
                    },
                    v.last_synced <= synced,
                    synced == v.last_synced || v.settles(synced as u64),
                    forall|j: int| 0 <= j < i && v.agreed(#[trigger] ord[j]) ==> ord[j] <= synced,
            {
                let s: u64 = steps[i];
                assert(v.local_checks.dom().contains(ord[i as int]));
                let ours: u64 = match self.local_checks.get(s) {
                    Some(h) => *h,
                    None => 0,
                };
                let (complete, differs) = self.compare(s, ours);
                if differs {
                    match desync {
                        Some(d) => {
                            if (s as u32) < d {
                                desync = Some(s as u32);
                            }
                        },
                        None => {
                            desync = Some(s as u32);
                        },
                    }
                }
                if complete {
                    let ghost before = settled@;
                    settled.push(s);
                    proof {
                        assert(settled@[before.len() as int] == s);
                        assert forall|j: int| 0 <= j < i + 1 && v.agreed(#[trigger] ord[j]) implies
                            settled@.contains(ord[j]) by {
                            if j < i {
                                let q = choose|q: int| 0 <= q < before.len() && before[q] == ord[j];
                                assert(settled@[q] == ord[j]);
                            }
                        }
                        assert(v.settles(s));
                    }
                    if s as u32 > synced {
                        synced = s as u32;
                    }
                }
            }
            proof {
                assert forall|s: u64| #[trigger] v.local_checks.dom().contains(s) implies v.agreed(s)
                    == settled@.contains(s) by {
                    let j = choose|j: int| 0 <= j < ord.len() && ord[j] == s;
                    assert(ord[j] == s);
                    if settled@.contains(s) {
                        let q = choose|q: int| 0 <= q < settled@.len() && settled@[q] == s;
                        assert(v.settles(settled@[q]));
                    }
                }
                assert forall|j: int| 0 <= j < settled@.len() implies #[trigger] settled@[j] <= LAST_STEP by {
                    assert(v.settles(settled@[j]));
                }
                assert(first_dispute(v, desync)) by {
                    assert forall|t: u64| #[trigger] v.local_checks.dom().contains(t) && v.disputed(
                        t,
                    ) implies desync is Some && desync->0 <= t by {
                        let j = choose|j: int| 0 <= j < ord.len() && ord[j] == t;
                        assert(v.disputed(ord[j]));
                    }
                }
                assert(last_agreement(v, v.last_synced, synced)) by {
                    assert forall|t: u64| #[trigger] v.settles(t) implies t <= synced by {
                        let j = choose|j: int| 0 <= j < ord.len() && ord[j] == t;
                        assert(v.agreed(ord[j]));
                    }
                }
            }
            self.desync_step = desync;
            self.last_synced = synced;
            assert(self@.cmds =~= v.cmds);
            self.forget(&settled);
            proof {
                assert(self@.local_checks =~= v.local_checks.restrict(Set::new(|s: u64| !v.agreed(s))));
                assert forall|k: u64| #[trigger] among(settled@, v.factions, k) == v.spent(k) by {
                    if among(settled@, v.factions, k) {
                        let (t, f) = choose|t: u64, f: int| #[trigger]
                            settled@.contains(t) && 0 <= f < v.factions && k == #[trigger] check_key(
                                t as int,
                                f,
                            );
                        let q = choose|q: int| 0 <= q < settled@.len() && settled@[q] == t;
                        assert(v.settles(settled@[q]));
                    }
                    if v.spent(k) {
                        let (t, f) = choose|t: u64, f: int| #[trigger]
                            v.settles(t) && 0 <= f < v.factions && k == #[trigger] check_key(t as int, f);
                        assert(settled@.contains(t));
                    }
                }
                assert(self@.remote_checks =~= v.remote_checks.restrict(
                    Set::new(|k: u64| !v.spent(k)),
                ));
            }
        }
        let ghost w = self@;
        self.sim_step = self.sim_step + 1;
        let cutoff: u64 = self.sim_step as u64;
        assert(self@.cmds =~= v.cmds);
        let players: usize = self.factions;
        for f in 0..players
            invariant
                self.wf(),
                players == v.factions,
                cutoff == v.sim_step + 1,
                self.factions == v.factions,
                v.cmds.len() == 4,
                self@ == (LockstepV { sim_step: v.sim_step + 1, cmds: self@.cmds, ..w }),
                self@.cmds.len() == 4,
                forall|g: int|
                    0 <= g < 4 ==> #[trigger] self@.cmds[g] == (if g < f {
                        v.cmds[g].restrict(Set::new(|k: u64| k >= cutoff))
                    } else {
                        v.cmds[g]
                    }),
        {
            let ghost t0 = self.cmds@[f as int];
            let ghost c0 = self@.cmds;
            assert(c0[f as int] == steps_view(t0));
            self.cmds[f].retain_from(cutoff);
            proof {
                let t1 = self.cmds@[f as int];
                assert(steps_view(t1) =~= steps_view(t0).restrict(Set::new(|k: u64| k >= cutoff)));
                assert(self@.cmds =~= c0.update(f as int, steps_view(t1)));
            }
        }
        proof {
            assert(self@.cmds =~= v.cmds.map(
                |f: int, m: Map<u64, Seq<CmdV>>|
                    if f < v.factions {
                        m.restrict(Set::new(|k: u64| k >= v.sim_step + 1))
                    } else {
                        m
                    },
            )) by {
                assert(Set::new(|k: u64| k >= cutoff) =~= Set::new(|k: u64| k >= v.sim_step + 1));
            }
        }
    }
}

/// The host ignores a message that claims a faction other than the one its link plays:
/// nothing is stored and nothing is passed on.
pub proof fn spoofed_messages_are_ignored(v: LockstepV, from: int, m: MsgV)
    requires
        v.is_host,
        match m {
            MsgV::Step { faction, .. } => !(0 <= from < v.peers.len()) || v.peers[from].faction != faction,
            MsgV::Check { faction, .. } => !(0 <= from < v.peers.len()) || v.peers[from].faction
                != faction,
            _ => true,
        },
    ensures
        v.ingested(from, m) == v,
{
}

/// A step far past what peers can have reached is ignored by everyone, and so is a
/// check as evidence.
pub proof fn far_future_is_ignored(v: LockstepV, from: int, faction: u8, step: u32, cmds: Seq<CmdV>, hash: u64)
    requires
        step > v.sent_step + MAX_AHEAD,
    ensures
        v.ingested(from, MsgV::Step { faction, step, cmds }) == v,
        v.ingested(from, MsgV::Check { faction, step, hash }).remote_checks == v.remote_checks,
{
}

/// The first commands that arrive for a step stand; a second list changes nothing.
pub proof fn first_commands_stand(v: LockstepV, from: int, faction: u8, step: u32, cmds: Seq<CmdV>)
    requires
        faction < MAX_FACTIONS,
        v.cmds.len() == MAX_FACTIONS,
        v.cmds[faction as int].dom().contains(step as u64),
    ensures
        v.ingested(from, MsgV::Step { faction, step, cmds }).cmds == v.cmds,
{
}

/// Nothing that comes in over a link changes our own place in the match.
pub proof fn ingest_keeps_our_place(v: LockstepV, from: int, m: MsgV)
    ensures
        ({
            let w = v.ingested(from, m);
            &&& w.sim_step == v.sim_step
            &&& w.sent_step == v.sent_step
            &&& w.pending == v.pending
            &&& w.local_checks == v.local_checks
            &&& w.desync_step == v.desync_step
            &&& w.last_synced == v.last_synced
        }),
{
}

/// Once a desync is flagged the checks are frozen: neither messages nor further steps
/// change them.
pub proof fn evidence_is_frozen(v: LockstepV, from: int, m: MsgV, w: LockstepV)
    requires
        v.desync_step is Some,
        moved_on(v, w),
    ensures
        v.ingested(from, m).remote_checks == v.remote_checks,
        w.remote_checks == v.remote_checks,
        w.local_checks == v.local_checks,
        w.desync_step == v.desync_step,
{
}

/// A desync is flagged exactly when some other human's hash of a step of ours differs,
/// whatever the rest reported.
pub proof fn desync_iff_some_mismatch(v: LockstepV, w: LockstepV)
    requires
        v.desync_step is None,
        moved_on(v, w),
    ensures
        w.desync_step is Some <==> exists|s: u64| #[trigger]
            v.local_checks.dom().contains(s) && v.disputed(s),
{
}

/// A step counts as in sync only once every other human has reported our hash for it.
pub proof fn synced_needs_everyone(v: LockstepV, w: LockstepV, f: int)
    requires
        v.desync_step is None,
        moved_on(v, w),
        w.last_synced != v.last_synced,
        v.remote_human(f),
    ensures
        v.local_checks.dom().contains(w.last_synced as u64),
        v.remote_checks.dom().contains(check_key(w.last_synced as int, f)),
        v.remote_checks[check_key(w.last_synced as int, f)] == v.local_checks[w.last_synced as u64],
{
    assert(v.settles(w.last_synced as u64));
}

/// Every step held is within reach of what was sent, so that no peer can make us hold
/// more than a bounded number of them.
pub open spec fn windowed(v: LockstepV) -> bool {
    forall|f: int, k: u64|
        0 <= f < v.cmds.len() && #[trigger] v.cmds[f].dom().contains(k) ==> k <= v.sent_step + MAX_AHEAD
}

/// Whatever comes in, whatever goes out, and whichever steps run, what is held stays
/// within reach.
pub proof fn held_steps_stay_in_window(v: LockstepV, from: int, m: MsgV, kept: Seq<CmdV>, w: LockstepV)
    requires
        windowed(v),
        v.cmds.len() == MAX_FACTIONS,
        0 <= v.my_faction < MAX_FACTIONS,
        0 <= v.sent_step <= LAST_STEP + INPUT_DELAY,
        moved_on(v, w),
    ensures
        windowed(v.ingested(from, m)),
        windowed(pushed_with(v, kept)),
        windowed(w),
{
    let a = v.ingested(from, m);
    assert forall|f: int, k: u64| 0 <= f < a.cmds.len() && #[trigger] a.cmds[f].dom().contains(k) implies k
        <= a.sent_step + MAX_AHEAD by {
        if v.cmds[f].dom().contains(k) {
        }
    }
    let b = pushed_with(v, kept);
    assert forall|f: int, k: u64| 0 <= f < b.cmds.len() && #[trigger] b.cmds[f].dom().contains(k) implies k
        <= b.sent_step + MAX_AHEAD by {
        if v.cmds[f].dom().contains(k) {
        }
    }
    assert forall|f: int, k: u64| 0 <= f < w.cmds.len() && #[trigger] w.cmds[f].dom().contains(k) implies k
        <= w.sent_step + MAX_AHEAD by {
        assert(v.cmds[f].dom().contains(k));
    }
}

/// What a peer stores of a step we send is exactly what we stored ourselves: the
/// message survives the wire, and the peer that hears it first holds the same list.
pub proof fn peers_store_what_we_store(v: LockstepV, k: int, peer: LockstepV, from: int)
    requires
        fits_exactly(v.pending, k),
        v.cmds.len() == MAX_FACTIONS,
        peer.cmds.len() == MAX_FACTIONS,
        0 <= v.my_faction < MAX_FACTIONS,
        0 <= v.sent_step <= u32::MAX,
        peer.may_speak(from, v.my_faction),
        peer.in_window(v.sent_step),
        !peer.cmds[v.my_faction].dom().contains(v.sent_step as u64),
    ensures
        ({
            let kept = v.pending.take(k).map_values(|c: CmdV| trimmed(c));
            let m = MsgV::Step {
                faction: v.my_faction as u8,
                step: v.sent_step as u32,
                cmds: kept,
            };
            &&& crate::wire::dec_msg_of(crate::wire::enc_msg_of(m)) == Some(m)
            &&& pushed_with(v, kept).cmds[v.my_faction][v.sent_step as u64] == kept
            &&& peer.ingested(from, m).cmds[v.my_faction][v.sent_step as u64] == kept
        }),
{
    crate::wire::clamped_step_survives_the_wire(
        v.pending,
        k,
        v.my_faction as u8,
        v.sent_step as u32,
    );
}

/// Peers that hold the same commands for the next step run the same commands.
pub proof fn same_holdings_same_step(a: LockstepV, b: LockstepV, f: int)
    requires
        a.sim_step == b.sim_step,
        a.cmds[f].dom().contains(a.sim_step as u64) == b.cmds[f].dom().contains(b.sim_step as u64),
        a.cmds[f].dom().contains(a.sim_step as u64) ==> a.cmds[f][a.sim_step as u64]
            == b.cmds[f][b.sim_step as u64],
    ensures
        a.next_cmds(f) == b.next_cmds(f),
{
}

/// Whether `k` is the key of a faction's check of one of the steps.
spec fn among(settled: Seq<u64>, factions: int, k: u64) -> bool {
    exists|s: u64, f: int| #[trigger]
        settled.contains(s) && 0 <= f < factions && k == #[trigger] check_key(s as int, f)
}

/// Whether `k` is the key of a check of step `s` by a faction below `n`.
spec fn key_below(s: u64, n: int, k: u64) -> bool {
    exists|f: int| 0 <= f < n && k == #[trigger] check_key(s as int, f)
}

/// The state after `kept` went out as our next step.
pub open spec fn pushed_with(v: LockstepV, kept: Seq<CmdV>) -> LockstepV {
    LockstepV {
        pending: Seq::empty(),
        cmds: v.cmds.update(v.my_faction, v.cmds[v.my_faction].insert(v.sent_step as u64, kept)),
        peers: relayed(
            v.peers,
            -1,
            MsgV::Step { faction: v.my_faction as u8, step: v.sent_step as u32, cmds: kept },
        ),
        sent_step: v.sent_step + 1,
        ..v
    }
}

// ---- what holds between peers -------------------------------------------------------------------------

/// What a faction's own link says is taken in: the commands of a step within reach that is
/// heard for the first time are kept as they are, for that faction and that step and no other;
/// and so is a checksum, until a desync is flagged.
pub proof fn what_is_heard_is_kept(v: LockstepV, from: int, faction: u8, step: u32, cmds: Seq<CmdV>, hash: u64, f: int, k: u64)
    requires
        v.cmds.len() == MAX_FACTIONS,
        faction < MAX_FACTIONS,
        0 <= f < MAX_FACTIONS,
        v.is_host ==> 0 <= from < v.peers.len() && v.peers[from].faction == faction,
        step <= v.sent_step + 1200,
    ensures
        ({
            let w = v.ingested(from, MsgV::Step { faction, step, cmds });
            let fresh = !v.cmds[faction as int].dom().contains(step as u64);
            &&& fresh ==> w.cmds[faction as int].dom().contains(step as u64) && w.cmds[faction as int][step as u64]
                == cmds
            &&& f != faction || k != step as u64 || !fresh ==> (w.cmds[f].dom().contains(k)
                <==> v.cmds[f].dom().contains(k)) && (v.cmds[f].dom().contains(k) ==> w.cmds[f][k] == v.cmds[f][k])
            &&& w.remote_checks == v.remote_checks
        }),
        ({
            let w = v.ingested(from, MsgV::Check { faction, step, hash });
            let key = (step * 256 + faction) as u64;
            &&& v.desync_step is None ==> w.remote_checks.dom().contains(key) && w.remote_checks[key] == hash
            &&& v.desync_step is None && k != key ==> (w.remote_checks.dom().contains(k)
                <==> v.remote_checks.dom().contains(k)) && (v.remote_checks.dom().contains(k) ==> w.remote_checks[k]
                == v.remote_checks[k])
            &&& w.cmds == v.cmds
        }),
{
}

/// The host passes on what it takes in to everyone but the one it came from; a joiner passes on
/// nothing.
pub proof fn the_host_passes_it_on(v: LockstepV, from: int, faction: u8, step: u32, cmds: Seq<CmdV>, hash: u64, k: int)
    requires
        0 <= from < v.peers.len(),
        0 <= k < v.peers.len(),
        v.peers[from].faction == faction,
        step <= v.sent_step + 1200,
    ensures
        ({
            let m = MsgV::Step { faction, step, cmds };
            let c = MsgV::Check { faction, step, hash };
            &&& v.is_host && k != from ==> v.ingested(from, m).peers[k] == after_send(v.peers[k], m) && v.ingested(
                from,
                c,
            ).peers[k] == after_send(v.peers[k], c)
            &&& !v.is_host || k == from ==> v.ingested(from, m).peers[k] == v.peers[k] && v.ingested(from, c).peers[k]
                == v.peers[k]
        }),
{
}

/// A step waits for every human, and for nobody else: it can run as soon as the commands of all
/// factions that no computer plays are there, and what runs are the commands that are held.
pub proof fn steps_wait_for_every_human(v: LockstepV, f: int)
    requires
        0 <= f < v.factions,
    ensures
        v.is_ready() && !v.is_ai[f] ==> v.cmds[f].dom().contains(v.sim_step as u64),
        !v.is_ai[f] && !v.cmds[f].dom().contains(v.sim_step as u64) ==> !v.is_ready(),
        (forall|g: int|
            0 <= g < v.factions ==> v.is_ai[g] || (#[trigger] v.cmds[g]).dom().contains(v.sim_step as u64))
            ==> v.is_ready(),
        v.cmds[f].dom().contains(v.sim_step as u64) ==> v.next_cmds(f) == v.cmds[f][v.sim_step as u64],
        !v.cmds[f].dom().contains(v.sim_step as u64) ==> v.next_cmds(f).len() == 0,
{
}

/// A single checksum of another human that differs from ours is a desync, flagged at the first
/// such step at the latest; and where none differs there is none.
pub proof fn one_mismatch_is_a_desync(v: LockstepV, w: LockstepV, s: u64, f: int)
    requires
        v.desync_step is None,
        moved_on(v, w),
        v.local_checks.dom().contains(s),
        0 <= f < v.factions,
        f != v.my_faction,
        !v.is_ai[f],
        v.remote_checks.dom().contains((s * 256 + f) as u64),
    ensures
        v.remote_checks[(s * 256 + f) as u64] != v.local_checks[s] ==> w.desync_step is Some && w.desync_step->0 <= s,
        w.desync_step is None ==> v.remote_checks[(s * 256 + f) as u64] == v.local_checks[s],
{
    if v.remote_checks[(s * 256 + f) as u64] != v.local_checks[s] {
        assert(v.remote_human(f));
        assert(v.remote_checks.dom().contains(check_key(s as int, f)));
        assert(v.disputed(s));
    }
}

/// No desync is flagged out of the blue: at the step that is flagged some other human's
/// checksum is there and is not ours.
pub proof fn desyncs_have_a_reason(v: LockstepV, w: LockstepV)
    requires
        v.desync_step is None,
        moved_on(v, w),
        w.desync_step is Some,
    ensures
        exists|f: int|
            0 <= f < v.factions && f != v.my_faction && !#[trigger] v.is_ai[f] && v.remote_checks.dom().contains(
                (w.desync_step->0 * 256 + f) as u64,
            ) && v.remote_checks[(w.desync_step->0 * 256 + f) as u64] != v.local_checks[w.desync_step->0 as u64],
{
    let s = w.desync_step->0 as u64;
    let f = choose|f: int| #[trigger]
        v.remote_human(f) && v.remote_checks.dom().contains(check_key(s as int, f))
            && v.remote_checks[check_key(s as int, f)] != v.local_checks[s];
    assert(!v.is_ai[f]);
}

/// A step that every other human has reported our checksum for is in sync, and its checks are
/// let go; checks of a step that someone has yet to report are kept.
pub proof fn agreement_is_noted(v: LockstepV, w: LockstepV, s: u64)
    requires
        v.desync_step is None,
        moved_on(v, w),
        v.local_checks.dom().contains(s),
    ensures
        (forall|f: int|
            0 <= f < v.factions && f != v.my_faction && !#[trigger] v.is_ai[f] ==> v.remote_checks.dom().contains(
                (s * 256 + f) as u64,
            ) && v.remote_checks[(s * 256 + f) as u64] == v.local_checks[s]) ==> w.last_synced >= s
            && !w.local_checks.dom().contains(s),
        (exists|f: int|
            0 <= f < v.factions && f != v.my_faction && !#[trigger] v.is_ai[f] && !v.remote_checks.dom().contains(
                (s * 256 + f) as u64,
            )) ==> w.local_checks.dom().contains(s) && w.local_checks[s] == v.local_checks[s],
        w.last_synced >= v.last_synced,
{
    if forall|f: int|
        0 <= f < v.factions && f != v.my_faction && !#[trigger] v.is_ai[f] ==> v.remote_checks.dom().contains(
            (s * 256 + f) as u64,
        ) && v.remote_checks[(s * 256 + f) as u64] == v.local_checks[s] {
        assert forall|f: int| #[trigger] v.remote_human(f) implies v.remote_checks.dom().contains(
            check_key(s as int, f),
        ) && v.remote_checks[check_key(s as int, f)] == v.local_checks[s] by {
            assert(!v.is_ai[f]);
        }
        assert(v.agreed(s));
        assert(v.settles(s));
    }
    if exists|f: int|
        0 <= f < v.factions && f != v.my_faction && !#[trigger] v.is_ai[f] && !v.remote_checks.dom().contains(
            (s * 256 + f) as u64,
        ) {
        let f = choose|f: int|
            0 <= f < v.factions && f != v.my_faction && !#[trigger] v.is_ai[f] && !v.remote_checks.dom().contains(
                (s * 256 + f) as u64,
            );
        assert(v.remote_human(f));
        assert(!v.remote_checks.dom().contains(check_key(s as int, f)));
        assert(!v.agreed(s));
    }
}

/// Moving on goes to the very next step, and lets go of the commands of those that have run
/// and of no others.
pub proof fn moving_on_keeps_what_is_to_come(v: LockstepV, w: LockstepV, f: int, k: u64)
    requires
        moved_on(v, w),
        0 <= f < v.factions <= v.cmds.len(),
    ensures
        w.sim_step == v.sim_step + 1,
        w.cmds[f].dom().contains(k) <==> v.cmds[f].dom().contains(k) && k > v.sim_step,
        w.cmds[f].dom().contains(k) ==> w.cmds[f][k] == v.cmds[f][k],
        w.sent_step == v.sent_step && w.pending == v.pending && w.peers == v.peers,
{
}

/// Every twentieth step has its checksum noted and sent to everyone; the others do not.
pub proof fn checks_go_out_every_twenty_steps(v: LockstepV, checksum: u64, k: int)
    requires
        0 <= v.sim_step,
        0 <= k < v.peers.len(),
    ensures
        v.sim_step % 20 == 0 ==> v.noted(checksum).local_checks == v.local_checks.insert(v.sim_step as u64, checksum)
            && v.noted(checksum).peers[k] == after_send(
            v.peers[k],
            MsgV::Check { faction: v.my_faction as u8, step: v.sim_step as u32, hash: checksum },
        ),
        v.sim_step % 20 != 0 ==> v.noted(checksum) == v,
{
}

/// A step that goes out goes to everyone, is kept here just as it went out, and takes all that
/// was waiting with it.
pub proof fn steps_go_out_to_everyone(v: LockstepV, kept: Seq<CmdV>, k: int)
    requires
        0 <= k < v.peers.len(),
        0 <= v.my_faction < v.cmds.len(),
    ensures
        ({
            let w = pushed_with(v, kept);
            &&& w.sent_step == v.sent_step + 1
            &&& w.pending.len() == 0
            &&& w.cmds[v.my_faction].dom().contains(v.sent_step as u64) && w.cmds[v.my_faction][v.sent_step as u64]
                == kept
            &&& w.peers[k] == after_send(
                v.peers[k],
                MsgV::Step { faction: v.my_faction as u8, step: v.sent_step as u32, cmds: kept },
            )
            &&& w.sim_step == v.sim_step && w.local_checks == v.local_checks && w.remote_checks == v.remote_checks
        }),
{
}

/// Checks of different steps or factions are kept apart.
pub proof fn checks_are_kept_apart(s: int, f: int, t: int, g: int)
    requires
        0 <= s <= u32::MAX,
        0 <= t <= u32::MAX,
        0 <= f < 256,
        0 <= g < 256,
        check_key(s, f) == check_key(t, g),
    ensures
        s == t,
        f == g,
{
}

/// Commands run three steps after they were given, checksums go out every twenty steps, and
/// what is more than 1200 steps ahead is garbage.
pub proof fn the_pace_of_a_match()
    ensures
        INPUT_DELAY == 3,
        CHECK_EVERY == 20,
        MAX_AHEAD == 1200,
{
}

} // verus!
