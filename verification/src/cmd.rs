//! Player actions. Everything a player does goes through a command: a solo game
//! applies them at once, a networked one sends nothing else.

use vstd::prelude::*;
use crate::kind::Kind;
use crate::num::Num;

verus! {

/// A player action.
#[derive(Debug)]
pub enum Cmd {
    Order { ids: Vec<u32>, x: Num, y: Num, attack_move: bool, queue: bool },
    Stop { ids: Vec<u32> },
    Train { building: u32, unit: Kind },
    Build { worker: u32, kind: Kind, x: Num, y: Num, chain: bool },
    Rally { building: u32, x: Num, y: Num },
    Cancel { building: u32 },
    Surrender,
}

/// A command with its list of ids as a sequence.
#[verifier::ext_equal]
pub enum CmdV {
    Order { ids: Seq<u32>, x: Num, y: Num, attack_move: bool, queue: bool },
    Stop { ids: Seq<u32> },
    Train { building: u32, unit: Kind },
    Build { worker: u32, kind: Kind, x: Num, y: Num, chain: bool },
    Rally { building: u32, x: Num, y: Num },
    Cancel { building: u32 },
    Surrender,
}

impl View for Cmd {
    type V = CmdV;

    open spec fn view(&self) -> CmdV {
        match *self {
            Cmd::Order { ids, x, y, attack_move, queue } => CmdV::Order {
                ids: ids@,
                x,
                y,
                attack_move,
                queue,
            },
            Cmd::Stop { ids } => CmdV::Stop { ids: ids@ },
            Cmd::Train { building, unit } => CmdV::Train { building, unit },
            Cmd::Build { worker, kind, x, y, chain } => CmdV::Build { worker, kind, x, y, chain },
            Cmd::Rally { building, x, y } => CmdV::Rally { building, x, y },
            Cmd::Cancel { building } => CmdV::Cancel { building },
            Cmd::Surrender => CmdV::Surrender,
        }
    }
}

/// A list of commands as a sequence.
pub open spec fn cmds_view(cmds: Seq<Cmd>) -> Seq<CmdV> {
    cmds.map_values(|c: Cmd| c@)
}

/// Copies a list of ids.
pub fn copy_ids(ids: &Vec<u32>) -> (r: Vec<u32>)
    ensures
        r@ == ids@,
{
    let mut out: Vec<u32> = Vec::new();
    for i in 0..ids.len()
        invariant
            out@ == ids@.take(i as int),
    {
        out.push(ids[i]);
        assert(ids@.take(i + 1) =~= ids@.take(i as int).push(ids@[i as int]));
    }
    assert(ids@.take(ids@.len() as int) =~= ids@);
    out
}

impl Cmd {
    /// A copy of the command.
    pub fn copy(&self) -> (r: Cmd)
        ensures
            r@ == self@,
    {
        match self {
            Cmd::Order { ids, x, y, attack_move, queue } => Cmd::Order {
                ids: copy_ids(ids),
                x: *x,
                y: *y,
                attack_move: *attack_move,
                queue: *queue,
            },
            Cmd::Stop { ids } => Cmd::Stop { ids: copy_ids(ids) },
            Cmd::Train { building, unit } => Cmd::Train { building: *building, unit: *unit },
            Cmd::Build { worker, kind, x, y, chain } => Cmd::Build {
                worker: *worker,
                kind: *kind,
                x: *x,
                y: *y,
                chain: *chain,
            },
            Cmd::Rally { building, x, y } => Cmd::Rally { building: *building, x: *x, y: *y },
            Cmd::Cancel { building } => Cmd::Cancel { building: *building },
            Cmd::Surrender => Cmd::Surrender,
        }
    }
}

/// Copies a list of commands.
pub fn copy_cmds(cmds: &Vec<Cmd>) -> (r: Vec<Cmd>)
    ensures
        cmds_view(r@) == cmds_view(cmds@),
{
    let mut out: Vec<Cmd> = Vec::new();
    for i in 0..cmds.len()
        invariant
            out@.len() == i,
            forall|k: int| 0 <= k < i ==> (#[trigger] out@[k])@ == cmds@[k]@,
    {
        out.push(cmds[i].copy());
    }
    assert(cmds_view(out@) =~= cmds_view(cmds@));
    out
}

} // verus!
