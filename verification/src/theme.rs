//! The colours and names of factions and kinds.

use vstd::prelude::*;
use crate::gfx::rgb;
use crate::kind::{Kind, Team};

verus! {

/// Colour of what marks a selection.
pub const SELECT: u32 = 0xFF6C_FF8C;

/// Colour of minerals.
pub const MINERAL: u32 = 0xFF5A_D2DC;

/// Colour of the ground that panels are laid on.
pub const INK: u32 = 0xFF0A_0C10;

/// A faction's body colour.
pub open spec fn spec_fill_of(team: Team) -> u32 {
    match team {
        Team::Player => rgb(64, 132, 238),
        Team::Enemy => rgb(228, 72, 60),
        Team::Faction2 => rgb(86, 196, 110),
        Team::Faction3 => rgb(208, 150, 56),
        Team::Neutral => rgb(120, 124, 134),
    }
}

/// A faction's body colour.
#[verifier::when_used_as_spec(spec_fill_of)]
pub fn fill_of(team: Team) -> (c: u32)
    ensures
        c == spec_fill_of(team),
{
    match team {
        Team::Player => rgb(64, 132, 238),
        Team::Enemy => rgb(228, 72, 60),
        Team::Faction2 => rgb(86, 196, 110),
        Team::Faction3 => rgb(208, 150, 56),
        Team::Neutral => rgb(120, 124, 134),
    }
}

/// A faction's outline colour.
pub open spec fn spec_edge_of(team: Team) -> u32 {
    match team {
        Team::Player => rgb(150, 200, 255),
        Team::Enemy => rgb(255, 150, 140),
        Team::Faction2 => rgb(170, 240, 185),
        Team::Faction3 => rgb(250, 210, 140),
        Team::Neutral => rgb(180, 184, 196),
    }
}

/// A faction's outline colour.
#[verifier::when_used_as_spec(spec_edge_of)]
pub fn edge_of(team: Team) -> (c: u32)
    ensures
        c == spec_edge_of(team),
{
    match team {
        Team::Player => rgb(150, 200, 255),
        Team::Enemy => rgb(255, 150, 140),
        Team::Faction2 => rgb(170, 240, 185),
        Team::Faction3 => rgb(250, 210, 140),
        Team::Neutral => rgb(180, 184, 196),
    }
}

/// A faction's name.
pub open spec fn name_of_team(team: Team) -> Seq<char> {
    match team {
        Team::Player => "BLUE"@,
        Team::Enemy => "RED"@,
        Team::Faction2 => "GREEN"@,
        Team::Faction3 => "AMBER"@,
        Team::Neutral => "NEUTRAL"@,
    }
}

/// A faction's name.
pub fn faction_name(team: Team) -> (s: &'static str)
    ensures
        s@ == name_of_team(team),
{
    match team {
        Team::Player => "BLUE",
        Team::Enemy => "RED",
        Team::Faction2 => "GREEN",
        Team::Faction3 => "AMBER",
        Team::Neutral => "NEUTRAL",
    }
}

/// A kind's name.
pub open spec fn name_of_kind(k: Kind) -> Seq<char> {
    match k {
        Kind::Base => "COMMAND CENTER"@,
        Kind::Barracks => "BARRACKS"@,
        Kind::Factory => "FACTORY"@,
        Kind::Depot => "SUPPLY DEPOT"@,
        Kind::Worker => "WORKER"@,
        Kind::Soldier => "SOLDIER"@,
        Kind::Tank => "TANK"@,
        Kind::Pyro => "PYRO"@,
        Kind::Raider => "RAIDER"@,
        Kind::Mortar => "MORTAR"@,
        Kind::Sapper => "SAPPER"@,
        Kind::Mineral => "MINERAL"@,
    }
}

/// A kind's name.
pub fn kind_name(k: Kind) -> (s: &'static str)
    ensures
        s@ == name_of_kind(k),
{
    match k {
        Kind::Base => "COMMAND CENTER",
        Kind::Barracks => "BARRACKS",
        Kind::Factory => "FACTORY",
        Kind::Depot => "SUPPLY DEPOT",
        Kind::Worker => "WORKER",
        Kind::Soldier => "SOLDIER",
        Kind::Tank => "TANK",
        Kind::Pyro => "PYRO",
        Kind::Raider => "RAIDER",
        Kind::Mortar => "MORTAR",
        Kind::Sapper => "SAPPER",
        Kind::Mineral => "MINERAL",
    }
}

/// Factions can be told apart by either of their colours.
pub proof fn team_colours_are_distinct(a: Team, b: Team)
    ensures
        a != b ==> fill_of(a) != fill_of(b) && edge_of(a) != edge_of(b),
{
}

} // verus!
