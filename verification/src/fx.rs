//! Effects: what a death, a shot, a hit and a day's work throw up. Sizes and drags are in
//! tenths, lives and shares in hundredths.

use vstd::prelude::*;
use crate::audio::Sfx;
use crate::gfx::rgb;
use crate::kind::{is_combat, splash, Kind, Team};
use crate::num::{whole_numbers_are_ordered, Num, V2};
use crate::world::{world_words, World, WorldV, SOUND_MAX};

verus! {

/// A spray of particles.
#[derive(Clone, Copy, PartialEq, Eq, Structural, Debug)]
pub struct Burst {
    pub color: u32,
    pub count: u32,
    pub speed: u32,
    pub size: u32,
    pub life: u32,
    pub gravity: i32,
    pub drag: u32,
    /// Whether the particles shine.
    pub glow: bool,
}

/// A ring that spreads to a share of a radius.
#[derive(Clone, Copy, PartialEq, Eq, Structural, Debug)]
pub struct Wave {
    pub radius: u32,
    pub share: u32,
    pub life: u32,
    pub color: u32,
}

/// What a death throws up: particles, rings, a flash of the screen with its strength and
/// colour, a shake in tenths, and a sound. Flash and shake fade with the distance from the
/// view.
pub struct Blast {
    pub bursts: Vec<Burst>,
    pub waves: Vec<Wave>,
    pub flash: Option<(u32, u32)>,
    pub shake: u32,
    pub sound: Option<Sfx>,
}

/// A spray of particles.
pub open spec fn spec_burst(
    color: u32,
    count: u32,
    speed: u32,
    size: u32,
    life: u32,
    gravity: i32,
    drag: u32,
    glow: bool,
) -> Burst {
    Burst { color, count, speed, size, life, gravity, drag, glow }
}

/// A spray of particles.
#[verifier::when_used_as_spec(spec_burst)]
pub fn burst(
    color: u32,
    count: u32,
    speed: u32,
    size: u32,
    life: u32,
    gravity: i32,
    drag: u32,
    glow: bool,
) -> (b: Burst)
    ensures
        b == spec_burst(color, count, speed, size, life, gravity, drag, glow),
{
    Burst { color, count, speed, size, life, gravity, drag, glow }
}

/// A ring.
pub open spec fn spec_wave(radius: u32, share: u32, life: u32, color: u32) -> Wave {
    Wave { radius, share, life, color }
}

/// A ring.
#[verifier::when_used_as_spec(spec_wave)]
pub fn wave(radius: u32, share: u32, life: u32, color: u32) -> (w: Wave)
    ensures
        w == spec_wave(radius, share, life, color),
{
    Wave { radius, share, life, color }
}

/// Colour of what is left of a faction's own.
pub open spec fn spec_ash_of(team: Team) -> u32 {
    match team {
        Team::Player => rgb(120, 180, 255),
        Team::Enemy => rgb(255, 110, 95),
        _ => rgb(160, 160, 170),
    }
}

/// Colour of what is left of a faction's own.
#[verifier::when_used_as_spec(spec_ash_of)]
pub fn ash_of(team: Team) -> (c: u32)
    ensures
        c == spec_ash_of(team),
{
    match team {
        Team::Player => rgb(120, 180, 255),
        Team::Enemy => rgb(255, 110, 95),
        _ => rgb(160, 160, 170),
    }
}

/// The particles of a death, by what died.
pub open spec fn death_bursts(kind: Kind, team: Team) -> Seq<Burst> {
    match kind {
        Kind::Tank => seq![
            burst(rgb(255, 255, 240), 10, 90, 35, 18, 0, 80, true),
            burst(rgb(255, 230, 130), 24, 260, 30, 50, 120, 40, true),
            burst(rgb(255, 140, 50), 30, 190, 25, 70, 70, 30, true),
            burst(rgb(80, 80, 88), 16, 60, 50, 120, (-55) as i32, 15, false),
        ],
        Kind::Soldier => seq![
            burst(rgb(255, 255, 240), 4, 60, 22, 14, 0, 90, true),
            burst(rgb(255, 230, 130), 14, 170, 22, 40, 90, 40, true),
            burst(ash_of(team), 10, 120, 20, 40, 90, 40, true),
        ],
        Kind::Worker => seq![
            burst(ash_of(team), 10, 120, 20, 35, 90, 40, true),
            burst(rgb(255, 230, 130), 5, 110, 18, 30, 90, 50, true),
        ],
        Kind::Pyro => seq![
            burst(rgb(255, 255, 240), 6, 80, 26, 16, 0, 80, true),
            burst(rgb(255, 230, 130), 22, 200, 28, 55, 30, 35, true),
            burst(rgb(255, 140, 50), 26, 150, 30, 80, (-30) as i32, 28, true),
            burst(rgb(80, 80, 88), 12, 60, 42, 110, (-45) as i32, 16, false),
        ],
        Kind::Raider => seq![
            burst(rgb(255, 255, 240), 5, 80, 24, 15, 0, 80, true),
            burst(rgb(255, 230, 130), 16, 200, 26, 45, 110, 40, true),
            burst(ash_of(team), 12, 150, 22, 45, 110, 40, true),
            burst(rgb(80, 80, 88), 6, 70, 36, 90, (-40) as i32, 18, false),
        ],
        Kind::Mortar => seq![
            burst(rgb(255, 255, 240), 8, 90, 28, 16, 0, 70, true),
            burst(rgb(255, 230, 130), 24, 230, 30, 55, 60, 35, true),
            burst(rgb(255, 140, 50), 20, 170, 28, 70, 30, 30, true),
            burst(rgb(80, 80, 88), 10, 60, 45, 110, (-40) as i32, 16, false),
        ],
        Kind::Sapper => seq![
            burst(rgb(255, 255, 240), 12, 120, 34, 18, 0, 60, true),
            burst(rgb(255, 230, 130), 34, 300, 36, 60, 50, 30, true),
            burst(rgb(255, 140, 50), 30, 220, 32, 85, 20, 26, true),
            burst(rgb(80, 80, 88), 16, 70, 55, 130, (-35) as i32, 12, false),
        ],
        Kind::Mineral => seq![
            burst(rgb(160, 245, 255), 12, 110, 22, 60, 50, 30, true),
        ],
        Kind::Base => seq![
            burst(rgb(255, 255, 240), 18, 130, 45, 22, 0, 60, true),
            burst(rgb(255, 230, 130), 40, 320, 40, 70, 160, 30, true),
            burst(rgb(255, 140, 50), 48, 230, 35, 90, 90, 25, true),
            burst(rgb(80, 80, 88), 28, 80, 65, 160, (-35) as i32, 10, false),
            burst(ash_of(team), 30, 200, 30, 80, 130, 30, true),
        ],
        _ => seq![
            burst(rgb(255, 255, 240), 18, 130, 45, 22, 0, 60, true),
            burst(rgb(255, 230, 130), 40, 320, 40, 70, 160, 30, true),
            burst(rgb(255, 140, 50), 48, 230, 35, 90, 90, 25, true),
            burst(rgb(80, 80, 88), 28, 80, 65, 160, (-35) as i32, 10, false),
            burst(ash_of(team), 30, 200, 30, 80, 130, 30, true),
        ],
    }
}

/// The rings of a death.
pub open spec fn death_waves(kind: Kind, team: Team) -> Seq<Wave> {
    match kind {
        Kind::Tank => seq![
            wave(70, 100, 40, rgb(255, 230, 130)),
        ],
        Kind::Soldier => seq![
            wave(26, 100, 25, ash_of(team)),
        ],
        Kind::Worker => seq![],
        Kind::Pyro => seq![
            wave(40, 100, 30, rgb(255, 140, 50)),
        ],
        Kind::Raider => seq![
            wave(30, 100, 26, rgb(255, 230, 130)),
        ],
        Kind::Mortar => seq![
            wave(48, 100, 34, rgb(255, 230, 130)),
        ],
        Kind::Sapper => seq![
            wave(58, 100, 45, rgb(255, 230, 130)),
            wave(58, 60, 34, rgb(255, 255, 240)),
        ],
        Kind::Mineral => seq![
            wave(22, 100, 30, rgb(120, 230, 245)),
        ],
        Kind::Base => seq![
            wave(200, 100, 60, rgb(255, 230, 130)),
            wave(130, 100, 45, rgb(255, 255, 240)),
        ],
        _ => seq![
            wave(150, 100, 60, rgb(255, 230, 130)),
            wave(95, 100, 45, rgb(255, 255, 240)),
        ],
    }
}

/// The flash of a death.
pub open spec fn death_flash(kind: Kind) -> Option<(u32, u32)> {
    match kind {
        Kind::Tank => Some((35u32, rgb(255, 140, 50))),
        Kind::Soldier => None,
        Kind::Worker => None,
        Kind::Pyro => Some((22u32, rgb(255, 140, 50))),
        Kind::Raider => None,
        Kind::Mortar => Some((22u32, rgb(255, 140, 50))),
        Kind::Sapper => Some((40u32, rgb(255, 140, 50))),
        Kind::Mineral => None,
        Kind::Base => Some((80u32, rgb(255, 140, 50))),
        _ => Some((60u32, rgb(255, 140, 50))),
    }
}

/// The shake of a death.
pub open spec fn death_shake(kind: Kind) -> u32 {
    match kind {
        Kind::Tank => 60,
        Kind::Soldier => 8,
        Kind::Worker => 0,
        Kind::Pyro => 16,
        Kind::Raider => 14,
        Kind::Mortar => 30,
        Kind::Sapper => 60,
        Kind::Mineral => 0,
        Kind::Base => 140,
        _ => 90,
    }
}

/// The sound of a death; an exhausted patch makes none.
pub open spec fn death_sound(kind: Kind) -> Option<Sfx> {
    match kind {
        Kind::Tank => Some(Sfx::BigBoom),
        Kind::Soldier => Some(Sfx::Explosion),
        Kind::Worker => Some(Sfx::Explosion),
        Kind::Pyro => Some(Sfx::Explosion),
        Kind::Raider => Some(Sfx::Explosion),
        Kind::Mortar => Some(Sfx::BigBoom),
        Kind::Sapper => Some(Sfx::BigBoom),
        Kind::Mineral => None,
        Kind::Base => Some(Sfx::BigBoom),
        _ => Some(Sfx::BigBoom),
    }
}

fn bursts_of(kind: Kind, team: Team) -> (v: Vec<Burst>)
    ensures
        v@ == death_bursts(kind, team),
{
    let v: Vec<Burst> = match kind {
        Kind::Tank => vec![
            burst(rgb(255, 255, 240), 10, 90, 35, 18, 0, 80, true),
            burst(rgb(255, 230, 130), 24, 260, 30, 50, 120, 40, true),
            burst(rgb(255, 140, 50), 30, 190, 25, 70, 70, 30, true),
            burst(rgb(80, 80, 88), 16, 60, 50, 120, (-55) as i32, 15, false),
        ],
        Kind::Soldier => vec![
            burst(rgb(255, 255, 240), 4, 60, 22, 14, 0, 90, true),
            burst(rgb(255, 230, 130), 14, 170, 22, 40, 90, 40, true),
            burst(ash_of(team), 10, 120, 20, 40, 90, 40, true),
        ],
        Kind::Worker => vec![
            burst(ash_of(team), 10, 120, 20, 35, 90, 40, true),
            burst(rgb(255, 230, 130), 5, 110, 18, 30, 90, 50, true),
        ],
        Kind::Pyro => vec![
            burst(rgb(255, 255, 240), 6, 80, 26, 16, 0, 80, true),
            burst(rgb(255, 230, 130), 22, 200, 28, 55, 30, 35, true),
            burst(rgb(255, 140, 50), 26, 150, 30, 80, (-30) as i32, 28, true),
            burst(rgb(80, 80, 88), 12, 60, 42, 110, (-45) as i32, 16, false),
        ],
        Kind::Raider => vec![
            burst(rgb(255, 255, 240), 5, 80, 24, 15, 0, 80, true),
            burst(rgb(255, 230, 130), 16, 200, 26, 45, 110, 40, true),
            burst(ash_of(team), 12, 150, 22, 45, 110, 40, true),
            burst(rgb(80, 80, 88), 6, 70, 36, 90, (-40) as i32, 18, false),
        ],
        Kind::Mortar => vec![
            burst(rgb(255, 255, 240), 8, 90, 28, 16, 0, 70, true),
            burst(rgb(255, 230, 130), 24, 230, 30, 55, 60, 35, true),
            burst(rgb(255, 140, 50), 20, 170, 28, 70, 30, 30, true),
            burst(rgb(80, 80, 88), 10, 60, 45, 110, (-40) as i32, 16, false),
        ],
        Kind::Sapper => vec![
            burst(rgb(255, 255, 240), 12, 120, 34, 18, 0, 60, true),
            burst(rgb(255, 230, 130), 34, 300, 36, 60, 50, 30, true),
            burst(rgb(255, 140, 50), 30, 220, 32, 85, 20, 26, true),
            burst(rgb(80, 80, 88), 16, 70, 55, 130, (-35) as i32, 12, false),
        ],
        Kind::Mineral => vec![
            burst(rgb(160, 245, 255), 12, 110, 22, 60, 50, 30, true),
        ],
        Kind::Base => vec![
            burst(rgb(255, 255, 240), 18, 130, 45, 22, 0, 60, true),
            burst(rgb(255, 230, 130), 40, 320, 40, 70, 160, 30, true),
            burst(rgb(255, 140, 50), 48, 230, 35, 90, 90, 25, true),
            burst(rgb(80, 80, 88), 28, 80, 65, 160, (-35) as i32, 10, false),
            burst(ash_of(team), 30, 200, 30, 80, 130, 30, true),
        ],
        _ => vec![
            burst(rgb(255, 255, 240), 18, 130, 45, 22, 0, 60, true),
            burst(rgb(255, 230, 130), 40, 320, 40, 70, 160, 30, true),
            burst(rgb(255, 140, 50), 48, 230, 35, 90, 90, 25, true),
            burst(rgb(80, 80, 88), 28, 80, 65, 160, (-35) as i32, 10, false),
            burst(ash_of(team), 30, 200, 30, 80, 130, 30, true),
        ],
    };
    assert(v@ =~= death_bursts(kind, team));
    v
}

fn waves_of(kind: Kind, team: Team) -> (v: Vec<Wave>)
    ensures
        v@ == death_waves(kind, team),
{
    let v: Vec<Wave> = match kind {
        Kind::Tank => vec![
            wave(70, 100, 40, rgb(255, 230, 130)),
        ],
        Kind::Soldier => vec![
            wave(26, 100, 25, ash_of(team)),
        ],
        Kind::Worker => Vec::new(),
        Kind::Pyro => vec![
            wave(40, 100, 30, rgb(255, 140, 50)),
        ],
        Kind::Raider => vec![
            wave(30, 100, 26, rgb(255, 230, 130)),
        ],
        Kind::Mortar => vec![
            wave(48, 100, 34, rgb(255, 230, 130)),
        ],
        Kind::Sapper => vec![
            wave(58, 100, 45, rgb(255, 230, 130)),
            wave(58, 60, 34, rgb(255, 255, 240)),
        ],
        Kind::Mineral => vec![
            wave(22, 100, 30, rgb(120, 230, 245)),
        ],
        Kind::Base => vec![
            wave(200, 100, 60, rgb(255, 230, 130)),
            wave(130, 100, 45, rgb(255, 255, 240)),
        ],
        _ => vec![
            wave(150, 100, 60, rgb(255, 230, 130)),
            wave(95, 100, 45, rgb(255, 255, 240)),
        ],
    };
    assert(v@ =~= death_waves(kind, team));
    v
}

/// What a death throws up, by what died and whose it was.
pub fn death_fx(kind: Kind, team: Team) -> (b: Blast)
    ensures
        b.bursts@ == death_bursts(kind, team),
        b.waves@ == death_waves(kind, team),
        b.flash == death_flash(kind),
        b.shake == death_shake(kind),
        b.sound == death_sound(kind),
{
    Blast {
        bursts: bursts_of(kind, team),
        waves: waves_of(kind, team),
        flash: match kind {
            Kind::Tank => Some((35u32, rgb(255, 140, 50))),
            Kind::Soldier => None,
            Kind::Worker => None,
            Kind::Pyro => Some((22u32, rgb(255, 140, 50))),
            Kind::Raider => None,
            Kind::Mortar => Some((22u32, rgb(255, 140, 50))),
            Kind::Sapper => Some((40u32, rgb(255, 140, 50))),
            Kind::Mineral => None,
            Kind::Base => Some((80u32, rgb(255, 140, 50))),
            _ => Some((60u32, rgb(255, 140, 50))),
        },
        shake: match kind {
            Kind::Tank => 60,
            Kind::Soldier => 8,
            Kind::Worker => 0,
            Kind::Pyro => 16,
            Kind::Raider => 14,
            Kind::Mortar => 30,
            Kind::Sapper => 60,
            Kind::Mineral => 0,
            Kind::Base => 140,
            _ => 90,
        },
        sound: match kind {
            Kind::Tank => Some(Sfx::BigBoom),
            Kind::Soldier => Some(Sfx::Explosion),
            Kind::Worker => Some(Sfx::Explosion),
            Kind::Pyro => Some(Sfx::Explosion),
            Kind::Raider => Some(Sfx::Explosion),
            Kind::Mortar => Some(Sfx::BigBoom),
            Kind::Sapper => Some(Sfx::BigBoom),
            Kind::Mineral => None,
            Kind::Base => Some(Sfx::BigBoom),
            _ => Some(Sfx::BigBoom),
        },
    }
}

/// No death of a unit shakes the view as much as that of a building.
pub proof fn buildings_fall_hardest(a: Kind, b: Kind)
    requires
        !crate::kind::is_building(a),
        crate::kind::is_building(b),
    ensures
        death_shake(a) < death_shake(b),
{
}

/// Everything but an exhausted patch is heard when it dies.
pub proof fn deaths_are_heard(k: Kind)
    ensures
        death_sound(k) is None <==> k == Kind::Mineral,
{
}

/// The sparks where something is hit.
pub fn hit_fx() -> (b: Burst)
    ensures
        b == spec_burst(rgb(255, 235, 170), 3, 90, 16, 20, 50, 60, true),
{
    burst(rgb(255, 235, 170), 3, 90, 16, 20, 50, 60, true)
}

/// The sparks of a mined patch.
pub fn mining_fx() -> (b: Burst)
    ensures
        b == spec_burst(rgb(160, 245, 255), 5, 80, 17, 50, 30, 40, true),
{
    burst(rgb(160, 245, 255), 5, 80, 17, 50, 30, 40, true)
}

/// The dust of a building that has just been raised.
pub open spec fn raised_bursts() -> Seq<Burst> {
    seq![
        burst(rgb(200, 195, 180), 18, 110, 32, 60, (-25) as i32, 20, false),
        burst(rgb(150, 230, 170), 8, 90, 20, 40, (-10) as i32, 40, true),
    ]
}

/// The dust of a building that has just been raised, and the ring round it.
pub fn raised_fx() -> (r: (Vec<Burst>, Wave))
    ensures
        r.0@ == raised_bursts(),
        r.1 == spec_wave(40, 100, 40, rgb(150, 230, 170)),
{
    let v: Vec<Burst> = vec![
        burst(rgb(200, 195, 180), 18, 110, 32, 60, (-25) as i32, 20, false),
        burst(rgb(150, 230, 170), 8, 90, 20, 40, (-10) as i32, 40, true),
    ];
    assert(v@ =~= raised_bursts());
    (v, wave(40, 100, 40, rgb(150, 230, 170)))
}

/// The sparks of a repair, one spray for each mineral spent.
pub fn repair_fx() -> (b: Burst)
    ensures
        b == spec_burst(rgb(150, 235, 205), 2, 70, 15, 30, 26, 40, true),
{
    burst(rgb(150, 235, 205), 2, 70, 15, 30, 26, 40, true)
}

/// What is seen of a shot: sprays at the muzzle and at the target, a ring at the target, a
/// flash, a shake in tenths, and the tracer with its life in hundredths and its colour.
pub struct Volley {
    pub muzzle: Vec<Burst>,
    pub impact: Vec<Burst>,
    pub wave: Option<Wave>,
    pub flash: Option<(u32, u32)>,
    pub shake: u32,
    pub tracer: Option<(u32, u32)>,
}

/// The sprays at the muzzle, by who fires.
pub open spec fn muzzle_bursts(kind: Kind) -> Seq<Burst> {
    if is_combat(kind) {
        seq![
            burst(
                rgb(255, 240, 200),
                if kind == Kind::Tank {
                    4
                } else {
                    2
                },
                70,
                16,
                12,
                0,
                80,
                true,
            ),
        ]
    } else if kind == Kind::Mortar {
        seq![burst(rgb(255, 235, 190), 4, 90, 18, 16, (-40) as i32, 60, true)]
    } else {
        seq![]
    }
}

/// The sprays at the target.
pub open spec fn impact_bursts(kind: Kind) -> Seq<Burst> {
    match kind {
        Kind::Tank => seq![burst(rgb(255, 230, 150), 10, 150, 24, 32, 40, 50, true)],
        Kind::Worker => seq![burst(rgb(255, 220, 160), 3, 60, 13, 18, 26, 50, true)],
        Kind::Mortar => seq![
            burst(rgb(255, 225, 150), 14, 170, 26, 40, 60, 40, true),
            burst(rgb(255, 150, 70), 10, 120, 22, 50, 40, 30, true),
        ],
        _ => seq![],
    }
}

/// What is seen of a shot of a unit other than a flamethrower.
pub fn shot_fx(kind: Kind, team: Team) -> (v: Volley)
    ensures
        v.muzzle@ == muzzle_bursts(kind),
        v.impact@ == impact_bursts(kind),
        v.wave == (match kind {
            Kind::Tank => Some(spec_wave(30, 100, 22, rgb(255, 220, 150))),
            Kind::Mortar => Some(spec_wave(splash(kind), 100, 30, rgb(255, 210, 140))),
            _ => None,
        }),
        v.flash == (if kind == Kind::Mortar {
            Some((12u32, rgb(255, 180, 90)))
        } else {
            None
        }),
        v.shake == (match kind {
            Kind::Tank => 10u32,
            Kind::Mortar => 14u32,
            _ => 0u32,
        }),
        v.tracer == (if is_combat(kind) {
            Some(
                (
                    if kind == Kind::Tank {
                        12u32
                    } else {
                        8u32
                    },
                    if team == Team::Player {
                        rgb(150, 220, 255)
                    } else {
                        rgb(255, 180, 120)
                    },
                ),
            )
        } else {
            None
        }),
{
    let mut muzzle: Vec<Burst> = Vec::new();
    let mut impact: Vec<Burst> = Vec::new();
    let mut tracer: Option<(u32, u32)> = None;
    if is_combat(kind) {
        let count: u32 = if kind == Kind::Tank {
            4
        } else {
            2
        };
        muzzle.push(burst(rgb(255, 240, 200), count, 70, 16, 12, 0, 80, true));
        let life: u32 = if kind == Kind::Tank {
            12
        } else {
            8
        };
        let color: u32 = if team == Team::Player {
            rgb(150, 220, 255)
        } else {
            rgb(255, 180, 120)
        };
        tracer = Some((life, color));
    } else if kind == Kind::Mortar {
        muzzle.push(burst(rgb(255, 235, 190), 4, 90, 18, 16, (-40) as i32, 60, true));
    }
    if kind == Kind::Tank {
        impact.push(burst(rgb(255, 230, 150), 10, 150, 24, 32, 40, 50, true));
    } else if kind == Kind::Worker {
        impact.push(burst(rgb(255, 220, 160), 3, 60, 13, 18, 26, 50, true));
    } else if kind == Kind::Mortar {
        impact.push(burst(rgb(255, 225, 150), 14, 170, 26, 40, 60, 40, true));
        impact.push(burst(rgb(255, 150, 70), 10, 120, 22, 50, 40, 30, true));
    }
    assert(muzzle@ =~= muzzle_bursts(kind));
    assert(impact@ =~= impact_bursts(kind));
    Volley {
        muzzle,
        impact,
        wave: match kind {
            Kind::Tank => Some(wave(30, 100, 22, rgb(255, 220, 150))),
            Kind::Mortar => Some(wave(splash(kind), 100, 30, rgb(255, 210, 140))),
            _ => None,
        },
        flash: if kind == Kind::Mortar {
            Some((12, rgb(255, 180, 90)))
        } else {
            None
        },
        shake: match kind {
            Kind::Tank => 10,
            Kind::Mortar => 14,
            _ => 0,
        },
        tracer,
    }
}

/// The least time between two flames that are heard, and between two rifle shots: 0.07 and
/// 0.045 seconds.
pub const FLAME_GAP_BITS: u32 = 0x3D8F_5C29;

pub const SHOT_GAP_BITS: u32 = 0x3D38_51EC;

/// The sound of a shot, `since` after the last one that was throttled, and whether this one
/// is. Cannons are always heard, rifles and flames only now and then.
pub open spec fn shot_heard(kind: Kind, since: Num) -> (Option<Sfx>, bool) {
    if kind == Kind::Pyro {
        if (Num { bits: FLAME_GAP_BITS }).less(since) {
            (Some(Sfx::Flame), true)
        } else {
            (None, false)
        }
    } else if kind == Kind::Tank || kind == Kind::Mortar {
        (Some(Sfx::TankShot), false)
    } else if is_combat(kind) && (Num { bits: SHOT_GAP_BITS }).less(since) {
        (Some(Sfx::Shot), true)
    } else {
        (None, false)
    }
}

/// The sound of a shot, and whether it counts for throttling.
pub fn shot_sound(kind: Kind, since: Num) -> (r: (Option<Sfx>, bool))
    ensures
        r == shot_heard(kind, since),
{
    let flame = Num { bits: FLAME_GAP_BITS };
    let rifle = Num { bits: SHOT_GAP_BITS };
    if kind == Kind::Pyro {
        if flame.less(since) {
            (Some(Sfx::Flame), true)
        } else {
            (None, false)
        }
    } else if kind == Kind::Tank || kind == Kind::Mortar {
        (Some(Sfx::TankShot), false)
    } else if is_combat(kind) && rifle.less(since) {
        (Some(Sfx::Shot), true)
    } else {
        (None, false)
    }
}

/// How many particles fly at most.
pub const PARTICLES_MAX: usize = 2400;

/// How many shock waves run at most.
pub const WAVES_MAX: usize = 64;

/// The last of a list, so many at most.
pub open spec fn last_of<T>(v: Seq<T>, most: int) -> Seq<T> {
    if v.len() > most {
        v.skip(v.len() - most)
    } else {
        v
    }
}

/// Keeps the last of a list, the oldest in front being dropped.
pub fn keep_last<T>(v: &mut Vec<T>, most: usize)
    ensures
        final(v)@ == last_of(old(v)@, most as int),
        final(v)@.len() <= most,
{
    let n: usize = v.len();
    if n > most {
        let rest = v.split_off(n - most);
        *v = rest;
    }
}

/// The hardest that the screen shakes.
pub const SHAKE_MAX: u32 = 18;

/// How hard the screen shakes once something was added to it.
pub fn shaken(sum: Num) -> (r: Num)
    ensures
        r == sum.least(Num::whole(SHAKE_MAX)),
        r.at_most(Num::whole(SHAKE_MAX)),
{
    proof {
        whole_numbers_are_ordered(0, SHAKE_MAX as int);
    }
    sum.least(Num::whole(SHAKE_MAX))
}

impl World {
    /// Something has died: what it throws up, and its sound, if it has one, from where it
    /// was.
    pub fn show_death(&mut self, pos: V2, kind: Kind, team: Team) -> (b: Blast)
        requires
            old(self).wf(),
        ensures
            final(self).wf(),
            final(self)@ == (match death_sound(kind) {
                Some(s) => old(self)@.heard(s, Some(pos)),
                None => old(self)@,
            }),
            b.bursts@ == death_bursts(kind, team),
            b.waves@ == death_waves(kind, team),
            b.flash == death_flash(kind),
            b.shake == death_shake(kind),
            b.sound == death_sound(kind),
    {
        let b = death_fx(kind, team);
        if let Some(s) = b.sound {
            self.push_sound(s, Some(pos));
        }
        b
    }
}

/// Effects never get into the match: a sound changes nothing that the peers compare, no
/// entity, no bank, no clock, no id and no draw, and those that wait stay few.
pub proof fn effects_leave_the_match_alone(w: WorldV, s: Sfx, pos: Option<V2>)
    requires
        w.sounds.len() <= SOUND_MAX,
    ensures
        w.heard(s, pos) == (WorldV { sounds: w.heard(s, pos).sounds, ..w }),
        world_words(w.heard(s, pos)) == world_words(w),
        w.heard(s, pos).sounds.len() <= SOUND_MAX,
{
}

/// However much is thrown up, only so much of it is kept.
pub proof fn clutter_is_bounded<T>(v: Seq<T>, most: int)
    requires
        0 <= most,
    ensures
        last_of(v, most).len() <= most,
        v.len() <= most ==> last_of(v, most) == v,
{
}

/// What is heard of a death: a big boom for a building, a tank, a mortar or a sapper, an
/// explosion for any other unit, and nothing for an empty patch; and the bigger, the harder the
/// ground shakes.
pub proof fn deaths_sound_like_their_size(k: Kind)
    ensures
        death_sound(k) is None <==> k == Kind::Mineral,
        death_sound(k) == Some(Sfx::Explosion) <==> k == Kind::Soldier || k == Kind::Worker || k == Kind::Pyro || k
            == Kind::Raider,
        k != Kind::Base ==> death_shake(k) < death_shake(Kind::Base),
        death_shake(k) == 0 <==> k == Kind::Worker || k == Kind::Mineral,
{
}

/// Shots are heard, but not all of them when many are fired: a heavy gun always, a flame after
/// seven hundredths of a second without one, and a light gun after forty-five thousandths.
pub proof fn shots_are_heard_apart(k: Kind, since: Num)
    ensures
        k == Kind::Tank || k == Kind::Mortar ==> shot_heard(k, since) == (Some(Sfx::TankShot), false),
        k == Kind::Pyro ==> (shot_heard(k, since).0 == Some(Sfx::Flame) <==> (Num { bits: FLAME_GAP_BITS }).less(since)),
        k == Kind::Soldier || k == Kind::Raider ==> (shot_heard(k, since).0 == Some(Sfx::Shot) <==> (Num {
            bits: SHOT_GAP_BITS,
        }).less(since)),
        shot_heard(k, since).1 ==> shot_heard(k, since).0 is Some,
{
}

/// When room is made, the newest stay, in their order.
pub proof fn the_newest_stay<T>(v: Seq<T>, most: int, k: int)
    requires
        0 <= most,
        0 <= k < last_of(v, most).len(),
    ensures
        v.len() <= most ==> last_of(v, most) == v,
        v.len() > most ==> last_of(v, most).len() == most,
        last_of(v, most)[k] == v[v.len() - last_of(v, most).len() + k],
{
}

} // verus!
