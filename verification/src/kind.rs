//! Teams, kinds of entity, and what each kind is worth: sizes, ranges, prices,
//! build times and population. Lengths are world units, hit points and damage
//! are points, build times are seconds; every one of them is a whole number.

use vstd::prelude::*;

verus! {

/// How many factions a match can hold.
pub const MAX_FACTIONS: usize = 4;

/// Minerals in a fresh patch.
pub const MINERAL_START: u32 = 1500;

/// Minerals a worker hauls per trip.
pub const CARRY: u32 = 8;

/// Least clear gap, in world units, between a new building and any other, so
/// that clusters stay loose enough for units to path between them.
pub const BUILD_GAP: u32 = 26;

/// Side of a terrain tile in world units.
pub const TCELL: u32 = 60;

/// Side of a fog cell in world units.
pub const FOG_CELL: u32 = 40;

/// Up to four warring factions, plus neutrals. `Player` and `Enemy` are simply
/// factions 0 and 1.
#[derive(Clone, Copy, PartialEq, Eq, Structural, Debug)]
pub enum Team {
    Player,
    Enemy,
    Faction2,
    Faction3,
    Neutral,
}

impl Team {
    /// The faction index, `usize::MAX` for neutrals.
    pub open spec fn spec_idx(self) -> usize {
        match self {
            Team::Player => 0,
            Team::Enemy => 1,
            Team::Faction2 => 2,
            Team::Faction3 => 3,
            Team::Neutral => usize::MAX,
        }
    }

    /// The faction index, `usize::MAX` for neutrals.
    #[verifier::when_used_as_spec(spec_idx)]
    pub fn idx(self) -> (r: usize)
        ensures
            r == self.spec_idx(),
    {
        match self {
            Team::Player => 0,
            Team::Enemy => 1,
            Team::Faction2 => 2,
            Team::Faction3 => 3,
            Team::Neutral => usize::MAX,
        }
    }

    /// The team of a faction index; anything past the last faction is neutral.
    pub open spec fn spec_from_idx(i: usize) -> Team {
        if i == 0 {
            Team::Player
        } else if i == 1 {
            Team::Enemy
        } else if i == 2 {
            Team::Faction2
        } else if i == 3 {
            Team::Faction3
        } else {
            Team::Neutral
        }
    }

    /// The team of a faction index; anything past the last faction is neutral.
    #[verifier::when_used_as_spec(spec_from_idx)]
    pub fn from_idx(i: usize) -> (r: Team)
        ensures
            r == Self::spec_from_idx(i),
    {
        match i {
            0 => Team::Player,
            1 => Team::Enemy,
            2 => Team::Faction2,
            3 => Team::Faction3,
            _ => Team::Neutral,
        }
    }
}

/// Team and faction index determine each other.
pub proof fn team_index_roundtrip(t: Team, i: usize)
    ensures
        Team::from_idx(t.idx()) == t,
        i < MAX_FACTIONS ==> Team::from_idx(i).idx() == i,
        t.idx() < MAX_FACTIONS <==> t != Team::Neutral,
{
}

/// Everything that can stand on the map.
#[derive(Clone, Copy, PartialEq, Eq, Structural, Debug)]
pub enum Kind {
    /// Command center: trains workers, takes deliveries, supplies population.
    Base,
    /// Trains soldiers, pyros and sappers.
    Barracks,
    /// Trains tanks, raiders and mortars.
    Factory,
    /// Raises the supply cap.
    Depot,
    /// Mines, builds and repairs.
    Worker,
    /// Cheap ranged backbone.
    Soldier,
    /// Slow, tough, long range, splash damage.
    Tank,
    /// Flamethrower: a short cone of fire.
    Pyro,
    /// Fast light vehicle.
    Raider,
    /// Siege: very long lobbed splash, with a dead zone up close.
    Mortar,
    /// Charges in and detonates.
    Sapper,
    /// A patch of minerals.
    Mineral,
}

/// Body radius.
pub open spec fn spec_radius(k: Kind) -> u32 {
    match k {
        Kind::Base => 30,
        Kind::Barracks => 22,
        Kind::Factory => 24,
        Kind::Depot => 16,
        Kind::Worker => 7,
        Kind::Soldier | Kind::Pyro | Kind::Sapper => 8,
        Kind::Tank | Kind::Mortar => 11,
        Kind::Raider => 9,
        Kind::Mineral => 14,
    }
}

/// Body radius.
#[verifier::when_used_as_spec(spec_radius)]
pub fn radius(k: Kind) -> (r: u32)
    ensures
        r == spec_radius(k),
{
    match k {
        Kind::Base => 30,
        Kind::Barracks => 22,
        Kind::Factory => 24,
        Kind::Depot => 16,
        Kind::Worker => 7,
        Kind::Soldier | Kind::Pyro | Kind::Sapper => 8,
        Kind::Tank | Kind::Mortar => 11,
        Kind::Raider => 9,
        Kind::Mineral => 14,
    }
}

/// Fog-of-war sight radius; minerals reveal nothing.
pub open spec fn spec_sight(k: Kind) -> u32 {
    match k {
        Kind::Base => 300,
        Kind::Barracks | Kind::Factory | Kind::Depot => 210,
        Kind::Worker => 175,
        Kind::Soldier => 215,
        Kind::Tank => 245,
        Kind::Pyro => 190,
        Kind::Raider => 240,
        Kind::Mortar => 235,
        Kind::Sapper => 185,
        _ => 0,
    }
}

/// Fog-of-war sight radius; minerals reveal nothing.
#[verifier::when_used_as_spec(spec_sight)]
pub fn sight(k: Kind) -> (r: u32)
    ensures
        r == spec_sight(k),
{
    match k {
        Kind::Base => 300,
        Kind::Barracks | Kind::Factory | Kind::Depot => 210,
        Kind::Worker => 175,
        Kind::Soldier => 215,
        Kind::Tank => 245,
        Kind::Pyro => 190,
        Kind::Raider => 240,
        Kind::Mortar => 235,
        Kind::Sapper => 185,
        _ => 0,
    }
}

/// Walking speed in world units per second.
pub open spec fn spec_speed(k: Kind) -> u32 {
    match k {
        Kind::Worker => 94,
        Kind::Soldier => 82,
        Kind::Tank => 52,
        Kind::Pyro => 74,
        Kind::Raider => 138,
        Kind::Mortar => 46,
        Kind::Sapper => 116,
        _ => 0,
    }
}

/// Walking speed in world units per second.
#[verifier::when_used_as_spec(spec_speed)]
pub fn speed(k: Kind) -> (r: u32)
    ensures
        r == spec_speed(k),
{
    match k {
        Kind::Worker => 94,
        Kind::Soldier => 82,
        Kind::Tank => 52,
        Kind::Pyro => 74,
        Kind::Raider => 138,
        Kind::Mortar => 46,
        Kind::Sapper => 116,
        _ => 0,
    }
}

/// Hit points at full health.
pub open spec fn spec_max_hp(k: Kind) -> u32 {
    match k {
        Kind::Base => 2000,
        Kind::Barracks => 700,
        Kind::Factory => 850,
        Kind::Depot => 400,
        Kind::Worker => 40,
        Kind::Soldier => 55,
        Kind::Tank => 240,
        Kind::Pyro => 110,
        Kind::Raider => 70,
        Kind::Mortar => 85,
        Kind::Sapper => 45,
        Kind::Mineral => 1,
    }
}

/// Hit points at full health.
#[verifier::when_used_as_spec(spec_max_hp)]
pub fn max_hp(k: Kind) -> (r: u32)
    ensures
        r == spec_max_hp(k),
{
    match k {
        Kind::Base => 2000,
        Kind::Barracks => 700,
        Kind::Factory => 850,
        Kind::Depot => 400,
        Kind::Worker => 40,
        Kind::Soldier => 55,
        Kind::Tank => 240,
        Kind::Pyro => 110,
        Kind::Raider => 70,
        Kind::Mortar => 85,
        Kind::Sapper => 45,
        Kind::Mineral => 1,
    }
}

/// Damage per hit.
pub open spec fn spec_damage(k: Kind) -> u32 {
    match k {
        Kind::Worker => 3,
        Kind::Soldier | Kind::Pyro => 9,
        Kind::Tank => 24,
        Kind::Raider => 16,
        Kind::Mortar => 30,
        _ => 0,
    }
}

/// Damage per hit.
#[verifier::when_used_as_spec(spec_damage)]
pub fn damage(k: Kind) -> (r: u32)
    ensures
        r == spec_damage(k),
{
    match k {
        Kind::Worker => 3,
        Kind::Soldier | Kind::Pyro => 9,
        Kind::Tank => 24,
        Kind::Raider => 16,
        Kind::Mortar => 30,
        _ => 0,
    }
}

/// Reach beyond the two bodies' radii.
pub open spec fn spec_atk_range(k: Kind) -> u32 {
    match k {
        Kind::Worker => 3,
        Kind::Soldier => 80,
        Kind::Tank => 110,
        Kind::Pyro => 42,
        Kind::Raider => 56,
        Kind::Mortar => 215,
        Kind::Sapper => 14,
        _ => 0,
    }
}

/// Reach beyond the two bodies' radii.
#[verifier::when_used_as_spec(spec_atk_range)]
pub fn atk_range(k: Kind) -> (r: u32)
    ensures
        r == spec_atk_range(k),
{
    match k {
        Kind::Worker => 3,
        Kind::Soldier => 80,
        Kind::Tank => 110,
        Kind::Pyro => 42,
        Kind::Raider => 56,
        Kind::Mortar => 215,
        Kind::Sapper => 14,
        _ => 0,
    }
}

/// Dead zone: the kind cannot hit anything closer than this.
pub open spec fn spec_min_range(k: Kind) -> u32 {
    match k {
        Kind::Mortar => 85,
        _ => 0,
    }
}

/// Dead zone: the kind cannot hit anything closer than this.
#[verifier::when_used_as_spec(spec_min_range)]
pub fn min_range(k: Kind) -> (r: u32)
    ensures
        r == spec_min_range(k),
{
    match k {
        Kind::Mortar => 85,
        _ => 0,
    }
}

/// Auto-acquire radius; workers do not go looking for fights.
pub open spec fn spec_aggro(k: Kind) -> u32 {
    match k {
        Kind::Soldier => 165,
        Kind::Tank => 200,
        Kind::Pyro => 130,
        Kind::Raider => 175,
        Kind::Mortar => 240,
        Kind::Sapper => 205,
        _ => 0,
    }
}

/// Auto-acquire radius; workers do not go looking for fights.
#[verifier::when_used_as_spec(spec_aggro)]
pub fn aggro(k: Kind) -> (r: u32)
    ensures
        r == spec_aggro(k),
{
    match k {
        Kind::Soldier => 165,
        Kind::Tank => 200,
        Kind::Pyro => 130,
        Kind::Raider => 175,
        Kind::Mortar => 240,
        Kind::Sapper => 205,
        _ => 0,
    }
}

/// Radius of the damage around an impact.
pub open spec fn spec_splash(k: Kind) -> u32 {
    match k {
        Kind::Tank => 28,
        Kind::Mortar => 42,
        _ => 0,
    }
}

/// Radius of the damage around an impact.
#[verifier::when_used_as_spec(spec_splash)]
pub fn splash(k: Kind) -> (r: u32)
    ensures
        r == spec_splash(k),
{
    match k {
        Kind::Tank => 28,
        Kind::Mortar => 42,
        _ => 0,
    }
}

/// Radius of a sapper's blast, and the damage at its centre.
pub fn sapper_blast() -> (r: (u32, u32))
    ensures
        r == (58u32, 85u32),
{
    (58, 85)
}

/// Flamethrower cone: its reach, and the cosine of its half-angle in hundredths.
/// `None` for kinds without a flamethrower.
pub fn flame(k: Kind) -> (r: Option<(u32, u32)>)
    ensures
        r == (if k == Kind::Pyro {
            Some((78u32, 80u32))
        } else {
            None::<(u32, u32)>
        }),
{
    match k {
        Kind::Pyro => Some((78, 80)),
        _ => None,
    }
}

/// Price in minerals; zero for what cannot be bought.
pub open spec fn spec_cost(k: Kind) -> u32 {
    match k {
        Kind::Base => 300,
        Kind::Barracks => 120,
        Kind::Factory => 160,
        Kind::Depot => 75,
        Kind::Worker | Kind::Soldier => 50,
        Kind::Tank => 150,
        Kind::Pyro => 70,
        Kind::Raider => 65,
        Kind::Mortar => 145,
        Kind::Sapper => 55,
        _ => 0,
    }
}

/// Price in minerals; zero for what cannot be bought.
#[verifier::when_used_as_spec(spec_cost)]
pub fn cost(k: Kind) -> (r: u32)
    ensures
        r == spec_cost(k),
{
    match k {
        Kind::Base => 300,
        Kind::Barracks => 120,
        Kind::Factory => 160,
        Kind::Depot => 75,
        Kind::Worker | Kind::Soldier => 50,
        Kind::Tank => 150,
        Kind::Pyro => 70,
        Kind::Raider => 65,
        Kind::Mortar => 145,
        Kind::Sapper => 55,
        _ => 0,
    }
}

/// Seconds to train or to build.
pub open spec fn spec_build_time(k: Kind) -> u32 {
    match k {
        Kind::Base => 28,
        Kind::Barracks => 10,
        Kind::Factory => 13,
        Kind::Depot | Kind::Soldier | Kind::Raider => 6,
        Kind::Worker | Kind::Sapper => 5,
        Kind::Tank => 9,
        Kind::Pyro => 7,
        Kind::Mortar => 11,
        _ => 0,
    }
}

/// Seconds to train or to build.
#[verifier::when_used_as_spec(spec_build_time)]
pub fn build_time(k: Kind) -> (r: u32)
    ensures
        r == spec_build_time(k),
{
    match k {
        Kind::Base => 28,
        Kind::Barracks => 10,
        Kind::Factory => 13,
        Kind::Depot | Kind::Soldier | Kind::Raider => 6,
        Kind::Worker | Kind::Sapper => 5,
        Kind::Tank => 9,
        Kind::Pyro => 7,
        Kind::Mortar => 11,
        _ => 0,
    }
}

/// Population a unit takes up.
pub open spec fn spec_supply_cost(k: Kind) -> u32 {
    match k {
        Kind::Worker | Kind::Soldier => 1,
        Kind::Tank | Kind::Mortar => 3,
        Kind::Pyro | Kind::Raider | Kind::Sapper => 2,
        _ => 0,
    }
}

/// Population a unit takes up.
#[verifier::when_used_as_spec(spec_supply_cost)]
pub fn supply_cost(k: Kind) -> (r: u32)
    ensures
        r == spec_supply_cost(k),
{
    match k {
        Kind::Worker | Kind::Soldier => 1,
        Kind::Tank | Kind::Mortar => 3,
        Kind::Pyro | Kind::Raider | Kind::Sapper => 2,
        _ => 0,
    }
}

/// Population a building supplies.
pub open spec fn spec_supply_provide(k: Kind) -> u32 {
    match k {
        Kind::Base => 11,
        Kind::Depot => 8,
        _ => 0,
    }
}

/// Population a building supplies.
#[verifier::when_used_as_spec(spec_supply_provide)]
pub fn supply_provide(k: Kind) -> (r: u32)
    ensures
        r == spec_supply_provide(k),
{
    match k {
        Kind::Base => 11,
        Kind::Depot => 8,
        _ => 0,
    }
}

/// The stable byte of a kind.
pub open spec fn spec_kind_to_u8(k: Kind) -> u8 {
    match k {
        Kind::Base => 0,
        Kind::Barracks => 1,
        Kind::Factory => 2,
        Kind::Depot => 3,
        Kind::Worker => 4,
        Kind::Soldier => 5,
        Kind::Tank => 6,
        Kind::Pyro => 7,
        Kind::Raider => 8,
        Kind::Mortar => 9,
        Kind::Sapper => 10,
        Kind::Mineral => 11,
    }
}

/// The stable byte of a kind.
#[verifier::when_used_as_spec(spec_kind_to_u8)]
pub fn kind_to_u8(k: Kind) -> (r: u8)
    ensures
        r == spec_kind_to_u8(k),
{
    match k {
        Kind::Base => 0,
        Kind::Barracks => 1,
        Kind::Factory => 2,
        Kind::Depot => 3,
        Kind::Worker => 4,
        Kind::Soldier => 5,
        Kind::Tank => 6,
        Kind::Pyro => 7,
        Kind::Raider => 8,
        Kind::Mortar => 9,
        Kind::Sapper => 10,
        Kind::Mineral => 11,
    }
}

/// The kind of a stable byte; every byte past the last named one is a mineral.
pub open spec fn spec_kind_from_u8(b: u8) -> Kind {
    if b == 0 {
        Kind::Base
    } else if b == 1 {
        Kind::Barracks
    } else if b == 2 {
        Kind::Factory
    } else if b == 3 {
        Kind::Depot
    } else if b == 4 {
        Kind::Worker
    } else if b == 5 {
        Kind::Soldier
    } else if b == 6 {
        Kind::Tank
    } else if b == 7 {
        Kind::Pyro
    } else if b == 8 {
        Kind::Raider
    } else if b == 9 {
        Kind::Mortar
    } else if b == 10 {
        Kind::Sapper
    } else {
        Kind::Mineral
    }
}

/// The kind of a stable byte; every byte past the last named one is a mineral.
#[verifier::when_used_as_spec(spec_kind_from_u8)]
pub fn kind_from_u8(b: u8) -> (r: Kind)
    ensures
        r == spec_kind_from_u8(b),
{
    match b {
        0 => Kind::Base,
        1 => Kind::Barracks,
        2 => Kind::Factory,
        3 => Kind::Depot,
        4 => Kind::Worker,
        5 => Kind::Soldier,
        6 => Kind::Tank,
        7 => Kind::Pyro,
        8 => Kind::Raider,
        9 => Kind::Mortar,
        10 => Kind::Sapper,
        _ => Kind::Mineral,
    }
}

/// Whether the kind walks.
pub open spec fn spec_is_mover(k: Kind) -> bool {
    match k {
        Kind::Worker | Kind::Soldier | Kind::Tank | Kind::Pyro | Kind::Raider | Kind::Mortar | Kind::Sapper => true,
        _ => false,
    }
}

/// Whether the kind walks.
#[verifier::when_used_as_spec(spec_is_mover)]
pub fn is_mover(k: Kind) -> (r: bool)
    ensures
        r == spec_is_mover(k),
{
    match k {
        Kind::Worker | Kind::Soldier | Kind::Tank | Kind::Pyro | Kind::Raider | Kind::Mortar | Kind::Sapper => true,
        _ => false,
    }
}

/// Whether the kind is a building.
pub open spec fn spec_is_building(k: Kind) -> bool {
    match k {
        Kind::Base | Kind::Barracks | Kind::Factory | Kind::Depot => true,
        _ => false,
    }
}

/// Whether the kind is a building.
#[verifier::when_used_as_spec(spec_is_building)]
pub fn is_building(k: Kind) -> (r: bool)
    ensures
        r == spec_is_building(k),
{
    match k {
        Kind::Base | Kind::Barracks | Kind::Factory | Kind::Depot => true,
        _ => false,
    }
}

/// Whether the kind fires a straight tracer. A sapper detonates and a mortar lobs
/// its shell, so neither does.
pub open spec fn spec_is_combat(k: Kind) -> bool {
    match k {
        Kind::Soldier | Kind::Tank | Kind::Pyro | Kind::Raider => true,
        _ => false,
    }
}

/// Whether the kind fires a straight tracer. A sapper detonates and a mortar lobs
/// its shell, so neither does.
#[verifier::when_used_as_spec(spec_is_combat)]
pub fn is_combat(k: Kind) -> (r: bool)
    ensures
        r == spec_is_combat(k),
{
    match k {
        Kind::Soldier | Kind::Tank | Kind::Pyro | Kind::Raider => true,
        _ => false,
    }
}

/// Whether the kind is an army unit: everything that fights, workers left out.
pub open spec fn spec_is_army(k: Kind) -> bool {
    match k {
        Kind::Soldier | Kind::Tank | Kind::Pyro | Kind::Raider | Kind::Mortar | Kind::Sapper => true,
        _ => false,
    }
}

/// Whether the kind is an army unit: everything that fights, workers left out.
#[verifier::when_used_as_spec(spec_is_army)]
pub fn is_army(k: Kind) -> (r: bool)
    ensures
        r == spec_is_army(k),
{
    match k {
        Kind::Soldier | Kind::Tank | Kind::Pyro | Kind::Raider | Kind::Mortar | Kind::Sapper => true,
        _ => false,
    }
}

/// A kind survives its byte.
pub proof fn kind_byte_roundtrip(k: Kind)
    ensures
        kind_from_u8(kind_to_u8(k)) == k,
{
}

/// Every kind is exactly one of a walker, a building or a mineral; the army is
/// the walkers without the workers, and only walkers take up population, only
/// buildings supply it, and only minerals are free.
pub proof fn kinds_are_partitioned(k: Kind)
    ensures
        is_mover(k) <==> !is_building(k) && k != Kind::Mineral,
        is_building(k) ==> k != Kind::Mineral,
        is_army(k) <==> is_mover(k) && k != Kind::Worker,
        is_combat(k) ==> is_army(k),
        supply_cost(k) > 0 <==> is_mover(k),
        supply_provide(k) > 0 ==> is_building(k),
        cost(k) == 0 <==> k == Kind::Mineral,
        speed(k) > 0 <==> is_mover(k),
        aggro(k) > 0 <==> is_army(k),
{
}

/// A tie-break key for scans after the nearest target, as a number: the id times
/// an odd constant, modulo 2^64.
pub open spec fn tie_key_of(id: u32) -> u64 {
    ((id as int * 0x9E37_79B9_7F4A_7C15) % 0x1_0000_0000_0000_0000) as u64
}

/// A faction-neutral tie-break key for scans after the nearest target. Ids run
/// in spawn order, so raw ids would settle every tie in favour of the faction
/// that spawned first; the product scrambles that.
#[verifier::when_used_as_spec(tie_key_of)]
pub fn tie_key(id: u32) -> (r: u64)
    ensures
        r == tie_key_of(id),
{
    (id as u64).wrapping_mul(0x9E37_79B9_7F4A_7C15)
}

/// Two different ids never share a tie-break key, so every tie is broken.
pub proof fn tie_keys_are_distinct(a: u32, b: u32)
    requires
        tie_key(a) == tie_key(b),
    ensures
        a == b,
{
    let c: int = 0x9E37_79B9_7F4A_7C15;
    let inv: int = 0xF1DE83E19937733D;
    let m: int = 0x1_0000_0000_0000_0000;
    let d = a - b;
    let w = a as int * c / m - b as int * c / m;
    assert(d * c == m * w) by (nonlinear_arith)
        requires
            d == a - b,
            w == a as int * c / m - b as int * c / m,
            (a as int * c) % m == (b as int * c) % m,
            m == 0x1_0000_0000_0000_0000,
    ;
    assert(c * inv == 1 + 10771413168148108919 * m);
    assert(d == m * (w * inv - 10771413168148108919 * d)) by (nonlinear_arith)
        requires
            d * c == m * w,
            c * inv == 1 + 10771413168148108919 * m,
    ;
    assert(d == 0) by (nonlinear_arith)
        requires
            d == m * (w * inv - 10771413168148108919 * d),
            -m < d < m,
    ;
}

/// A mortar has the longest range on the field, and alone cannot fire point-blank.
pub proof fn mortars_outrange_everyone(k: Kind)
    ensures
        k != Kind::Mortar ==> atk_range(k) < atk_range(Kind::Mortar),
        min_range(k) > 0 <==> k == Kind::Mortar,
        min_range(k) < atk_range(Kind::Mortar),
{
}

/// The figures of every kind, one card each: its size, how far it sees and how fast it walks; its
/// hit points, what a hit of it does and how far it reaches; its price, the seconds it takes and
/// the population it takes up; and how near a foe must come for it to take notice.
pub proof fn every_kind_has_its_card()
    ensures
        ({
            let body = |k: Kind| (radius(k), sight(k), speed(k), max_hp(k));
            let arms = |k: Kind| (damage(k), atk_range(k), aggro(k));
            let bill = |k: Kind| (cost(k), build_time(k), supply_cost(k));
            &&& body(Kind::Base) == (30u32, 300u32, 0u32, 2000u32) && arms(Kind::Base) == (0u32, 0u32, 0u32) && bill(
                Kind::Base,
            ) == (300u32, 28u32, 0u32)
            &&& body(Kind::Barracks) == (22u32, 210u32, 0u32, 700u32) && arms(Kind::Barracks) == (0u32, 0u32, 0u32) && bill(
                Kind::Barracks,
            ) == (120u32, 10u32, 0u32)
            &&& body(Kind::Factory) == (24u32, 210u32, 0u32, 850u32) && arms(Kind::Factory) == (0u32, 0u32, 0u32) && bill(
                Kind::Factory,
            ) == (160u32, 13u32, 0u32)
            &&& body(Kind::Depot) == (16u32, 210u32, 0u32, 400u32) && arms(Kind::Depot) == (0u32, 0u32, 0u32) && bill(
                Kind::Depot,
            ) == (75u32, 6u32, 0u32)
            &&& body(Kind::Worker) == (7u32, 175u32, 94u32, 40u32) && arms(Kind::Worker) == (3u32, 3u32, 0u32) && bill(
                Kind::Worker,
            ) == (50u32, 5u32, 1u32)
            &&& body(Kind::Soldier) == (8u32, 215u32, 82u32, 55u32) && arms(Kind::Soldier) == (9u32, 80u32, 165u32) && bill(
                Kind::Soldier,
            ) == (50u32, 6u32, 1u32)
            &&& body(Kind::Tank) == (11u32, 245u32, 52u32, 240u32) && arms(Kind::Tank) == (24u32, 110u32, 200u32) && bill(
                Kind::Tank,
            ) == (150u32, 9u32, 3u32)
            &&& body(Kind::Pyro) == (8u32, 190u32, 74u32, 110u32) && arms(Kind::Pyro) == (9u32, 42u32, 130u32) && bill(
                Kind::Pyro,
            ) == (70u32, 7u32, 2u32)
            &&& body(Kind::Raider) == (9u32, 240u32, 138u32, 70u32) && arms(Kind::Raider) == (16u32, 56u32, 175u32) && bill(
                Kind::Raider,
            ) == (65u32, 6u32, 2u32)
            &&& body(Kind::Mortar) == (11u32, 235u32, 46u32, 85u32) && arms(Kind::Mortar) == (30u32, 215u32, 240u32) && bill(
                Kind::Mortar,
            ) == (145u32, 11u32, 3u32)
            &&& body(Kind::Sapper) == (8u32, 185u32, 116u32, 45u32) && arms(Kind::Sapper) == (0u32, 14u32, 205u32) && bill(
                Kind::Sapper,
            ) == (55u32, 5u32, 2u32)
            &&& body(Kind::Mineral) == (14u32, 0u32, 0u32, 1u32) && arms(Kind::Mineral) == (0u32, 0u32, 0u32) && bill(
                Kind::Mineral,
            ) == (0u32, 0u32, 0u32)
        }),
        supply_provide(Kind::Base) == 11 && supply_provide(Kind::Depot) == 8,
        supply_provide(Kind::Barracks) == 0 && supply_provide(Kind::Factory) == 0,
        splash(Kind::Tank) == 28 && splash(Kind::Mortar) == 42 && splash(Kind::Soldier) == 0,
        min_range(Kind::Mortar) == 85,
        MINERAL_START == 1500 && CARRY == 8 && BUILD_GAP == 26 && TCELL == 60 && FOG_CELL == 40 && MAX_FACTIONS == 4,
{
}

/// Every kind is a building, walks, or is a patch; those that walk and are no workers fight; and
/// four of those fire straight.
pub proof fn every_kind_has_its_trade(k: Kind)
    ensures
        is_building(k) <==> k == Kind::Base || k == Kind::Barracks || k == Kind::Factory || k == Kind::Depot,
        is_mover(k) <==> !is_building(k) && k != Kind::Mineral,
        is_army(k) <==> is_mover(k) && k != Kind::Worker,
        is_combat(k) <==> is_army(k) && k != Kind::Mortar && k != Kind::Sapper,
{
}

} // verus!
