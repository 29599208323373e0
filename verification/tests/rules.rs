//! Numbers, kinds, random streams, paths, terrain, fog, selection, orders and the computer
//! players' choices.

use nanorts::ai::{
    agenda, breaks_off, commit_choice, course_of, is_foe, must_choose, opening, plot, poke_dests, post_of, post_place, recon_choice, squad_size,
    strategy_of, workers_wanted, AiState, CommitTarget, Course, Errand, Intent, Post, Recon, Resolve, ScoutMove, Strategy, Wish,
};
use nanorts::audio::{jitter, play, rnd, timbre, voice_in, Cue, Fall, Sfx, Waveform};
use nanorts::combat::{atk_cd, Action, Headings, Turn};
use nanorts::fog::{Fog, Spotter};
use nanorts::fx::{death_fx, hit_fx, keep_last, raised_fx, shaken, repair_fx, shot_fx, shot_sound};
use nanorts::heap::{Entry, Heap};
use nanorts::kind::{
    aggro, atk_range, build_time, cost, damage, flame, is_army, is_building, is_combat, is_mover, kind_from_u8,
    kind_to_u8, max_hp, min_range, radius, sapper_blast, sight, speed, splash, supply_cost, supply_provide, tie_key,
    Kind, Team,
};
use nanorts::motion::needs_path;
use nanorts::num::{Num, V2};
use nanorts::orders::{formation_cols, formation_place};
use nanorts::path::{smooth, Grid, Slide, T_CLIFF, T_HIGH, T_OPEN, T_RAMP};
use nanorts::rng::{frac24, mix_seed, start_slots, xorshift};
use nanorts::rules::ai_turn;
use nanorts::terrain::{Layout, Plateau};
use nanorts::world::{order_disc, Order, World};

const KINDS: [Kind; 12] = [
    Kind::Base,
    Kind::Barracks,
    Kind::Factory,
    Kind::Depot,
    Kind::Worker,
    Kind::Soldier,
    Kind::Tank,
    Kind::Pyro,
    Kind::Raider,
    Kind::Mortar,
    Kind::Sapper,
    Kind::Mineral,
];

fn num(x: f32) -> Num {
    Num { bits: x.to_bits() }
}

fn v2(x: f32, y: f32) -> V2 {
    V2 { x: num(x), y: num(y) }
}

fn open_grid(tw: usize, th: usize) -> Grid {
    Grid { tw, th, terrain: vec![T_OPEN; tw * th], block: vec![0; tw * th] }
}

fn duel() -> World {
    World::new_match(3, 2, [false, true, false, false], Team::Player, false)
}

#[test]
fn tie_key_does_not_favor_the_human() {
    let k1 = tie_key(1);
    assert!(
        (2..32).any(|id| tie_key(id) < k1),
        "target-acquisition ties still resolve to the lowest id (the human)"
    );
}

#[test]
fn comparisons_match_single_precision() {
    let xs = [
        f32::NEG_INFINITY,
        f32::MIN,
        -1.5,
        -1e-40,
        -0.0,
        0.0,
        1e-40,
        0.045,
        1.0,
        16_777_215.0,
        f32::MAX,
        f32::INFINITY,
        f32::NAN,
    ];
    for a in xs {
        assert_eq!(num(a).positive(), a > 0.0);
        for b in xs {
            assert_eq!(num(a).less(num(b)), a < b, "{a} < {b}");
            assert_eq!(num(a).at_most(num(b)), a <= b, "{a} <= {b}");
            assert_eq!(num(a).same(num(b)), a == b, "{a} == {b}");
        }
    }
}

#[test]
fn whole_numbers_and_fractions_have_their_patterns() {
    for n in [0u32, 1, 2, 3, 7, 90, 540, 6084, 291_600, 8_388_607, 8_388_608, 16_777_215] {
        assert_eq!(Num::whole(n).bits, (n as f32).to_bits(), "{n}");
        assert_eq!(Num::unit(n).bits, (n as f32 / (1u32 << 24) as f32).to_bits(), "{n} / 2^24");
        assert_eq!(Num::integer(-(n as i32)).same(num(-(n as f32))), true);
    }
    assert_eq!(Num::integer(-640).bits, (-640.0f32).to_bits());
}

#[test]
fn named_patterns_are_the_numbers_they_stand_for() {
    assert_eq!(num(3.2).bits, nanorts::world::MSG_LIFE_BITS);
    assert_eq!(num(1.0).bits, nanorts::world::ONE_BITS);
    assert_eq!(num(1.3).bits, nanorts::economy::MINE_TIME_BITS);
    assert_eq!(num(0.5).bits, nanorts::orders::HALF_BITS);
    assert_eq!(num(0.6).bits, nanorts::orders::SIX_TENTHS_BITS);
    assert_eq!(num(0.1).bits, nanorts::rules::FLASH_BITS);
    assert_eq!(num(0.4).bits, nanorts::motion::REPATH_BITS);
    assert_eq!(num(0.35).bits, nanorts::ai::THINK_BITS);
    assert_eq!(num(1.5).bits, nanorts::ai::GUARD_BITS);
    assert_eq!(num(1.4).bits, nanorts::ai::PEEL_BITS);
    assert_eq!(num(0.001).bits, nanorts::audio::FAINT_BITS);
    assert_eq!(num(0.07).bits, nanorts::fx::FLAME_GAP_BITS);
    assert_eq!(num(0.045).bits, nanorts::fx::SHOT_GAP_BITS);
    assert_eq!(num(f32::MAX).bits, nanorts::query::FAR_BITS);
    let cds = [
        (Kind::Worker, 0.7f32),
        (Kind::Soldier, 0.85),
        (Kind::Tank, 1.5),
        (Kind::Pyro, 0.4),
        (Kind::Raider, 0.8),
        (Kind::Mortar, 2.4),
        (Kind::Sapper, 0.1),
    ];
    for (k, cd) in cds {
        assert_eq!(atk_cd(k), num(cd), "{k:?}");
    }
}

#[test]
fn kinds_have_their_figures() {
    assert_eq!(radius(Kind::Base), 30);
    assert_eq!(sight(Kind::Tank), 245);
    assert_eq!(sight(Kind::Mineral), 0);
    assert_eq!(cost(Kind::Factory), 160);
    assert_eq!(build_time(Kind::Base), 28);
    assert_eq!(supply_provide(Kind::Base), 11);
    assert_eq!(supply_provide(Kind::Depot), 8);
    assert_eq!(supply_cost(Kind::Worker), 1);
    assert_eq!(min_range(Kind::Mortar), 85);
    assert_eq!(sapper_blast(), (58, 85));
    assert_eq!(flame(Kind::Pyro), Some((78, 80)));
    assert_eq!(flame(Kind::Tank), None);
    assert_eq!(aggro(Kind::Worker), 0);
    assert!(splash(Kind::Tank) > 0 && splash(Kind::Soldier) == 0);
    assert!(speed(Kind::Raider) > speed(Kind::Tank));
    assert!(max_hp(Kind::Base) > max_hp(Kind::Worker));
    assert!(atk_range(Kind::Mortar) > atk_range(Kind::Soldier));
    assert!(damage(Kind::Tank) > damage(Kind::Worker));
    for k in KINDS {
        assert_eq!(kind_from_u8(kind_to_u8(k)), k);
        assert!(!(is_building(k) && is_mover(k)));
        assert!(!is_army(k) || is_mover(k));
        assert!(!is_combat(k) || is_army(k));
    }
}

#[test]
fn teams_and_indices_agree() {
    for i in 0..4 {
        assert_eq!(Team::from_idx(i).idx(), i);
    }
    assert_eq!(Team::from_idx(4), Team::Neutral);
    assert_eq!(Team::Neutral.idx(), usize::MAX);
}

#[test]
fn random_streams_are_reproducible() {
    assert_eq!(xorshift(1), 0x4082_2041);
    assert_ne!(mix_seed(0), 0);
    assert_eq!(mix_seed(7) % 2, 1);
    assert!(frac24(u64::MAX) < 1 << 24);
    assert_eq!(start_slots(99, 2), ([0, 1, 2, 3], 99));
    let (slots, rng) = start_slots(99, 4);
    let mut sorted = slots;
    sorted.sort_unstable();
    assert_eq!(sorted, [0, 1, 2, 3]);
    assert_ne!(rng, 99);
    let mut w = duel();
    let x = w.rng;
    assert_eq!(w.rng_u(), xorshift(x));
    assert_eq!(w.rng_f(), Num::unit(frac24(xorshift(xorshift(x)))));
}

#[test]
fn the_heap_gives_back_the_least() {
    let mut h = Heap::new();
    for (f, seq, cell) in [(5, 0, 10), (3, 1, 11), (5, 2, 12), (3, 3, 13), (1, 4, 14)] {
        h.push(Entry { f, seq, cell });
    }
    let mut order = Vec::new();
    while let Some(e) = h.pop() {
        order.push(e.cell);
    }
    assert_eq!(order, vec![14, 11, 13, 10, 12]);
}

#[test]
fn ways_go_round_walls_and_not_through_corners() {
    let mut g = open_grid(5, 5);
    assert_eq!(g.find_path((0, 0), (3, 0)), Some(vec![(1, 0), (2, 0), (3, 0)]));
    assert_eq!(g.find_path((2, 2), (2, 2)), Some(vec![(2, 2)]));
    for y in 0..4 {
        g.terrain[y * 5 + 2] = T_CLIFF;
    }
    let way = g.find_path((0, 0), (4, 0)).unwrap();
    assert_eq!(way.last(), Some(&(4, 0)));
    assert!(way.contains(&(2, 4)), "the only gap is at the bottom");
    assert!(way.contains(&(1, 4)) && way.contains(&(3, 4)), "no corner is cut");
    g.terrain[4 * 5 + 2] = T_CLIFF;
    assert_eq!(g.find_path((0, 0), (4, 0)), None);
}

#[test]
fn blocked_ends_move_to_open_ground() {
    let mut g = open_grid(4, 3);
    g.block[0] = 1;
    assert_eq!(g.nearest_passable(0, 0), Some((1, 0)));
    assert_eq!(g.nearest_passable(-1, 0), Some((0, 1)));
    assert!(!g.cell_passable(0, 0) && g.cell_passable(3, 2) && !g.cell_passable(4, 0));
    g.terrain[1] = T_CLIFF;
    assert_eq!(g.snap_open(true, 1, 0), Some((2, 0)));
    assert_eq!(g.snap_open(false, 1, 0), None);
    assert_eq!(g.snap_open(true, 2, 0), None);
    assert_eq!(g.tile_at(9, 9), T_CLIFF);
    assert_eq!(g.elev_at(0, 0), 0);
    assert_eq!(g.unstick((2, 2), (3, 2)), Slide::Free);
    assert_eq!(g.unstick((1, 0), (1, 1)), Slide::KeepX);
    let full = Grid { tw: 2, th: 1, terrain: vec![T_CLIFF; 2], block: vec![0; 2] };
    assert_eq!(full.nearest_passable(0, 0), None);
    assert_eq!(full.find_path((0, 0), (1, 0)), None);
}

#[test]
fn short_hops_ignore_what_stands_but_not_cliffs() {
    let mut g = open_grid(4, 1);
    g.block[1] = 1;
    let line = vec![(1, 0), (2, 0)];
    assert!(!needs_path(&g, num(90.0), &line));
    assert!(needs_path(&g, num(90.5), &line));
    g.terrain[2] = T_CLIFF;
    assert!(needs_path(&g, num(90.0), &line));
    assert!(!needs_path(&g, num(500.0), &vec![]));
}

#[test]
fn waypoints_in_sight_are_dropped() {
    assert_eq!(smooth(4, |_a: usize, _j: usize| true), vec![3]);
    assert_eq!(smooth(4, |_a: usize, _j: usize| false), vec![0, 1, 2, 3]);
    assert_eq!(smooth(4, |a: usize, j: usize| j <= a + 1), vec![1, 3]);
    assert_eq!(smooth(0, |_a: usize, _j: usize| true), Vec::<usize>::new());
}

#[test]
fn the_block_grid_marks_what_is_covered() {
    let mut g = open_grid(3, 2);
    g.block[5] = 1;
    g.rebuild_block_grid(&vec![(0, 0), (2, 0), (7, 7), (-1, 0)]);
    assert_eq!(g.block, vec![1, 0, 1, 0, 0, 0]);
}

#[test]
fn terrain_is_symmetric_and_keeps_bases_connected() {
    let mut g = open_grid(40, 30);
    let layout = Layout {
        plateaus: vec![Plateau { cx: 12, cy: 9, hw: 2, hh: 2, side: 0 }],
        bases: vec![(4, 25), (35, 4)],
        patches: vec![],
    };
    let line: Vec<(i32, i32)> = (0..=31).map(|i| (4 + i, 25 - (i * 21) / 31)).collect();
    let cliffs = g.gen_terrain(&layout, &vec![(4, 25), (35, 4)], &vec![vec![], line]);
    assert!(cliffs && g.any_cliff());
    assert_eq!(g.tile_at(12, 9), T_HIGH);
    assert_eq!(g.tile_at(27, 20), T_HIGH, "mirrored");
    assert_eq!(g.tile_at(12, 12), T_RAMP);
    assert_eq!(g.tile_at(12, 6), T_CLIFF);
    assert_eq!(g.elev_at(12, 9), 1);
    assert!(g.find_path((4, 25), (35, 4)).is_some());
    g.flatten_terrain();
    assert!(!g.any_cliff());
    assert_eq!(g.tile_at(12, 9), T_OPEN);
}

#[test]
fn corridors_open_cliffs_only() {
    let mut g = open_grid(5, 5);
    for v in g.terrain.iter_mut() {
        *v = T_CLIFF;
    }
    g.terrain[12] = T_HIGH;
    g.carve_corridor(&vec![(2, 2)]);
    assert_eq!(g.tile_at(1, 1), T_OPEN);
    assert_eq!(g.tile_at(2, 2), T_HIGH);
    assert_eq!(g.tile_at(4, 4), T_CLIFF);
}

#[test]
fn fog_remembers_and_low_ground_does_not_see_up() {
    let mut g = open_grid(20, 20);
    for x in 6..20 {
        for y in 0..20 {
            g.terrain[y * 20 + x] = T_HIGH;
        }
    }
    let mut f = Fog::new(30, 30, 2);
    let low = Spotter { kind: Kind::Soldier, cx: 5, cy: 15, tx: 3, ty: 10 };
    f.fog_pass(Team::Enemy, &g, &vec![low]);
    assert_eq!(f.team_vis_at(Team::Enemy, 5, 15), 2);
    assert_eq!(f.team_vis_at(Team::Enemy, 5, 10), 2, "200 of 215 units away");
    assert_eq!(f.team_vis_at(Team::Enemy, 5, 9), 0, "240 units away");
    assert_eq!(f.team_vis_at(Team::Enemy, 9, 15), 0, "up the slope");
    assert_eq!(f.team_vis_at(Team::Player, 5, 15), 0, "every faction has its own eyes");
    let high = Spotter { kind: Kind::Soldier, cx: 12, cy: 15, tx: 8, ty: 10 };
    f.fog_pass(Team::Enemy, &g, &vec![high]);
    assert_eq!(f.team_vis_at(Team::Enemy, 5, 15), 1, "remembered");
    assert_eq!(f.team_vis_at(Team::Enemy, 18, 15), 2, "240 units, but from high ground");
    assert_eq!(f.team_vis_at(Team::Enemy, -1, 0), 0);
    assert_eq!(f.team_vis_at(Team::Neutral, 5, 15), 0);
}

#[test]
fn formations_are_squares() {
    for (n, c) in [(1, 1), (2, 2), (4, 2), (5, 3), (9, 3), (10, 4), (100, 10)] {
        assert_eq!(formation_cols(n), c);
    }
    assert_eq!(formation_place(0, 3), (-1, -1));
    assert_eq!(formation_place(5, 3), (1, 0));
}

#[test]
fn training_is_paid_and_refused() {
    let mut w = duel();
    assert_eq!(w.team_min(Team::Player), 50);
    assert_eq!(w.team_min(Team::Neutral), 0);
    let b = w.spawn(Kind::Base, Team::Player, v2(500.0, 500.0));
    assert!(w.try_train(b, Kind::Worker));
    assert_eq!(w.team_min(Team::Player), 0);
    assert!(!w.try_train(b, Kind::Worker));
    assert_eq!(w.messages.last().unwrap().0, "NOT ENOUGH MINERALS");
    w.gain(Team::Player, 5000);
    while w.try_train(b, Kind::Worker) {}
    assert_eq!(w.ents[b].queue.len(), 11);
    assert_eq!(w.messages.last().unwrap().0, "NEED A SUPPLY DEPOT");
    w.spend(Team::Player, 100_000);
    assert_eq!(w.team_min(Team::Player), 0);
}

#[test]
fn messages_and_sounds_make_room() {
    let mut w = duel();
    for i in 0..8 {
        w.msg(&format!("M{i}"));
    }
    assert_eq!(w.messages.len(), 5);
    assert_eq!(w.messages[0].0, "M3");
    for _ in 0..70 {
        w.push_sound(Sfx::Shot, None);
    }
    assert_eq!(w.sounds.len(), 64);
}

#[test]
fn fingerprints_notice_a_change() {
    let mut w = duel();
    let i = w.spawn(Kind::Soldier, Team::Player, v2(1.0, 2.0));
    let h = w.checksum();
    w.ents[i].order = Order::Move(v2(5.0, 5.0));
    assert_ne!(w.checksum(), h);
    w.ents[i].order = Order::Idle;
    assert_eq!(w.checksum(), h);
    w.ents[i].selected = true;
    assert_eq!(w.checksum(), h, "what only the local player sees does not count");
    assert_ne!(order_disc(&Order::Attack(4)), order_disc(&Order::Gather(4)));
}

#[test]
fn the_last_faction_standing_wins() {
    let mut w = duel();
    w.spawn(Kind::Depot, Team::Player, v2(1.0, 1.0));
    w.spawn(Kind::Depot, Team::Enemy, v2(900.0, 900.0));
    w.check_over();
    assert_eq!((w.over, w.match_over), (0, false));
    w.ents[1].hp = num(0.0);
    let gone = w.cleanup();
    assert_eq!(gone.len(), 1);
    assert_eq!(gone[0].1, Kind::Depot);
    w.check_over();
    assert_eq!((w.over, w.match_over), (1, true));
}

#[test]
fn turns_rotate() {
    let order: Vec<usize> = (0..3).map(|k| ai_turn(k, 7, 3)).collect();
    assert_eq!(order, vec![1, 2, 0]);
}

#[test]
fn damage_warns_once_in_a_while() {
    let mut w = duel();
    let i = w.spawn(Kind::Soldier, Team::Player, v2(1.0, 1.0));
    w.apply_damage(i, num(5.0));
    assert_eq!(w.ents[i].hp, num(5.0));
    assert_eq!(w.ents[i].flash, num(0.1));
    assert_eq!(w.attack_warn, num(6.0));
    assert_eq!(w.messages.len(), 1);
    w.apply_damage(i, num(4.0));
    assert_eq!(w.messages.len(), 1);
    w.apply_damage(99, num(4.0));
}

#[test]
fn paths_are_followed() {
    let mut w = duel();
    let i = w.spawn(Kind::Soldier, Team::Player, v2(0.0, 0.0));
    assert!(!w.due_for_path(i, num(0.2)));
    assert!(w.due_for_path(i, num(0.0)));
    assert_eq!(w.ents[i].repath, num(0.4));
    w.ents[i].goal = Some(v2(300.0, 0.0));
    w.set_path(i, vec![v2(10.0, 0.0), v2(100.0, 0.0), v2(300.0, 0.0)]);
    assert_eq!(w.follow(i, &vec![num(10.0), num(100.0), num(300.0)]), Some(v2(100.0, 0.0)));
    assert_eq!(w.ents[i].path.len(), 2);
    assert_eq!(w.follow(i, &vec![num(1.0), num(2.0)]), Some(v2(300.0, 0.0)));
    assert!(w.ents[i].path.is_empty());
    w.moved_to(i, v2(3.0, 4.0), None);
    assert_eq!(w.ents[i].pos, v2(3.0, 4.0));
}

#[test]
fn a_faction_is_put_on_the_map() {
    let mut w = duel();
    let line = vec![v2(10.0, 0.0), v2(20.0, 0.0)];
    let hands = vec![v2(5.0, 5.0)];
    w.setup(Team::Enemy, v2(0.0, 0.0), v2(0.0, 9.0), &line, &hands);
    let kinds: Vec<Kind> = w.ents.iter().map(|e| e.kind).collect();
    assert_eq!(kinds, vec![Kind::Base, Kind::Mineral, Kind::Mineral, Kind::Worker]);
    assert_eq!(w.ents[0].rally, v2(0.0, 9.0));
    assert_eq!(w.ents[1].minerals, 1500);
    assert_eq!(w.ents[3].team, Team::Enemy);
}

#[test]
fn computers_have_temperaments() {
    assert_eq!(strategy_of(0), Strategy::Rush);
    assert_eq!(strategy_of(0x40_0000), Strategy::Macro);
    assert_eq!(strategy_of(0x80_0000), Strategy::Mech);
    assert_eq!(strategy_of(0xFF_FFFF), Strategy::Standard);
    assert_eq!(opening(Strategy::Rush), (8, 900, true));
    assert_eq!(workers_wanted(12, 1), 12);
    assert_eq!(workers_wanted(12, 2), 20);
    assert_eq!(workers_wanted(14, 9), 26);
    assert_eq!(squad_size(2), 1);
    assert_eq!(squad_size(9), 3);
    assert_eq!(squad_size(90), 4);
    assert!(is_foe(Team::Player, Team::Enemy) && !is_foe(Team::Neutral, Team::Enemy));
}

#[test]
fn computers_choose_by_draws() {
    assert_eq!(recon_choice(num(0.49)), Recon::Main);
    assert_eq!(recon_choice(num(0.79)), Recon::Center);
    assert_eq!(recon_choice(num(0.8)), Recon::Between);
    assert_eq!(commit_choice(num(0.54), num(99.0)), CommitTarget::Main);
    assert_eq!(commit_choice(num(0.6), num(7.0)), CommitTarget::Army);
    assert_eq!(commit_choice(num(0.6), num(8.0)), CommitTarget::Outpost);
    assert_eq!(commit_choice(num(0.95), num(0.0)), CommitTarget::Flank);
    let p = v2(1.0, 2.0);
    assert_eq!(course_of(Intent::Build, num(9.0)), Course::Gather);
    assert_eq!(course_of(Intent::Feint(p), num(1.3)), Course::Gather);
    assert_eq!(course_of(Intent::Feint(p), num(1.5)), Course::Strike(p));
    assert_eq!(course_of(Intent::Harass(p), num(9.0)), Course::Poke(p));
    assert!(must_choose(Intent::Defend(p), num(5.0)) && !must_choose(Intent::Build, num(0.1)));
    assert_eq!(post_of(Kind::Mortar, 1), Post::Back);
    assert_eq!(post_of(Kind::Raider, 2), Post::Left);
    assert_eq!(post_of(Kind::Raider, 3), Post::Right);
    assert_eq!(post_of(Kind::Tank, 3), Post::Front);
    assert!(breaks_off(2, num(2.5)) && !breaks_off(3, num(2.5)));
}

#[test]
fn computers_think_and_remember() {
    let mut a = AiState::fresh();
    assert_eq!(a.patience, num(5.0));
    assert_eq!(a.tank_ratio, num(0.3));
    assert_eq!(a.pyro_ratio, num(0.25));
    assert_eq!(a.sapper_ratio, num(0.12));
    assert_eq!(a.mortar_ratio, num(0.18));
    assert_eq!(a.seen_army_age, num(99.0));
    assert!(!a.wakes(num(0.1)));
    assert!(a.wakes(num(0.0)));
    assert_eq!(a.think, num(0.35));
    a.brace(v2(4.0, 4.0));
    assert_eq!(a.intent, Intent::Defend(v2(4.0, 4.0)));
    assert_eq!(a.intent_timer, num(1.5));
    for i in 0..20 {
        a.remember(v2(i as f32, 0.0), Kind::Depot, false);
    }
    a.remember(v2(0.0, 0.0), Kind::Depot, true);
    assert_eq!(a.known.len(), 16);
    assert_eq!(a.known[0].0, v2(4.0, 0.0));
    assert_eq!(a.harass_target(&vec![true; 16]), Some(15));
    a.note_army(v2(7.0, 7.0), 12);
    assert_eq!((a.seen_army_supply, a.seen_army_age), (12, num(0.0)));
}

#[test]
fn computers_pay_for_what_they_build() {
    let mut w = duel();
    let i = w.spawn(Kind::Worker, Team::Enemy, v2(1.0, 1.0));
    assert_eq!(w.pick_worker(Team::Enemy, 0), Some(i));
    assert_eq!(w.pick_worker(Team::Enemy, w.ents[i].id), None);
    assert!(!w.grant(Team::Enemy, 0, Kind::Depot, false, &None));
    let m = w.spawn(Kind::Mineral, Team::Neutral, v2(9.0, 9.0));
    w.employ(i, m);
    assert_eq!(w.ents[i].order, Order::Gather(w.ents[m].id));
    w.send_scout(i, v2(5.0, 6.0));
    assert_eq!(w.ents[i].order, Order::Move(v2(5.0, 6.0)));
    w.recall_scout(i);
    assert_eq!(w.ents[i].order, Order::Idle);
    let b = w.spawn(Kind::Barracks, Team::Enemy, v2(3.0, 3.0));
    w.rally_all(&vec![b], v2(8.0, 8.0));
    assert_eq!(w.ents[b].rally, v2(8.0, 8.0));
}

#[test]
fn sounds_are_made_of_waves() {
    let t = timbre(Sfx::Shot);
    assert_eq!((t.pitch, t.jitter, t.fall, t.wave), (680, 280, Fall::Share(45), Waveform::Square));
    assert_eq!(timbre(Sfx::BigBoom).length, 85);
    assert_eq!(jitter(1), 0x0004_2021);
    let mut seed = 1u32;
    let r = rnd(&mut seed);
    assert_eq!(seed, 0x0004_2021);
    assert_eq!(r, num((seed >> 8) as f32 / (1u32 << 24) as f32));
    let mut q: Vec<Cue> = Vec::new();
    play(&mut q, Sfx::Shot, num(0.001), num(0.0));
    assert!(q.is_empty(), "too faint");
    for _ in 0..200 {
        play(&mut q, Sfx::Shot, num(1.0), num(0.0));
    }
    assert_eq!(q.len(), 96);
    let mut voices: Vec<u32> = Vec::new();
    for v in 0..50 {
        voice_in(&mut voices, v);
    }
    assert_eq!(voices.len(), 48);
    assert_eq!(voices[0], 2);
}

#[test]
fn deaths_and_shots_throw_things_up() {
    let b = death_fx(Kind::Base, Team::Player);
    assert_eq!(b.bursts.len(), 5);
    assert_eq!(b.waves.len(), 2);
    assert_eq!(b.waves[0].radius, 200);
    assert_eq!((b.flash.unwrap().0, b.shake, b.sound), (80, 140, Some(Sfx::BigBoom)));
    let d = death_fx(Kind::Depot, Team::Enemy);
    assert_eq!((d.waves[0].radius, d.flash.unwrap().0, d.shake), (150, 60, 90));
    assert_eq!(death_fx(Kind::Mineral, Team::Neutral).sound, None);
    assert_eq!(death_fx(Kind::Sapper, Team::Enemy).waves[1].share, 60);
    assert_eq!(shot_fx(Kind::Tank, Team::Player).shake, 10);
    assert_eq!(shot_fx(Kind::Worker, Team::Player).tracer, None);
    assert_eq!(shot_sound(Kind::Tank, num(0.0)), (Some(Sfx::TankShot), false));
    assert_eq!(shot_sound(Kind::Soldier, num(0.04)), (None, false));
    assert_eq!(shot_sound(Kind::Soldier, num(0.05)), (Some(Sfx::Shot), true));
    assert_eq!(shot_sound(Kind::Pyro, num(0.05)), (None, false));
    assert_eq!(shot_sound(Kind::Pyro, num(0.08)), (Some(Sfx::Flame), true));
    assert_eq!(hit_fx().count, 3);
    assert_eq!(repair_fx().count, 2);
    assert_eq!(raised_fx().0.len(), 2);
}

#[test]
fn a_bank_must_be_able_to_take_everything_back() {
    let mut w = duel();
    let b = w.spawn(Kind::Base, Team::Player, v2(0.0, 0.0));
    let k = w.spawn(Kind::Worker, Team::Player, v2(50.0, 0.0));
    assert!(w.solvent(Team::Player));
    w.minerals[0] = u32::MAX;
    assert!(w.solvent(Team::Player));
    w.ents[b].queue.push(Kind::Worker);
    assert!(!w.solvent(Team::Player));
    assert!(w.solvent(Team::Enemy));
    w.minerals[0] = u32::MAX - 50;
    assert!(w.solvent(Team::Player));
    w.ents[k].order = Order::Build(Kind::Depot, v2(9.0, 9.0));
    assert!(!w.solvent(Team::Player));
    w.minerals[0] = u32::MAX - 125;
    assert!(w.solvent(Team::Player));
    w.ents[k].build_queue.push((Kind::Barracks, v2(0.0, 0.0)));
    assert!(!w.solvent(Team::Player));
}

#[test]
fn computers_recruit_up_to_their_target() {
    let mut w = duel();
    let b = w.spawn(Kind::Base, Team::Enemy, v2(0.0, 0.0));
    w.minerals[1] = 500;
    let mut ai = AiState::fresh();
    ai.worker_target = 0;
    let c = w.census(Team::Enemy, 0);
    let s = w.standing(Team::Enemy, &c);
    assert_eq!((s.minerals, s.used, s.cap, s.workers, s.bases, s.have_base), (500, 0, 11, 0, 1, true));
    w.recruit(&ai, &c, &s);
    assert!(w.ents[b].queue.is_empty());
    ai.worker_target = 1;
    w.recruit(&ai, &c, &s);
    assert_eq!(w.ents[b].queue, vec![Kind::Worker]);
    assert_eq!(w.team_min(Team::Enemy), 450);
}

#[test]
fn computers_note_their_scouts_and_intents() {
    let mut ai = AiState::fresh();
    ai.scouted(ScoutMove::Send(3), 77, num(30.0));
    assert_eq!((ai.scout_id, ai.scout_timer), (77, num(30.0)));
    ai.scouted(ScoutMove::Wander(3), 5, num(1.5));
    assert_eq!((ai.scout_id, ai.scout_timer), (77, num(30.0)));
    ai.scouted(ScoutMove::Reclaim(3), 5, num(9.0));
    assert_eq!((ai.scout_id, ai.scout_timer), (0, num(1.0)));
    ai.scouted(ScoutMove::Lost, 5, num(9.0));
    assert_eq!((ai.scout_id, ai.scout_timer), (0, num(9.0)));
    ai.scouted(ScoutMove::Rest, 5, num(9.0));
    assert_eq!(ai.scout_timer, num(4.0));
    ai.settle(Resolve::Commit, v2(1.0, 2.0), 12, num(5.0));
    assert_eq!((ai.intent, ai.commit_army, ai.intent_timer), (Intent::Commit(v2(1.0, 2.0)), 12, num(5.0)));
    ai.settle(Resolve::Feint, v2(3.0, 4.0), 20, num(2.0));
    assert_eq!((ai.intent, ai.commit_army), (Intent::Feint(v2(3.0, 4.0)), 12));
    ai.settle(Resolve::Harass, v2(3.0, 4.0), 20, num(2.0));
    assert_eq!(ai.intent, Intent::Harass(v2(3.0, 4.0)));
    ai.settle(Resolve::Build, v2(3.0, 4.0), 20, num(2.0));
    assert_eq!(ai.intent, Intent::Build);
}

#[test]
fn a_squad_pokes_and_the_rest_gather() {
    let (p, q) = (v2(1.0, 1.0), v2(2.0, 2.0));
    assert_eq!(poke_dests(0, p, q), vec![]);
    assert_eq!(poke_dests(2, p, q), vec![p, q]);
    assert_eq!(poke_dests(6, p, q), vec![p, p, q, q, q, q]);
    assert_eq!(poke_dests(30, p, q).iter().filter(|&&d| d == p).count(), 4);
}

#[test]
fn old_things_make_room_for_new_ones() {
    let mut v = vec![1, 2, 3, 4, 5];
    keep_last(&mut v, 9);
    assert_eq!(v, vec![1, 2, 3, 4, 5]);
    keep_last(&mut v, 2);
    assert_eq!(v, vec![4, 5]);
    keep_last(&mut v, 0);
    assert_eq!(v, Vec::<i32>::new());
}

#[test]
fn buildings_and_patches_bar_the_way() {
    let mut w = duel();
    let b = w.spawn(Kind::Depot, Team::Player, v2(0.0, 0.0));
    let k = w.spawn(Kind::Worker, Team::Player, v2(0.0, 0.0));
    let m = w.spawn(Kind::Mineral, Team::Neutral, v2(0.0, 0.0));
    w.ents[m].minerals = 1;
    assert!(w.ents[b].blocks() && !w.ents[k].blocks() && w.ents[m].blocks());
    w.ents[m].minerals = 0;
    w.ents[b].hp = num(0.0);
    assert!(!w.ents[b].blocks() && !w.ents[m].blocks());
    assert!(w.roomy());
    w.next_id = u32::MAX;
    assert!(!w.roomy());
}

#[test]
fn players_are_greeted() {
    let mut w = duel();
    w.greet();
    assert_eq!(w.messages.last().unwrap().0, "FREE-FOR-ALL - 1 RIVAL - LAST ONE STANDING WINS");
    let mut w = World::new_match(3, 4, [false, true, true, true], Team::Player, false);
    w.greet();
    assert_eq!(w.messages.last().unwrap().0, "FREE-FOR-ALL - 3 RIVALS - LAST ONE STANDING WINS");
}

#[test]
fn computers_have_an_agenda_and_plots() {
    let a = agenda();
    assert_eq!((a[0], a[1], a[6]), (Errand::Raise(Wish::Rebase), Errand::Recruit, Errand::Raise(Wish::Expand)));
    assert_eq!(plot(Wish::Depot, Kind::Depot), Some((70, 150)));
    assert_eq!(plot(Wish::Factory, Kind::Factory), Some((150, -40)));
    assert_eq!(plot(Wish::Second, Kind::Factory), Some((120, -120)));
    assert_eq!(plot(Wish::Second, Kind::Barracks), Some((80, 200)));
    assert_eq!(plot(Wish::Expand, Kind::Base), None);
    assert_eq!(post_place(Post::Back), (-150, 0));
    assert_eq!(post_place(Post::Right), (0, -150));
}

#[test]
fn armies_grow_by_draws() {
    let mut w = duel();
    let f = w.spawn(Kind::Factory, Team::Enemy, v2(0.0, 0.0));
    let b = w.spawn(Kind::Barracks, Team::Enemy, v2(200.0, 0.0));
    w.spawn(Kind::Base, Team::Enemy, v2(400.0, 0.0));
    w.minerals[1] = 1000;
    let c = w.census(Team::Enemy, 0);
    let mut ai = AiState::fresh();
    ai.tank_ratio = num(1.0);
    ai.sapper_ratio = num(0.0);
    ai.mortar_ratio = num(0.0);
    w.train_army(&ai, &c, num(0.0), num(0.0));
    assert_eq!((w.ents[f].queue.clone(), w.ents[b].queue.clone()), (vec![Kind::Tank], vec![Kind::Soldier]));
    ai.sapper_ratio = num(1.0);
    ai.mortar_ratio = num(1.0);
    w.train_army(&ai, &c, num(1.0), num(1.0));
    assert_eq!((w.ents[f].queue[1], w.ents[b].queue[1]), (Kind::Mortar, Kind::Sapper));
    w.minerals[1] = 150;
    w.ents[f].queue.clear();
    w.ents[b].queue.clear();
    ai.tank_ratio = num(0.0);
    w.train_army(&ai, &c, num(0.0), num(0.0));
    assert_eq!((w.ents[f].queue.len(), w.ents[b].queue.len()), (0, 1));
}

#[test]
fn units_fight_only_when_they_are_free_to() {
    let mut w = duel();
    let s = w.spawn(Kind::Soldier, Team::Player, v2(0.0, 0.0));
    let e = w.spawn(Kind::Soldier, Team::Enemy, v2(50.0, 0.0));
    let d = vec![num(0.0), num(2500.0)];
    let far = v2(900.0, 0.0);
    assert_eq!(w.decide(s, num(0.0), &d), Turn::Fight(e));
    w.ents[s].order = Order::Move(far);
    assert_eq!(w.decide(s, num(0.0), &d), Turn::Walk(far));
    w.ents[s].order = Order::AttackMove(far);
    assert_eq!(w.decide(s, num(0.0), &d), Turn::Fight(e));
    w.ents[s].order = Order::Attack(4_000_000);
    assert_eq!(w.decide(s, num(0.0), &d), Turn::MoveAlong);
    w.ents[s].order = Order::Idle;
    w.ents[e].hp = num(0.0);
    assert_eq!(w.decide(s, num(0.0), &d), Turn::Stand);
    let b = w.spawn(Kind::Barracks, Team::Player, v2(0.0, 0.0));
    let d = vec![num(0.0), num(2500.0), num(0.0)];
    assert_eq!(w.decide(b, num(0.0), &d), Turn::Stand);
}

#[test]
fn ranges_dead_zones_and_high_ground() {
    for k in KINDS {
        assert!(k == Kind::Mortar || atk_range(k) < atk_range(Kind::Mortar));
        assert_eq!(min_range(k) > 0, k == Kind::Mortar);
    }
    let h = Headings { toward: None, away: v2(1.0, 0.0), retreat: v2(-9.0, 0.0) };
    let mut w = duel();
    let m = w.spawn(Kind::Mortar, Team::Player, v2(0.0, 0.0));
    let s = w.spawn(Kind::Soldier, Team::Player, v2(0.0, 0.0));
    let e = w.spawn(Kind::Soldier, Team::Enemy, v2(0.0, 0.0));
    let b = w.spawn(Kind::Sapper, Team::Player, v2(0.0, 0.0));
    assert_eq!(w.engage(m, e, num(min_range(Kind::Mortar) as f32 - 1.0), true, &h), Action::FallBack);
    assert_eq!(w.ents[m].goal, Some(v2(-9.0, 0.0)));
    let reach = (atk_range(Kind::Soldier) + 2 * radius(Kind::Soldier)) as f32;
    assert_eq!(w.engage(s, e, num(reach + 22.0), false, &h), Action::Chase);
    assert_eq!(w.engage(s, e, num(reach + 22.0), true, &h), Action::Fire);
    assert_eq!(w.engage(s, e, num(reach), true, &h), Action::Reload);
    assert_eq!(w.engage(b, e, num(0.0), false, &h), Action::Blast);
    assert_eq!(w.ents[b].hp, num(0.0));
}

#[test]
fn clicks_snap_to_any_rival() {
    let far = num(1.0e9);
    for me in [Team::Player, Team::Enemy, Team::Faction2] {
        let mut w = World::new_match(3, 3, [false; 4], me, true);
        w.spawn(Kind::Soldier, me, v2(0.0, 0.0));
        w.spawn(Kind::Mineral, Team::Neutral, v2(0.0, 0.0));
        let d = vec![num(1.0), num(1.0)];
        assert_eq!(w.snap_to_enemy(&d, far), None);
        for foe in [Team::Player, Team::Enemy, Team::Faction2] {
            if foe != me {
                let mut v = World::new_match(3, 3, [false; 4], me, true);
                v.spawn(Kind::Soldier, me, v2(0.0, 0.0));
                let i = v.spawn(Kind::Soldier, foe, v2(0.0, 0.0));
                assert_eq!(v.snap_to_enemy(&vec![num(1.0), num(4.0)], num(5.0)), Some(i));
                assert_eq!(v.snap_to_enemy(&vec![num(1.0), num(4.0)], num(4.0)), None);
                v.ents[i].hp = num(0.0);
                assert_eq!(v.snap_to_enemy(&vec![num(1.0), num(4.0)], num(5.0)), None);
            }
        }
    }
}

#[test]
fn the_scoreboard_counts_the_second_faction() {
    let mut w = World::new_match(3, 3, [false; 4], Team::Enemy, true);
    for t in [Team::Player, Team::Enemy, Team::Faction2] {
        let i = w.spawn(Kind::Soldier, t, v2(0.0, 0.0));
        w.ents[i].hp = num(0.0);
    }
    let b = w.spawn(Kind::Depot, Team::Enemy, v2(0.0, 0.0));
    w.ents[b].hp = num(0.0);
    assert_eq!(w.cleanup().len(), 4);
    assert_eq!(w.kills, 1);
}

#[test]
fn guards_stand_for_a_while_whatever_the_clock_says() {
    let mut a = AiState::fresh();
    a.intent_timer = num(f32::NAN);
    a.brace(v2(0.0, 0.0));
    assert_eq!(a.intent_timer, num(1.5));
    a.intent_timer = num(7.0);
    a.brace(v2(0.0, 0.0));
    assert_eq!(a.intent_timer, num(7.0));
}

#[test]
fn builders_go_back_to_mining() {
    let mut w = duel();
    let k = w.spawn(Kind::Worker, Team::Player, v2(0.0, 0.0));
    w.ents[k].order = Order::Build(Kind::Depot, v2(5.0, 0.0));
    w.run_build(k, Kind::Depot, v2(5.0, 0.0), num(5.0), num(9.0), v2(0.0, 9.0), &vec![num(0.0)]);
    assert_eq!((w.ents.len(), w.ents[1].kind), (2, Kind::Depot));
    assert_eq!(w.ents[k].order, Order::Build(Kind::Depot, v2(5.0, 0.0)), "with nothing to mine it keeps its order");
    let m = w.spawn(Kind::Mineral, Team::Neutral, v2(0.0, 0.0));
    w.ents[m].minerals = 5;
    w.ents[k].order = Order::Build(Kind::Depot, v2(5.0, 0.0));
    w.run_build(k, Kind::Depot, v2(5.0, 0.0), num(5.0), num(9.0), v2(0.0, 9.0), &vec![num(0.0); 3]);
    assert_eq!(w.ents[k].order, Order::Gather(w.ents[m].id));
}

#[test]
fn what_is_no_number_gives_way() {
    let nan = num(f32::NAN);
    assert_eq!((nan.least(num(2.0)), num(2.0).least(nan)), (num(2.0), num(2.0)));
    assert_eq!((nan.most(num(2.0)), num(2.0).most(nan)), (num(2.0), num(2.0)));
    assert_eq!((num(3.0).least(num(-2.0)), num(3.0).most(num(-2.0))), (num(-2.0), num(3.0)));
    let mut w = duel();
    let s = w.spawn(Kind::Soldier, Team::Player, v2(2.0, 5.0));
    let t = w.spawn(Kind::Soldier, Team::Player, v2(3.0, 5.0));
    let d = vec![num(0.0), num(0.0)];
    w.select_box(v2(2.0, 0.0), V2 { x: nan, y: num(9.0) }, nan, &d, false);
    assert!(w.ents[s].selected && !w.ents[t].selected, "the other corner alone bounds the box");
    let a = w.spawn(Kind::Base, Team::Enemy, v2(0.0, 0.0));
    let b = w.spawn(Kind::Base, Team::Enemy, v2(0.0, 0.0));
    let o = num(0.0);
    assert_eq!(w.nearest_enemy_base(Team::Player, &vec![o, o, nan, num(1.0)]), Some(a));
    assert_eq!(w.nearest_enemy_base(Team::Player, &vec![o, o, num(1.0), nan]), Some(a));
    assert_eq!(w.nearest_enemy_base(Team::Player, &vec![o, o, num(2.0), num(1.0)]), Some(b));
}

#[test]
fn walkers_are_kept_on_the_map() {
    let mut w = duel();
    let s = w.spawn(Kind::Soldier, Team::Player, v2(50.0, 50.0));
    let r = radius(Kind::Soldier) as f32;
    let far = v2(100.0 - r, 80.0 - r);
    w.keep_on_map(s, v2(-3.0, 500.0), far);
    assert_eq!(w.ents[s].pos, v2(r, 80.0 - r));
    w.keep_on_map(s, v2(40.0, 41.0), far);
    assert_eq!(w.ents[s].pos, v2(40.0, 41.0));
    let b = w.spawn(Kind::Depot, Team::Player, v2(-9.0, 0.0));
    w.keep_on_map(b, v2(40.0, 41.0), v2(900.0, 900.0));
    assert_eq!(w.ents[b].pos, v2(-9.0, 0.0));
}

#[test]
fn decided_matches_stand_still() {
    let mut w = duel();
    assert!(w.begin_tick(num(1.0), num(2.0)));
    assert_eq!((w.time, w.attack_warn), (num(1.0), num(2.0)));
    w.spawn(Kind::Base, Team::Player, v2(0.0, 0.0));
    w.ents[0].flash = num(0.5);
    w.greet();
    w.match_over = true;
    let h = w.checksum();
    assert!(!w.begin_tick(num(3.0), num(4.0)));
    w.decay(&vec![], &vec![num(0.0)], &vec![num(0.25)]);
    assert_eq!((w.time, w.attack_warn, w.checksum()), (num(1.0), num(2.0), h));
    assert_eq!((w.messages.len(), w.ents[0].flash), (0, num(0.25)));
}

#[test]
fn effects_stay_out_of_the_match() {
    let mut w = duel();
    w.spawn(Kind::Tank, Team::Enemy, v2(1.0, 2.0));
    let h = w.checksum();
    for _ in 0..70 {
        let b = w.show_death(v2(1.0, 2.0), Kind::Tank, Team::Enemy);
        assert!(b.shake > 0 && b.sound.is_some());
    }
    assert_eq!((w.checksum(), w.sounds.len()), (h, 64));
    assert_eq!(w.sounds[0].1, Some(v2(1.0, 2.0)));
    assert_eq!((shaken(num(7.5)), shaken(num(19.0)), shaken(num(f32::NAN))), (num(7.5), num(18.0), num(18.0)));
}
