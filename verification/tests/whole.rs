//! Routes, starts, passes, frames and orders as wholes.

use nanorts::ai::workers_wanted;
use nanorts::cmd::Cmd;
use nanorts::fog::{Fog, Spotter};
use nanorts::frame::{frame, Layer};
use nanorts::input::Ui;
use nanorts::kind::{Kind, Team};
use nanorts::num::{Num, V2};
use nanorts::orders::{Ground, Site};
use nanorts::path::{Grid, T_CLIFF, T_OPEN};
use nanorts::route::{pull_taut, tile_middle};
use nanorts::start::{board_size, contested_fields, Start};
use nanorts::terrain::{unbroken, Layout, Plateau};
use nanorts::tick::Pass;
use nanorts::world::{Order, World};

fn num(x: f32) -> Num {
    Num { bits: x.to_bits() }
}

fn v2(x: f32, y: f32) -> V2 {
    V2 { x: num(x), y: num(y) }
}

fn open_grid(tw: usize, th: usize) -> Grid {
    Grid { tw, th, terrain: vec![T_OPEN; tw * th], block: vec![0; tw * th] }
}

fn nowhere() -> Site {
    Site {
        pt: v2(0.0, 0.0),
        far: v2(0.0, 0.0),
        tiles: [T_OPEN; 5],
        to_ent: Vec::new(),
        to_order: Vec::new(),
        to_queue: Vec::new(),
    }
}

fn start() -> Start {
    Start { base: v2(9.0, 9.0), rally: v2(1.0, 2.0), line: [v2(3.0, 4.0); 7], hands: [v2(5.0, 6.0); 4] }
}

#[test]
fn routes_end_at_the_point_itself() {
    let mut g = open_grid(5, 2);
    let goal = v2(199.0, 7.0);
    assert_eq!(g.route((0, 0), (3, 0), goal), Some(vec![v2(90.0, 30.0), v2(150.0, 30.0), goal]));
    assert_eq!(g.route((3, 0), (3, 0), goal), Some(vec![goal]));
    assert_eq!(tile_middle((2, 1)), v2(150.0, 90.0));
    g.terrain[2] = T_CLIFF;
    g.terrain[7] = T_CLIFF;
    assert_eq!(g.route((0, 0), (3, 0), goal), None);
}

#[test]
fn routes_are_pulled_taut() {
    let way = vec![v2(1.0, 0.0), v2(2.0, 0.0), v2(3.0, 0.0)];
    assert_eq!(pull_taut(&way, |_a: usize, _j: usize| true), vec![way[2]]);
    assert_eq!(pull_taut(&way, |_a: usize, _j: usize| false), way);
    assert_eq!(pull_taut(&way, |_a: usize, j: usize| j < 2), vec![way[1], way[2]]);
    assert_eq!(pull_taut(&vec![], |_a: usize, _j: usize| true), Vec::<V2>::new());
}

#[test]
fn gaps_in_lines_are_noticed() {
    let line = vec![(0, 0), (1, 1), (2, 1), (2, 1), (3, 0)];
    assert!(unbroken(4, 2, &line, (0, 0), (3, 0)));
    assert!(!unbroken(4, 2, &line, (0, 0), (2, 0)));
    assert!(!unbroken(4, 2, &line, (1, 0), (3, 0)));
    assert!(!unbroken(3, 2, &line, (0, 0), (3, 0)), "off the map");
    assert!(!unbroken(4, 2, &vec![(0, 0), (2, 0), (3, 0)], (0, 0), (3, 0)));
    assert!(!unbroken(4, 2, &vec![], (0, 0), (0, 0)));
    let g = open_grid(4, 2);
    assert!(g.lines_are_gapless(&vec![(0, 0), (3, 0)], &vec![vec![], line.clone()]));
    assert!(!g.lines_are_gapless(&vec![(0, 0), (3, 0)], &vec![line.clone(), vec![]]));
    assert!(!g.lines_are_gapless(&vec![(0, 0)], &vec![]));
}

#[test]
fn gapless_lines_make_playable_maps() {
    let mut g = open_grid(40, 30);
    let layout = Layout {
        plateaus: vec![Plateau { cx: 12, cy: 9, hw: 2, hh: 2, side: 0 }],
        bases: vec![(4, 25), (35, 4)],
        patches: vec![(12, 9)],
    };
    let hubs = vec![(4, 25), (35, 4)];
    let line: Vec<(i32, i32)> = (0..=31).map(|i| (4 + i, 25 - (i * 21) / 31)).collect();
    let lines = vec![vec![], line];
    assert!(g.lines_are_gapless(&hubs, &lines));
    g.gen_terrain(&layout, &hubs, &lines);
    assert!(g.terrain.iter().all(|&c| c <= 3));
    for t in [(4, 25), (35, 4), (12, 9)] {
        assert_eq!(g.tile_at(t.0, t.1), T_OPEN);
    }
    assert!(g.find_path(hubs[0], hubs[1]).is_some() && g.find_path(hubs[1], hubs[0]).is_some());
}

#[test]
fn a_new_match_is_laid_out() {
    let mut w = World::new_match(1, 3, [false, true, true, false], Team::Player, false);
    assert_eq!(contested_fields(2), vec![6]);
    assert_eq!(contested_fields(4), vec![6, 5, 5, 5, 5]);
    let fields: Vec<Vec<V2>> = contested_fields(3).iter().map(|&n| vec![v2(70.0, 80.0); n]).collect();
    w.lay_out(&vec![start(), start(), start()], &fields);
    assert_eq!(w.ents.len(), 36 + 16);
    let first: Vec<Kind> = w.ents[..12].iter().map(|e| e.kind).collect();
    assert_eq!(first[0], Kind::Base);
    assert!(first[1..8].iter().all(|&k| k == Kind::Mineral) && first[8..].iter().all(|&k| k == Kind::Worker));
    assert_eq!((w.ents[0].rally, w.ents[12].team, w.ents[24].team), (v2(1.0, 2.0), Team::Enemy, Team::Faction2));
    assert!(w.ents[36..].iter().all(|e| e.kind == Kind::Mineral && e.minerals == 1500 && e.pos == v2(70.0, 80.0)));
    assert_eq!((board_size(2), board_size(4)), (v2(2800.0, 1800.0), v2(3808.0, 2448.0)));
}

#[test]
fn passes_come_in_their_order() {
    let mut w = World::new_match(1, 3, [true, false, true, false], Team::Enemy, false);
    let tail = [
        Pass::Produce,
        Pass::Decide,
        Pass::Damage,
        Pass::Block,
        Pass::Move,
        Pass::Clear,
        Pass::Fade,
        Pass::Effects,
        Pass::Fog,
        Pass::Judge,
    ];
    let p = w.passes(1);
    assert_eq!(p[..2], [Pass::Think(Team::Faction2), Pass::Think(Team::Player)]);
    assert_eq!(p[2..], tail);
    assert_eq!(w.passes(3)[..2], [Pass::Think(Team::Player), Pass::Think(Team::Faction2)]);
    assert_eq!(w.passes(usize::MAX).len(), 12);
    w.match_over = true;
    assert_eq!(w.passes(1), vec![Pass::Fade, Pass::Effects]);
}

#[test]
fn frames_are_stacked() {
    let mut ui = Ui {
        drag_start: None,
        dragging: true,
        build_mode: None,
        attack_pending: false,
        show_help: false,
        menu: false,
    };
    let f = frame(&ui, 0, num(0.01));
    assert_eq!(f.len(), 17);
    let at = |f: &Vec<Layer>, l: Layer| f.iter().position(|&k| k == l);
    assert!(at(&f, Layer::Units) < at(&f, Layer::Fog) && at(&f, Layer::Fog) < at(&f, Layer::Hud));
    assert_eq!((f[0], f[16]), (Layer::Ground, Layer::Hud));
    assert_eq!((at(&f, Layer::Drag), at(&f, Layer::Flash), at(&f, Layer::Menu)), (None, None, None));
    ui.drag_start = Some(v2(0.0, 0.0));
    ui.build_mode = Some(Kind::Depot);
    ui.show_help = true;
    ui.menu = true;
    let f = frame(&ui, -1, num(0.02));
    assert_eq!(f.len(), 23);
    assert_eq!(f[14..18], [Layer::Fog, Layer::Drag, Layer::Placement, Layer::Flash]);
    assert_eq!(f[20..], [Layer::Help, Layer::Outcome, Layer::Menu]);
}

#[test]
fn a_right_click_orders_what_is_selected() {
    let mut w = World::new_match(1, 2, [false; 4], Team::Enemy, false);
    let a = w.spawn(Kind::Soldier, Team::Enemy, v2(0.0, 0.0));
    let b = w.spawn(Kind::Soldier, Team::Enemy, v2(0.0, 0.0));
    w.ents[a].selected = true;
    let p = v2(500.0, 500.0);
    w.command(&vec![num(9.0e9); 2], p, true, &vec![p]);
    assert_eq!(w.ents[a].order, Order::AttackMove(p));
    assert_eq!(w.ents[b].order, Order::Idle);
    w.command(&vec![num(9.0e9); 2], p, false, &vec![p]);
    assert_eq!(w.ents[a].order, Order::Move(p));
}

#[test]
fn nobody_listens_to_the_neutrals() {
    let mut w = World::new_match(1, 2, [false; 4], Team::Player, false);
    let a = w.spawn(Kind::Soldier, Team::Player, v2(0.0, 0.0));
    let m = w.spawn(Kind::Mineral, Team::Neutral, v2(0.0, 0.0));
    w.ents[a].order = Order::Move(v2(7.0, 7.0));
    let ids = vec![w.ents[a].id, w.ents[m].id];
    let p = v2(500.0, 500.0);
    assert!(w.solvent(Team::Neutral));
    w.apply_stop(Team::Neutral, &ids);
    w.apply_order(Team::Neutral, &ids, &vec![num(9.0e9); 2], p, false, false, &vec![p, p]);
    let g = Ground { d: vec![num(9.0e9); 2], pt: p, dests: vec![p, p], has_cliffs: false, site: nowhere() };
    let c = Cmd::Order { ids: ids.clone(), x: p.x, y: p.y, attack_move: true, queue: false };
    w.apply_cmd(Team::Neutral, &c, &g);
    w.apply_cmd(Team::Neutral, &Cmd::Stop { ids }, &g);
    assert_eq!(w.ents[a].order, Order::Move(v2(7.0, 7.0)));
    assert_eq!(w.minerals, [50; 4]);
}

#[test]
fn great_numbers_are_fine() {
    assert_eq!(workers_wanted(u32::MAX, usize::MAX), workers_wanted(1000, 1));
    assert_eq!(workers_wanted(6, 2), 14);
    let g = open_grid(20, 20);
    let mut f = Fog::new(30, 30, 2);
    let eye = |cx: i32, cy: i32| Spotter { kind: Kind::Tank, cx, cy, tx: 0, ty: 0 };
    f.fog_pass(Team::Player, &g, &vec![eye(i32::MAX, i32::MIN), eye(-3_000_000, 4)]);
    assert!((0..30).all(|x| (0..30).all(|y| f.team_vis_at(Team::Player, x, y) == 0)));
}
