//! The canvas, the lists of shapes, texts, menus and what keys and clicks do.

use nanorts::building::{draw_building, draw_hpbar, draw_waiting, Gauge, Shades};
use nanorts::cmd::Cmd;
use nanorts::fog::Fog;
use nanorts::front::{draw_field, draw_lobby, draw_menu_bg, draw_rings, draw_scanlines, waiting_text, FrontShades};
use nanorts::gfx::{rgb, Canvas};
use nanorts::ground::{cells_in_view, draw_grid, draw_terrain, to_cell};
use nanorts::hud::{
    draw_gameover, draw_help, draw_hint, draw_menu, draw_messages, draw_mode, draw_readouts, draw_seats, hint, Badge,
    Mode, HELP_LINES,
};
use nanorts::input::{
    group_text, in_hud, in_minimap, placing_text, queue_train, queued_text, recall_centres, step_script, GameKey, KeyAct,
    KeyCtx, Press, Release, RightPress, Ui,
};
use nanorts::kind::{Kind, Team};
use nanorts::lockstep::Lockstep;
use nanorts::menu::{
    browse_pings, gameover_buttons, main_buttons, main_choice, pause_buttons, pressed, search_pings, skirmish_buttons,
    skirmish_choice, AppNext, Browse, Btn, BtnShades, MenuAct, MenuKey, TypeKey,
};
use nanorts::minimap::{draw_minimap, Chart, Echo};
use nanorts::num::{Num, V2};
use nanorts::path::{Grid, T_CLIFF, T_HIGH, T_OPEN, T_RAMP};
use nanorts::scene::{Label, Setting, Shape};
use nanorts::screen::{
    blit_scaled, build_x_map, design_width, detect_screen, fullscreen_tick, mm_x, mm_y, ScreenLine,
};
use nanorts::text::{dec, normalize_addr, parse_geom};
use nanorts::theme::{edge_of, faction_name, fill_of, kind_name, INK, MINERAL, SELECT};
use nanorts::view::{
    bar_width, draw_crowding, draw_cursor, draw_drag, draw_fog, draw_halo, draw_minerals, draw_pending, draw_plans,
    draw_rallies, draw_trail, Ore,
};
use nanorts::world::{Order, World};

fn num(x: f32) -> Num {
    Num { bits: x.to_bits() }
}

fn v2(x: f32, y: f32) -> V2 {
    V2 { x: num(x), y: num(y) }
}

fn duel() -> World {
    World::new_match(3, 2, [false, true, false, false], Team::Player, false)
}

fn px(c: &Canvas, x: i32, y: i32) -> u32 {
    c.buf[(y * c.w + x) as usize]
}

fn count(c: &Canvas, color: u32) -> usize {
    c.buf.iter().filter(|&&p| p == color).count()
}

const RED: u32 = 0xFFFF_0000;

#[test]
fn colours_are_packed() {
    assert_eq!(rgb(1, 2, 3), 0xFF01_0203);
    assert_eq!(fill_of(Team::Player), rgb(64, 132, 238));
    assert_eq!(edge_of(Team::Faction3), rgb(250, 210, 140));
    assert_eq!(faction_name(Team::Faction2), "GREEN");
    assert_eq!(kind_name(Kind::Base), "COMMAND CENTER");
}

#[test]
fn shapes_are_clipped_to_the_canvas() {
    let mut c = Canvas::new(8, 6);
    assert_eq!(count(&c, rgb(0, 0, 0)), 48);
    c.fill_rect(-2, -2, 4, 4, RED);
    assert_eq!(count(&c, RED), 4);
    c.clear(0);
    c.put(7, 5, RED);
    c.put(8, 5, RED);
    assert_eq!(count(&c, RED), 1);
    c.clear(0);
    c.rect(1, 1, 4, 3, RED);
    assert_eq!(count(&c, RED), 10);
    c.clear(0);
    c.fill_circle(3, 3, 1, RED);
    assert_eq!(count(&c, RED), 5);
    c.clear(0);
    c.fill_diamond(3, 3, 2, RED);
    assert_eq!(count(&c, RED), 13);
    c.clear(0);
    c.line(0, 0, 3, 3, RED);
    assert_eq!((count(&c, RED), px(&c, 2, 2)), (4, RED));
    c.clear(0);
    c.fill_tri(0, 0, 4, 0, 0, 4, RED);
    assert_eq!((px(&c, 0, 0), px(&c, 1, 1), px(&c, 4, 4)), (RED, RED, 0));
    c.clear(0);
    c.circle(3, 3, 2, RED);
    assert_eq!((px(&c, 5, 3), px(&c, 3, 1), px(&c, 3, 3)), (RED, RED, 0));
    c.clear(0);
    c.dashed_line(&vec![(0, 0), (1, 0), (2, 0), (3, 0), (4, 0)], RED, 2);
    assert_eq!(c.buf[..6], [RED, RED, 0, 0, RED, 0]);
}

#[test]
fn texts_have_a_width_and_a_shadow() {
    assert_eq!(Canvas::text_width("ABC", 2), 36);
    let mut c = Canvas::new(40, 20);
    c.text(1, 1, "I", RED, 1);
    let plain = count(&c, RED);
    assert!(plain > 5);
    c.clear(0xFF00_00FF);
    c.text_sh(1, 1, "I", RED, 1);
    assert_eq!(count(&c, RED), plain);
    assert!(count(&c, rgb(0, 0, 0)) > 0);
    c.clear(0);
    c.text_center(20, 1, "II", RED, 1);
    assert!((0..20).any(|y| px(&c, 16, y) == RED || px(&c, 17, y) == RED));
    let mut d = Canvas::new(40, 20);
    d.clear(0);
    d.glyph(2, 2, 'a', RED, 2);
    let mut e = Canvas::new(40, 20);
    e.clear(0);
    e.glyph(2, 2, 'A', RED, 2);
    assert_eq!(d.buf, e.buf, "lower case looks like upper case");
}

#[test]
fn shapes_and_labels_are_stamped() {
    let mut c = Canvas::new(10, 10);
    assert!(c.stamp(&Shape::Fill { x: 1, y: 1, w: 2, h: 2, color: RED }));
    assert_eq!(count(&c, RED), 4);
    assert!(!c.stamp(&Shape::Veil { x: 0, y: 0, w: 9, h: 9, color: 7, share: 50 }));
    assert!(!c.stamp(&Shape::Fill { x: 9_000_000, y: 0, w: 1, h: 1, color: 7 }));
    assert_eq!(count(&c, 7), 0);
    let l = Label { x: 0, y: 0, text: "-".to_string(), color: 9, scale: 1, setting: Setting::Plain };
    assert!(c.write(&l));
    assert!(count(&c, 9) > 0);
}

#[test]
fn the_canvas_matches_the_window() {
    assert_eq!(design_width(1920, 1080), 1280);
    assert_eq!(design_width(2560, 1080), 1706);
    assert_eq!(design_width(400, 800), 640);
    assert_eq!(design_width(400, 0), 1280);
    assert_eq!(build_x_map(4, 2), vec![0, 0, 1, 1]);
    assert_eq!(build_x_map(0, 2), vec![0]);
    let mut small = Canvas::new(2, 2);
    small.buf = vec![1, 2, 3, 4];
    let mut big = Canvas::new(4, 4);
    blit_scaled(&small, &mut big, &build_x_map(4, 2));
    assert_eq!(big.buf, vec![1, 1, 2, 2, 1, 1, 2, 2, 3, 3, 4, 4, 3, 3, 4, 4]);
    let before = big.buf.clone();
    blit_scaled(&Canvas::new(0, 0), &mut big, &vec![]);
    assert_eq!(big.buf, before);
    assert_eq!((mm_x(1280), mm_y(720)), (1050, 548));
    let asks: Vec<u64> = (0..200).filter(|&f| fullscreen_tick(f)).collect();
    assert_eq!(asks, vec![10, 45, 90, 160]);
}

#[test]
fn the_primary_screen_is_preferred() {
    let line = |connected, primary, g| ScreenLine { connected, primary, geometry: g };
    let a = Some((800, 600, 0, 0));
    let b = Some((1920, 1080, 800, 0));
    assert_eq!(detect_screen(&vec![line(true, false, a), line(true, true, b)]), (1920, 1080, 800, 0));
    assert_eq!(detect_screen(&vec![line(true, false, a), line(false, true, b)]), (800, 600, 0, 0));
    assert_eq!(detect_screen(&vec![line(true, true, None)]), (1280, 720, 0, 0));
}

#[test]
fn geometries_are_read() {
    assert_eq!(parse_geom("1920x1080+0+0"), Some((1920, 1080, 0, 0)));
    assert_eq!(parse_geom("1920x1080+-5++7"), Some((1920, 1080, -5, 7)));
    assert_eq!(parse_geom("+1920x1080+0+0"), None);
    assert_eq!(parse_geom("640x480+1+2"), Some((640, 480, 1, 2)));
    assert_eq!(parse_geom("639x480+1+2"), None);
    assert_eq!(parse_geom("640x480"), None);
    assert_eq!(parse_geom("640x480+1"), None);
    assert_eq!(parse_geom("640x480+1+99999999999"), None);
    assert_eq!(parse_geom("axb+1+2"), None);
    assert_eq!(parse_geom(""), None);
}

#[test]
fn numbers_and_addresses_are_written() {
    assert_eq!(dec(0), "0");
    assert_eq!(dec(4_294_967_295), "4294967295");
    assert_eq!(normalize_addr("10.0.0.7"), "10.0.0.7:7777");
    assert_eq!(normalize_addr("10.0.0.7:81"), "10.0.0.7:81");
}

#[test]
fn the_grid_follows_the_camera() {
    for cam in [0, 1, 127, 128, 300, -1, -130] {
        let mut c = Canvas::new(300, 8);
        c.clear(0);
        draw_grid(&mut c, cam, 64);
        for x in 0..300 {
            let on = (x + cam).rem_euclid(128) == 0;
            assert_eq!(px(&c, x, 3) == rgb(28, 32, 26), on, "column {x} at {cam}");
        }
    }
}

#[test]
fn terrain_is_drawn_where_it_is_in_view() {
    let mut g = Grid { tw: 4, th: 3, terrain: vec![T_OPEN; 12], block: vec![0; 12] };
    assert!(draw_terrain(&g, true, 0, 0, 240, 180).is_empty());
    g.terrain[5] = T_HIGH;
    let s = draw_terrain(&g, true, 10, 20, 240, 180);
    assert_eq!(s.len(), 3);
    assert_eq!(s[0], Shape::Fill { x: 50, y: 40, w: 60, h: 60, color: rgb(54, 62, 44) });
    assert_eq!(s[2], Shape::Fill { x: 50, y: 98, w: 60, h: 2, color: rgb(34, 39, 29) });
    assert!(draw_terrain(&g, false, 10, 20, 240, 180).is_empty());
    assert!(draw_terrain(&g, true, 2000, 20, 240, 180).is_empty());
    g.terrain[5] = T_CLIFF;
    assert_eq!(draw_terrain(&g, true, 0, 0, 240, 180).len(), 5);
    g.terrain[5] = T_RAMP;
    let r = draw_terrain(&g, true, 0, 0, 240, 180);
    assert_eq!(r[3], Shape::Line { x0: 108, y0: 118, x1: 122, y1: 62, color: rgb(92, 84, 56) });
    assert_eq!(to_cell(-59, 60), 0);
    assert_eq!(to_cell(-61, 60), -1);
    assert_eq!(cells_in_view(130, 100, 60, 50), (2, 4));
    assert_eq!(cells_in_view(-300, 100, 60, 50), (0, -2));
}

fn shades() -> Shades {
    Shades {
        body: 1,
        light: 2,
        dark: 3,
        hole: 4,
        door: 5,
        window: 6,
        stack: 7,
        foundation: 8,
        scaffold: 9,
        rung: 10,
        beam: 11,
    }
}

#[test]
fn buildings_have_their_details() {
    let mut w = duel();
    let i = w.spawn(Kind::Barracks, Team::Player, v2(0.0, 0.0));
    let full = Gauge { share: num(1.0), filled: 44 };
    let mut out = Vec::new();
    draw_building(&mut out, &w.ents[i], 100, 100, &shades(), None, &full, 0);
    assert_eq!(out.len(), 6 + 7 + 2);
    assert_eq!(out[1], Shape::Fill { x: 78, y: 78, w: 44, h: 44, color: 3 });
    assert_eq!(out[14], Shape::Fill { x: 78, y: 70, w: 44, h: 3, color: rgb(90, 220, 110) });
    w.ents[i].selected = true;
    w.ents[i].queue = vec![Kind::Soldier, Kind::Pyro];
    let mut out = Vec::new();
    draw_building(&mut out, &w.ents[i], 100, 100, &shades(), Some(100), &full, 11);
    assert_eq!(out[0], Shape::Frame { x: 74, y: 74, w: 52, h: 52, color: SELECT });
    assert!(out.contains(&Shape::Fill { x: 78, y: 78, w: 44, h: 22, color: 8 }));
    assert!(out.contains(&Shape::Fill { x: 78, y: 83, w: 44, h: 1, color: 10 }));
    assert!(out.contains(&Shape::Fill { x: 78, y: 92, w: 44, h: 1, color: 10 }));
    assert_eq!(out[out.len() - 1], Shape::Fill { x: 78, y: 126, w: 11, h: 4, color: rgb(120, 220, 250) });
    let l = draw_waiting(&w.ents[i], 100, 100).unwrap();
    assert_eq!((l.x, l.y, l.text.as_str()), (124, 122, "2"));
    for k in [Kind::Base, Kind::Factory, Kind::Depot] {
        let j = w.spawn(k, Team::Enemy, v2(0.0, 0.0));
        let mut out = Vec::new();
        draw_building(&mut out, &w.ents[j], 0, 0, &shades(), None, &full, 0);
        assert!(out.len() > 15);
        assert!(draw_waiting(&w.ents[j], 0, 0).is_none());
    }
}

#[test]
fn health_bars_change_colour() {
    let color = |share: f32, team: Team| {
        let mut out = Vec::new();
        draw_hpbar(&mut out, 50, 10, 20, &Gauge { share: num(share), filled: 5 }, team);
        match out[1] {
            Shape::Fill { color, .. } => color,
            _ => 0,
        }
    };
    assert_eq!(color(0.51, Team::Player), rgb(90, 220, 110));
    assert_eq!(color(0.5, Team::Player), rgb(235, 200, 70));
    assert_eq!(color(0.25, Team::Player), rgb(230, 80, 70));
    assert_eq!(color(1.0, Team::Enemy), rgb(228, 90, 80));
    assert_eq!(bar_width(Kind::Tank), 26);
    assert_eq!(bar_width(Kind::Worker), 18);
}

fn chart(w: &World) -> Chart {
    Chart {
        tile_x: vec![0, 5, 10, 15],
        tile_y: vec![0, 5, 10],
        tile_w: 5,
        tile_h: 5,
        cell_x: vec![0, 4, 8, 12],
        cell_y: vec![0, 4, 4],
        spots: w.ents.iter().map(|_| (7, 9)).collect(),
        view_x: 1,
        view_y: 2,
        view_w: 30,
        view_h: 20,
        echoes: w.pings.iter().map(|_| Echo { x: 3, y: 4, r: 5, fade: 77 }).collect(),
    }
}

#[test]
fn the_minimap_shows_only_what_is_known() {
    let mut w = duel();
    w.spawn(Kind::Base, Team::Player, v2(0.0, 0.0));
    w.spawn(Kind::Tank, Team::Enemy, v2(0.0, 0.0));
    w.spawn(Kind::Mineral, Team::Neutral, v2(0.0, 0.0));
    let mut g = Grid { tw: 4, th: 3, terrain: vec![T_OPEN; 12], block: vec![0; 12] };
    g.terrain[1] = T_HIGH;
    let mut f = Fog::new(3, 2, 2);
    f.vis = vec![2, 1, 0, 2, 2, 2, 0, 0, 0, 0, 0, 0];
    let c = chart(&w);
    let hidden = draw_minimap(&w, &g, true, &f, &c, &vec![2, 1, 1], 1280, 720);
    let base = Shape::Fill { x: 1056, y: 556, w: 4, h: 4, color: edge_of(Team::Player) };
    let tank = Shape::Fill { x: 1056, y: 556, w: 3, h: 3, color: fill_of(Team::Enemy) };
    assert_eq!(hidden[0], Shape::Veil { x: 1046, y: 544, w: 228, h: 146, color: INK, share: 85 });
    assert!(hidden.contains(&base) && !hidden.contains(&tank));
    assert!(hidden.contains(&Shape::Fill { x: 1055, y: 548, w: 5, h: 5, color: rgb(40, 48, 36) }));
    assert!(hidden.contains(&Shape::Veil { x: 1054, y: 548, w: 4, h: 4, color: rgb(11, 12, 15), share: 50 }));
    assert!(hidden.contains(&Shape::Fill { x: 1058, y: 548, w: 4, h: 4, color: rgb(11, 12, 15) }));
    assert_eq!(
        hidden[hidden.len() - 1],
        Shape::Frame { x: 1051, y: 550, w: 30, h: 20, color: rgb(230, 230, 240) }
    );
    let seen = draw_minimap(&w, &g, true, &f, &c, &vec![2, 2, 2], 1280, 720);
    let ore = Shape::Fill { x: 1057, y: 557, w: 2, h: 2, color: MINERAL };
    assert!(seen.contains(&tank) && seen.contains(&ore));
}

#[test]
fn the_view_hides_enemies_in_the_fog() {
    let mut w = duel();
    w.spawn(Kind::Base, Team::Enemy, v2(0.0, 0.0));
    w.spawn(Kind::Soldier, Team::Enemy, v2(0.0, 0.0));
    w.spawn(Kind::Soldier, Team::Player, v2(0.0, 0.0));
    let at = vec![(10, 10), (10, 10), (-21, 10)];
    assert_eq!(w.buildings_in_sight(&vec![1, 1, 1]), Vec::<usize>::new());
    assert_eq!(w.buildings_in_sight(&vec![2, 2, 2]), vec![0]);
    assert_eq!(w.units_in_view(&vec![2, 2, 0], &at, 100, 100), vec![1]);
    let near = vec![(10, 10), (10, 10), (-20, 120)];
    assert_eq!(w.units_in_view(&vec![0, 1, 0], &near, 100, 100), vec![2]);
}

#[test]
fn layers_of_the_view() {
    let mut w = duel();
    let m = w.spawn(Kind::Mineral, Team::Neutral, v2(0.0, 0.0));
    let u = w.spawn(Kind::Worker, Team::Player, v2(0.0, 0.0));
    let b = w.spawn(Kind::Barracks, Team::Player, v2(0.0, 0.0));
    let ore = vec![Ore { outer: 13, inner: 9, body: 5 }; 3];
    let at = vec![(40, 40); 3];
    let s = draw_minerals(&w, &at, &ore, 100, 100);
    assert_eq!(s.len(), 3);
    assert_eq!(s[2], Shape::Gem { x: 38, y: 38, r: 3, color: rgb(190, 250, 255) });
    assert!(draw_minerals(&w, &vec![(131, 0); 3], &ore, 100, 100).is_empty());
    w.ents[u].order = Order::Build(Kind::Depot, v2(9.0, 9.0));
    let p = draw_plans(&w, &at);
    assert_eq!(p[0], Shape::Frame { x: 24, y: 24, w: 32, h: 32, color: rgb(90, 150, 90) });
    assert!(draw_rallies(&w, &at, &at).is_empty());
    w.ents[b].selected = true;
    assert_eq!(draw_rallies(&w, &at, &at).len(), 2);
    assert!(draw_halo(&w.ents[u], 5, 5).is_empty());
    w.ents[u].selected = true;
    assert_eq!(draw_halo(&w.ents[u], 5, 5)[1], Shape::Ring { x: 5, y: 5, r: 12, color: SELECT });
    assert_eq!(w.route_of(u), vec![]);
    w.ents[u].order_queue = vec![Order::Idle, Order::Gather(w.ents[m].id), Order::Attack(999)];
    assert_eq!(w.route_of(u), vec![v2(9.0, 9.0), v2(0.0, 0.0)]);
    let t = draw_trail((1, 1), &vec![(2, 2), (3, 3)]);
    assert_eq!(t.len(), 4);
    assert_eq!(t[2], Shape::Dashes { x0: 2, y0: 2, x1: 3, y1: 3, color: rgb(120, 200, 150), dash: 4 });
    w.ents[u].build_queue = vec![(Kind::Base, v2(7.0, 7.0))];
    assert_eq!(w.pending_sites(), vec![(Kind::Depot, v2(9.0, 9.0)), (Kind::Base, v2(7.0, 7.0))]);
    assert_eq!(draw_drag((9, 2), (4, 6))[1], Shape::Frame { x: 4, y: 2, w: 5, h: 4, color: SELECT });
    assert_eq!(draw_pending(Kind::Depot, 50, 50).len(), 2);
    assert_eq!(
        draw_cursor(Kind::Depot, false, 50, 50, 3)[0],
        Shape::Ring { x: 50, y: 50, r: 42, color: 3 }
    );
    let d = vec![num(0.0), num(0.0), num(65.0)];
    assert_eq!(draw_crowding(&w, Kind::Depot, &d, &at).len(), 1);
    let d = vec![num(0.0), num(0.0), num(66.0)];
    assert!(draw_crowding(&w, Kind::Depot, &d, &at).is_empty());
}

#[test]
fn fog_covers_the_view_of_ones_own_faction() {
    let mut f = Fog::new(3, 1, 2);
    f.vis = vec![2, 2, 2, 0, 1, 2];
    assert!(draw_fog(&f, Team::Player, 0, 0, 120, 40).is_empty());
    let s = draw_fog(&f, Team::Enemy, 10, 0, 120, 40);
    assert_eq!(
        s,
        vec![
            Shape::Fill { x: -10, y: 0, w: 40, h: 40, color: rgb(6, 7, 10) },
            Shape::Veil { x: 30, y: 0, w: 40, h: 40, color: rgb(6, 7, 10), share: 55 },
        ]
    );
}

#[test]
fn readouts_are_written() {
    let mut w = duel();
    w.spawn(Kind::Base, Team::Player, v2(0.0, 0.0));
    w.spawn(Kind::Base, Team::Enemy, v2(0.0, 0.0));
    for _ in 0..3 {
        w.spawn(Kind::Worker, Team::Player, v2(0.0, 0.0));
    }
    w.spawn(Kind::Soldier, Team::Player, v2(0.0, 0.0));
    w.kills = 12;
    assert_eq!(w.headcount(), (3, 1));
    assert_eq!(w.rivals(), 1);
    assert_eq!(w.count_of(Team::Player, Kind::Worker), 3);
    let (shapes, labels) = draw_readouts(&w, 125, 1280);
    assert_eq!(shapes.len(), 2);
    let texts: Vec<&str> = labels.iter().map(|l| l.text.as_str()).collect();
    assert_eq!(
        texts,
        vec!["MINERALS 50", "SUPPLY 4/11", "WORKERS 3", "ARMY 1", "KILLS 12", "1 RIVAL   2:05"]
    );
    assert_eq!(labels[5].x, 1050 - 14 * 12 - 10);
    assert_eq!(labels[1].color, rgb(200, 210, 220));
    for _ in 0..6 {
        w.spawn(Kind::Worker, Team::Player, v2(0.0, 0.0));
    }
    let (_, labels) = draw_readouts(&w, 5, 1280);
    assert_eq!(labels[1].color, rgb(255, 170, 70), "room for one more at most");
}

#[test]
fn modes_messages_and_hints_are_written() {
    assert!(draw_mode(Mode::Free).is_empty());
    assert_eq!(draw_mode(Mode::Place(Kind::Depot))[0].text, "PLACE SUPPLY DEPOT (75)  -  ESC CANCELS");
    assert_eq!(draw_mode(Mode::Attack)[0].text, "ATTACK-MOVE: PICK A POINT");
    let mut w = duel();
    for m in ["A", "B", "C", "D", "E"] {
        w.msg(m);
    }
    let l = draw_messages(&w, &vec![1, 2, 3, 4, 5], 100);
    let shown: Vec<(&str, u32, i32)> = l.iter().map(|l| (l.text.as_str(), l.color, l.y)).collect();
    assert_eq!(shown, vec![("E", 5, 40), ("D", 4, 58), ("C", 3, 76), ("B", 2, 94)]);
    assert_eq!(
        hint(0, 0, false, false, false, false),
        "DRAG TO SELECT  -  RIGHT-CLICK COMMAND  -  [H] HELP  -  [ESC] MENU"
    );
    assert_eq!(hint(0, 2, false, false, false, false), "2 ARMY: [A] ATTACK-MOVE  [S] STOP  ");
    assert_eq!(
        hint(0, 0, true, false, false, false),
        "COMMAND CENTER: [W] WORKER  (RIGHT-CLICK BLDG CANCELS QUEUE)  "
    );
    assert_eq!(hint(0, 0, false, false, false, true), "SUPPLY DEPOT: RAISES SUPPLY CAP  ");
    let (bar, label) = draw_hint(&w, 640, 480);
    assert_eq!(bar, Shape::Veil { x: 0, y: 458, w: 640, h: 22, color: INK, share: 80 });
    assert_eq!(label.y, 462);
    w.announce();
    assert_eq!(w.messages.len(), 1);
    assert_eq!(w.messages[0].0, "YOU ARE BLUE - 1 RIVAL - LAST ONE STANDING WINS");
    assert_eq!(placing_text(Kind::Factory), "LEFT-CLICK TO PLACE FACTORY (SHIFT-CLICK CHAINS)");
    assert_eq!(queued_text(Kind::Base), "QUEUED COMMAND CENTER - SHIFT-CLICK FOR MORE");
    assert_eq!(group_text(7), "CONTROL GROUP 7 SET");
}

#[test]
fn panels_are_laid_out() {
    let (shapes, labels) = draw_help(1280, 720);
    assert_eq!(labels.len(), HELP_LINES + 2);
    // The widest line has 57 characters.
    assert_eq!(shapes[0], Shape::Veil { x: 274, y: 102, w: 732, h: 515, color: INK, share: 93 });
    assert_eq!(labels[1].text, "LEFT-DRAG  SELECT   DBL-CLICK  ALL OF TYPE / BLDG CLUSTER");
    assert_eq!((labels[1].x, labels[1].y, labels[2].y), (298, 150, 169));
    let mut w = duel();
    w.kills = 3;
    let (_, l) = draw_gameover(&w, 61, 1280, 720);
    assert_eq!((l[0].text.as_str(), l[1].text.as_str()), ("DEFEAT", "KILLS 3   TIME 1:01"));
    w.over = 1;
    assert_eq!(draw_gameover(&w, 61, 1280, 720).1[0].text, "VICTORY");
    assert_eq!(draw_menu(1280, 720).1.text, "PAUSED");
    let seats = draw_seats(2, 1280, 720);
    let texts: Vec<&str> = seats.iter().map(|l| l.text.as_str()).collect();
    assert_eq!(
        texts,
        vec![
            "SLOT 1:  YOU  (BLUE)",
            "SLOT 2:  PLAYER  (RED)",
            "SLOT 3:  OPEN -> AI",
            "SLOT 4:  OPEN -> AI",
            "2 PLAYERS CONNECTED  -  LAN DISCOVERY ON",
        ]
    );
}

#[test]
fn the_badge_tells_how_the_match_is_doing() {
    let mut ls = Lockstep::new(Vec::new(), false, 1, 2, [false; 4], [0, 1, 2, 3], 0);
    ls.sim_step = 41;
    ls.last_synced = 20;
    let b = Badge::of(&ls);
    assert_eq!((b.text.as_str(), b.fg), ("LOCKSTEP OK   F41   SYNC 20", rgb(120, 230, 150)));
    let (shapes, label) = b.draw(5, 1280);
    assert_eq!(shapes[1], Shape::Frame { x: 640 - 171, y: 36, w: 342, h: 20, color: 5 });
    assert_eq!((label.x, label.y), (640, 40));
    ls.desync_step = Some(20);
    assert_eq!(Badge::of(&ls).text, "! DESYNC AT STEP 20 !");
    assert_eq!(Badge::of(&ls).fg, rgb(255, 70, 60));
    ls.sim_step = 44;
    assert_eq!(Badge::of(&ls).fg, rgb(255, 200, 60));
    ls.disconnected = true;
    assert_eq!(Badge::of(&ls).text, "OPPONENT DISCONNECTED");
}

#[test]
fn front_screens_are_drawn() {
    let s = FrontShades { ring: 1, heading: 2, sub: 3, outer: 4, inner: 5 };
    let lines = draw_scanlines(3, 100, 60);
    assert_eq!(lines.len(), 3);
    assert_eq!(lines[1], Shape::Veil { x: 0, y: 27, w: 100, h: 1, color: rgb(40, 80, 70), share: 5 });
    assert_eq!(draw_rings(100, 60, 1)[3], Shape::Ring { x: 50, y: 30, r: 280, color: 1 });
    let (l, f) = draw_lobby(100, 60, "H", "BIG", "", "", &s);
    assert_eq!((l.len(), f.len()), (2, 2));
    assert_eq!(draw_lobby(100, 60, "H", "BIG", "S", "T", &s).0.len(), 4);
    assert_eq!(draw_menu_bg(100, 60, "T", "", &s).0.len(), 1);
    assert_eq!(waiting_text("LOOKING", 0), "LOOKING.");
    assert_eq!(waiting_text("LOOKING", 63), "LOOKING....");
    assert_eq!(draw_field("1.2", 0, 1280, 720).1.text, "1.2_");
    assert_eq!(draw_field("1.2", 28, 1280, 720).1.text, "1.2 ");
    assert!(browse_pings(40) && !browse_pings(41) && search_pings(48) && !search_pings(40));
}

#[test]
fn buttons_are_hit_on_their_edges() {
    let b = Btn::new(100, 50, 40, 20, "GO", 7);
    assert_eq!((b.x, b.y), (80, 50));
    assert!(b.hit(v2(80.0, 50.0)) && b.hit(v2(120.0, 70.0)));
    assert!(!b.hit(v2(79.9, 50.0)) && !b.hit(v2(100.0, 70.5)) && !b.hit(v2(f32::NAN, 60.0)));
    let (shapes, label) = b.draw(true, &BtnShades { body: 1, border: 2 });
    assert_eq!(shapes[0], Shape::Veil { x: 80, y: 50, w: 40, h: 20, color: 1, share: 92 });
    assert_eq!((label.x, label.y, label.color), (100, 53, rgb(248, 252, 252)));
    let edge = Btn::new(0, 0, 10, 10, "", 0);
    assert!(edge.hit(v2(-5.0, 0.0)) && !edge.hit(v2(-5.5, 0.0)));
}

#[test]
fn menus_have_their_buttons() {
    let (b, acts) = pause_buttons(1280, 720);
    assert_eq!(acts, vec![MenuAct::Resume, MenuAct::ToMenu, MenuAct::Surrender, MenuAct::Quit]);
    assert_eq!((b[2].y, b[2].label.as_str()), (424, "SURRENDER  [G]"));
    assert_eq!(pressed(&b, v2(640.0, 430.0)), Some(2));
    assert_eq!(pressed(&b, v2(10.0, 430.0)), None);
    let (_, acts) = gameover_buttons(1280, 720, true);
    assert_eq!(acts, vec![MenuAct::ToMenu, MenuAct::Quit]);
    let (b, acts) = gameover_buttons(1280, 720, false);
    assert_eq!((acts[0], b[0].label.as_str()), (MenuAct::Restart, "PLAY AGAIN  [R]"));
    assert_eq!(main_buttons(1280, 720)[3].label, "QUIT");
    assert_eq!(skirmish_buttons(1280, 720)[3].y, 510);
    assert_eq!(main_choice(MenuKey::Digit(2)), Some(1));
    assert_eq!(main_choice(MenuKey::Escape), Some(3));
    assert_eq!(main_choice(MenuKey::Digit(5)), None);
    assert_eq!(skirmish_choice(MenuKey::Digit(3)), Some(Some(4)));
    assert_eq!(skirmish_choice(MenuKey::Escape), Some(None));
    assert_eq!(skirmish_choice(MenuKey::Q), None);
}

#[test]
fn hosts_are_browsed_and_addresses_typed() {
    let mut b = Browse::new();
    assert!(b.key(TypeKey::Enter).is_none(), "nothing typed yet");
    for k in [TypeKey::Digit(1), TypeKey::Dot, TypeKey::Digit(2), TypeKey::Colon, TypeKey::Backspace] {
        assert!(b.key(k).is_none());
    }
    assert_eq!(b.addr, "1.2");
    assert!(matches!(b.key(TypeKey::Enter), Some(AppNext::Join(a)) if a == "1.2:7777"));
    assert!(matches!(b.key(TypeKey::Escape), Some(AppNext::Menu)));
    for _ in 0..40 {
        let _ = b.key(TypeKey::Digit(9));
    }
    assert_eq!(b.addr.len(), 23);
    b.found("a:1".to_string());
    b.found("b:2".to_string());
    b.found("a:1".to_string());
    assert_eq!(b.hosts, vec!["a:1", "b:2"]);
    assert_eq!(b.buttons(1280, 720).len(), 3);
    assert!(matches!(b.click(v2(640.0, 300.0), 1280, 720), Some(AppNext::Join(a)) if a == "b:2"));
    assert!(matches!(b.click(v2(640.0, 640.0), 1280, 720), Some(AppNext::Menu)));
    assert!(b.click(v2(5.0, 5.0), 1280, 720).is_none());
    for i in 0..9 {
        b.found(format!("h{i}"));
    }
    assert_eq!(b.buttons(1280, 720).len(), 6, "five hosts at most");
    assert!(b.choose_host(5).is_none());
}

fn ctx() -> KeyCtx {
    KeyCtx { ctrl: false, over: false, online: false, worker: true, fighter: true }
}

#[test]
fn keys_do_what_they_say() {
    let mut u = Ui::new();
    assert_eq!(u.key(GameKey::W, &ctx()), KeyAct::Train(Kind::Base, Kind::Worker));
    assert_eq!(u.key(GameKey::V, &ctx()), KeyAct::Train(Kind::Factory, Kind::Mortar));
    assert_eq!(u.key(GameKey::D, &KeyCtx { worker: false, ..ctx() }), KeyAct::NeedWorker);
    assert_eq!(u.key(GameKey::D, &ctx()), KeyAct::Placing(Kind::Depot));
    assert_eq!(u.current_mode(), Mode::Place(Kind::Depot));
    assert_eq!(u.key(GameKey::A, &ctx()), KeyAct::Nothing);
    assert_eq!(u.current_mode(), Mode::Attack);
    assert_eq!(u.key(GameKey::A, &KeyCtx { ctrl: true, ..ctx() }), KeyAct::SelectArmy);
    assert_eq!(u.key(GameKey::Digit(4), &KeyCtx { ctrl: true, ..ctx() }), KeyAct::SetGroup(4));
    assert_eq!(u.key(GameKey::Digit(4), &ctx()), KeyAct::Recall(4));
    assert_eq!(u.key(GameKey::S, &ctx()), KeyAct::Stop);
    u.key(GameKey::Escape, &ctx());
    assert_eq!(u.current_mode(), Mode::Free);
    u.key(GameKey::H, &ctx());
    assert!(u.show_help);
    u.key(GameKey::Escape, &ctx());
    assert!(u.menu);
    assert_eq!(u.key(GameKey::W, &ctx()), KeyAct::Nothing, "the menu swallows keys");
    assert_eq!(u.key(GameKey::M, &ctx()), KeyAct::ToMenu);
    assert_eq!(u.key(GameKey::G, &ctx()), KeyAct::Surrender);
    assert!(!u.menu);
    let over = KeyCtx { over: true, ..ctx() };
    assert_eq!(u.key(GameKey::R, &over), KeyAct::Restart);
    assert_eq!(u.key(GameKey::R, &KeyCtx { online: true, ..over }), KeyAct::Nothing);
    assert_eq!(u.key(GameKey::Q, &over), KeyAct::Quit);
    assert_eq!(u.click(MenuAct::Restart, true), KeyAct::Nothing);
    assert_eq!(u.click(MenuAct::Quit, true), KeyAct::Quit);
}

#[test]
fn clicks_do_what_they_say() {
    let mut u = Ui::new();
    let p = v2(5.0, 5.0);
    assert_eq!(u.press(p, true, None, false), Press::Drag);
    assert_eq!(u.release(num(5.9), 100, num(0.0)), Release::Single);
    assert_eq!(u.release(num(5.9), 100, num(0.0)), Release::Nothing);
    u.press(p, true, None, false);
    assert_eq!(u.release(num(1.0), 25, num(17.0)), Release::Double);
    u.press(p, true, None, false);
    assert_eq!(u.release(num(6.0), 1, num(0.0)), Release::Box);
    u.key(GameKey::B, &ctx());
    assert_eq!(u.press(p, false, Some(3), false), Press::CantBuild);
    assert_eq!(u.press(p, true, None, false), Press::NeedWorker);
    assert_eq!(
        u.press(p, true, Some(3), true),
        Press::Build { worker: 3, kind: Kind::Barracks, chain: true }
    );
    assert_eq!(u.build_mode, Some(Kind::Barracks));
    assert_eq!(
        u.press(p, true, Some(3), false),
        Press::Build { worker: 3, kind: Kind::Barracks, chain: false }
    );
    assert_eq!(u.build_mode, None);
    u.key(GameKey::A, &ctx());
    assert!(!u.press_minimap(false));
    assert!(u.press_minimap(true));
    assert_eq!(u.press_right(true, false), RightPress::OnMinimap);
    assert_eq!(u.press_right(false, true), RightPress::Nothing);
    assert_eq!(u.press_right(false, false), RightPress::OnGround);
    u.key(GameKey::A, &ctx());
    assert_eq!(u.press_right(false, false), RightPress::CalledOff);
    u.key(GameKey::A, &ctx());
    assert_eq!(u.press(p, true, None, false), Press::Attack);
    assert!(recall_centres(Some(3), 3, 19) && !recall_centres(Some(3), 3, 20) && !recall_centres(None, 3, 0));
    assert!(in_hud(v2(9.0, 29.9)) && !in_hud(v2(9.0, 30.0)));
    assert!(in_minimap(v2(1050.0, 548.0), 1280, 720) && !in_minimap(v2(1049.0, 548.0), 1280, 720));
}

#[test]
fn commands_are_made_and_ordered() {
    let mut w = duel();
    let b = w.spawn(Kind::Barracks, Team::Player, v2(0.0, 0.0));
    let k = w.spawn(Kind::Worker, Team::Player, v2(0.0, 0.0));
    let mut out = Vec::new();
    queue_train(&w, &mut out, Kind::Barracks, Kind::Pyro);
    assert!(out.is_empty());
    w.ents[b].selected = true;
    queue_train(&w, &mut out, Kind::Barracks, Kind::Pyro);
    assert!(matches!(out[0], Cmd::Train { building, unit: Kind::Pyro } if building == w.ents[b].id));
    assert!(!w.has_player_worker() && !w.has_fighter());
    assert_eq!(w.first_selected_worker(), None);
    w.ents[k].selected = true;
    assert!(w.has_player_worker() && w.has_fighter());
    assert_eq!(w.first_selected_worker(), Some(w.ents[k].id));
    let lists = vec![
        vec![Cmd::Cancel { building: 1 }, Cmd::Cancel { building: 2 }],
        vec![],
        vec![Cmd::Cancel { building: 3 }],
    ];
    let script = step_script(&lists);
    let flat: Vec<String> = script.iter().map(|(t, c)| format!("{t:?} {c:?}")).collect();
    assert_eq!(
        flat,
        vec!["Player Cancel { building: 1 }", "Player Cancel { building: 2 }", "Faction2 Cancel { building: 3 }"]
    );
}

#[test]
fn every_player_can_send_their_own_to_attack() {
    for me in [Team::Player, Team::Enemy, Team::Faction2] {
        let mut w = World::new_match(3, 3, [false; 4], me, true);
        let other = if me == Team::Player { Team::Enemy } else { Team::Player };
        let a = w.spawn(Kind::Soldier, other, v2(0.0, 0.0));
        w.ents[a].selected = true;
        assert!(!w.has_fighter());
        let b = w.spawn(Kind::Soldier, me, v2(0.0, 0.0));
        w.ents[b].selected = true;
        assert!(w.has_fighter());
    }
}

#[test]
fn texts_may_be_written_in_two() {
    assert_eq!(Canvas::text_width("ABC", 301), 5418);
    assert_eq!(Canvas::text_width("AB", -1_000_000), -12_000_000);
    assert_eq!(Canvas::text_width("\u{e9}\u{e9}", 1), 12, "characters count, not bytes");
    assert_eq!(Canvas::text_width("", i32::MAX), 0);
    assert_eq!(Canvas::text_width("A", 357_913_941), 2_147_483_646);
    for scale in [1, 2, 400] {
        let mut c = Canvas::new(900, 30);
        let mut d = Canvas::new(900, 30);
        c.text(3, 2, "GO NOW", 7, scale);
        d.text(3, 2, "GO", 7, scale);
        d.text(3 + Canvas::text_width("GO", scale), 2, " NOW", 7, scale);
        assert_eq!(c.buf, d.buf);
        d.text(3, 2, "", 9, scale);
        assert_eq!(c.buf, d.buf);
        c.text(2_000_000_000, -2_000_000_000, "FAR", 9, scale);
        assert_eq!(c.buf, d.buf);
    }
}

#[test]
fn triangles_are_hulls_in_any_order() {
    let p = [(2, 1), (11, 4), (5, 12)];
    let orders = [[0, 1, 2], [0, 2, 1], [1, 0, 2], [1, 2, 0], [2, 0, 1], [2, 1, 0]];
    let draw = |o: [usize; 3], p: &[(i32, i32); 3]| {
        let mut c = Canvas::new(14, 14);
        c.fill_tri(p[o[0]].0, p[o[0]].1, p[o[1]].0, p[o[1]].1, p[o[2]].0, p[o[2]].1, 5);
        c.buf
    };
    let first = draw(orders[0], &p);
    for o in orders {
        assert_eq!(draw(o, &p), first);
    }
    for (x, y) in p {
        assert_eq!(first[(y * 14 + x) as usize], 5);
    }
    let flat = draw(orders[0], &[(1, 1), (7, 4), (3, 2)]);
    let lit: Vec<usize> = (0..196).filter(|&v| flat[v] == 5).collect();
    assert_eq!(lit, vec![15, 31, 47, 63], "a segment");
    let dot = draw(orders[0], &[(6, 6), (6, 6), (6, 6)]);
    assert_eq!(dot.iter().filter(|&&v| v == 5).count(), 1);
}

#[test]
fn geometries_may_be_left_of_the_origin() {
    assert_eq!(parse_geom("800x600+-1920+-2147483648"), Some((800, 600, -1920, i32::MIN)));
    assert_eq!(parse_geom("800x600+0+-2147483649"), None);
}

#[test]
fn tall_pictures_are_blown_up_too() {
    let mut small = Canvas::new(1, 60_000);
    small.buf[59_999] = 3;
    let mut big = Canvas::new(1, 50_000);
    blit_scaled(&small, &mut big, &vec![0]);
    assert_eq!(big.buf[49_999], small.buf[49_999 * 60_000 / 50_000]);
    let mut big = Canvas::new(1, 120_000);
    blit_scaled(&small, &mut big, &vec![0]);
    assert_eq!((big.buf[119_999], big.buf[119_997]), (3, small.buf[59_998]));
}
