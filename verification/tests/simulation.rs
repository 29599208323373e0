//! Whole matches, driven tick by tick.
#![allow(dead_code)]

use nanorts::ai::{
    agenda, breaks_off, commit_choice, course_of, must_choose, opening, plot, poke_dests, post_of, post_place,
    recon_choice, strategy_of, AiState, Census, CommitTarget, Course, Errand, Intent, Recon, Resolve, ScoutMove,
    Strategy, Wish,
};
use nanorts::cmd::Cmd;
use nanorts::combat::{Action, Headings, Turn};
use nanorts::economy::{Fix, Haul, Produced, Shift};
use nanorts::fog::{Fog, Spotter};
use nanorts::fx::{
    burst, hit_fx, keep_last, mining_fx, raised_fx, repair_fx, shaken, shot_fx, shot_sound, Burst, Wave,
    PARTICLES_MAX, WAVES_MAX,
};
use nanorts::gfx::rgb;
use nanorts::input::step_script;
use nanorts::kind::{
    aggro, build_time, cost, damage, flame, is_mover, max_hp, min_range, radius, sapper_blast, speed, Kind,
    Team, CARRY, FOG_CELL, TCELL,
};
use nanorts::motion::needs_path;
use nanorts::num::{Num, V2};
use nanorts::orders::{formation_cols, formation_place, Ground, Site};
use nanorts::path::{Grid, Slide, T_CLIFF, T_OPEN};
use nanorts::rng::{frac24, mix_seed, start_slots, xorshift};
use nanorts::route::{pull_taut, tile_middle};
use nanorts::start::{board_size, contested_fields, Start};
use nanorts::terrain::{Layout, Plateau};
use nanorts::tick::Pass;
use nanorts::world::{Order, World};

/// A point or a direction of the plane, in single precision.
#[derive(Clone, Copy, Debug, Default, PartialEq)]
pub struct Pt {
    pub x: f32,
    pub y: f32,
}

pub fn pt(x: f32, y: f32) -> Pt {
    Pt { x, y }
}

impl Pt {
    pub fn add(self, o: Pt) -> Pt {
        pt(self.x + o.x, self.y + o.y)
    }
    pub fn sub(self, o: Pt) -> Pt {
        pt(self.x - o.x, self.y - o.y)
    }
    pub fn scale(self, s: f32) -> Pt {
        pt(self.x * s, self.y * s)
    }
    pub fn len_sq(self) -> f32 {
        self.x * self.x + self.y * self.y
    }
    pub fn len(self) -> f32 {
        self.len_sq().sqrt()
    }
    /// Unit vector, or zero for a zero-length input.
    pub fn norm(self) -> Pt {
        let l = self.len();
        if l > 1e-6 {
            pt(self.x / l, self.y / l)
        } else {
            pt(0.0, 0.0)
        }
    }
    pub fn dist_sq(self, o: Pt) -> f32 {
        self.sub(o).len_sq()
    }
    pub fn dist(self, o: Pt) -> f32 {
        self.sub(o).len()
    }
}

const TAU: f32 = 6.2831855;
const INV_TAU: f32 = 0.15915494;

/// Sine by a fixed polynomial, so that every peer computes the same bits.
pub fn det_sin(x: f32) -> f32 {
    let mut t = x * INV_TAU;
    t -= (t + 0.5).floor();
    if t > 0.25 {
        t = 0.5 - t;
    }
    if t < -0.25 {
        t = -0.5 - t;
    }
    let y = t * TAU;
    let y2 = y * y;
    y * (1.0 + y2 * (-0.16666667 + y2 * (0.008333333 + y2 * -0.00019841270)))
}

pub fn det_cos(x: f32) -> f32 {
    det_sin(x + 1.5707964)
}

/// A number by its bit pattern.
pub fn num(x: f32) -> Num {
    Num { bits: x.to_bits() }
}

pub fn val(n: Num) -> f32 {
    f32::from_bits(n.bits)
}

pub fn at(p: Pt) -> V2 {
    V2 { x: num(p.x), y: num(p.y) }
}

pub fn of(v: V2) -> Pt {
    pt(val(v.x), val(v.y))
}

pub const WORLD_W: f32 = 2800.0;
pub const WORLD_H: f32 = 1800.0;
const CELL: f32 = TCELL as f32;
const FOG: f32 = FOG_CELL as f32;
const REPAIR_SECONDS: f32 = 14.0;
const REPAIR_COST_FRAC: f32 = 0.5;
const CROWD: f32 = 30_000.0;

pub struct Tracer {
    pub a: Pt,
    pub b: Pt,
    pub life: f32,
    pub color: u32,
}

pub struct Particle {
    pub pos: Pt,
    pub vel: Pt,
    pub life: f32,
    pub max_life: f32,
    pub size: f32,
    pub color: u32,
    pub drag: f32,
    pub grav: f32,
    pub glow: bool,
}

pub struct Shock {
    pub pos: Pt,
    pub max_r: f32,
    pub life: f32,
    pub max_life: f32,
    pub color: u32,
}

/// A match with everything that takes single-precision arithmetic: the map's size, motion,
/// the clocks, and what is only there to be looked at.
pub struct Game {
    pub w: World,
    pub grid: Grid,
    pub fog: Fog,
    pub ai: Vec<AiState>,
    pub has_cliffs: bool,
    pub world_w: f32,
    pub world_h: f32,
    pub cam: Pt,
    pub view_w: f32,
    pub view_h: f32,
    pub tracers: Vec<Tracer>,
    pub particles: Vec<Particle>,
    pub shocks: Vec<Shock>,
    pub flash_amt: f32,
    pub flash_color: u32,
    pub shake: f32,
    pub shake_off: Pt,
    fx_rng: u64,
    last_shot_snd: f32,
}

fn tile(p: Pt) -> (i32, i32) {
    (((p.x / CELL) as i32).clamp(-1_000_000, 1_000_000), ((p.y / CELL) as i32).clamp(-1_000_000, 1_000_000))
}

fn tile_mid(t: (i32, i32)) -> Pt {
    pt((t.0 as f32 + 0.5) * CELL, (t.1 as f32 + 0.5) * CELL)
}

fn fog_cell(p: Pt) -> (i32, i32) {
    (((p.x / FOG) as i32).clamp(-1_000_000, 1_000_000), ((p.y / FOG) as i32).clamp(-1_000_000, 1_000_000))
}

/// The tiles that a straight walk crosses.
fn tiles_between(a: Pt, b: Pt) -> Vec<(i32, i32)> {
    let d = b.sub(a);
    let len = d.len();
    if len < 1.0 {
        return Vec::new();
    }
    let steps = (len / (CELL * 0.5)).ceil() as i32;
    (1..=steps).map(|i| tile(a.add(d.scale(i as f32 / steps as f32)))).collect()
}

/// The tiles of a corridor.
fn corridor(a: Pt, b: Pt) -> Vec<(i32, i32)> {
    let d = b.sub(a);
    let steps = (d.len() / (CELL * 0.4)).ceil() as i32;
    (0..=steps).map(|i| tile(a.add(d.scale(i as f32 / steps.max(1) as f32)))).collect()
}

impl Game {
    /// A duel against one computer.
    pub fn new(seed: u64) -> Game {
        Game::new_match(seed, 2, [false, true, false, false], Team::Player, false)
    }

    /// The map grows with the number of factions.
    pub fn map_size(factions: usize) -> (f32, f32) {
        let s = of(board_size(factions.min(4)));
        (s.x, s.y)
    }

    pub fn new_match(seed: u64, factions: usize, is_ai: [bool; 4], my_team: Team, versus: bool) -> Game {
        let w = World::new_match(seed, factions, is_ai, my_team, versus);
        let factions = w.factions;
        let (world_w, world_h) = Game::map_size(factions);
        let (tw, th) = ((world_w / CELL).ceil() as usize, (world_h / CELL).ceil() as usize);
        let (fw, fh) = ((world_w / FOG).ceil() as usize, (world_h / FOG).ceil() as usize);
        let mut g = Game {
            w,
            grid: Grid { tw, th, terrain: vec![T_OPEN; tw * th], block: vec![0; tw * th] },
            fog: Fog::new(fw, fh, factions),
            ai: (0..factions).map(|_| AiState::fresh()).collect(),
            has_cliffs: false,
            world_w,
            world_h,
            cam: pt(0.0, 0.0),
            view_w: 1280.0,
            view_h: 720.0,
            tracers: Vec::new(),
            particles: Vec::new(),
            shocks: Vec::new(),
            flash_amt: 0.0,
            flash_color: 0xFFFF_FFFF,
            shake: 0.0,
            shake_off: pt(0.0, 0.0),
            fx_rng: mix_seed(seed ^ 0x1234_5678_9ABC_DEF0),
            last_shot_snd: -1.0,
        };
        g.setup();
        g
    }

    fn setup(&mut self) {
        let (w, h) = (self.world_w, self.world_h);
        let (mx, my) = (w * 0.13, h * 0.18);
        let corners = [pt(mx, h - my), pt(w - mx, my), pt(mx, my), pt(w - mx, h - my)];
        let center = pt(w * 0.5, h * 0.5);
        let n = self.w.factions;
        let (slot, rng) = start_slots(self.w.rng, n);
        self.w.rng = rng;
        let mut base_pos = [pt(0.0, 0.0); 4];
        let mut starts: Vec<Start> = Vec::new();
        for fi in 0..n {
            let bp = corners[slot[fi]];
            base_pos[fi] = bp;
            let fwd = center.sub(bp).norm();
            let perp = pt(-fwd.y, fwd.x);
            let line = Game::field(bp.add(fwd.scale(160.0)), 7);
            starts.push(Start {
                base: at(bp),
                rally: at(bp.add(fwd.scale(130.0))),
                line: std::array::from_fn(|i| line[i]),
                hands: std::array::from_fn(|i| at(bp.add(fwd.scale(78.0)).add(perp.scale(i as f32 * 20.0 - 30.0)))),
            });
        }
        let middles = [
            center,
            pt(w * 0.5, h * 0.22),
            pt(w * 0.5, h * 0.78),
            pt(w * 0.22, h * 0.5),
            pt(w * 0.78, h * 0.5),
        ];
        let fields: Vec<Vec<V2>> =
            contested_fields(n).iter().zip(middles).map(|(&size, c)| Game::field(c, size as i32)).collect();
        self.w.lay_out(&starts, &fields);
        for i in 0..self.w.ents.len() {
            if self.w.ents[i].kind == Kind::Worker {
                self.auto_gather(i);
            }
        }
        self.gen_terrain();
        for fi in 0..n {
            if self.w.is_ai[fi] {
                self.roll_ai(fi);
                let bp = base_pos[fi];
                let fwd = center.sub(bp).norm();
                let mut best = center;
                let mut bd = f32::MAX;
                for (fj, &op) in base_pos.iter().enumerate().take(n) {
                    if fj != fi && op.dist_sq(bp) < bd {
                        bd = op.dist_sq(bp);
                        best = op;
                    }
                }
                self.ai[fi].staging = at(bp.add(fwd.scale(380.0)));
                self.ai[fi].player_main = at(best);
                self.ai[fi].seen_army_pos = at(best);
            }
        }
        let mine = base_pos[self.w.my_team.idx().min(n - 1)];
        self.cam = mine.sub(pt(640.0, 360.0));
        self.clamp_cam(1280.0, 720.0);
        self.w.greet();
    }

    fn field(center: Pt, n: i32) -> Vec<V2> {
        (0..n)
            .map(|i| {
                let a = (i as f32 / n as f32) * TAU;
                at(center.add(pt(det_cos(a) * 70.0, det_sin(a) * 46.0)))
            })
            .collect()
    }

    fn gen_terrain(&mut self) {
        let count = 2 + if self.rng_f() < 0.5 { 1 } else { 0 };
        let mut plateaus = Vec::new();
        for _ in 0..count {
            let cx = (8.0 + self.rng_f() * 16.0) as i32;
            let cy = (5.0 + self.rng_f() * 14.0) as i32;
            let hw = (2.0 + self.rng_f() * 1.5) as i32;
            let hh = (2.0 + self.rng_f() * 1.0) as i32;
            let side = (self.rng_f() * 4.0) as i32;
            plateaus.push(Plateau { cx, cy, hw, hh, side });
        }
        let of_kind = |k: Kind, w: &World| -> Vec<(i32, i32)> {
            w.ents.iter().filter(|e| e.kind == k).map(|e| tile(of(e.pos))).collect()
        };
        let layout = Layout {
            plateaus,
            bases: of_kind(Kind::Base, &self.w),
            patches: of_kind(Kind::Mineral, &self.w),
        };
        let bases: Vec<Pt> = (0..self.w.factions)
            .filter_map(|fi| self.w.first_base(Team::from_idx(fi)))
            .map(|i| self.pos(i))
            .collect();
        let hubs: Vec<(i32, i32)> = bases.iter().map(|&p| tile(p)).collect();
        let lines: Vec<Vec<(i32, i32)>> = bases.iter().map(|&p| corridor(bases[0], p)).collect();
        self.has_cliffs = self.grid.gen_terrain(&layout, &hubs, &lines);
    }

    /// Wipes the terrain back to open ground.
    pub fn flatten_terrain(&mut self) {
        self.grid.flatten_terrain();
        self.has_cliffs = false;
    }

    fn roll_ai(&mut self, fi: usize) {
        let strat = strategy_of(frac24(self.w.rng_u()));
        let (a, b, c, d, e) = (self.rng_f(), self.rng_f(), self.rng_f(), self.rng_f(), self.rng_f());
        let (workers, expand, always) = opening(strat);
        let (more, tank, pokes, agg, pat) = match strat {
            Strategy::Rush => ((a * 3.0) as u32, 0.1 + b * 0.2, true, 0.75 + c * 0.2, 2.5 + d * 1.5),
            Strategy::Macro => ((a * 5.0) as u32, 0.35 + b * 0.25, e < 0.4, 0.25 + c * 0.25, 6.0 + d * 3.0),
            Strategy::Mech => ((a * 3.0) as u32, 0.55 + b * 0.3, e < 0.25, 0.4 + c * 0.25, 5.0 + d * 2.5),
            Strategy::Standard => ((a * 4.0) as u32, 0.3 + b * 0.2, e < 0.35, 0.35 + c * 0.4, 3.5 + d * 3.0),
        };
        let pyro = (self.rng_f() * 0.4).min(0.4);
        let raider = match strat {
            Strategy::Rush => 0.25 + self.rng_f() * 0.35,
            _ => self.rng_f() * 0.35,
        };
        let sapper = match strat {
            Strategy::Rush => 0.1 + self.rng_f() * 0.25,
            _ => self.rng_f() * 0.18,
        };
        let mortar = match strat {
            Strategy::Mech | Strategy::Macro => 0.12 + self.rng_f() * 0.25,
            _ => self.rng_f() * 0.18,
        };
        let ai = &mut self.ai[fi];
        ai.strategy = strat;
        ai.worker_target = workers + more;
        ai.tank_ratio = num(tank);
        ai.expand_min = expand;
        ai.harass = always || pokes;
        ai.aggression = num(agg);
        ai.patience = num(pat);
        ai.pyro_ratio = num(pyro);
        ai.raider_ratio = num(raider);
        ai.sapper_ratio = num(sapper);
        ai.mortar_ratio = num(mortar);
    }

    /// A random number of the simulation, at least 0 and below 1.
    pub fn rng_f(&mut self) -> f32 {
        val(self.w.rng_f())
    }

    /// A random number that nothing but looks depends on.
    fn fx_f(&mut self) -> f32 {
        self.fx_rng = xorshift(self.fx_rng);
        frac24(self.fx_rng) as f32 / (1u32 << 24) as f32
    }

    pub fn pos(&self, i: usize) -> Pt {
        of(self.w.ents[i].pos)
    }

    /// Squared distances of everyone from a point.
    pub fn dist_sq(&self, p: Pt) -> Vec<Num> {
        self.w.ents.iter().map(|e| num(of(e.pos).dist_sq(p))).collect()
    }

    fn no_dist(&self) -> Vec<Num> {
        vec![num(0.0); self.w.ents.len()]
    }

    /// How much each patch is worth going to from a point: the nearer and the emptier, the
    /// lower.
    fn patch_scores(&self, p: Pt, exclude: u32) -> Vec<Num> {
        self.w
            .ents
            .iter()
            .map(|e| {
                if e.kind == Kind::Mineral && e.minerals > 0 {
                    num(of(e.pos).dist_sq(p) + self.w.crowd(e.id, exclude) as f32 * CROWD)
                } else {
                    num(f32::MAX)
                }
            })
            .collect()
    }

    fn auto_gather(&mut self, i: usize) {
        let score = self.patch_scores(self.pos(i), self.w.ents[i].id);
        let _ = self.w.auto_gather(i, &score);
    }

    /// Everything there is to know of a building site.
    pub fn site(&self, kind: Kind, p: Pt) -> Site {
        let r = radius(kind) as f32;
        let t = |ox: f32, oy: f32| {
            let (x, y) = tile(pt(p.x + ox, p.y + oy));
            self.grid.tile_at(x, y)
        };
        Site {
            pt: at(p),
            far: at(pt(self.world_w - r, self.world_h - r)),
            tiles: [t(0.0, 0.0), t(-r, 0.0), t(r, 0.0), t(0.0, -r), t(0.0, r)],
            to_ent: self.w.ents.iter().map(|e| num(of(e.pos).dist(p))).collect(),
            to_order: self
                .w
                .ents
                .iter()
                .map(|e| match e.order {
                    Order::Build(_, s) => num(of(s).dist(p)),
                    _ => num(0.0),
                })
                .collect(),
            to_queue: self
                .w
                .ents
                .iter()
                .map(|e| e.build_queue.iter().map(|(_, s)| num(of(*s).dist(p))).collect())
                .collect(),
        }
    }

    pub fn can_build(&self, kind: Kind, p: Pt) -> bool {
        self.w.can_build(kind, self.has_cliffs, &self.site(kind, p))
    }

    pub fn order_build(&mut self, worker: usize, kind: Kind, p: Pt) -> bool {
        let s = self.site(kind, p);
        self.w.order_build(worker, kind, self.has_cliffs, &s)
    }

    pub fn queue_build(&mut self, worker: usize, kind: Kind, p: Pt) -> bool {
        let s = self.site(kind, p);
        self.w.queue_build(worker, kind, self.has_cliffs, &s)
    }

    /// What a point near an enemy stands for: that enemy.
    pub fn snap_to_enemy(&self, p: Pt, r: f32) -> Option<Pt> {
        self.w.snap_to_enemy(&self.dist_sq(p), num(r * r)).map(|i| self.pos(i))
    }

    pub fn snap_open(&self, p: Pt) -> Pt {
        let (x, y) = tile(p);
        match self.grid.snap_open(self.has_cliffs, x, y) {
            Some(t) => of(tile_middle(t)),
            None => p,
        }
    }

    fn places(&self, team: Team, ids: &Vec<u32>, p: Pt) -> Vec<V2> {
        let cols = formation_cols(self.w.formation_size(team, ids).min(0x80_0000) as u32);
        (0..ids.len())
            .map(|k| {
                let (dx, dy) = formation_place(k as i32, cols);
                at(p.add(pt(dx as f32 * 22.0, dy as f32 * 22.0)))
            })
            .collect()
    }

    /// Applies a team's command, with what it needs to know of the map.
    pub fn apply_cmd(&mut self, team: Team, cmd: &Cmd) {
        if !self.w.solvent(team) {
            return;
        }
        let mut g = Ground {
            d: Vec::new(),
            pt: at(pt(0.0, 0.0)),
            dests: Vec::new(),
            has_cliffs: self.has_cliffs,
            site: self.site(Kind::Depot, pt(0.0, 0.0)),
        };
        match cmd {
            Cmd::Order { ids, x, y, .. } => {
                let p = pt(val(*x), val(*y));
                let open = self.snap_open(p);
                g.d = self.dist_sq(p);
                g.pt = at(open);
                g.dests = self.places(team, ids, open);
            }
            Cmd::Build { kind, x, y, .. } => g.site = self.site(*kind, pt(val(*x), val(*y))),
            _ => {}
        }
        self.w.apply_cmd(team, cmd, &g);
    }

    pub fn apply_order(&mut self, team: Team, ids: &[u32], p: Pt, attack_move: bool, queue: bool) {
        let c = Cmd::Order { ids: ids.to_vec(), x: num(p.x), y: num(p.y), attack_move, queue };
        self.apply_cmd(team, &c);
    }

    /// A right click with the local player's selection.
    pub fn command(&mut self, p: Pt, attack_move: bool) {
        let team = self.w.my_team;
        if !self.w.solvent(team) {
            return;
        }
        let d = self.dist_sq(p);
        let open = self.snap_open(p);
        let dests = self.places(team, &self.w.selected_ids(), open);
        self.w.command(&d, at(open), attack_move, &dests);
    }

    /// Carries out the commands of a step.
    pub fn apply_step(&mut self, per_faction: &Vec<Vec<Cmd>>) {
        for (team, c) in step_script(per_faction) {
            self.apply_cmd(team, &c);
        }
    }

    pub fn select_single(&mut self, p: Pt, additive: bool) {
        let d = self.dist_sq(p);
        self.w.select_single(&d, additive);
    }

    pub fn select_type_in_view(&mut self, p: Pt, vmin: Pt, vmax: Pt, additive: bool) {
        let d = self.dist_sq(p);
        let d_hit = match self.w.own_body_at(&d) {
            Some(i) => self.dist_sq(self.pos(i)),
            None => self.no_dist(),
        };
        self.w.select_type_in_view(&d, &d_hit, at(vmin), at(vmax), additive);
    }

    pub fn select_box(&mut self, a: Pt, b: Pt, additive: bool) {
        let d = self.dist_sq(a);
        self.w.select_box(at(a), at(b), num(a.dist(b)), &d, additive);
    }

    /// The middle of the entities whose ids are listed.
    pub fn centroid_of_ids(&self, ids: &Vec<u32>) -> Option<Pt> {
        let m = self.w.members(ids);
        if m.is_empty() {
            return None;
        }
        let sum = m.iter().fold(pt(0.0, 0.0), |s, &i| s.add(self.pos(i)));
        Some(sum.scale(1.0 / m.len() as f32))
    }

    pub fn clamp_cam(&mut self, sw: f32, sh: f32) {
        self.cam.x = self.cam.x.clamp(0.0, (self.world_w - sw).max(0.0));
        self.cam.y = self.cam.y.clamp(0.0, (self.world_h - sh).max(0.0));
    }

    pub fn team_vis_at(&self, team: Team, p: Pt) -> u8 {
        let (x, y) = fog_cell(p);
        self.fog.team_vis_at(team, x, y)
    }

    pub fn vis_at(&self, p: Pt) -> u8 {
        self.team_vis_at(self.w.my_team, p)
    }

    /// What a team knows of the place of each entity.
    pub fn vis_of_all(&self, team: Team) -> Vec<u8> {
        self.w.ents.iter().map(|e| self.team_vis_at(team, of(e.pos))).collect()
    }

    /// Waypoints from one point to another, if there is a way.
    pub fn find_path(&self, from: Pt, to: Pt) -> Option<Vec<Pt>> {
        let way = self.grid.route(tile(from), tile(to), at(to))?;
        let anchor = |a: usize| if a == 0 { from } else { of(way[a - 1]) };
        let taut = pull_taut(&way, |a: usize, j: usize| {
            !self.grid.line_blocked(&tiles_between(anchor(a), of(way[j])))
        });
        Some(taut.iter().map(|&q| of(q)).collect())
    }

    // ---- the tick ----------------------------------------------------------------------

    pub fn update(&mut self, dt: f32) {
        let (time, warn) = (val(self.w.time) + dt, val(self.w.attack_warn) - dt);
        let _ = self.w.begin_tick(num(time), num(warn));
        let rot = (val(self.w.time) * 60.0 + 0.5) as usize;
        let mut dmg: Vec<(usize, f32)> = Vec::new();
        for pass in self.w.passes(rot) {
            match pass {
                Pass::Think(team) => self.ai_update(dt, team),
                Pass::Produce => self.production(dt),
                Pass::Decide => dmg = self.decide(dt),
                Pass::Damage => self.apply_damage(&dmg),
                Pass::Block => self.rebuild_block_grid(),
                Pass::Move => self.movement(dt),
                Pass::Clear => self.cleanup(),
                Pass::Fade => self.decay(dt),
                Pass::Effects => self.update_particles(dt),
                Pass::Fog => self.update_fog(),
                Pass::Judge => self.w.check_over(),
            }
        }
    }

    fn production(&mut self, dt: f32) {
        for i in 0..self.w.ents.len() {
            let e = &self.w.ents[i];
            let rising = e.build_left.positive();
            if (!rising && e.queue.is_empty()) || !self.w.roomy() {
                continue;
            }
            let left = val(e.build_left) - dt;
            let total = build_time(e.kind) as f32;
            let prog = 1.0 - (left / total).clamp(0.0, 1.0);
            let timer = val(e.train_timer) + dt;
            let (bpos, rally) = (of(e.pos), of(e.rally));
            let mut s = Shift {
                left: num(left),
                hp: num(val(e.max_hp) * (0.12 + 0.88 * prog)),
                timer: num(timer),
                exit: e.pos,
                from_rally: self.no_dist(),
                rally_dist: num(f32::MAX),
                score: self.no_dist(),
            };
            if !rising {
                let front = e.queue[0];
                let dir = rally.sub(bpos).norm();
                let exit = bpos.add(dir.scale((radius(e.kind) + radius(front)) as f32 + 4.0));
                s.exit = at(exit);
                if timer >= build_time(front) as f32 && front == Kind::Worker {
                    s.from_rally = self.dist_sq(rally);
                    if let Some(m) = self.w.nearest_mineral(&s.from_rally) {
                        s.rally_dist = num(self.pos(m).dist(rally));
                    }
                    s.score = self.patch_scores(exit, self.w.next_id);
                }
            }
            if self.w.production(i, &s) == Produced::Online {
                let (bursts, ring) = raised_fx();
                for b in &bursts {
                    self.emit(bpos, b);
                }
                self.shock(bpos, &ring);
            }
        }
    }

    fn decide(&mut self, dt: f32) -> Vec<(usize, f32)> {
        let mut dmg: Vec<(usize, f32)> = Vec::new();
        for i in 0..self.w.ents.len() {
            let mut cooled = val(self.w.ents[i].cooldown);
            if cooled > 0.0 {
                cooled -= dt;
            }
            let kind = self.w.ents[i].kind;
            let p = self.pos(i);
            let looks = matches!(self.w.ents[i].order, Order::AttackMove(_) | Order::Idle) && aggro(kind) > 0;
            let d = if looks { self.dist_sq(p) } else { self.no_dist() };
            match self.w.decide(i, num(cooled), &d) {
                Turn::Stand => {}
                Turn::Fight(j) => self.fight(i, j, p, kind, &mut dmg),
                Turn::MoveAlong => self.w.advance_order(i),
                Turn::Walk(q) => self.w.walk_to(i, q, num(p.dist(of(q)))),
                Turn::Gather(id) => self.gather(i, id, p, dt),
                Turn::Repair(id) => self.repair(i, id, p, dt),
                Turn::Raise(k, s) => {
                    if self.w.roomy() {
                        let score = self.patch_scores(p, self.w.ents[i].id);
                        let hp = num(max_hp(k) as f32 * 0.12);
                        let rally = of(s).add(pt(0.0, radius(k) as f32 + 30.0));
                        self.w.run_build(i, k, s, num(p.dist(of(s))), hp, at(rally), &score);
                    }
                }
            }
        }
        dmg
    }

    fn fight(&mut self, i: usize, j: usize, p: Pt, kind: Kind, dmg: &mut Vec<(usize, f32)>) {
        let q = self.pos(j);
        let (a, b) = (tile(p), tile(q));
        let downhill = self.has_cliffs && self.grid.elev_at(a.0, a.1) > self.grid.elev_at(b.0, b.1);
        let to = q.sub(p);
        let away = if to.len_sq() > 1.0 { to.norm() } else { pt(0.0, -1.0) };
        let h = Headings {
            toward: if to.len_sq() > 1.0 { Some(at(to.norm())) } else { None },
            away: at(away),
            retreat: at(p.sub(away.scale(min_range(kind) as f32 + 40.0))),
        };
        match self.w.engage(i, j, num(p.dist(q)), downhill, &h) {
            Action::Blast => {
                let from = self.dist_sq(p);
                let (blast, power) = sapper_blast();
                let b2 = (blast * blast) as f32;
                for k in self.w.blasted(i, &from) {
                    dmg.push((k, power as f32 * (1.0 - 0.55 * (val(from[k]) / b2))));
                }
            }
            Action::Fire => {
                let from = self.dist_sq(p);
                let near = self.dist_sq(q);
                let face = of(self.w.ents[i].facing);
                let cos = flame(kind).map_or(2.0, |(_, c)| c as f32 / 100.0);
                let cone: Vec<bool> = self
                    .w
                    .ents
                    .iter()
                    .map(|e| {
                        let n = of(e.pos).sub(p).norm();
                        n.x * face.x + n.y * face.y >= cos
                    })
                    .collect();
                for k in self.w.victims(i, j, &from, &near, &cone) {
                    dmg.push((k, damage(kind) as f32));
                }
                self.show_shot(i, kind, p, q, face);
            }
            _ => {}
        }
    }

    fn show_shot(&mut self, i: usize, kind: Kind, p: Pt, q: Pt, face: Pt) {
        let since = val(self.w.time) - self.last_shot_snd;
        let (sound, throttled) = shot_sound(kind, num(since));
        if throttled {
            self.last_shot_snd = val(self.w.time);
        }
        if let Some(s) = sound {
            self.w.push_sound(s, Some(at(p)));
        }
        let r = radius(kind) as f32;
        if let Some((reach, _)) = flame(kind) {
            self.flame_fx(p.add(face.scale(r + 3.0)), face, reach as f32);
            return;
        }
        let v = shot_fx(kind, self.w.ents[i].team);
        let tip = p.add(face.scale(r + if kind == Kind::Mortar { 4.0 } else { 2.0 }));
        if let Some((life, color)) = v.tracer {
            self.tracers.push(Tracer { a: p, b: q, life: life as f32 / 100.0, color });
        }
        for b in &v.muzzle {
            self.emit(tip, b);
        }
        for b in &v.impact {
            self.emit(q, b);
        }
        if let Some(w) = v.wave {
            self.shock(q, &w);
        }
        let g = self.view_gain(q);
        if let Some((share, color)) = v.flash {
            self.flash(share as f32 / 100.0 * g, color);
        }
        if v.shake > 0 {
            self.add_shake(v.shake as f32 / 10.0 * g);
        }
    }

    fn gather(&mut self, i: usize, id: u32, p: Pt, dt: f32) {
        let e = &self.w.ents[i];
        let (carry, team) = (e.carry, e.team);
        let fresh = self.w.index_of(id).is_some_and(|m| self.w.ents[m].kind == Kind::Mineral && self.w.ents[m].minerals > 0);
        let score = if fresh || carry >= CARRY { self.no_dist() } else { self.patch_scores(p, e.id) };
        let home = if carry >= CARRY { self.dist_sq(p) } else { self.no_dist() };
        let h = self.w.haul_target(i, id, &score, &home);
        let there = match h {
            Haul::Patch(m) => self.pos(m),
            Haul::Base(b) => self.pos(b),
            _ => p,
        };
        let dir = p.sub(there);
        let aim = match h {
            Haul::Patch(_) if dir.len() > 1.0 => {
                there.add(dir.norm().scale((radius(Kind::Mineral) + radius(Kind::Worker)) as f32 + 2.0))
            }
            _ => there,
        };
        if self.w.team_min(team).checked_add(carry).is_none() {
            return;
        }
        let timer = val(self.w.ents[i].mine_timer) + dt;
        self.w.run_gather(i, h, num(p.dist(there)), num(timer), at(aim));
        if carry == 0 && self.w.ents[i].carry > 0 {
            self.emit(there, &mining_fx());
        }
    }

    fn repair(&mut self, i: usize, id: u32, p: Pt, dt: f32) {
        let f = self.w.repair_target(i, id);
        let mut owed = vec![num(0.0)];
        let mut hp = num(0.0);
        let mut there = p;
        if let Fix::Work(b) = f {
            let e = &self.w.ents[b];
            let mhp = val(e.max_hp);
            there = of(e.pos);
            let heal = mhp / REPAIR_SECONDS * dt;
            let mut o = val(self.w.ents[i].repair_owed) + (heal / mhp) * cost(e.kind) as f32 * REPAIR_COST_FRAC;
            owed = vec![num(o)];
            while o >= 1.0 {
                o -= 1.0;
                owed.push(num(o));
            }
            hp = num((val(e.hp) + heal).min(mhp));
        }
        let score = match f {
            Fix::Whole(_) => self.patch_scores(p, self.w.ents[i].id),
            _ => self.no_dist(),
        };
        let paid = self.w.run_repair(i, f, num(p.dist(there)), &owed, hp, &score);
        for _ in 0..paid {
            self.emit(there, &repair_fx());
        }
    }

    fn apply_damage(&mut self, dmg: &[(usize, f32)]) {
        for &(i, d) in dmg {
            if i >= self.w.ents.len() {
                continue;
            }
            let hp = val(self.w.ents[i].hp) - d;
            self.w.apply_damage(i, num(hp));
            self.emit(self.pos(i), &hit_fx());
        }
    }

    fn rebuild_block_grid(&mut self) {
        let mut covered = Vec::new();
        for e in &self.w.ents {
            if !e.blocks() {
                continue;
            }
            let (c, rad) = (of(e.pos), radius(e.kind) as f32);
            let (ccx, ccy) = tile(c);
            covered.push((ccx, ccy));
            let rc = (rad / CELL).ceil() as i32 + 1;
            for ty in ccy - rc..=ccy + rc {
                for tx in ccx - rc..=ccx + rc {
                    if tile_mid((tx, ty)).dist_sq(c) <= rad * rad {
                        covered.push((tx, ty));
                    }
                }
            }
        }
        self.grid.rebuild_block_grid(&covered);
    }

    fn unstick(&self, from: Pt, to: Pt) -> Pt {
        if !self.has_cliffs {
            return to;
        }
        match self.grid.unstick(tile(to), tile(from)) {
            Slide::Free => to,
            Slide::KeepX => pt(to.x, from.y),
            Slide::KeepY => pt(from.x, to.y),
            Slide::Stay => from,
        }
    }

    fn movement(&mut self, dt: f32) {
        let n = self.w.ents.len();
        for i in 0..n {
            let kind = self.w.ents[i].kind;
            let goal = match self.w.ents[i].goal {
                Some(g) if is_mover(kind) => of(g),
                _ => continue,
            };
            let p = self.pos(i);
            let left = val(self.w.ents[i].repath) - dt;
            if self.w.due_for_path(i, num(left)) {
                let path = if needs_path(&self.grid, num(p.dist(goal)), &tiles_between(p, goal)) {
                    self.find_path(p, goal).unwrap_or_default()
                } else {
                    Vec::new()
                };
                self.w.set_path(i, path.iter().map(|&q| at(q)).collect());
            }
            let d: Vec<Num> = self.w.ents[i].path.iter().map(|q| num(of(*q).dist(p))).collect();
            let steer = self.w.follow(i, &d).map_or(goal, of);
            let to = steer.sub(p);
            let len = to.len();
            let step = speed(kind) as f32 * dt;
            let cand = if len > step { p.add(to.scale(step / len)) } else { steer };
            let facing = if len > 1.0 { Some(at(to.norm())) } else { None };
            self.w.moved_to(i, at(self.unstick(p, cand)), facing);
        }
        for i in 0..n {
            let kind = self.w.ents[i].kind;
            if !is_mover(kind) {
                continue;
            }
            let r = radius(kind) as f32;
            let p = self.pos(i);
            let mut push = pt(0.0, 0.0);
            for j in 0..n {
                if i == j {
                    continue;
                }
                let other = self.w.ents[j].kind;
                let least = r + radius(other) as f32;
                let diff = p.sub(self.pos(j));
                let d = diff.len();
                if d > 0.001 && d < least {
                    let share = if is_mover(other) { 0.5 } else { 1.0 };
                    push = push.add(diff.scale(((least - d) * share) / d));
                }
            }
            let q = self.unstick(p, p.add(push));
            self.w.keep_on_map(i, at(q), at(pt(self.world_w - r, self.world_h - r)));
        }
    }

    fn cleanup(&mut self) {
        if self.w.kills as u64 + self.w.ents.len() as u64 > u32::MAX as u64 {
            return;
        }
        for (p, kind, team) in self.w.cleanup() {
            self.death_fx(of(p), kind, team);
        }
    }

    fn decay(&mut self, dt: f32) {
        for t in self.tracers.iter_mut() {
            t.life -= dt;
        }
        self.tracers.retain(|t| t.life > 0.0);
        let pings: Vec<Num> = self.w.pings.iter().map(|p| num(val(p.life) - dt)).collect();
        let notes: Vec<Num> = self.w.messages.iter().map(|m| num(val(m.1) - dt)).collect();
        let flashes: Vec<Num> = self.w.ents.iter().map(|e| num(val(e.flash) - dt)).collect();
        self.w.decay(&pings, &notes, &flashes);
    }

    fn update_fog(&mut self) {
        for fi in 0..self.w.factions {
            let team = Team::from_idx(fi);
            let srcs: Vec<Spotter> = self
                .w
                .ents
                .iter()
                .filter(|e| e.team == team)
                .map(|e| {
                    let (cx, cy) = fog_cell(of(e.pos));
                    let (tx, ty) = tile(of(e.pos));
                    Spotter { kind: e.kind, cx, cy, tx, ty }
                })
                .collect();
            self.fog.fog_pass(team, &self.grid, &srcs);
        }
    }

    // ---- the computer players ----------------------------------------------------------

    fn map_center(&self) -> Pt {
        pt(self.world_w * 0.5, self.world_h * 0.5)
    }

    fn clamp_pt(&self, p: Pt) -> Pt {
        pt(p.x.clamp(60.0, self.world_w - 60.0), p.y.clamp(60.0, self.world_h - 60.0))
    }

    fn free_site(&self, near: Pt, kind: Kind) -> Option<Site> {
        let s = self.site(kind, near);
        if self.w.can_build(kind, self.has_cliffs, &s) {
            return Some(s);
        }
        for r in [64.0f32, 104.0, 150.0, 200.0] {
            for k in 0..8 {
                let a = k as f32 / 8.0 * TAU;
                let s = self.site(kind, near.add(pt(det_cos(a) * r, det_sin(a) * r)));
                if self.w.can_build(kind, self.has_cliffs, &s) {
                    return Some(s);
                }
            }
        }
        None
    }

    fn ai_update(&mut self, dt: f32, me: Team) {
        let mut ai = std::mem::replace(&mut self.ai[me.idx()], AiState::fresh());
        self.think(dt, me, &mut ai);
        self.ai[me.idx()] = ai;
    }

    fn think(&mut self, dt: f32, me: Team, ai: &mut AiState) {
        ai.intent_timer = num(val(ai.intent_timer) - dt);
        ai.scout_timer = num(val(ai.scout_timer) - dt);
        ai.seen_army_age = num(val(ai.seen_army_age) + dt);
        let left = num(val(ai.think) - dt);
        if !ai.wakes(left) {
            return;
        }
        let home = match self.w.anchor(me) {
            Some(i) => self.pos(i),
            None => return,
        };
        if let Some(b) = self.w.nearest_enemy_base(me, &self.dist_sq(home)) {
            ai.player_main = self.w.ents[b].pos;
        }
        let toward = self.map_center().sub(home).norm();
        let perp = pt(-toward.y, toward.x);
        let spot = |fwd: f32, side: f32| home.add(toward.scale(fwd)).add(perp.scale(side));
        let c = self.w.census(me, ai.scout_id);
        let s = self.w.standing(me, &c);
        for &i in &c.idle_workers {
            if self.w.ents[i].id != ai.scout_id {
                if let Some(m) = self.w.nearest_mineral(&self.dist_sq(self.pos(i))) {
                    self.w.employ(i, m);
                }
            }
        }
        let far = home.dist(self.map_center()) * 0.42;
        for errand in agenda() {
            let wish = match errand {
                Errand::Recruit => {
                    self.w.recruit(ai, &c, &s);
                    continue;
                }
                Errand::Raise(wish) => wish,
            };
            if let Some(kind) = self.w.wish_for(me, ai, &s, wish) {
                let near = match plot(wish, kind) {
                    Some((fwd, side)) => spot(fwd as f32, side as f32),
                    None => spot(far, 0.0),
                };
                let site = self.free_site(near, kind);
                let ok = self.w.grant(me, ai.scout_id, kind, self.has_cliffs, &site);
                if ok && wish == Wish::Expand {
                    ai.expanded = true;
                }
            }
        }
        self.w.rally_all(&c.barracks, ai.staging);
        self.w.rally_all(&c.factories, ai.staging);
        let pyros = num(val(ai.sapper_ratio) + val(ai.pyro_ratio));
        let raiders = num(val(ai.mortar_ratio) + val(ai.raider_ratio));
        self.w.train_army(ai, &c, pyros, raiders);
        let vis = self.vis_of_all(me);
        self.update_intel(me, ai, &vis);
        self.maybe_scout(me, ai, &c);
        self.run_doctrine(me, ai, &c, &vis);
    }

    fn update_intel(&mut self, me: Team, ai: &mut AiState, vis: &Vec<u8>) {
        let seen = self.w.update_intel(me, vis);
        if !seen.army.is_empty() {
            let sum = seen.army.iter().fold(pt(0.0, 0.0), |s, &i| s.add(self.pos(i)));
            ai.note_army(at(sum.scale(1.0 / seen.army.len() as f32)), seen.supply);
        }
        for &i in &seen.buildings {
            let p = self.pos(i);
            let known = ai.known.iter().any(|(q, _)| of(*q).dist_sq(p) < 60.0 * 60.0);
            ai.remember(at(p), self.w.ents[i].kind, known);
        }
    }

    fn maybe_scout(&mut self, me: Team, ai: &mut AiState, c: &Census) {
        let m = self.w.maybe_scout(me, ai, &c.army, &c.idle_workers, c.workers);
        let (mut id, mut next) = (0, num(0.0));
        match m {
            ScoutMove::Reclaim(i) => self.w.recall_scout(i),
            ScoutMove::Wander(i) => {
                let p = self.recon_point(ai);
                self.w.send_scout(i, at(p));
            }
            ScoutMove::Lost => next = num(18.0 + self.rng_f() * 18.0),
            ScoutMove::Send(i) => {
                id = self.w.ents[i].id;
                let p = self.recon_point(ai);
                self.w.send_scout(i, at(p));
                next = num(25.0 + self.rng_f() * 20.0);
            }
            ScoutMove::Rest | ScoutMove::Carry | ScoutMove::Wait => {}
        }
        ai.scouted(m, id, next);
    }

    fn recon_point(&mut self, ai: &AiState) -> Pt {
        let main = of(ai.player_main);
        let center = self.map_center();
        let p = match recon_choice(self.w.rng_f()) {
            Recon::Main => {
                let (a, b) = (self.rng_f(), self.rng_f());
                main.add(pt((a - 0.5) * 320.0, (b - 0.5) * 320.0))
            }
            Recon::Center => center,
            Recon::Between => main.add(center.sub(main).scale(0.5)),
        };
        self.clamp_pt(p)
    }

    fn run_doctrine(&mut self, me: Team, ai: &mut AiState, c: &Census, vis: &Vec<u8>) {
        let to_base: Vec<Num> = self
            .w
            .ents
            .iter()
            .map(|e| num(c.bases.iter().map(|&b| of(e.pos).dist_sq(self.pos(b))).fold(f32::MAX, f32::min)))
            .collect();
        if let Some(t) = self.w.threat(me, vis, &to_base) {
            let p = self.pos(t);
            self.command_army(ai, &c.army, p);
            ai.brace(at(p));
            return;
        }
        if must_choose(ai.intent, ai.intent_timer) {
            self.choose_intent(ai, c.army_supply);
        }
        let staging = of(ai.staging);
        match course_of(ai.intent, ai.intent_timer) {
            Course::Gather => self.command_army(ai, &c.army, staging),
            Course::Strike(p) => self.command_army(ai, &c.army, of(p)),
            Course::Poke(p) => {
                let dests = poke_dests(c.army.len(), p, ai.staging);
                self.w.command_army(&c.army, ai.scout_id, &dests);
            }
        }
        if let Intent::Commit(_) = ai.intent {
            let frac = 0.30 + 0.25 * (1.0 - val(ai.aggression));
            if breaks_off(c.army_supply.min(0xFF_FFFF), num(ai.commit_army as f32 * frac)) {
                let timer = num(4.0 + self.rng_f() * 3.0);
                ai.settle(Resolve::Build, ai.staging, c.army_supply, timer);
            }
        }
    }

    fn command_army(&mut self, ai: &AiState, army: &Vec<usize>, dst: Pt) {
        let troops: Vec<Pt> =
            army.iter().filter(|&&i| self.w.ents[i].id != ai.scout_id).map(|&i| self.pos(i)).collect();
        if troops.is_empty() {
            return;
        }
        let c = troops.iter().fold(pt(0.0, 0.0), |s, &p| s.add(p)).scale(1.0 / troops.len() as f32);
        let fwd = dst.sub(c);
        let fwd = if fwd.len() > 1.0 { fwd.norm() } else { pt(0.0, 1.0) };
        let perp = pt(-fwd.y, fwd.x);
        let dests: Vec<V2> = army
            .iter()
            .map(|&i| {
                let e = &self.w.ents[i];
                let (ahead, side) = post_place(post_of(e.kind, e.id));
                let p = dst.add(fwd.scale(ahead as f32)).add(perp.scale(side as f32));
                at(self.clamp_pt(p))
            })
            .collect();
        self.w.command_army(army, ai.scout_id, &dests);
    }

    fn choose_intent(&mut self, ai: &mut AiState, army_supply: u32) {
        let agg = val(ai.aggression);
        let est = if val(ai.seen_army_age) < 10.0 {
            ai.seen_army_supply
        } else {
            (ai.seen_army_supply as f32 * 1.4) as u32 + 4
        };
        let needed = ((est as f32 * (1.35 - 0.7 * agg)) as u32).max(4);
        let r = self.w.choose_intent(army_supply, needed, num(0.16 * (1.0 - agg)), ai.harass);
        let (p, timer) = match r {
            Resolve::Feint => (self.approach(ai, false), 2.5 + self.rng_f() * 2.0),
            Resolve::Commit => (self.commit_target(ai), 5.0 + val(ai.patience) + self.rng_f() * 3.0),
            Resolve::Harass => (self.harass_target(ai), 3.5 + self.rng_f() * 3.0),
            Resolve::Build => (of(ai.staging), 2.0 + self.rng_f() * 2.5),
        };
        ai.settle(r, at(p), army_supply, num(timer));
    }

    fn commit_target(&mut self, ai: &AiState) -> Pt {
        match commit_choice(self.w.rng_f(), ai.seen_army_age) {
            CommitTarget::Main => {
                let flank = self.rng_f() < 0.4;
                self.approach(ai, flank)
            }
            CommitTarget::Army => of(ai.seen_army_pos),
            CommitTarget::Outpost => self.harass_target(ai),
            CommitTarget::Flank => self.approach(ai, true),
        }
    }

    fn approach(&mut self, ai: &AiState, flank: bool) -> Pt {
        let main = of(ai.player_main);
        if !flank {
            return main;
        }
        let dir = main.sub(of(ai.staging)).norm();
        let side = if self.rng_f() < 0.5 { 1.0 } else { -1.0 };
        self.clamp_pt(main.add(pt(-dir.y, dir.x).scale(260.0 * side)))
    }

    fn harass_target(&self, ai: &AiState) -> Pt {
        let main = of(ai.player_main);
        let at_main: Vec<bool> = ai.known.iter().map(|(p, _)| of(*p).dist_sq(main) < 220.0 * 220.0).collect();
        match ai.harass_target(&at_main) {
            Some(i) => of(ai.known[i].0),
            None => self.clamp_pt(main.add(pt(60.0, -120.0))),
        }
    }

    // ---- effects -----------------------------------------------------------------------

    fn spray(&mut self, p: Pt, a: f32, s: f32, l: f32, b: &Burst) {
        self.particles.push(Particle {
            pos: p,
            vel: pt(a.cos() * s, a.sin() * s),
            life: l,
            max_life: l,
            size: b.size as f32 / 10.0,
            color: b.color,
            drag: b.drag as f32 / 10.0,
            grav: b.gravity as f32,
            glow: b.glow,
        });
    }

    fn trim(&mut self) {
        keep_last(&mut self.particles, PARTICLES_MAX);
    }

    fn emit(&mut self, p: Pt, b: &Burst) {
        for _ in 0..b.count {
            let a = self.fx_f() * TAU;
            let s = b.speed as f32 * (0.25 + 0.75 * self.fx_f());
            let l = b.life as f32 / 100.0 * (0.55 + 0.45 * self.fx_f());
            self.spray(p, a, s, l, b);
        }
        self.trim();
    }

    fn emit_cone(&mut self, p: Pt, dir: Pt, spread: f32, speed: f32, b: &Burst) {
        let base = dir.y.atan2(dir.x);
        for _ in 0..b.count {
            let a = base + (self.fx_f() - 0.5) * 2.0 * spread;
            let s = speed * (0.45 + 0.55 * self.fx_f());
            let l = b.life as f32 / 100.0 * (0.6 + 0.5 * self.fx_f());
            let jx = (self.fx_f() - 0.5) * 5.0;
            let jy = (self.fx_f() - 0.5) * 5.0;
            self.spray(p.add(pt(jx, jy)), a, s, l, b);
        }
        self.trim();
    }

    fn flame_fx(&mut self, nozzle: Pt, dir: Pt, reach: f32) {
        let v = reach * 5.0;
        let spread = 0.40;
        let (white, yellow, orange) = (rgb(255, 245, 205), rgb(255, 208, 90), rgb(255, 125, 38));
        let (red, smoke) = (rgb(206, 52, 28), rgb(62, 56, 58));
        self.emit_cone(nozzle, dir, spread * 0.55, v * 0.9, &burst(white, 3, 0, 22, 10, 0, 75, true));
        self.emit_cone(nozzle, dir, spread, v * 0.95, &burst(yellow, 4, 0, 27, 16, -12, 50, true));
        self.emit_cone(nozzle, dir, spread, v * 0.85, &burst(orange, 5, 0, 31, 24, -20, 42, true));
        self.emit_cone(nozzle, dir, spread * 1.2, v * 0.7, &burst(red, 3, 0, 27, 34, -28, 34, true));
        self.emit_cone(nozzle, dir, spread * 1.35, v * 0.5, &burst(smoke, 2, 0, 36, 55, -42, 24, false));
        if self.fx_f() < 0.4 {
            self.emit_cone(nozzle, dir, spread, v * 1.15, &burst(yellow, 1, 0, 16, 50, 130, 15, true));
        }
    }

    fn add_shake(&mut self, amt: f32) {
        self.shake = val(shaken(num(self.shake + amt)));
    }

    /// How much of a blast the view registers: all of it on the screen, nothing a screen away.
    fn view_gain(&self, p: Pt) -> f32 {
        let dx = (p.x - (self.cam.x + self.view_w * 0.5)).abs() - self.view_w * 0.5;
        let dy = (p.y - (self.cam.y + self.view_h * 0.5)).abs() - self.view_h * 0.5;
        let outside = dx.max(0.0).max(dy.max(0.0));
        (1.0 - outside / 420.0).clamp(0.0, 1.0)
    }

    fn shock(&mut self, p: Pt, w: &Wave) {
        let life = w.life as f32 / 100.0;
        let max_r = w.radius as f32 * (w.share as f32 / 100.0);
        self.shocks.push(Shock { pos: p, max_r, life, max_life: life, color: w.color });
        keep_last(&mut self.shocks, WAVES_MAX);
    }

    fn flash(&mut self, amt: f32, color: u32) {
        if amt > self.flash_amt {
            self.flash_amt = amt;
            self.flash_color = color;
        }
    }

    fn death_fx(&mut self, p: Pt, kind: Kind, team: Team) {
        let blast = self.w.show_death(at(p), kind, team);
        let g = self.view_gain(p);
        for b in &blast.bursts {
            self.emit(p, b);
        }
        for w in &blast.waves {
            self.shock(p, w);
        }
        if let Some((share, color)) = blast.flash {
            self.flash(share as f32 / 100.0 * g, color);
        }
        if blast.shake > 0 {
            self.add_shake(blast.shake as f32 / 10.0 * g);
        }
    }

    fn update_particles(&mut self, dt: f32) {
        for p in self.particles.iter_mut() {
            let d = (1.0 - p.drag * dt).max(0.0);
            p.vel = p.vel.scale(d);
            p.vel.y += p.grav * dt;
            p.pos = p.pos.add(p.vel.scale(dt));
            p.life -= dt;
        }
        self.particles.retain(|p| p.life > 0.0);
        for s in self.shocks.iter_mut() {
            s.life -= dt;
        }
        self.shocks.retain(|s| s.life > 0.0);
        self.flash_amt = (self.flash_amt - dt * 3.0).max(0.0);
        if self.shake > 0.05 {
            self.shake = (self.shake - dt * 22.0).max(0.0);
            let a = self.fx_f() * TAU;
            self.shake_off = pt(a.cos(), a.sin()).scale(self.shake);
        } else {
            self.shake = 0.0;
            self.shake_off = pt(0.0, 0.0);
        }
    }
}

const STEP: f32 = 1.0 / 60.0;

fn a_player_worker(g: &Game) -> usize {
    g.w.ents
        .iter()
        .position(|e| e.team == Team::Player && e.kind == Kind::Worker)
        .expect("player should start with workers")
}

fn spawn(g: &mut Game, kind: Kind, team: Team, p: Pt) -> usize {
    g.w.spawn(kind, team, at(p))
}

fn run(g: &mut Game, ticks: usize) {
    for _ in 0..ticks {
        g.update(STEP);
    }
}

#[test]
fn det_trig_tracks_std_within_tolerance() {
    let mut x = -30.0f32;
    while x < 30.0 {
        let (s, c) = (det_sin(x), det_cos(x));
        assert!((s - x.sin()).abs() < 1e-3, "det_sin({x}) = {s} vs {}", x.sin());
        assert!((c - x.cos()).abs() < 1e-3, "det_cos({x}) = {c} vs {}", x.cos());
        x += 0.0137;
    }
}

#[test]
fn defeat_when_the_last_building_falls() {
    let mut g = Game::new(2);
    spawn(&mut g, Kind::Barracks, Team::Player, pt(700.0, 1000.0));
    for e in g.w.ents.iter_mut() {
        if e.team == Team::Player && e.kind == Kind::Base {
            e.hp = num(-1.0);
        }
    }
    g.update(STEP);
    assert!(g.w.faction_alive(Team::Player), "a standing Barracks keeps you in");
    assert_eq!(g.w.over, 0, "losing only the CC must not be a defeat");
    for e in g.w.ents.iter_mut() {
        if e.team == Team::Player && e.kind == Kind::Barracks {
            e.hp = num(-1.0);
        }
    }
    g.update(STEP);
    assert!(
        g.w.ents.iter().any(|e| e.team == Team::Player && e.kind == Kind::Worker),
        "workers are still alive on the map"
    );
    assert!(!g.w.faction_alive(Team::Player));
    assert_eq!(g.w.over, -1, "no buildings left = defeat, even with units alive");
}

#[test]
fn train_presses_balance_across_selected_buildings() {
    let mut g = Game::new(2);
    let mut ids = Vec::new();
    for k in 0..3 {
        let b = spawn(&mut g, Kind::Barracks, Team::Player, pt(600.0 + k as f32 * 120.0, 1000.0));
        g.w.ents[b].selected = true;
        ids.push(g.w.ents[b].id);
    }
    for _ in 0..6 {
        let id = g.w.least_loaded_selected(Kind::Barracks).expect("a ready barracks");
        let bi = g.w.index_of(id).unwrap();
        g.w.ents[bi].queue.push(Kind::Soldier);
    }
    for &id in &ids {
        assert_eq!(
            g.w.ents[g.w.index_of(id).unwrap()].queue.len(),
            2,
            "the six units should spread two-per-barracks"
        );
    }
    let other = spawn(&mut g, Kind::Barracks, Team::Player, pt(2200.0, 300.0));
    let _ = other;
    let id = g.w.least_loaded_selected(Kind::Barracks).unwrap();
    assert!(ids.contains(&id), "only selected buildings receive trained units");
}

#[test]
fn ctrl_click_chains_multiple_builds() {
    let mut g = Game::new(2);
    g.flatten_terrain();
    g.w.minerals[0] = 99_999;
    let wi = a_player_worker(&g);
    g.w.ents[wi].pos = at(pt(1000.0, 500.0));
    let sites = [pt(1000.0, 500.0), pt(1000.0, 680.0), pt(1000.0, 860.0)];
    assert!(g.order_build(wi, Kind::Depot, sites[0]), "site 0 is buildable");
    assert!(g.queue_build(wi, Kind::Depot, sites[1]), "site 1 is buildable");
    assert!(g.queue_build(wi, Kind::Depot, sites[2]), "site 2 is buildable");
    assert_eq!(g.w.ents[wi].build_queue.len(), 2, "two builds queued behind the first");
    assert!(!g.queue_build(wi, Kind::Depot, sites[0].add(pt(10.0, 0.0))), "overlap rejected");
    for &s in &sites {
        g.w.ents[wi].pos = at(s);
        g.update(STEP);
    }
    let depots = g.w.ents.iter().filter(|e| e.team == Team::Player && e.kind == Kind::Depot).count();
    assert_eq!(depots, 3, "all three chained buildings should rise");
    assert!(
        !matches!(g.w.ents[wi].order, Order::Build(_, _)),
        "the worker is freed once the chain is done"
    );
}

#[test]
fn build_chain_is_robust_to_clicking_away() {
    let mut g = Game::new(2);
    g.flatten_terrain();
    g.w.minerals[0] = 9999;
    let wi = a_player_worker(&g);
    g.w.ents[wi].pos = at(pt(1000.0, 500.0));
    let wid = g.w.ents[wi].id;
    let s0 = pt(1000.0, 500.0);
    let s1 = pt(1000.0, 680.0);
    let m0 = g.w.minerals[0];
    g.apply_cmd(
        Team::Player,
        &Cmd::Build { worker: wid, kind: Kind::Depot, x: num(s0.x), y: num(s0.y), chain: true },
    );
    g.apply_cmd(
        Team::Player,
        &Cmd::Build { worker: wid, kind: Kind::Depot, x: num(s1.x), y: num(s1.y), chain: false },
    );
    assert!(matches!(g.w.ents[wi].order, Order::Build(_, _)), "worker started building");
    assert_eq!(g.w.ents[wi].build_queue.len(), 1, "a plain placement appends, never clears");
    g.apply_order(Team::Player, &[wid], pt(1500.0, 500.0), false, false);
    assert!(matches!(g.w.ents[wi].order, Order::Move(_)), "worker takes the move order");
    assert!(g.w.ents[wi].build_queue.is_empty(), "build chain dropped");
    assert_eq!(g.w.minerals[0], m0, "both unbuilt depots refunded");
}

#[test]
fn double_click_building_selects_the_nearby_cluster() {
    let mut g = Game::new(2);
    g.w.clear_selection();
    let b0 = spawn(&mut g, Kind::Barracks, Team::Player, pt(600.0, 1000.0));
    let b1 = spawn(&mut g, Kind::Barracks, Team::Player, pt(700.0, 1050.0));
    let b2 = spawn(&mut g, Kind::Barracks, Team::Player, pt(620.0, 1120.0));
    let far = spawn(&mut g, Kind::Barracks, Team::Player, pt(2200.0, 300.0));
    let p = g.pos(b0);
    let edge = pt(g.world_w, g.world_h);
    g.select_type_in_view(p, pt(0.0, 0.0), edge, false);
    assert!(
        g.w.ents[b0].selected && g.w.ents[b1].selected && g.w.ents[b2].selected,
        "double-clicking a building grabs the nearby same-kind cluster"
    );
    assert!(!g.w.ents[far].selected, "a distant building is not part of the cluster");
}

#[test]
fn human_start_corner_is_not_fixed() {
    let mut quadrants: Vec<(u8, u8)> = Vec::new();
    for s in 0..24u64 {
        let g = Game::new_match(
            s.wrapping_mul(2654435761).wrapping_add(1),
            4,
            [false, true, true, true],
            Team::Player,
            false,
        );
        let bp = g.pos(g.w.first_base(Team::Player).unwrap());
        let q = ((bp.x > g.world_w * 0.5) as u8, (bp.y > g.world_h * 0.5) as u8);
        if !quadrants.contains(&q) {
            quadrants.push(q);
        }
    }
    assert!(
        quadrants.len() >= 3,
        "human start corner barely varies ({} of 4 quadrants seen)",
        quadrants.len()
    );
}

#[test]
fn forgiving_click_grabs_a_nearby_worker() {
    let mut g = Game::new(1);
    let wi = a_player_worker(&g);
    let p = g.pos(wi);
    g.select_single(p.add(pt(6.0, 0.0)), false);
    assert!(g.w.ents.iter().any(|e| e.selected && e.kind == Kind::Worker));
}

#[test]
fn empty_click_clears_selection() {
    let mut g = Game::new(1);
    g.select_box(pt(0.0, 0.0), pt(WORLD_W, WORLD_H), false);
    assert!(!g.w.selected_ids().is_empty());
    g.select_single(pt(WORLD_W - 5.0, 5.0), false);
    assert!(g.w.selected_ids().is_empty());
}

#[test]
fn control_group_roundtrip() {
    let mut g = Game::new(1);
    g.select_box(pt(0.0, 0.0), pt(WORLD_W, WORLD_H), false);
    let ids = g.w.selected_ids();
    assert!(ids.len() >= 4, "starting workers should be selectable");
    g.w.clear_selection();
    assert!(g.w.selected_ids().is_empty());
    g.w.select_ids(&ids, false);
    assert_eq!(g.w.selected_ids().len(), ids.len());
    assert!(g.centroid_of_ids(&ids).is_some());
}

#[test]
fn double_click_selects_all_of_type_in_view() {
    let mut g = Game::new(1);
    let wi = a_player_worker(&g);
    let p = g.pos(wi);
    g.select_type_in_view(p, pt(0.0, 0.0), pt(WORLD_W, WORLD_H), false);
    let workers = g.w.ents.iter().filter(|e| e.team == Team::Player && e.kind == Kind::Worker).count();
    let selected = g.w.ents.iter().filter(|e| e.selected).count();
    assert_eq!(selected, workers);
    assert!(g.w.ents.iter().all(|e| !(e.selected && e.kind == Kind::Base)));
}

#[test]
fn attack_move_command_moves_unit() {
    let mut g = Game::new(7);
    let s = spawn(&mut g, Kind::Soldier, Team::Player, pt(400.0, 1100.0));
    g.w.ents[s].selected = true;
    let start_x = g.pos(s).x;
    g.command(pt(900.0, 1100.0), true);
    run(&mut g, 120);
    let sx = of(g.w.ents.iter().find(|e| e.kind == Kind::Soldier).unwrap().pos).x;
    assert!(sx > start_x + 50.0, "attack-move did not move the soldier (x {sx})");
}

#[test]
fn soldier_honors_spawn_rally() {
    let mut g = Game::new(7);
    let b = spawn(&mut g, Kind::Barracks, Team::Player, pt(400.0, 1100.0));
    g.w.ents[b].rally = at(pt(900.0, 1100.0));
    g.w.minerals[0] = 999;
    assert!(g.w.try_train(b, Kind::Soldier));
    run(&mut g, 60 * 9);
    let s = g
        .w
        .ents
        .iter()
        .find(|e| e.team == Team::Player && e.kind == Kind::Soldier)
        .expect("a soldier should have been produced");
    assert!(of(s.pos).x > 600.0, "soldier ignored its rally (x {})", of(s.pos).x);
}

#[test]
fn ffa_four_factions_all_spawn() {
    let g = Game::new_match(99, 4, [true, true, true, true], Team::Player, false);
    for fi in 0..4 {
        assert!(g.w.faction_alive(Team::from_idx(fi)), "faction {fi} should have a base");
    }
    assert_eq!(g.w.factions, 4);
    assert!(g.world_w > WORLD_W);
}

#[test]
fn ffa_is_deterministic() {
    let cfg = |s| Game::new_match(s, 4, [true, true, true, true], Team::Player, false);
    let (mut a, mut b) = (cfg(5), cfg(5));
    for _ in 0..600 {
        a.update(STEP);
        b.update(STEP);
    }
    assert_eq!(a.w.checksum(), b.w.checksum(), "same seed must produce identical sims");
}

#[test]
fn the_match_is_the_same_whoever_watches() {
    let cfg = |me| Game::new_match(9, 3, [false, true, false, false], me, true);
    let mut views = [cfg(Team::Player), cfg(Team::Enemy), cfg(Team::Faction2)];
    views[1].view_w = 300.0;
    views[2].cam = pt(500.0, 500.0);
    for step in 0..900 {
        for g in views.iter_mut() {
            if step == 30 {
                let base = g.w.ents[g.w.first_base(Team::Faction2).unwrap()].id;
                let ids: Vec<u32> =
                    g.w.ents.iter().filter(|e| e.team == Team::Player && e.kind == Kind::Worker).map(|e| e.id).collect();
                g.apply_cmd(Team::Faction2, &Cmd::Train { building: base, unit: Kind::Worker });
                g.apply_order(Team::Player, &ids, pt(900.0, 700.0), true, false);
                g.apply_order(Team::Enemy, &ids, pt(0.0, 0.0), false, false);
            }
            g.select_box(pt(0.0, 0.0), pt(WORLD_W, WORLD_H), false);
            g.update(STEP);
        }
        let h = views[0].w.checksum();
        assert!(views.iter().all(|g| g.w.checksum() == h), "apart at step {step}");
    }
}

#[test]
fn orders_leave_everyone_else_alone() {
    let mut g = Game::new(4);
    let ids: Vec<u32> = g.w.ents.iter().map(|e| e.id).collect();
    let mine = ids.clone();
    let before: Vec<(u32, Order, Pt, u32)> =
        g.w.ents.iter().map(|e| (e.id, e.order, of(e.pos), e.hp.bits)).collect();
    let teams: Vec<Team> = g.w.ents.iter().map(|e| e.team).collect();
    let (bank, rng) = (g.w.minerals, g.w.rng);
    g.apply_order(Team::Player, &mine, pt(900.0, 700.0), false, false);
    assert_eq!(g.w.ents.len(), before.len());
    for (i, e) in g.w.ents.iter().enumerate() {
        let p = of(e.pos);
        assert_eq!((e.id, p.x, p.y, e.hp.bits), (before[i].0, before[i].2.x, before[i].2.y, before[i].3));
        if teams[i] != Team::Player {
            assert_eq!(e.order, before[i].1);
        }
    }
    assert_eq!((g.w.minerals, g.w.rng), (bank, rng));
}

#[test]
fn ffa_resolves_to_one_winner() {
    let mut g = Game::new_match(3, 4, [true, true, true, true], Team::Player, true);
    let mut ended = false;
    for _ in 0..(60 * 360) {
        g.update(STEP);
        if g.w.match_over {
            ended = true;
            break;
        }
    }
    if ended {
        let alive = (0..4).filter(|&fi| g.w.faction_alive(Team::from_idx(fi))).count();
        assert!(alive <= 1, "match ended with {alive} factions alive");
    }
}

#[test]
fn path_routes_around_buildings() {
    let mut g = Game::new(7);
    g.flatten_terrain();
    let u = spawn(&mut g, Kind::Worker, Team::Player, pt(400.0, 600.0));
    let uid = g.w.ents[u].id;
    let goal = pt(1200.0, 600.0);
    for k in 0..7 {
        spawn(&mut g, Kind::Depot, Team::Player, pt(800.0, 400.0 + k as f32 * 60.0));
    }
    g.w.ents[u].order = Order::Move(at(goal));
    run(&mut g, 60 * 20);
    let p = g.pos(g.w.index_of(uid).unwrap());
    assert!(p.x > 1050.0, "unit should path past the building wall (x {})", p.x);
}

#[test]
fn units_route_around_a_ridge_near_the_goal() {
    let mut g = Game::new(7);
    g.flatten_terrain();
    let tw = g.grid.tw;
    for ty in 6..=12 {
        g.grid.terrain[ty * tw + 13] = T_CLIFF;
    }
    g.has_cliffs = true;
    let s = spawn(&mut g, Kind::Soldier, Team::Player, pt(770.0, 540.0));
    let sid = g.w.ents[s].id;
    let goal = pt(850.0, 540.0);
    g.w.ents[s].order = Order::Move(at(goal));
    run(&mut g, 60 * 25);
    let p = g.pos(g.w.index_of(sid).unwrap());
    assert!(p.dist(goal) < 36.0, "unit should round the ridge to the goal (at {p:?})");
}

#[test]
fn worker_repairs_a_damaged_building() {
    let mut g = Game::new(2);
    g.flatten_terrain();
    g.w.minerals[0] = 9999;
    let bp = g.pos(g.w.first_base(Team::Player).unwrap());
    let b = spawn(&mut g, Kind::Barracks, Team::Player, bp.add(pt(160.0, 0.0)));
    let hurt = val(g.w.ents[b].max_hp) * 0.4;
    g.w.ents[b].hp = num(hurt);
    let bid = g.w.ents[b].id;
    let wi = a_player_worker(&g);
    let spot = g.pos(b).add(pt(50.0, 0.0));
    g.w.ents[wi].pos = at(spot);
    let wid = g.w.ents[wi].id;
    for e in g.w.ents.iter_mut() {
        if e.team == Team::Player && e.kind == Kind::Worker && e.id != wid {
            e.hp = num(-1.0);
        }
    }
    let bpos = g.pos(b);
    g.apply_order(Team::Player, &[wid], bpos, false, false);
    assert!(matches!(g.w.ents[wi].order, Order::Repair(_)), "worker takes a repair order");
    let min0 = g.w.minerals[0];
    run(&mut g, 60 * 6);
    let hp = val(g.w.ents[g.w.index_of(bid).unwrap()].hp);
    assert!(hp > hurt + 60.0, "building should be repaired (hp {})", hp);
    assert!(g.w.minerals[0] < min0, "repair should cost minerals");
}

#[test]
fn worker_can_melee_an_enemy() {
    let mut g = Game::new(2);
    g.flatten_terrain();
    let wi = a_player_worker(&g);
    let wp = g.pos(wi);
    let e = spawn(&mut g, Kind::Soldier, Team::Enemy, wp.add(pt(22.0, 0.0)));
    let eid = g.w.ents[e].id;
    let hp0 = val(g.w.ents[e].hp);
    let wid = g.w.ents[wi].id;
    let ep = g.pos(e);
    g.apply_order(Team::Player, &[wid], ep, false, false);
    assert!(matches!(g.w.ents[wi].order, Order::Attack(_)), "worker takes an attack order");
    run(&mut g, 60 * 3);
    let damaged = g.w.index_of(eid).map_or(true, |j| val(g.w.ents[j].hp) < hp0);
    assert!(damaged, "a worker's melee should hurt the enemy");
}

#[test]
fn shift_queues_unit_waypoints() {
    let mut g = Game::new(2);
    g.flatten_terrain();
    let s = spawn(&mut g, Kind::Soldier, Team::Player, pt(900.0, 500.0));
    let sid = g.w.ents[s].id;
    g.apply_order(Team::Player, &[sid], pt(1200.0, 500.0), false, false);
    g.apply_order(Team::Player, &[sid], pt(1200.0, 900.0), false, true);
    assert_eq!(g.w.ents[s].order_queue.len(), 1, "the second order should queue");
    for _ in 0..(60 * 30) {
        g.update(STEP);
        if g.pos(g.w.index_of(sid).unwrap()).dist(pt(1200.0, 900.0)) < 20.0 {
            break;
        }
    }
    let p = g.pos(g.w.index_of(sid).unwrap());
    assert!(p.dist(pt(1200.0, 900.0)) < 32.0, "unit should reach the queued waypoint (at {p:?})");
}

#[test]
fn ai_rebuilds_after_losing_its_command_center() {
    let mut g = Game::new_match(5, 2, [false, true, false, false], Team::Player, true);
    g.flatten_terrain();
    let ei = g.w.ents.iter().position(|e| e.team == Team::Enemy && e.kind == Kind::Base).unwrap();
    let ep = g.pos(ei);
    spawn(&mut g, Kind::Barracks, Team::Enemy, ep.add(pt(150.0, 0.0)));
    g.w.minerals[Team::Enemy.idx()] = 9999;
    for e in g.w.ents.iter_mut() {
        if e.team == Team::Enemy && e.kind == Kind::Base {
            e.hp = num(-1.0);
        }
    }
    let mut rebuilt = false;
    for _ in 0..(60 * 45) {
        g.update(STEP);
        if g.w.ents.iter().any(|e| e.team == Team::Enemy && e.kind == Kind::Base) {
            rebuilt = true;
            break;
        }
    }
    assert!(rebuilt, "AI should rebuild a Command Center after losing it");
}

#[test]
fn units_step_through_a_gap_in_a_building_wall() {
    let mut g = Game::new(7);
    g.flatten_terrain();
    for &y in &[360.0, 420.0, 480.0, 600.0, 660.0, 720.0] {
        spawn(&mut g, Kind::Depot, Team::Player, pt(800.0, y));
    }
    g.update(STEP);
    let from = pt(560.0, 570.0);
    let to = pt(1040.0, 570.0);
    let path = g.find_path(from, to).expect("a path to the far side");
    let mut len = from.dist(path[0]);
    for k in 1..path.len() {
        len += path[k - 1].dist(path[k]);
    }
    assert!(len < 640.0, "unit should step through the gap (path len {len:.0})");
}

#[test]
fn units_route_around_mineral_fields() {
    let mut g = Game::new(7);
    g.flatten_terrain();
    for k in 0..6 {
        let m = spawn(&mut g, Kind::Mineral, Team::Neutral, pt(800.0, 420.0 + k as f32 * 50.0));
        g.w.ents[m].minerals = 1000;
    }
    let u = spawn(&mut g, Kind::Soldier, Team::Player, pt(500.0, 600.0));
    let uid = g.w.ents[u].id;
    g.w.ents[u].order = Order::Move(at(pt(1150.0, 600.0)));
    run(&mut g, 60 * 20);
    let p = g.pos(g.w.index_of(uid).unwrap());
    assert!(p.x > 1050.0, "unit should route past the mineral field (x {})", p.x);
}

#[test]
fn base_rally_sends_worker_to_point() {
    let mut g = Game::new(7);
    g.flatten_terrain();
    let base = g.w.first_base(Team::Player).unwrap();
    let p = g.pos(base).add(pt(260.0, -90.0));
    g.w.ents[base].rally = at(p);
    g.w.ents[base].rally_set = true;
    g.w.minerals[0] = 999;
    assert!(g.w.try_train(base, Kind::Worker));
    run(&mut g, 60 * 12);
    let near = g
        .w
        .ents
        .iter()
        .any(|e| e.team == Team::Player && e.kind == Kind::Worker && of(e.pos).dist(p) < 60.0);
    assert!(near, "a rallied worker should walk to the rally point, not mine");
}

#[test]
fn depot_raises_supply_cap() {
    let mut g = Game::new(7);
    assert_eq!(g.w.supply_cap(Team::Player), 11);
    let d = spawn(&mut g, Kind::Depot, Team::Player, pt(600.0, 1200.0));
    g.w.ents[d].build_left = num(0.0);
    assert_eq!(g.w.supply_cap(Team::Player), 19);
}

#[test]
fn supply_blocks_overtraining() {
    let mut g = Game::new(7);
    g.w.minerals[0] = 100_000;
    let base = g.w.first_base(Team::Player).unwrap();
    let mut trained = 0;
    for _ in 0..50 {
        if g.w.try_train(base, Kind::Worker) {
            trained += 1;
        }
    }
    assert!(trained <= 7, "overtrained past the cap ({trained})");
    assert!(trained >= 1);
}

#[test]
fn tank_splash_hits_multiple() {
    let mut g = Game::new(7);
    spawn(&mut g, Kind::Tank, Team::Player, pt(400.0, 1100.0));
    for k in 0..3 {
        spawn(&mut g, Kind::Soldier, Team::Enemy, pt(480.0, 1090.0 + k as f32 * 10.0));
    }
    run(&mut g, 30);
    let damaged = g
        .w
        .ents
        .iter()
        .filter(|e| e.team == Team::Enemy && e.kind == Kind::Soldier && val(e.hp) < val(e.max_hp))
        .count();
    assert!(damaged >= 2, "tank splash should hit several units ({damaged})");
}

#[test]
fn pyro_cone_burns_a_cluster() {
    let mut g = Game::new(7);
    let p = spawn(&mut g, Kind::Pyro, Team::Player, pt(400.0, 1100.0));
    g.w.ents[p].facing = at(pt(1.0, 0.0));
    for k in 0..4 {
        spawn(&mut g, Kind::Soldier, Team::Enemy, pt(452.0, 1085.0 + k as f32 * 10.0));
    }
    let far = spawn(&mut g, Kind::Soldier, Team::Enemy, pt(900.0, 1100.0));
    run(&mut g, 40);
    let burned = g
        .w
        .ents
        .iter()
        .filter(|e| {
            e.team == Team::Enemy && e.kind == Kind::Soldier && of(e.pos).x < 700.0 && val(e.hp) < val(e.max_hp)
        })
        .count();
    assert!(burned >= 2, "flame cone should hit the whole cluster ({burned})");
    let far_e = g.w.ents.iter().find(|e| e.id == g.w.ents[far].id).unwrap();
    assert_eq!(val(far_e.hp), val(far_e.max_hp), "the distant unit should be out of flame range");
}

#[test]
fn mortar_shells_from_range_with_a_point_blank_dead_zone() {
    let mut g = Game::new_match(2, 2, [false, false, false, false], Team::Player, true);
    g.flatten_terrain();
    spawn(&mut g, Kind::Mortar, Team::Player, pt(900.0, 900.0));
    let far = spawn(&mut g, Kind::Worker, Team::Enemy, pt(1050.0, 900.0));
    let fid = g.w.ents[far].id;
    let far_hp = val(g.w.ents[far].hp);
    run(&mut g, 60 * 2);
    let hit = g.w.index_of(fid).map_or(true, |j| val(g.w.ents[j].hp) < far_hp);
    assert!(hit, "mortar should shell a target in its firing band");

    let mut g2 = Game::new_match(2, 2, [false, false, false, false], Team::Player, true);
    g2.flatten_terrain();
    spawn(&mut g2, Kind::Mortar, Team::Player, pt(900.0, 900.0));
    let near = spawn(&mut g2, Kind::Worker, Team::Enemy, pt(940.0, 900.0));
    let nid = g2.w.ents[near].id;
    let near_hp = val(g2.w.ents[near].hp);
    run(&mut g2, 12);
    assert_eq!(
        val(g2.w.ents[g2.w.index_of(nid).unwrap()].hp),
        near_hp,
        "mortar must not fire into its point-blank dead zone"
    );
}

#[test]
fn sapper_detonates_on_contact_and_dies() {
    let mut g = Game::new_match(2, 2, [false, false, false, false], Team::Player, true);
    g.flatten_terrain();
    let s = spawn(&mut g, Kind::Sapper, Team::Player, pt(900.0, 900.0));
    let sid = g.w.ents[s].id;
    let mut eids = Vec::new();
    for off in [pt(20.0, 0.0), pt(34.0, 12.0), pt(8.0, 30.0)] {
        let e = spawn(&mut g, Kind::Soldier, Team::Enemy, pt(900.0, 900.0).add(off));
        eids.push((g.w.ents[e].id, val(g.w.ents[e].hp)));
    }
    run(&mut g, 30);
    assert!(g.w.index_of(sid).is_none(), "the sapper should die in its own blast");
    let hurt = eids.iter().any(|&(id, hp0)| g.w.index_of(id).map_or(true, |j| val(g.w.ents[j].hp) < hp0));
    assert!(hurt, "the blast should damage the clustered enemies");
}

#[test]
fn minimap_attack_snaps_to_enemy() {
    let mut g = Game::new(7);
    let s = spawn(&mut g, Kind::Soldier, Team::Player, pt(400.0, 1100.0));
    g.w.ents[s].selected = true;
    let e = spawn(&mut g, Kind::Soldier, Team::Enemy, pt(1500.0, 400.0));
    let (epos, eid) = (g.pos(e), g.w.ents[e].id);
    let clicked = epos.add(pt(60.0, 60.0));
    let snapped = g.snap_to_enemy(clicked, 130.0).expect("should snap onto the enemy");
    assert!(snapped.dist(epos) < 1.0);
    g.command(snapped, false);
    assert!(
        matches!(g.w.ents[s].order, Order::Attack(t) if t == eid),
        "minimap click near an enemy should issue an attack"
    );
}

#[test]
fn move_command_overrides_combat() {
    let mut g = Game::new(7);
    g.flatten_terrain();
    let si = spawn(&mut g, Kind::Soldier, Team::Player, pt(500.0, 500.0));
    let sid = g.w.ents[si].id;
    spawn(&mut g, Kind::Soldier, Team::Enemy, pt(560.0, 500.0));
    g.w.ents[si].selected = true;
    g.update(STEP);
    g.command(pt(500.0, 1300.0), false);
    let y0 = g.pos(g.w.index_of(sid).unwrap()).y;
    run(&mut g, 90);
    let moved = g.w.index_of(sid).map_or(false, |i| g.pos(i).y > y0 + 60.0);
    assert!(moved, "a Move order must override an active attack");
}

#[test]
fn right_click_cancels_queued_unit() {
    let mut g = Game::new(7);
    let b = spawn(&mut g, Kind::Barracks, Team::Player, pt(500.0, 1100.0));
    g.w.ents[b].selected = true;
    g.w.minerals[0] = 1000;
    assert!(g.w.try_train(b, Kind::Soldier));
    assert!(g.w.try_train(b, Kind::Soldier));
    assert_eq!(g.w.ents[b].queue.len(), 2);
    let min_before = g.w.minerals[0];
    let bpos = g.pos(b);
    g.command(bpos, false);
    assert_eq!(g.w.ents[b].queue.len(), 1, "one queued unit should be cancelled");
    assert_eq!(g.w.minerals[0], min_before + cost(Kind::Soldier), "the cost should be refunded");
}

#[test]
fn fog_reveals_own_area_hides_enemy() {
    let mut g = Game::new(7);
    g.update(STEP);
    let ppos = g.pos(g.w.first_base(Team::Player).unwrap());
    let epos = g.pos(g.w.first_base(Team::Enemy).unwrap());
    assert_eq!(g.vis_at(ppos), 2, "your own base should be visible");
    assert_eq!(g.vis_at(epos), 0, "the enemy base should start hidden in fog");
}

#[test]
fn death_emits_particles() {
    let mut g = Game::new(7);
    let id = spawn(&mut g, Kind::Soldier, Team::Enemy, pt(500.0, 500.0));
    g.w.ents[id].hp = num(-1.0);
    assert!(g.particles.is_empty());
    g.update(STEP);
    assert!(!g.particles.is_empty(), "a death should throw particles");
}

#[test]
fn economy_actually_accrues() {
    let mut g = Game::new(1);
    let start = g.w.minerals[0];
    run(&mut g, 60 * 30);
    assert!(g.w.minerals[0] > start, "auto-mining workers should earn minerals");
}

#[test]
fn workers_mine_at_full_throughput() {
    let mut g = Game::new(1);
    let start = g.w.minerals[0];
    run(&mut g, 60 * 30);
    let gained = g.w.minerals[0] - start;
    assert!(gained >= 250, "starting workers should mine freely, only gained {gained} in 30s");
}

#[test]
fn starting_workers_fan_out_across_patches() {
    let g = Game::new(1);
    let mut targets: Vec<u32> = g
        .w
        .ents
        .iter()
        .filter(|e| e.kind == Kind::Worker && e.team == Team::Player)
        .filter_map(|e| match e.order {
            Order::Gather(id) => Some(id),
            _ => None,
        })
        .collect();
    let workers = targets.len();
    targets.sort_unstable();
    targets.dedup();
    assert_eq!(workers, 4, "four starting workers expected");
    assert!(
        targets.len() >= 3,
        "workers should fan out, but only {} distinct patches targeted",
        targets.len()
    );
}

#[test]
fn ctrl_a_selects_army_but_not_workers() {
    let mut g = Game::new(2);
    let bp = g.pos(g.w.first_base(Team::Player).unwrap());
    let s = spawn(&mut g, Kind::Soldier, Team::Player, bp.add(pt(60.0, 0.0)));
    let t = spawn(&mut g, Kind::Tank, Team::Player, bp.add(pt(90.0, 0.0)));
    g.w.select_all_army(false);
    assert!(g.w.ents[s].selected, "soldiers should join the army selection");
    assert!(g.w.ents[t].selected, "tanks should join the army selection");
    assert!(
        g.w.ents.iter().all(|e| !(e.selected && e.kind == Kind::Worker)),
        "workers must be excluded from Ctrl+A"
    );
    assert!(
        g.w.ents.iter().all(|e| !(e.selected && e.team != Team::Player)),
        "Ctrl+A only grabs your own units"
    );
}

#[test]
fn every_match_starts_with_the_same_people_and_patches() {
    let g = Game::new_match(99, 4, [true, true, true, true], Team::Player, false);
    assert_eq!(g.w.minerals, [50, 50, 50, 50]);
    assert_eq!(g.w.ents.len(), 74);
    let count = |k: Kind| g.w.ents.iter().filter(|e| e.kind == k).count();
    assert_eq!((count(Kind::Base), count(Kind::Worker), count(Kind::Mineral)), (4, 16, 54));
    for fi in 0..4 {
        let t = Team::from_idx(fi);
        assert_eq!(g.w.ents.iter().filter(|e| e.team == t && e.kind == Kind::Worker).count(), 4);
        assert_eq!(g.w.ents.iter().filter(|e| e.team == t && e.kind == Kind::Base).count(), 1);
    }
    assert!(g.w.ents.iter().filter(|e| e.kind == Kind::Mineral).all(|e| e.minerals == 1500));
    assert!(g.w.ents.iter().filter(|e| e.kind == Kind::Worker).all(|e| matches!(e.order, Order::Gather(_))));
    for (n, all) in [(2, 30), (3, 52)] {
        assert_eq!(Game::new_match(7, n, [false; 4], Team::Player, false).w.ents.len(), all);
    }
}

#[test]
fn maps_grow_by_eighteen_hundredths() {
    for n in 0..=4usize {
        let s = 1.0 + 0.18 * (n.max(2) - 2) as f32;
        assert_eq!(Game::map_size(n), (2800.0 * s, 1800.0 * s));
    }
}

#[test]
fn corridors_between_starts_have_no_gaps() {
    for seed in 0..40u64 {
        let n = 2 + (seed % 3) as usize;
        let g = Game::new_match(seed, n, [true; 4], Team::Player, false);
        let bases: Vec<Pt> = (0..n).map(|f| g.pos(g.w.first_base(Team::from_idx(f)).unwrap())).collect();
        let hubs: Vec<(i32, i32)> = bases.iter().map(|&p| tile(p)).collect();
        let lines: Vec<Vec<(i32, i32)>> = bases.iter().map(|&p| corridor(bases[0], p)).collect();
        assert!(g.grid.lines_are_gapless(&hubs, &lines), "seed {seed}");
        for &a in &bases {
            for &b in &bases {
                let way = g.find_path(a, b).expect("every start reaches every other");
                assert_eq!(way.last(), Some(&b));
            }
        }
    }
}

#[test]
fn middles_of_tiles_are_exact() {
    for t in [(0, 0), (1, 2), (46, 29), (249_999, 131_071)] {
        assert_eq!(of(tile_middle(t)), tile_mid(t));
    }
}

#[test]
fn everyone_moves_and_nothing_else_changes() {
    let mut g = Game::new_match(3, 2, [false, true, false, false], Team::Player, false);
    for _ in 0..400 {
        g.update(STEP);
        let (w, h) = (g.world_w, g.world_h);
        for e in &g.w.ents {
            if is_mover(e.kind) {
                let (p, r) = (of(e.pos), radius(e.kind) as f32);
                assert!(p.x >= r && p.x <= w - r && p.y >= r && p.y <= h - r);
            }
        }
    }
    let before: Vec<(u32, Num, V2)> = g.w.ents.iter().map(|e| (e.id, e.hp, e.pos)).collect();
    let bank = g.w.minerals;
    g.movement(STEP);
    assert_eq!(g.w.minerals, bank);
    assert_eq!(g.w.ents.len(), before.len());
    for (e, b) in g.w.ents.iter().zip(&before) {
        assert_eq!((e.id, e.hp), (b.0, b.1));
        assert!(is_mover(e.kind) || e.pos == b.2);
    }
}
