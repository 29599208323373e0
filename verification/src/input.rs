//! What keys and clicks do during a match: which mode the interface is in, which commands
//! go out, and in which order the commands of a step are carried out.

use vstd::prelude::*;
use vstd::string::*;
use crate::cmd::{cmds_view, Cmd, CmdV};
use crate::hud::Mode;
use crate::kind::{is_army, Kind, Team};
use crate::menu::MenuAct;
use crate::num::{Num, V2};
use crate::screen::{mm_x, mm_y, spec_mm_x, spec_mm_y, HUD_H, MM_H, MM_W};
use crate::scene::near;
use crate::select::{less_loaded, one, trainer};
use crate::text::{decimal, push_decimal};
use crate::theme::{kind_name, name_of_kind};
use crate::world::{first_slot, lemma_first_slot_is, total, EntV, World, WorldV};

verus! {

/// The state of the interface.
#[derive(Clone, Copy, PartialEq, Eq, Structural, Debug)]
pub struct Ui {
    pub drag_start: Option<V2>,
    pub dragging: bool,
    /// The building that the next click places.
    pub build_mode: Option<Kind>,
    /// Whether the next click picks a point to attack.
    pub attack_pending: bool,
    pub show_help: bool,
    /// Whether the pause menu is open.
    pub menu: bool,
}

/// A key, as far as a match reads it.
#[derive(Clone, Copy, PartialEq, Eq, Structural, Debug)]
pub enum GameKey {
    Escape,
    Digit(usize),
    A,
    B,
    C,
    D,
    E,
    F,
    G,
    H,
    M,
    Q,
    R,
    S,
    T,
    V,
    W,
    Y,
    Other,
}

/// What a key leads to, beyond the state of the interface.
#[derive(Clone, Copy, PartialEq, Eq, Structural, Debug)]
pub enum KeyAct {
    Nothing,
    Surrender,
    ToMenu,
    Quit,
    /// A fresh match of the same size.
    Restart,
    /// The selection becomes a control group.
    SetGroup(usize),
    /// A control group becomes the selection.
    Recall(usize),
    SelectArmy,
    /// A selected building of a kind is to train a unit.
    Train(Kind, Kind),
    /// The player is told how to place a building.
    Placing(Kind),
    /// The player is told to select a worker.
    NeedWorker,
    Stop,
}

/// What the keys depend on: whether control is held, whether the match is over, whether it
/// is played over a network, and whether a worker, or anyone who can attack, is selected.
#[derive(Clone, Copy, PartialEq, Eq, Structural, Debug)]
pub struct KeyCtx {
    pub ctrl: bool,
    pub over: bool,
    pub online: bool,
    pub worker: bool,
    pub fighter: bool,
}

pub open spec fn unit_key(k: GameKey) -> Option<(Kind, Kind)> {
    match k {
        GameKey::W => Some((Kind::Base, Kind::Worker)),
        GameKey::E => Some((Kind::Barracks, Kind::Soldier)),
        GameKey::Y => Some((Kind::Barracks, Kind::Pyro)),
        GameKey::G => Some((Kind::Barracks, Kind::Sapper)),
        GameKey::T => Some((Kind::Factory, Kind::Tank)),
        GameKey::R => Some((Kind::Factory, Kind::Raider)),
        GameKey::V => Some((Kind::Factory, Kind::Mortar)),
        _ => None,
    }
}

pub open spec fn building_key(k: GameKey) -> Option<Kind> {
    match k {
        GameKey::B => Some(Kind::Barracks),
        GameKey::F => Some(Kind::Factory),
        GameKey::D => Some(Kind::Depot),
        GameKey::C => Some(Kind::Base),
        _ => None,
    }
}

impl Ui {
    /// What the next click is for.
    pub open spec fn mode(self) -> Mode {
        match self.build_mode {
            Some(k) => Mode::Place(k),
            None => if self.attack_pending {
                Mode::Attack
            } else {
                Mode::Free
            },
        }
    }

    /// Whether the next click is for something.
    pub open spec fn targeting(self) -> bool {
        self.build_mode is Some || self.attack_pending
    }

    pub open spec fn untargeted(self) -> Ui {
        Ui { build_mode: None, attack_pending: false, ..self }
    }

    /// While the pause menu is open, keys only serve it.
    pub open spec fn menu_key(self, k: GameKey) -> (Ui, KeyAct) {
        match k {
            GameKey::Escape => (Ui { menu: false, ..self }, KeyAct::Nothing),
            GameKey::G => (Ui { menu: false, ..self }, KeyAct::Surrender),
            GameKey::M => (self, KeyAct::ToMenu),
            GameKey::Q => (self, KeyAct::Quit),
            _ => (self, KeyAct::Nothing),
        }
    }

    /// After the match, keys serve the game-over screen.
    pub open spec fn over_key(self, k: GameKey, online: bool) -> (Ui, KeyAct) {
        match k {
            GameKey::R => if online {
                (self, KeyAct::Nothing)
            } else {
                (Ui { dragging: false, ..self.untargeted() }, KeyAct::Restart)
            },
            GameKey::M => (self, KeyAct::ToMenu),
            GameKey::Q => (self, KeyAct::Quit),
            _ => (self, KeyAct::Nothing),
        }
    }

    /// Keys during play.
    pub open spec fn play_key(self, k: GameKey, worker: bool, fighter: bool) -> (Ui, KeyAct) {
        match unit_key(k) {
            Some((b, u)) => (self, KeyAct::Train(b, u)),
            None => match building_key(k) {
                Some(b) => if worker {
                    (Ui { build_mode: Some(b), attack_pending: false, ..self }, KeyAct::Placing(b))
                } else {
                    (self, KeyAct::NeedWorker)
                },
                None => match k {
                    GameKey::A => if fighter {
                        (
                            Ui { attack_pending: true, build_mode: None, ..self },
                            KeyAct::Nothing,
                        )
                    } else {
                        (self, KeyAct::Nothing)
                    },
                    GameKey::S => (self, KeyAct::Stop),
                    GameKey::H => (Ui { show_help: !self.show_help, ..self }, KeyAct::Nothing),
                    GameKey::Escape => if self.targeting() {
                        (self.untargeted(), KeyAct::Nothing)
                    } else {
                        (Ui { menu: true, dragging: false, ..self }, KeyAct::Nothing)
                    },
                    _ => (self, KeyAct::Nothing),
                },
            },
        }
    }

    /// The interface after a key, and what the key leads to.
    pub open spec fn after(self, k: GameKey, c: KeyCtx) -> (Ui, KeyAct) {
        if self.menu {
            self.menu_key(k)
        } else if c.over {
            self.over_key(k, c.online)
        } else {
            match k {
                GameKey::Digit(n) => if n < 10 {
                    (
                        self,
                        if c.ctrl {
                            KeyAct::SetGroup(n)
                        } else {
                            KeyAct::Recall(n)
                        },
                    )
                } else {
                    (self, KeyAct::Nothing)
                },
                _ => if c.ctrl && k == GameKey::A {
                    (self, KeyAct::SelectArmy)
                } else {
                    self.play_key(k, c.worker, c.fighter)
                },
            }
        }
    }

    /// An idle interface.
    pub fn new() -> (u: Ui)
        ensures
            u == (Ui {
                drag_start: None,
                dragging: false,
                build_mode: None,
                attack_pending: false,
                show_help: false,
                menu: false,
            }),
    {
        Ui {
            drag_start: None,
            dragging: false,
            build_mode: None,
            attack_pending: false,
            show_help: false,
            menu: false,
        }
    }

    /// What the next click is for.
    pub fn current_mode(&self) -> (m: Mode)
        ensures
            m == self.mode(),
    {
        match self.build_mode {
            Some(k) => Mode::Place(k),
            None => if self.attack_pending {
                Mode::Attack
            } else {
                Mode::Free
            },
        }
    }

    /// Reads a key.
    pub fn key(&mut self, k: GameKey, c: &KeyCtx) -> (act: KeyAct)
        ensures
            (*final(self), act) == old(self).after(k, *c),
    {
        if self.menu {
            match k {
                GameKey::Escape => {
                    self.menu = false;
                    return KeyAct::Nothing;
                },
                GameKey::G => {
                    self.menu = false;
                    return KeyAct::Surrender;
                },
                GameKey::M => return KeyAct::ToMenu,
                GameKey::Q => return KeyAct::Quit,
                _ => return KeyAct::Nothing,
            }
        }
        if c.over {
            match k {
                GameKey::R => {
                    if c.online {
                        return KeyAct::Nothing;
                    }
                    self.build_mode = None;
                    self.attack_pending = false;
                    self.dragging = false;
                    return KeyAct::Restart;
                },
                GameKey::M => return KeyAct::ToMenu,
                GameKey::Q => return KeyAct::Quit,
                _ => return KeyAct::Nothing,
            }
        }
        if let GameKey::Digit(n) = k {
            if n >= 10 {
                return KeyAct::Nothing;
            }
            return if c.ctrl {
                KeyAct::SetGroup(n)
            } else {
                KeyAct::Recall(n)
            };
        }
        if c.ctrl && k == GameKey::A {
            return KeyAct::SelectArmy;
        }
        match k {
            GameKey::W => KeyAct::Train(Kind::Base, Kind::Worker),
            GameKey::E => KeyAct::Train(Kind::Barracks, Kind::Soldier),
            GameKey::Y => KeyAct::Train(Kind::Barracks, Kind::Pyro),
            GameKey::G => KeyAct::Train(Kind::Barracks, Kind::Sapper),
            GameKey::T => KeyAct::Train(Kind::Factory, Kind::Tank),
            GameKey::R => KeyAct::Train(Kind::Factory, Kind::Raider),
            GameKey::V => KeyAct::Train(Kind::Factory, Kind::Mortar),
            GameKey::B | GameKey::F | GameKey::D | GameKey::C => {
                let b = match k {
                    GameKey::B => Kind::Barracks,
                    GameKey::F => Kind::Factory,
                    GameKey::D => Kind::Depot,
                    _ => Kind::Base,
                };
                if c.worker {
                    self.build_mode = Some(b);
                    self.attack_pending = false;
                    KeyAct::Placing(b)
                } else {
                    KeyAct::NeedWorker
                }
            },
            GameKey::A => {
                if c.fighter {
                    self.attack_pending = true;
                    self.build_mode = None;
                }
                KeyAct::Nothing
            },
            GameKey::S => KeyAct::Stop,
            GameKey::H => {
                self.show_help = !self.show_help;
                KeyAct::Nothing
            },
            GameKey::Escape => {
                if self.build_mode.is_some() || self.attack_pending {
                    self.build_mode = None;
                    self.attack_pending = false;
                } else {
                    self.menu = true;
                    self.dragging = false;
                }
                KeyAct::Nothing
            },
            _ => KeyAct::Nothing,
        }
    }
}

impl Ui {
    /// The interface after a click on a button of the pause or game-over screen, and what the
    /// click leads to.
    pub open spec fn clicked(self, a: MenuAct, online: bool) -> (Ui, KeyAct) {
        match a {
            MenuAct::Resume => (Ui { menu: false, ..self }, KeyAct::Nothing),
            MenuAct::Surrender => (Ui { menu: false, ..self }, KeyAct::Surrender),
            MenuAct::Restart => if online {
                (self, KeyAct::Nothing)
            } else {
                (Ui { dragging: false, ..self.untargeted() }, KeyAct::Restart)
            },
            MenuAct::ToMenu => (self, KeyAct::ToMenu),
            MenuAct::Quit => (self, KeyAct::Quit),
        }
    }

    /// Reads a click on a button of the pause or game-over screen.
    pub fn click(&mut self, a: MenuAct, online: bool) -> (act: KeyAct)
        ensures
            (*final(self), act) == old(self).clicked(a, online),
    {
        match a {
            MenuAct::Resume => {
                self.menu = false;
                KeyAct::Nothing
            },
            MenuAct::Surrender => {
                self.menu = false;
                KeyAct::Surrender
            },
            MenuAct::Restart => {
                if online {
                    return KeyAct::Nothing;
                }
                self.build_mode = None;
                self.attack_pending = false;
                self.dragging = false;
                KeyAct::Restart
            },
            MenuAct::ToMenu => KeyAct::ToMenu,
            MenuAct::Quit => KeyAct::Quit,
        }
    }
}

/// The key that a button of the pause and game-over screens mirrors.
pub open spec fn mirrored_key(a: MenuAct) -> GameKey {
    match a {
        MenuAct::Resume => GameKey::Escape,
        MenuAct::Surrender => GameKey::G,
        MenuAct::Restart => GameKey::R,
        MenuAct::ToMenu => GameKey::M,
        MenuAct::Quit => GameKey::Q,
    }
}

/// The buttons of the pause and game-over screens do what their keys do.
pub proof fn buttons_mirror_keys(u: Ui, a: MenuAct, c: KeyCtx)
    ensures
        u.menu && a != MenuAct::Restart ==> u.clicked(a, c.online) == u.after(mirrored_key(a), c),
        !u.menu && c.over && a != MenuAct::Resume && a != MenuAct::Surrender ==> u.clicked(a, c.online)
            == u.after(mirrored_key(a), c),
{
}

/// Placing a building and picking a point to attack exclude each other, whatever key is
/// pressed.
pub proof fn one_mode_at_a_time(u: Ui, k: GameKey, c: KeyCtx)
    requires
        u.build_mode is None || !u.attack_pending,
    ensures
        u.after(k, c).0.build_mode is None || !u.after(k, c).0.attack_pending,
{
}

/// While the pause menu is open no key gives an order, and two escapes from an idle
/// interface leave it as it was, but for a drag.
pub proof fn the_menu_swallows_keys(u: Ui, k: GameKey, c: KeyCtx)
    ensures
        u.menu ==> {
            let a = u.after(k, c).1;
            a == KeyAct::Nothing || a == KeyAct::Surrender || a == KeyAct::ToMenu || a == KeyAct::Quit
        },
        !u.menu && !c.over && !u.targeting() ==> u.after(GameKey::Escape, c).0.after(
            GameKey::Escape,
            c,
        ).0 == (Ui { dragging: false, ..u }),
{
}

/// What a press of the left button on the ground leads to.
#[derive(Clone, Copy, PartialEq, Eq, Structural, Debug)]
pub enum Press {
    /// The selection attacks its way to the point.
    Attack,
    /// Nothing can be built there.
    CantBuild,
    /// A worker raises a building; one in a chain is raised after those before it.
    Build { worker: u32, kind: Kind, chain: bool },
    NeedWorker,
    /// A drag begins.
    Drag,
}

/// What a press of the right button leads to.
#[derive(Clone, Copy, PartialEq, Eq, Structural, Debug)]
pub enum RightPress {
    /// What the next click was for is called off.
    CalledOff,
    /// The selection goes to the point on the minimap, or to the enemy close to it.
    OnMinimap,
    /// The selection goes to the point on the ground.
    OnGround,
    Nothing,
}

/// What the end of a drag leads to.
#[derive(Clone, Copy, PartialEq, Eq, Structural, Debug)]
pub enum Release {
    Nothing,
    /// A click: one entity is selected.
    Single,
    /// A double click: all of its kind are selected.
    Double,
    /// A box is selected.
    Box,
}

/// A drag shorter than this is a click.
pub const CLICK_SLACK: u32 = 6;

/// Two clicks closer than this, and in fewer frames, are a double click.
pub const DOUBLE_SLACK: u32 = 18;

pub const DOUBLE_FRAMES: u64 = 26;

/// Recalling a group twice in fewer frames centres the view on it.
pub const RECALL_FRAMES: u64 = 20;

impl Ui {
    /// The interface after a press of the left button on the ground, and what it leads to:
    /// `clear` tells whether the building in hand could stand there.
    pub open spec fn pressed(self, at: V2, clear: bool, worker: Option<u32>, shift: bool) -> (Ui, Press) {
        if self.attack_pending {
            (Ui { attack_pending: false, ..self }, Press::Attack)
        } else {
            match self.build_mode {
                Some(k) => if !clear {
                    (self, Press::CantBuild)
                } else {
                    match worker {
                        Some(id) => (
                            if shift {
                                self
                            } else {
                                Ui { build_mode: None, ..self }
                            },
                            Press::Build { worker: id, kind: k, chain: shift },
                        ),
                        None => (self, Press::NeedWorker),
                    }
                },
                None => (Ui { drag_start: Some(at), dragging: true, ..self }, Press::Drag),
            }
        }
    }

    /// Reads a press of the left button on the ground.
    pub fn press(&mut self, at: V2, clear: bool, worker: Option<u32>, shift: bool) -> (p: Press)
        ensures
            (*final(self), p) == old(self).pressed(at, clear, worker, shift),
    {
        if self.attack_pending {
            self.attack_pending = false;
            return Press::Attack;
        }
        match self.build_mode {
            Some(k) => {
                if !clear {
                    return Press::CantBuild;
                }
                match worker {
                    Some(id) => {
                        if !shift {
                            self.build_mode = None;
                        }
                        Press::Build { worker: id, kind: k, chain: shift }
                    },
                    None => Press::NeedWorker,
                }
            },
            None => {
                self.drag_start = Some(at);
                self.dragging = true;
                Press::Drag
            },
        }
    }

    /// Reads the left button on the minimap: a fresh press may send the selection to attack,
    /// anything else moves the view. Says whether to attack.
    pub fn press_minimap(&mut self, fresh: bool) -> (attack: bool)
        ensures
            attack == (fresh && old(self).attack_pending),
            *final(self) == (Ui {
                attack_pending: old(self).attack_pending && !attack,
                ..*old(self)
            }),
    {
        if fresh && self.attack_pending {
            self.attack_pending = false;
            true
        } else {
            false
        }
    }

    /// The interface after a press of the right button, and what it leads to.
    pub open spec fn right_pressed(self, on_minimap: bool, on_hud: bool) -> (Ui, RightPress) {
        if self.targeting() {
            (self.untargeted(), RightPress::CalledOff)
        } else if on_minimap {
            (self, RightPress::OnMinimap)
        } else if on_hud {
            (self, RightPress::Nothing)
        } else {
            (self, RightPress::OnGround)
        }
    }

    /// Reads a press of the right button.
    pub fn press_right(&mut self, on_minimap: bool, on_hud: bool) -> (p: RightPress)
        ensures
            (*final(self), p) == old(self).right_pressed(on_minimap, on_hud),
    {
        if self.build_mode.is_some() || self.attack_pending {
            self.build_mode = None;
            self.attack_pending = false;
            RightPress::CalledOff
        } else if on_minimap {
            RightPress::OnMinimap
        } else if on_hud {
            RightPress::Nothing
        } else {
            RightPress::OnGround
        }
    }

    /// Reads the end of a press: `moved` is how far the drag went, `since` how many frames
    /// ago and `apart` how far away the last click was.
    pub fn release(&mut self, moved: Num, since: u64, apart: Num) -> (r: Release)
        ensures
            r == (if !old(self).dragging || old(self).drag_start is None {
                Release::Nothing
            } else if moved.less(Num::whole(CLICK_SLACK)) {
                if since < DOUBLE_FRAMES && apart.less(Num::whole(DOUBLE_SLACK)) {
                    Release::Double
                } else {
                    Release::Single
                }
            } else {
                Release::Box
            }),
            *final(self) == (if old(self).dragging {
                Ui { dragging: false, drag_start: None, ..*old(self) }
            } else {
                *old(self)
            }),
    {
        if !self.dragging {
            return Release::Nothing;
        }
        let started: bool = self.drag_start.is_some();
        self.dragging = false;
        self.drag_start = None;
        if !started {
            Release::Nothing
        } else if moved.less(Num::whole(CLICK_SLACK)) {
            if since < DOUBLE_FRAMES && apart.less(Num::whole(DOUBLE_SLACK)) {
                Release::Double
            } else {
                Release::Single
            }
        } else {
            Release::Box
        }
    }
}

/// Holding shift chains buildings: the building stays in hand, and one placed without it
/// does not.
pub proof fn shift_keeps_the_building_in_hand(u: Ui, at: V2, worker: u32, k: Kind, shift: bool)
    requires
        !u.attack_pending,
        u.build_mode == Some(k),
    ensures
        u.pressed(at, true, Some(worker), shift).1 == (Press::Build { worker, kind: k, chain: shift }),
        u.pressed(at, true, Some(worker), shift).0.build_mode == (if shift {
            Some(k)
        } else {
            None
        }),
{
}

/// The right button calls off what the next click was for, and then gives no order.
pub proof fn calling_off_gives_no_order(u: Ui, on_minimap: bool, on_hud: bool)
    requires
        u.targeting(),
    ensures
        u.right_pressed(on_minimap, on_hud).1 == RightPress::CalledOff,
        !u.right_pressed(on_minimap, on_hud).0.targeting(),
{
}

/// Whether recalling group `n` centres the view on it: it was the last one recalled, a
/// short while ago.
pub fn recall_centres(last: Option<usize>, n: usize, since: u64) -> (r: bool)
    ensures
        r == (last == Some(n) && since < RECALL_FRAMES),
{
    match last {
        Some(m) => m == n && since < RECALL_FRAMES,
        None => false,
    }
}

/// Whether a point is on the bar along the top.
pub fn in_hud(m: V2) -> (r: bool)
    ensures
        r == m.y.less(Num::integer(HUD_H)),
{
    m.y.less(Num::integer(HUD_H))
}

/// Whether a point is on the minimap of a screen of `sw` by `sh` pixels, its edges
/// included.
pub open spec fn on_map(m: V2, sw: i32, sh: i32) -> bool {
    let x = spec_mm_x(sw);
    let y = spec_mm_y(sh);
    &&& Num::integer(x as i32).at_most(m.x)
    &&& m.x.at_most(Num::integer((x + MM_W) as i32))
    &&& Num::integer(y as i32).at_most(m.y)
    &&& m.y.at_most(Num::integer((y + MM_H) as i32))
}

/// Whether a point is on the minimap.
pub fn in_minimap(m: V2, sw: i32, sh: i32) -> (r: bool)
    requires
        near(sw as int),
        near(sh as int),
    ensures
        r == on_map(m, sw, sh),
{
    let x: i32 = mm_x(sw);
    let y: i32 = mm_y(sh);
    Num::integer(x).at_most(m.x) && m.x.at_most(Num::integer(x + MM_W)) && Num::integer(y).at_most(m.y)
        && m.y.at_most(Num::integer(y + MM_H))
}

pub open spec fn chosen_worker(t: Team) -> spec_fn(EntV) -> bool {
    |e: EntV| e.selected && e.team == t && e.kind == Kind::Worker
}

/// Whether a command has the building train a unit that stands in the shortest queue.
pub open spec fn trains_least_loaded(w: WorldV, bkind: Kind, unit: Kind, c: CmdV) -> bool {
    match c {
        CmdV::Train { building, unit: u } => u == unit && exists|i: int|
            0 <= i < w.ents.len() && (#[trigger] w.ents[i]).id == building && trainer(
                w,
                bkind,
                w.ents[i],
            ) && forall|j: int|
                0 <= j < w.ents.len() && trainer(w, bkind, #[trigger] w.ents[j]) ==> less_loaded(
                    w.ents[i],
                    w.ents[j],
                ),
        _ => false,
    }
}

pub open spec fn no_trainer(w: WorldV, bkind: Kind) -> bool {
    forall|j: int| 0 <= j < w.ents.len() ==> !trainer(w, bkind, #[trigger] w.ents[j])
}

/// One unit per press, for the least loaded of the selected buildings of a kind.
pub fn queue_train(w: &World, out: &mut Vec<Cmd>, bkind: Kind, unit: Kind)
    ensures
        no_trainer(w@, bkind) ==> cmds_view(final(out)@) == cmds_view(old(out)@),
        !no_trainer(w@, bkind) ==> final(out)@.len() == old(out)@.len() + 1 && cmds_view(
            final(out)@,
        ).drop_last() == cmds_view(old(out)@) && trains_least_loaded(
            w@,
            bkind,
            unit,
            cmds_view(final(out)@).last(),
        ),
{
    let ghost o = out@;
    if let Some(id) = w.least_loaded_selected(bkind) {
        let c = Cmd::Train { building: id, unit };
        out.push(c);
        proof {
            assert(cmds_view(out@).drop_last() =~= cmds_view(o));
            assert(cmds_view(out@).last() == c@);
        }
    }
}

impl World {
    /// The id of the local player's first selected worker.
    pub fn first_selected_worker(&self) -> (r: Option<u32>)
        ensures
            ({
                let k = first_slot(self@.ents, chosen_worker(self@.my_team));
                match r {
                    Some(id) => k < self@.ents.len() && self@.ents[k].id == id,
                    None => k >= self@.ents.len(),
                }
            }),
    {
        let ghost f = chosen_worker(self.my_team);
        let n: usize = self.ents.len();
        for i in 0..n
            invariant
                n == self.ents@.len(),
                f == chosen_worker(self.my_team),
                forall|j: int| 0 <= j < i ==> !f(#[trigger] self@.ents[j]),
        {
            assert(self@.ents[i as int] == self.ents@[i as int]@);
            let e = &self.ents[i];
            if e.selected && e.team == self.my_team && e.kind == Kind::Worker {
                proof {
                    assert(f(self@.ents[i as int]));
                    lemma_first_slot_is(self@.ents, f, i as int);
                }
                return Some(e.id);
            }
            assert(!f(self@.ents[i as int]));
        }
        proof {
            lemma_first_slot_is(self@.ents, f, n as int);
        }
        None
    }

    /// Whether the local player has a worker selected.
    pub fn has_player_worker(&self) -> (r: bool)
        ensures
            r == exists|i: int|
                0 <= i < self@.ents.len() && chosen_worker(self@.my_team)(#[trigger] self@.ents[i]),
    {
        proof {
            crate::world::lemma_first_slot(self@.ents, chosen_worker(self@.my_team));
        }
        self.first_selected_worker().is_some()
    }

    /// Whether someone of the local player's that can be sent to attack is selected.
    pub fn has_fighter(&self) -> (r: bool)
        ensures
            r == exists|i: int| 0 <= i < self@.ents.len() && sendable(self@.my_team, #[trigger] self@.ents[i]),
    {
        let n: usize = self.ents.len();
        for i in 0..n
            invariant
                n == self.ents@.len(),
                forall|j: int| 0 <= j < i ==> !sendable(self@.my_team, #[trigger] self@.ents[j]),
        {
            assert(self@.ents[i as int] == self.ents@[i as int]@);
            let e = &self.ents[i];
            if e.selected && e.team == self.my_team && (is_army(e.kind) || e.kind == Kind::Worker) {
                assert(sendable(self@.my_team, self@.ents[i as int]));
                return true;
            }
            assert(!sendable(self@.my_team, self@.ents[i as int]));
        }
        false
    }

    /// How many entities of a kind a team has.
    pub fn count_of(&self, team: Team, kind: Kind) -> (r: u32)
        requires
            self.wf(),
        ensures
            r == total(self@.ents, is_one(team, kind)),
    {
        let ghost ev = self@.ents;
        let ghost f = is_one(team, kind);
        let mut r: u32 = 0;
        let n: usize = self.ents.len();
        assert(ev.take(0) =~= Seq::<EntV>::empty());
        for i in 0..n
            invariant
                self.wf(),
                n == self.ents@.len(),
                ev == self@.ents,
                f == is_one(team, kind),
                r == total(ev.take(i as int), f),
                r <= i,
        {
            proof {
                assert(ev.take(i + 1).drop_last() =~= ev.take(i as int));
                assert(ev.take(i + 1).last() == self.ents@[i as int]@);
            }
            if self.ents[i].team == team && self.ents[i].kind == kind {
                r = r + 1;
            }
        }
        assert(ev.take(n as int) =~= ev);
        r
    }
}

pub open spec fn is_one(team: Team, kind: Kind) -> spec_fn(EntV) -> int {
    |e: EntV| one(e.team == team && e.kind == kind)
}

/// Whether an entity is one of a team's selected that can be sent to attack.
pub open spec fn sendable(me: Team, e: EntV) -> bool {
    e.selected && e.team == me && (is_army(e.kind) || e.kind == Kind::Worker)
}

/// A faction's commands, each with the team that gave it.
pub open spec fn signed(f: int, cmds: Seq<CmdV>) -> Seq<(Team, CmdV)> {
    cmds.map_values(|c: CmdV| (Team::from_idx(f as usize), c))
}

/// The commands of a step in the order in which they are carried out: faction by faction,
/// each in the order in which they were given.
pub open spec fn script(per_faction: Seq<Seq<CmdV>>) -> Seq<(Team, CmdV)>
    decreases per_faction.len(),
{
    if per_faction.len() == 0 {
        seq![]
    } else {
        script(per_faction.drop_last()) + signed(per_faction.len() - 1, per_faction.last())
    }
}

pub open spec fn lists_view(l: Seq<Vec<Cmd>>) -> Seq<Seq<CmdV>> {
    l.map_values(|c: Vec<Cmd>| cmds_view(c@))
}

pub open spec fn script_view(s: Seq<(Team, Cmd)>) -> Seq<(Team, CmdV)> {
    s.map_values(|c: (Team, Cmd)| (c.0, c.1@))
}

/// The commands of a step in the order in which they are carried out.
pub fn step_script(per_faction: &Vec<Vec<Cmd>>) -> (r: Vec<(Team, Cmd)>)
    ensures
        script_view(r@) == script(lists_view(per_faction@)),
{
    let mut r: Vec<(Team, Cmd)> = Vec::new();
    let ghost all = lists_view(per_faction@);
    let n: usize = per_faction.len();
    assert(all.take(0) =~= Seq::<Seq<CmdV>>::empty());
    assert(script_view(r@) =~= script(all.take(0)));
    for f in 0..n
        invariant
            n == per_faction@.len(),
            all == lists_view(per_faction@),
            script_view(r@) == script(all.take(f as int)),
    {
        let ghost was = script_view(r@);
        let ghost mine = cmds_view(per_faction@[f as int]@);
        let team = Team::from_idx(f);
        let list = &per_faction[f];
        let m: usize = list.len();
        assert(was =~= was + signed(f as int, mine.take(0)));
        for k in 0..m
            invariant
                f < per_faction@.len(),
                *list == per_faction@[f as int],
                m == list@.len(),
                team == Team::from_idx(f),
                mine == cmds_view(list@),
                script_view(r@) == was + signed(f as int, mine.take(k as int)),
        {
            let ghost now = r@;
            let c = list[k].copy();
            r.push((team, c));
            proof {
                assert(mine[k as int] == c@);
                assert(script_view(r@) =~= script_view(now).push((team, c@)));
                assert(script_view(r@) =~= was + signed(f as int, mine.take(k + 1)));
            }
        }
        proof {
            assert(mine.take(m as int) =~= mine);
            assert(all.take(f + 1).drop_last() =~= all.take(f as int));
            assert(all.take(f + 1).last() == mine);
        }
    }
    assert(all.take(n as int) =~= all);
    r
}

/// Every command of a step is carried out for the faction that gave it.
pub proof fn commands_keep_their_sender(per_faction: Seq<Seq<CmdV>>, f: int, k: int)
    requires
        0 <= f < per_faction.len(),
        0 <= k < per_faction[f].len(),
    ensures
        script(per_faction).contains((Team::from_idx(f as usize), per_faction[f][k])),
    decreases per_faction.len(),
{
    let n = per_faction.len();
    let head = script(per_faction.drop_last());
    let tail = signed(n - 1, per_faction.last());
    if f == n - 1 {
        assert(script(per_faction)[head.len() + k] == tail[k]);
    } else {
        assert(per_faction.drop_last()[f] == per_faction[f]);
        commands_keep_their_sender(per_faction.drop_last(), f, k);
        let c = (Team::from_idx(f as usize), per_faction[f][k]);
        let i = choose|i: int| 0 <= i < head.len() && head[i] == c;
        assert(script(per_faction)[i] == c);
    }
}

/// What a player is told on entering a mode or on queueing a building.
pub fn placing_text(k: Kind) -> (s: String)
    ensures
        s@ == "LEFT-CLICK TO PLACE "@ + name_of_kind(k) + " (SHIFT-CLICK CHAINS)"@,
{
    let mut s: String = "LEFT-CLICK TO PLACE ".to_string();
    s.append(kind_name(k));
    s.append(" (SHIFT-CLICK CHAINS)");
    s
}

/// What a player is told on chaining a building.
pub fn queued_text(k: Kind) -> (s: String)
    ensures
        s@ == "QUEUED "@ + name_of_kind(k) + " - SHIFT-CLICK FOR MORE"@,
{
    let mut s: String = "QUEUED ".to_string();
    s.append(kind_name(k));
    s.append(" - SHIFT-CLICK FOR MORE");
    s
}

/// What a player is told on making the selection a control group.
pub fn group_text(n: u32) -> (s: String)
    ensures
        s@ == "CONTROL GROUP "@ + decimal(n as nat) + " SET"@,
{
    let mut s: String = "CONTROL GROUP ".to_string();
    push_decimal(&mut s, n);
    s.append(" SET");
    s
}

// ---- what holds of the controls ---------------------------------------------------------------------

/// Every key has its one use in a running match: units are trained, buildings placed with a
/// worker at hand, an attack is called with a fighter at hand, and the rest as the help says.
pub proof fn keys_have_their_uses(u: Ui, c: KeyCtx)
    requires
        !u.menu,
        !c.over,
        !c.ctrl,
    ensures
        u.after(GameKey::W, c) == (u, KeyAct::Train(Kind::Base, Kind::Worker)),
        u.after(GameKey::E, c) == (u, KeyAct::Train(Kind::Barracks, Kind::Soldier)),
        u.after(GameKey::Y, c) == (u, KeyAct::Train(Kind::Barracks, Kind::Pyro)),
        u.after(GameKey::G, c) == (u, KeyAct::Train(Kind::Barracks, Kind::Sapper)),
        u.after(GameKey::T, c) == (u, KeyAct::Train(Kind::Factory, Kind::Tank)),
        u.after(GameKey::R, c) == (u, KeyAct::Train(Kind::Factory, Kind::Raider)),
        u.after(GameKey::V, c) == (u, KeyAct::Train(Kind::Factory, Kind::Mortar)),
        u.after(GameKey::S, c) == (u, KeyAct::Stop),
        u.after(GameKey::H, c).0.show_help == !u.show_help,
        c.worker ==> ({
            let placing = |k: Kind| (Ui { build_mode: Some(k), attack_pending: false, ..u }, KeyAct::Placing(k));
            &&& u.after(GameKey::B, c) == placing(Kind::Barracks)
            &&& u.after(GameKey::F, c) == placing(Kind::Factory)
            &&& u.after(GameKey::D, c) == placing(Kind::Depot)
            &&& u.after(GameKey::C, c) == placing(Kind::Base)
        }),
        !c.worker ==> u.after(GameKey::B, c) == (u, KeyAct::NeedWorker) && u.after(GameKey::F, c) == (
            u,
            KeyAct::NeedWorker,
        ) && u.after(GameKey::D, c) == (u, KeyAct::NeedWorker) && u.after(GameKey::C, c) == (u, KeyAct::NeedWorker),
        c.fighter ==> u.after(GameKey::A, c) == (
            Ui { attack_pending: true, build_mode: None, ..u },
            KeyAct::Nothing,
        ),
        !c.fighter ==> u.after(GameKey::A, c) == (u, KeyAct::Nothing),
        u.after(GameKey::Other, c) == (u, KeyAct::Nothing),
{
}

/// With control a digit stores a control group and without it calls one up; control and A takes
/// the whole army; escape calls off what the next click was for, and otherwise opens the menu.
pub proof fn digits_are_control_groups(u: Ui, c: KeyCtx, n: usize)
    requires
        !u.menu,
        !c.over,
    ensures
        n < 10 && c.ctrl ==> u.after(GameKey::Digit(n), c) == (u, KeyAct::SetGroup(n)),
        n < 10 && !c.ctrl ==> u.after(GameKey::Digit(n), c) == (u, KeyAct::Recall(n)),
        c.ctrl ==> u.after(GameKey::A, c) == (u, KeyAct::SelectArmy),
        u.build_mode is Some || u.attack_pending ==> u.after(GameKey::Escape, c) == (
            Ui { build_mode: None, attack_pending: false, ..u },
            KeyAct::Nothing,
        ),
        !(u.build_mode is Some || u.attack_pending) ==> u.after(GameKey::Escape, c).0.menu && u.after(
            GameKey::Escape,
            c,
        ).1 == KeyAct::Nothing,
{
}

/// In the pause menu escape goes on, G gives up, M leads to the menu and Q ends; after a match
/// R starts another one, off the network, and M and Q do the same.
pub proof fn menus_have_their_keys(u: Ui, c: KeyCtx)
    ensures
        u.menu ==> u.after(GameKey::Escape, c) == (Ui { menu: false, ..u }, KeyAct::Nothing) && u.after(
            GameKey::G,
            c,
        ) == (Ui { menu: false, ..u }, KeyAct::Surrender) && u.after(GameKey::M, c).1 == KeyAct::ToMenu && u.after(
            GameKey::Q,
            c,
        ).1 == KeyAct::Quit && u.after(GameKey::W, c) == (u, KeyAct::Nothing),
        !u.menu && c.over ==> u.after(GameKey::M, c).1 == KeyAct::ToMenu && u.after(GameKey::Q, c).1 == KeyAct::Quit
            && u.after(GameKey::W, c) == (u, KeyAct::Nothing) && (u.after(GameKey::R, c).1 == KeyAct::Restart
            <==> !c.online),
{
}

/// The left button: it places an attack that was called, then a building in hand where it can
/// stand and with a worker to raise it, and otherwise begins a drag at the point.
pub proof fn presses_do_what_is_pending(u: Ui, at: V2, clear: bool, worker: Option<u32>, shift: bool)
    ensures
        ({
            let (v, p) = u.pressed(at, clear, worker, shift);
            &&& u.attack_pending ==> p == Press::Attack && !v.attack_pending && v.build_mode == u.build_mode
            &&& !u.attack_pending && u.build_mode is None ==> p == Press::Drag && v.dragging && v.drag_start == Some(at)
            &&& !u.attack_pending && u.build_mode is Some && !clear ==> p == Press::CantBuild && v == u
            &&& !u.attack_pending && u.build_mode is Some && clear && worker is None ==> p == Press::NeedWorker && v
                == u
            &&& !u.attack_pending && u.build_mode is Some && clear && worker is Some ==> p == (Press::Build {
                worker: worker->0,
                kind: u.build_mode->0,
                chain: shift,
            })
        }),
{
}

/// The right button sends the selection where it points, on the ground or on the minimap, but
/// not through the bar.
pub proof fn right_presses_give_orders(u: Ui, on_minimap: bool, on_hud: bool)
    ensures
        u.build_mode is Some || u.attack_pending ==> u.right_pressed(on_minimap, on_hud) == (
            Ui { build_mode: None, attack_pending: false, ..u },
            RightPress::CalledOff,
        ),
        u.build_mode is None && !u.attack_pending ==> u.right_pressed(on_minimap, on_hud) == (
            u,
            if on_minimap {
                RightPress::OnMinimap
            } else if on_hud {
                RightPress::Nothing
            } else {
                RightPress::OnGround
            },
        ),
{
}

/// Who counts as a worker at hand and as one to send: selected and the player's own.
pub proof fn hands_at_hand(me: Team, e: EntV)
    ensures
        chosen_worker(me)(e) <==> e.selected && e.team == me && e.kind == Kind::Worker,
        sendable(me, e) <==> e.selected && e.team == me && (e.kind == Kind::Worker || e.kind == Kind::Soldier
            || e.kind == Kind::Tank || e.kind == Kind::Pyro || e.kind == Kind::Raider || e.kind == Kind::Mortar
            || e.kind == Kind::Sapper),
        is_one(me, Kind::Base)(e) == (if e.team == me && e.kind == Kind::Base {
            1int
        } else {
            0int
        }),
{
}

/// A step's commands are carried out faction by faction, each faction's in the order given,
/// and none is added or lost.
pub proof fn steps_are_carried_out_in_order(per_faction: Seq<Seq<CmdV>>, more: Seq<CmdV>)
    ensures
        ({
            let n = per_faction.len() as int;
            let s = script(per_faction.push(more));
            let r = script(per_faction);
            &&& s.len() == r.len() + more.len()
            &&& s.take(r.len() as int) == r
            &&& forall|k: int|
                0 <= k < more.len() ==> #[trigger] s[r.len() + k] == (Team::from_idx(n as usize), more[k])
        }),
        script(Seq::<Seq<CmdV>>::empty()).len() == 0,
{
    assert(per_faction.push(more).drop_last() =~= per_faction);
    let r = script(per_faction);
    assert(script(per_faction.push(more)).take(r.len() as int) =~= r);
}

/// A press that moves less than six pixels is a click; two clicks within eighteen pixels and
/// twenty-six frames are a double click; and a group called up twice within twenty frames
/// centres the view.
pub proof fn clicks_have_their_pace()
    ensures
        CLICK_SLACK == 6,
        DOUBLE_SLACK == 18,
        DOUBLE_FRAMES == 26,
        RECALL_FRAMES == 20,
{
}

/// The minimap is 220 by 138 pixels in the lower right corner, and a point on its edge is on it.
pub proof fn points_on_the_minimap(m: V2, sw: i32, sh: i32)
    requires
        1000 <= sw <= 100_000,
        1000 <= sh <= 100_000,
    ensures
        on_map(m, sw, sh) <==> Num::integer((sw - 230) as i32).at_most(m.x) && m.x.at_most(
            Num::integer((sw - 10) as i32),
        ) && Num::integer((sh - 172) as i32).at_most(m.y) && m.y.at_most(Num::integer((sh - 34) as i32)),
{
}

} // verus!
