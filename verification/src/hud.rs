//! Texts over the game: the bar along the top, the hint along the bottom, the help panel,
//! the game-over screen, the lobby, and the badge that shows how a networked match is doing.

use vstd::prelude::*;
use vstd::string::*;
use crate::gfx::{half, rgb, width_of, Canvas};
use crate::kind::{cost, is_army, Kind, Team};
use crate::lockstep::Lockstep;
use crate::scene::{
    centred, fill, frame, labels_view, near, plain, push_label, shadowed, veil, Label, LabelV, Setting,
    Shape, SPAN,
};
use crate::screen::{mm_x, spec_mm_x, HUD_H};
use crate::select::one;
use crate::text::{decimal, push_decimal, push_two_places, two_places};
use crate::theme::{edge_of, faction_name, kind_name, name_of_kind, name_of_team, INK, MINERAL};
use crate::world::{total, EntV, World, WorldV};

verus! {

/// A single letter for more than one.
pub open spec fn plural(n: int) -> Seq<char> {
    if n == 1 {
        seq![]
    } else {
        "S"@
    }
}

fn push_plural(s: &mut String, n: u32)
    ensures
        final(s)@ == old(s)@ + plural(n as int),
{
    let ghost o = s@;
    if n != 1 {
        s.append("S");
    } else {
        assert(o =~= o + seq![]);
    }
}

/// Minutes and seconds.
pub open spec fn clock(seconds: nat) -> Seq<char> {
    decimal(seconds / 60) + ":"@ + two_places(seconds % 60)
}

fn push_clock(s: &mut String, seconds: u32)
    ensures
        final(s)@ == old(s)@ + clock(seconds as nat),
{
    let ghost o = s@;
    push_decimal(s, seconds / 60);
    s.append(":");
    push_two_places(s, seconds % 60);
    assert(s@ =~= o + clock(seconds as nat));
}

pub open spec fn own_worker(t: Team) -> spec_fn(EntV) -> int {
    |e: EntV| one(e.team == t && e.kind == Kind::Worker)
}

pub open spec fn own_soldier(t: Team) -> spec_fn(EntV) -> int {
    |e: EntV| one(e.team == t && is_army(e.kind))
}

impl WorldV {
    /// How many of the first `n` factions are rivals that are still in play.
    pub open spec fn rivals(self, n: int) -> int
        decreases n,
    {
        if n <= 0 {
            0
        } else {
            let t = Team::from_idx((n - 1) as usize);
            self.rivals(n - 1) + one(t != self.my_team && self.in_play(t))
        }
    }
}

impl World {
    /// How many workers and how many army units the local player has.
    pub fn headcount(&self) -> (r: (u32, u32))
        requires
            self.wf(),
        ensures
            r.0 == total(self@.ents, own_worker(self@.my_team)),
            r.1 == total(self@.ents, own_soldier(self@.my_team)),
    {
        let ghost ev = self@.ents;
        let ghost fw = own_worker(self.my_team);
        let ghost fa = own_soldier(self.my_team);
        let mut workers: u32 = 0;
        let mut army: u32 = 0;
        let n: usize = self.ents.len();
        assert(ev.take(0) =~= Seq::<EntV>::empty());
        for i in 0..n
            invariant
                self.wf(),
                n == self.ents@.len(),
                ev == self@.ents,
                fw == own_worker(self.my_team),
                fa == own_soldier(self.my_team),
                workers == total(ev.take(i as int), fw),
                army == total(ev.take(i as int), fa),
                workers <= i,
                army <= i,
        {
            proof {
                assert(ev.take(i + 1).drop_last() =~= ev.take(i as int));
                assert(ev.take(i + 1).last() == self.ents@[i as int]@);
            }
            if self.ents[i].team == self.my_team {
                let k = self.ents[i].kind;
                if k == Kind::Worker {
                    workers = workers + 1;
                } else if is_army(k) {
                    army = army + 1;
                }
            }
        }
        assert(ev.take(n as int) =~= ev);
        (workers, army)
    }

    /// How many rivals are still in play.
    pub fn rivals(&self) -> (r: u32)
        requires
            self.wf(),
        ensures
            r == self@.rivals(self@.factions as int),
    {
        let mut r: u32 = 0;
        let n: usize = self.factions;
        for f in 0..n
            invariant
                n == self.factions,
                n <= 4,
                r == self@.rivals(f as int),
                r <= f,
        {
            let t = Team::from_idx(f);
            if t != self.my_team && self.faction_alive(t) {
                r = r + 1;
            }
        }
        r
    }
}

/// What the next click is for: nothing, placing a building, or picking a point to attack.
#[derive(Clone, Copy, PartialEq, Eq, Structural, Debug)]
pub enum Mode {
    Free,
    Place(Kind),
    Attack,
}

/// Colour of the supply readout: a warning when there is room for one more at most.
pub open spec fn supply_color(used: int, cap: int) -> u32 {
    if used + 1 >= cap {
        rgb(255, 170, 70)
    } else {
        rgb(200, 210, 220)
    }
}

/// Rivals left and the time played.
pub open spec fn status_text(rivals: int, seconds: nat) -> Seq<char> {
    decimal(rivals as nat) + " RIVAL"@ + plural(rivals) + "   "@ + clock(seconds)
}

/// The readouts along the top.
pub open spec fn readouts(w: WorldV, seconds: nat, cw: i32) -> Seq<LabelV> {
    let used = w.used(w.my_team);
    let cap = w.cap(w.my_team);
    let status = status_text(w.rivals(w.factions as int), seconds);
    let grey = rgb(200, 210, 220);
    seq![
        shadowed(10, 8, "MINERALS "@ + decimal(w.bank(w.my_team) as nat), MINERAL, 2),
        shadowed(
            200,
            8,
            "SUPPLY "@ + decimal(used as nat) + "/"@ + decimal(cap as nat),
            supply_color(used, cap),
            2,
        ),
        shadowed(
            380,
            8,
            "WORKERS "@ + decimal(total(w.ents, own_worker(w.my_team)) as nat),
            grey,
            2,
        ),
        shadowed(560, 8, "ARMY "@ + decimal(total(w.ents, own_soldier(w.my_team)) as nat), grey, 2),
        shadowed(700, 8, "KILLS "@ + decimal(w.kills as nat), grey, 2),
        shadowed(
            spec_mm_x(cw) - width_of(status, 2) - 10,
            8,
            status,
            edge_of(w.my_team),
            2,
        ),
    ]
}

/// What the next click is for, if for anything.
pub open spec fn mode_labels(m: Mode) -> Seq<LabelV> {
    match m {
        Mode::Place(k) => seq![
            shadowed(
                10,
                38,
                "PLACE "@ + name_of_kind(k) + " ("@ + decimal(cost(k) as nat) + ")  -  ESC CANCELS"@,
                rgb(120, 230, 130),
                2,
            ),
        ],
        Mode::Attack => seq![
            shadowed(10, 38, "ATTACK-MOVE: PICK A POINT"@, rgb(255, 200, 90), 2),
        ],
        Mode::Free => seq![],
    }
}

/// The newest messages, the newest on top, in the colours that they have faded to.
pub open spec fn message_labels(w: WorldV, fade: Seq<u32>, cw: int, n: int) -> Seq<LabelV> {
    Seq::new(
        n as nat,
        |i: int|
            {
                let j = w.messages.len() - 1 - i;
                centred(cw / 2, 40 + i * 18, w.messages[j].0, fade[j], 2)
            },
    )
}

/// How many messages are shown.
pub open spec fn shown_messages(n: int) -> int {
    if n > 4 {
        4
    } else {
        n
    }
}

/// A piece of a text that is there only at times.
pub open spec fn part(on: bool, s: Seq<char>) -> Seq<char> {
    if on {
        s
    } else {
        seq![]
    }
}

fn append_if(s: &mut String, on: bool, t: &str)
    ensures
        final(s)@ == old(s)@ + part(on, t@),
{
    if on {
        s.append(t);
    } else {
        assert(s@ + seq![] =~= s@);
    }
}

fn append_count_if(s: &mut String, n: u32, t: &str)
    ensures
        final(s)@ == old(s)@ + part(n > 0, decimal(n as nat) + t@),
{
    if n > 0 {
        push_decimal(s, n);
        s.append(t);
        assert(s@ =~= old(s)@ + (decimal(n as nat) + t@));
    } else {
        assert(s@ + seq![] =~= s@);
    }
}

/// What the selection can be told to do.
pub open spec fn hint_text(
    workers: int,
    army: int,
    base: bool,
    barracks: bool,
    factory: bool,
    depot: bool,
) -> Seq<char> {
    let s = part(base, "COMMAND CENTER: [W] WORKER  "@) + part(
        barracks,
        "BARRACKS: [E] SOLDIER [Y] PYRO [G] SAPPER  "@,
    ) + part(factory, "FACTORY: [T] TANK [R] RAIDER [V] MORTAR  "@) + part(
        depot,
        "SUPPLY DEPOT: RAISES SUPPLY CAP  "@,
    ) + part(base || barracks || factory, "(RIGHT-CLICK BLDG CANCELS QUEUE)  "@) + part(
        workers > 0,
        decimal(workers as nat) + " WORKER: [B]ARRACKS [F]ACTORY [D]EPOT [C]CENTER  "@,
    ) + part(army > 0, decimal(army as nat) + " ARMY: [A] ATTACK-MOVE  [S] STOP  "@);
    if !base && !barracks && !factory && !depot && workers <= 0 && army <= 0 {
        "DRAG TO SELECT  -  RIGHT-CLICK COMMAND  -  [H] HELP  -  [ESC] MENU"@
    } else {
        s
    }
}

/// What the selection can be told to do.
pub fn hint(workers: u32, army: u32, base: bool, barracks: bool, factory: bool, depot: bool) -> (s: String)
    ensures
        s@ == hint_text(workers as int, army as int, base, barracks, factory, depot),
{
    if !base && !barracks && !factory && !depot && workers == 0 && army == 0 {
        return "DRAG TO SELECT  -  RIGHT-CLICK COMMAND  -  [H] HELP  -  [ESC] MENU".to_string();
    }
    let mut s: String = String::new();
    append_if(&mut s, base, "COMMAND CENTER: [W] WORKER  ");
    assert(s@ =~= part(base, "COMMAND CENTER: [W] WORKER  "@));
    append_if(&mut s, barracks, "BARRACKS: [E] SOLDIER [Y] PYRO [G] SAPPER  ");
    append_if(&mut s, factory, "FACTORY: [T] TANK [R] RAIDER [V] MORTAR  ");
    append_if(&mut s, depot, "SUPPLY DEPOT: RAISES SUPPLY CAP  ");
    append_if(&mut s, base || barracks || factory, "(RIGHT-CLICK BLDG CANCELS QUEUE)  ");
    append_count_if(&mut s, workers, " WORKER: [B]ARRACKS [F]ACTORY [D]EPOT [C]CENTER  ");
    append_count_if(&mut s, army, " ARMY: [A] ATTACK-MOVE  [S] STOP  ");
    s
}

fn counted(head: &str, n: u32) -> (s: String)
    ensures
        s@ == head@ + decimal(n as nat),
{
    let mut s: String = head.to_string();
    push_decimal(&mut s, n);
    s
}

/// The bar along the top.
pub open spec fn top_shapes(cw: int) -> Seq<Shape> {
    seq![veil(0, 0, cw, 30, INK, 88), fill(0, 30, cw, 1, rgb(60, 66, 56))]
}

proof fn lemma_decimal_len(n: nat, k: nat)
    requires
        n < vstd::arithmetic::power::pow(10, k),
        k >= 1,
    ensures
        1 <= decimal(n).len() <= k,
    decreases k,
{
    if n >= 10 {
        if k == 1 {
            vstd::arithmetic::power::lemma_pow1(10);
        } else {
            vstd::arithmetic::power::lemma_pow_adds(10, (k - 1) as nat, 1);
            vstd::arithmetic::power::lemma_pow1(10);
            assert(n / 10 < vstd::arithmetic::power::pow(10, (k - 1) as nat));
            lemma_decimal_len(n / 10, (k - 1) as nat);
        }
    }
}

/// A number of 32 bits has ten digits at most.
pub proof fn lemma_ten_digits(n: nat)
    requires
        n <= u32::MAX,
    ensures
        1 <= decimal(n).len() <= 10,
{
    assert(vstd::arithmetic::power::pow(10, 10) == 10_000_000_000) by {
        reveal_with_fuel(vstd::arithmetic::power::pow, 11);
    }
    lemma_decimal_len(n, 10);
}

fn status(rivals: u32, seconds: u32) -> (s: String)
    ensures
        s@ == status_text(rivals as int, seconds as nat),
        s@.len() <= 60,
{
    let mut s: String = String::new();
    push_decimal(&mut s, rivals);
    assert(s@ =~= decimal(rivals as nat));
    s.append(" RIVAL");
    push_plural(&mut s, rivals);
    s.append("   ");
    push_clock(&mut s, seconds);
    proof {
        reveal_strlit(" RIVAL");
        reveal_strlit("S");
        reveal_strlit("   ");
        reveal_strlit(":");
        lemma_ten_digits(rivals as nat);
        lemma_ten_digits((seconds / 60) as nat);
        lemma_ten_digits((seconds % 60) as nat);
    }
    s
}

/// The bar along the top and its readouts. `seconds` is the time played.
pub fn draw_readouts(w: &World, seconds: u32, cw: i32) -> (r: (Vec<Shape>, Vec<Label>))
    requires
        w.wf(),
        near(cw as int),
    ensures
        r.0@ == top_shapes(cw as int),
        labels_view(r.1@) == readouts(w@, seconds as nat, cw),
{
    let mut shapes: Vec<Shape> = Vec::new();
    shapes.push(Shape::Veil { x: 0, y: 0, w: cw, h: HUD_H, color: INK, share: 88 });
    shapes.push(Shape::Fill { x: 0, y: HUD_H, w: cw, h: 1, color: rgb(60, 66, 56) });
    assert(shapes@ =~= top_shapes(cw as int));
    let (workers, army) = w.headcount();
    let used: u32 = w.supply_used(w.my_team);
    let cap: u32 = w.supply_cap(w.my_team);
    let warn: u32 = if used as u64 + 1 >= cap as u64 {
        rgb(255, 170, 70)
    } else {
        rgb(200, 210, 220)
    };
    let grey: u32 = rgb(200, 210, 220);
    let mut out: Vec<Label> = Vec::new();
    assert(labels_view(out@) =~= seq![]);
    push_label(&mut out, 10, 8, counted("MINERALS ", w.team_min(w.my_team)), MINERAL, 2, Setting::Shadowed);
    let mut supply: String = counted("SUPPLY ", used);
    supply.append("/");
    push_decimal(&mut supply, cap);
    push_label(&mut out, 200, 8, supply, warn, 2, Setting::Shadowed);
    push_label(&mut out, 380, 8, counted("WORKERS ", workers), grey, 2, Setting::Shadowed);
    push_label(&mut out, 560, 8, counted("ARMY ", army), grey, 2, Setting::Shadowed);
    push_label(&mut out, 700, 8, counted("KILLS ", w.kills), grey, 2, Setting::Shadowed);
    let s: String = status(w.rivals(), seconds);
    let width: i32 = Canvas::text_width(s.as_str(), 2);
    push_label(&mut out, mm_x(cw) - width - 10, 8, s, edge_of(w.my_team), 2, Setting::Shadowed);
    assert(labels_view(out@) =~= readouts(w@, seconds as nat, cw));
    (shapes, out)
}

/// What the next click is for.
pub fn draw_mode(m: Mode) -> (out: Vec<Label>)
    ensures
        labels_view(out@) == mode_labels(m),
{
    let mut out: Vec<Label> = Vec::new();
    assert(labels_view(out@) =~= seq![]);
    match m {
        Mode::Place(k) => {
            let mut s: String = "PLACE ".to_string();
            s.append(kind_name(k));
            s.append(" (");
            push_decimal(&mut s, cost(k));
            s.append(")  -  ESC CANCELS");
            push_label(&mut out, 10, HUD_H + 8, s, rgb(120, 230, 130), 2, Setting::Shadowed);
        },
        Mode::Attack => {
            push_label(
                &mut out,
                10,
                HUD_H + 8,
                "ATTACK-MOVE: PICK A POINT".to_string(),
                rgb(255, 200, 90),
                2,
                Setting::Shadowed,
            );
        },
        Mode::Free => {},
    }
    assert(labels_view(out@) =~= mode_labels(m));
    out
}

/// The newest messages, the newest on top. `fade` is the colour that each message has
/// faded to.
pub fn draw_messages(w: &World, fade: &Vec<u32>, cw: i32) -> (out: Vec<Label>)
    requires
        0 <= cw,
        fade@.len() == w.messages@.len(),
    ensures
        labels_view(out@) == message_labels(
            w@,
            fade@,
            cw as int,
            shown_messages(w@.messages.len() as int),
        ),
{
    let mut out: Vec<Label> = Vec::new();
    let n: usize = if w.messages.len() > 4 {
        4
    } else {
        w.messages.len()
    };
    assert(labels_view(out@) =~= message_labels(w@, fade@, cw as int, 0));
    for i in 0..n
        invariant
            n <= w.messages@.len(),
            n <= 4,
            0 <= cw,
            fade@.len() == w.messages@.len(),
            labels_view(out@) == message_labels(w@, fade@, cw as int, i as int),
    {
        let j: usize = w.messages.len() - 1 - i;
        let ghost was = labels_view(out@);
        let text: String = w.messages[j].0.clone();
        assert(w@.messages[j as int].0 == text@);
        push_label(&mut out, cw / 2, HUD_H + 10 + i as i32 * 18, text, fade[j], 2, Setting::Centred);
        assert(labels_view(out@) =~= message_labels(w@, fade@, cw as int, i + 1));
    }
    out
}

/// The hint along the bottom.
pub open spec fn bottom_label(w: WorldV, ch: int) -> LabelV {
    shadowed(
        10,
        ch - 18,
        hint_text(
            total(w.ents, |e: EntV| one(e.selected && e.kind == Kind::Worker)),
            total(w.ents, |e: EntV| one(e.selected && is_army(e.kind))),
            crate::select::has_selected(w.ents, Kind::Base),
            crate::select::has_selected(w.ents, Kind::Barracks),
            crate::select::has_selected(w.ents, Kind::Factory),
            crate::select::has_selected(w.ents, Kind::Depot),
        ),
        rgb(205, 210, 220),
        2,
    )
}

/// The hint along the bottom, and the bar that it stands on.
pub fn draw_hint(w: &World, cw: i32, ch: i32) -> (r: (Shape, Label))
    requires
        w.wf(),
        near(cw as int),
        near(ch as int),
    ensures
        r.0 == veil(0, ch - 22, cw as int, 22, INK, 80),
        r.1@ == bottom_label(w@, ch as int),
{
    let (workers, army, base, barracks, factory, depot) = w.selected_kinds();
    (
        Shape::Veil { x: 0, y: ch - 22, w: cw, h: 22, color: INK, share: 80 },
        Label {
            x: 10,
            y: ch - 18,
            text: hint(workers, army, base, barracks, factory, depot),
            color: rgb(205, 210, 220),
            scale: 2,
            setting: Setting::Shadowed,
        },
    )
}

/// How many lines the help has.
pub const HELP_LINES: usize = 23;

/// A line of the help.
pub open spec fn help_line(i: int) -> Seq<char> {
    if i == 0 {
        "LEFT-DRAG  SELECT   DBL-CLICK  ALL OF TYPE / BLDG CLUSTER"@
    } else if i == 1 {
        "RIGHT-CLICK    MOVE / ATTACK / GATHER     A: ATTACK-MOVE"@
    } else if i == 2 {
        "MIDDLE-DRAG    PAN MAP    ARROWS / EDGES ALSO PAN"@
    } else if i == 3 {
        "CTRL+1..9      SET GROUP   1..9 RECALL (DBL = CENTER)"@
    } else if i == 4 {
        "CTRL+A         SELECT WHOLE ARMY (NO WORKERS)"@
    } else if i == 5 {
        "A   S          ATTACK-MOVE   STOP"@
    } else if i == 6 {
        "ESC            PAUSE MENU (RESUME / SURRENDER / QUIT)"@
    } else if i == 7 {
        ""@
    } else if i == 8 {
        "WORKER:  [B]ARRACKS [F]ACTORY [D]EPOT [C]COMMAND CTR"@
    } else if i == 9 {
        "  (SHIFT-CLICK WHILE PLACING TO CHAIN SEVERAL BUILDS)"@
    } else if i == 10 {
        "COMMAND CENTER: [W] WORKER      DEPOT: RAISES SUPPLY"@
    } else if i == 11 {
        "BARRACKS: [E] SOLDIER [Y] PYRO [G] SAPPER"@
    } else if i == 12 {
        "FACTORY:  [T] TANK [R] RAIDER [V] MORTAR"@
    } else if i == 13 {
        "RIGHT-CLICK A SELECTED BUILDING: CANCEL + REFUND A UNIT"@
    } else if i == 14 {
        ""@
    } else if i == 15 {
        "SOLDIER: CHEAP RANGED.    TANK: SLOW, TOUGH, SPLASH."@
    } else if i == 16 {
        "PYRO: SHORT-RANGE FLAME CONE, MELTS CLUMPED UNITS."@
    } else if i == 17 {
        "RAIDER: FAST, FRAGILE, HUNTS WORKERS AND FLANKS."@
    } else if i == 18 {
        "MORTAR: LONG SIEGE SPLASH, BUT A DEAD ZONE UP CLOSE."@
    } else if i == 19 {
        "SAPPER: SUICIDE BOMBER - CHARGES IN, BIG BLAST."@
    } else if i == 20 {
        "HIGH GROUND: MORE SIGHT + RANGE. CLIFFS BLOCK THE"@
    } else if i == 21 {
        "VIEW FROM BELOW - HOLD A RAMP TO AMBUSH. EXPAND AND"@
    } else {
        "WATCH YOUR SUPPLY.   GOAL: RAZE EVERY ENEMY BASE"@
    }
}

/// A line of the help.
fn help_text(i: usize) -> (r: &'static str)
    requires
        i < HELP_LINES,
    ensures
        r@ == help_line(i as int),
        r@.len() <= 60,
{
    proof {
        reveal_strlit("LEFT-DRAG  SELECT   DBL-CLICK  ALL OF TYPE / BLDG CLUSTER");
        reveal_strlit("RIGHT-CLICK    MOVE / ATTACK / GATHER     A: ATTACK-MOVE");
        reveal_strlit("MIDDLE-DRAG    PAN MAP    ARROWS / EDGES ALSO PAN");
        reveal_strlit("CTRL+1..9      SET GROUP   1..9 RECALL (DBL = CENTER)");
        reveal_strlit("CTRL+A         SELECT WHOLE ARMY (NO WORKERS)");
        reveal_strlit("A   S          ATTACK-MOVE   STOP");
        reveal_strlit("ESC            PAUSE MENU (RESUME / SURRENDER / QUIT)");
        reveal_strlit("");
        reveal_strlit("WORKER:  [B]ARRACKS [F]ACTORY [D]EPOT [C]COMMAND CTR");
        reveal_strlit("  (SHIFT-CLICK WHILE PLACING TO CHAIN SEVERAL BUILDS)");
        reveal_strlit("COMMAND CENTER: [W] WORKER      DEPOT: RAISES SUPPLY");
        reveal_strlit("BARRACKS: [E] SOLDIER [Y] PYRO [G] SAPPER");
        reveal_strlit("FACTORY:  [T] TANK [R] RAIDER [V] MORTAR");
        reveal_strlit("RIGHT-CLICK A SELECTED BUILDING: CANCEL + REFUND A UNIT");
        reveal_strlit("SOLDIER: CHEAP RANGED.    TANK: SLOW, TOUGH, SPLASH.");
        reveal_strlit("PYRO: SHORT-RANGE FLAME CONE, MELTS CLUMPED UNITS.");
        reveal_strlit("RAIDER: FAST, FRAGILE, HUNTS WORKERS AND FLANKS.");
        reveal_strlit("MORTAR: LONG SIEGE SPLASH, BUT A DEAD ZONE UP CLOSE.");
        reveal_strlit("SAPPER: SUICIDE BOMBER - CHARGES IN, BIG BLAST.");
        reveal_strlit("HIGH GROUND: MORE SIGHT + RANGE. CLIFFS BLOCK THE");
        reveal_strlit("VIEW FROM BELOW - HOLD A RAMP TO AMBUSH. EXPAND AND");
        reveal_strlit("WATCH YOUR SUPPLY.   GOAL: RAZE EVERY ENEMY BASE");
    }
    let r: &'static str = if i == 0 {
        "LEFT-DRAG  SELECT   DBL-CLICK  ALL OF TYPE / BLDG CLUSTER"
    } else if i == 1 {
        "RIGHT-CLICK    MOVE / ATTACK / GATHER     A: ATTACK-MOVE"
    } else if i == 2 {
        "MIDDLE-DRAG    PAN MAP    ARROWS / EDGES ALSO PAN"
    } else if i == 3 {
        "CTRL+1..9      SET GROUP   1..9 RECALL (DBL = CENTER)"
    } else if i == 4 {
        "CTRL+A         SELECT WHOLE ARMY (NO WORKERS)"
    } else if i == 5 {
        "A   S          ATTACK-MOVE   STOP"
    } else if i == 6 {
        "ESC            PAUSE MENU (RESUME / SURRENDER / QUIT)"
    } else if i == 7 {
        ""
    } else if i == 8 {
        "WORKER:  [B]ARRACKS [F]ACTORY [D]EPOT [C]COMMAND CTR"
    } else if i == 9 {
        "  (SHIFT-CLICK WHILE PLACING TO CHAIN SEVERAL BUILDS)"
    } else if i == 10 {
        "COMMAND CENTER: [W] WORKER      DEPOT: RAISES SUPPLY"
    } else if i == 11 {
        "BARRACKS: [E] SOLDIER [Y] PYRO [G] SAPPER"
    } else if i == 12 {
        "FACTORY:  [T] TANK [R] RAIDER [V] MORTAR"
    } else if i == 13 {
        "RIGHT-CLICK A SELECTED BUILDING: CANCEL + REFUND A UNIT"
    } else if i == 14 {
        ""
    } else if i == 15 {
        "SOLDIER: CHEAP RANGED.    TANK: SLOW, TOUGH, SPLASH."
    } else if i == 16 {
        "PYRO: SHORT-RANGE FLAME CONE, MELTS CLUMPED UNITS."
    } else if i == 17 {
        "RAIDER: FAST, FRAGILE, HUNTS WORKERS AND FLANKS."
    } else if i == 18 {
        "MORTAR: LONG SIEGE SPLASH, BUT A DEAD ZONE UP CLOSE."
    } else if i == 19 {
        "SAPPER: SUICIDE BOMBER - CHARGES IN, BIG BLAST."
    } else if i == 20 {
        "HIGH GROUND: MORE SIGHT + RANGE. CLIFFS BLOCK THE"
    } else if i == 21 {
        "VIEW FROM BELOW - HOLD A RAMP TO AMBUSH. EXPAND AND"
    } else {
        "WATCH YOUR SUPPLY.   GOAL: RAZE EVERY ENEMY BASE"
    };
    r
}

/// Width of the widest of the first `n` lines of the help.
pub open spec fn widest(n: int) -> int
    decreases n,
{
    if n <= 0 {
        0
    } else {
        let a = widest(n - 1);
        let b = width_of(help_line(n - 1), 2);
        if a < b {
            b
        } else {
            a
        }
    }
}

/// Place and size of the help panel, which is as large as the help needs.
pub open spec fn help_box(cw: int, ch: int) -> (int, int, int, int) {
    let w = if widest(HELP_LINES as int) + 48 < 520 {
        520
    } else {
        widest(HELP_LINES as int) + 48
    };
    let h = 48 + HELP_LINES * 19 + 30;
    (half(cw - w), half(ch - h), w, h)
}

pub open spec fn help_shapes(cw: int, ch: int) -> Seq<Shape> {
    let (x, y, w, h) = help_box(cw, ch);
    seq![veil(x, y, w, h, INK, 93), frame(x, y, w, h, rgb(90, 100, 84))]
}

pub open spec fn help_labels(cw: int, ch: int) -> Seq<LabelV> {
    let (x, y, w, h) = help_box(cw, ch);
    seq![centred(cw / 2, y + 12, "NANORTS - CONTROLS"@, rgb(255, 240, 200), 3)] + help_rows(
        x,
        y,
        HELP_LINES as int,
    ) + seq![
        centred(cw / 2, y + 48 + HELP_LINES * 19 + 6, "PRESS H TO CLOSE"@, rgb(150, 160, 150), 2),
    ]
}

pub open spec fn help_rows(x: int, y: int, n: int) -> Seq<LabelV> {
    Seq::new(n as nat, |i: int| plain(x + 24, y + 48 + i * 19, help_line(i), rgb(200, 208, 218), 2))
}

fn halve(a: i32) -> (r: i32)
    requires
        a > i32::MIN,
    ensures
        r == half(a as int),
{
    if a < 0 {
        -((-a) / 2)
    } else {
        a / 2
    }
}

/// The help panel.
pub fn draw_help(cw: i32, ch: i32) -> (r: (Vec<Shape>, Vec<Label>))
    requires
        0 <= cw <= SPAN,
        0 <= ch <= SPAN,
    ensures
        r.0@ == help_shapes(cw as int, ch as int),
        labels_view(r.1@) == help_labels(cw as int, ch as int),
{
    let mut widest_line: i32 = 0;
    for i in 0..HELP_LINES
        invariant
            widest_line == widest(i as int),
            0 <= widest_line <= 720,
    {
        let w: i32 = Canvas::text_width(help_text(i), 2);
        if widest_line < w {
            widest_line = w;
        }
    }
    let w: i32 = if widest_line + 48 < 520 {
        520
    } else {
        widest_line + 48
    };
    let n: i32 = HELP_LINES as i32;
    let h: i32 = 48 + n * 19 + 30;
    let x: i32 = halve(cw - w);
    let y: i32 = halve(ch - h);
    let mut shapes: Vec<Shape> = Vec::new();
    shapes.push(Shape::Veil { x, y, w, h, color: INK, share: 93 });
    shapes.push(Shape::Frame { x, y, w, h, color: rgb(90, 100, 84) });
    assert(shapes@ =~= help_shapes(cw as int, ch as int));
    let mut out: Vec<Label> = Vec::new();
    assert(labels_view(out@) =~= seq![]);
    push_label(
        &mut out,
        cw / 2,
        y + 12,
        "NANORTS - CONTROLS".to_string(),
        rgb(255, 240, 200),
        3,
        Setting::Centred,
    );
    let ghost head = labels_view(out@);
    assert(head =~= head + help_rows(x as int, y as int, 0));
    for i in 0..HELP_LINES
        invariant
            -SPAN <= x <= SPAN,
            -SPAN <= y <= SPAN,
            labels_view(out@) == head + help_rows(x as int, y as int, i as int),
    {
        push_label(
            &mut out,
            x + 24,
            y + 48 + i as i32 * 19,
            help_text(i).to_string(),
            rgb(200, 208, 218),
            2,
            Setting::Plain,
        );
        assert(labels_view(out@) =~= head + help_rows(x as int, y as int, i + 1));
    }
    push_label(
        &mut out,
        cw / 2,
        y + 48 + n * 19 + 6,
        "PRESS H TO CLOSE".to_string(),
        rgb(150, 160, 150),
        2,
        Setting::Centred,
    );
    assert(labels_view(out@) =~= help_labels(cw as int, ch as int));
    (shapes, out)
}

/// The texts of the game-over screen.
pub open spec fn verdict_labels(w: WorldV, seconds: nat, cw: int, ch: int) -> Seq<LabelV> {
    seq![
        if w.over == 1 {
            centred(cw / 2, ch / 2 - 120, "VICTORY"@, rgb(110, 240, 130), 9)
        } else {
            centred(cw / 2, ch / 2 - 120, "DEFEAT"@, rgb(240, 90, 80), 9)
        },
        centred(
            cw / 2,
            ch / 2 - 28,
            "KILLS "@ + decimal(w.kills as nat) + "   TIME "@ + clock(seconds),
            rgb(220, 220, 230),
            3,
        ),
    ]
}

/// The texts of the game-over screen, and the veil under them.
pub fn draw_gameover(w: &World, seconds: u32, cw: i32, ch: i32) -> (r: (Shape, Vec<Label>))
    requires
        0 <= cw,
        0 <= ch,
    ensures
        r.0 == veil(0, 0, cw as int, ch as int, INK, 70),
        labels_view(r.1@) == verdict_labels(w@, seconds as nat, cw as int, ch as int),
{
    let mut out: Vec<Label> = Vec::new();
    assert(labels_view(out@) =~= seq![]);
    let y: i32 = ch / 2 - 120;
    if w.over == 1 {
        push_label(&mut out, cw / 2, y, "VICTORY".to_string(), rgb(110, 240, 130), 9, Setting::Centred);
    } else {
        push_label(&mut out, cw / 2, y, "DEFEAT".to_string(), rgb(240, 90, 80), 9, Setting::Centred);
    }
    let mut s: String = counted("KILLS ", w.kills);
    s.append("   TIME ");
    push_clock(&mut s, seconds);
    push_label(&mut out, cw / 2, ch / 2 - 28, s, rgb(220, 220, 230), 3, Setting::Centred);
    assert(labels_view(out@) =~= verdict_labels(w@, seconds as nat, cw as int, ch as int));
    (Shape::Veil { x: 0, y: 0, w: cw, h: ch, color: INK, share: 70 }, out)
}

/// The veil of the pause screen and its heading.
pub fn draw_menu(cw: i32, ch: i32) -> (r: (Shape, Label))
    requires
        0 <= cw,
        0 <= ch,
    ensures
        r.0 == veil(0, 0, cw as int, ch as int, INK, 72),
        r.1@ == centred(cw as int / 2, ch as int / 2 - 150, "PAUSED"@, rgb(255, 240, 200), 6),
{
    (
        Shape::Veil { x: 0, y: 0, w: cw, h: ch, color: INK, share: 72 },
        Label {
            x: cw / 2,
            y: ch / 2 - 150,
            text: "PAUSED".to_string(),
            color: rgb(255, 240, 200),
            scale: 6,
            setting: Setting::Centred,
        },
    )
}

/// How a networked match is doing: a text, its colour, the colour under it, and how much
/// of the first is in the border, in hundredths.
pub struct Badge {
    pub text: String,
    pub fg: u32,
    pub bg: u32,
    pub glow: u32,
}

pub open spec fn badge_text(disconnected: bool, desync: Option<u32>, step: u32, synced: u32) -> Seq<char> {
    if disconnected {
        "OPPONENT DISCONNECTED"@
    } else {
        match desync {
            Some(s) => "! DESYNC AT STEP "@ + decimal(s as nat) + " !"@,
            None => "LOCKSTEP OK   F"@ + decimal(step as nat) + "   SYNC "@ + decimal(synced as nat),
        }
    }
}

pub open spec fn badge_colors(disconnected: bool, desync: Option<u32>, step: u32) -> (u32, u32, u32) {
    if disconnected {
        (rgb(255, 90, 80), rgb(40, 4, 4), 70)
    } else if desync is Some {
        (
            if (step / 4) % 2 == 0 {
                rgb(255, 70, 60)
            } else {
                rgb(255, 200, 60)
            },
            rgb(50, 4, 4),
            90,
        )
    } else {
        (rgb(120, 230, 150), rgb(2, 20, 14), 50)
    }
}

impl Badge {
    pub open spec fn shows(&self, disconnected: bool, desync: Option<u32>, step: u32, synced: u32) -> bool {
        &&& self.text@ == badge_text(disconnected, desync, step, synced)
        &&& (self.fg, self.bg, self.glow) == badge_colors(disconnected, desync, step)
        &&& self.text@.len() <= 60
    }

    /// How a networked match is doing: gone, out of step, or fine.
    pub fn of(ls: &Lockstep) -> (b: Badge)
        ensures
            b.shows(ls.disconnected, ls.desync_step, ls.sim_step, ls.last_synced),
    {
        proof {
            reveal_strlit("OPPONENT DISCONNECTED");
            reveal_strlit("! DESYNC AT STEP ");
            reveal_strlit(" !");
            reveal_strlit("LOCKSTEP OK   F");
            reveal_strlit("   SYNC ");
            lemma_ten_digits(ls.sim_step as nat);
            lemma_ten_digits(ls.last_synced as nat);
        }
        if ls.disconnected {
            return Badge {
                text: "OPPONENT DISCONNECTED".to_string(),
                fg: rgb(255, 90, 80),
                bg: rgb(40, 4, 4),
                glow: 70,
            };
        }
        if let Some(at) = ls.desync_step {
            proof {
                lemma_ten_digits(at as nat);
            }
            let mut s: String = counted("! DESYNC AT STEP ", at);
            s.append(" !");
            let fg: u32 = if (ls.sim_step / 4) % 2 == 0 {
                rgb(255, 70, 60)
            } else {
                rgb(255, 200, 60)
            };
            return Badge { text: s, fg, bg: rgb(50, 4, 4), glow: 90 };
        }
        let mut s: String = counted("LOCKSTEP OK   F", ls.sim_step);
        s.append("   SYNC ");
        push_decimal(&mut s, ls.last_synced);
        Badge { text: s, fg: rgb(120, 230, 150), bg: rgb(2, 20, 14), glow: 50 }
    }

    /// The badge under the bar along the top, with a border of the given colour.
    pub fn draw(&self, border: u32, cw: i32) -> (r: (Vec<Shape>, Label))
        requires
            0 <= cw <= SPAN,
            self.text@.len() <= 60,
        ensures
            r.0@ == badge_shapes(width_of(self.text@, 2) + 18, self.bg, border, cw as int),
            r.1@ == centred(cw as int / 2, 40, self.text@, self.fg, 2),
    {
        let bw: i32 = Canvas::text_width(self.text.as_str(), 2) + 18;
        let cx: i32 = cw / 2;
        let mut out: Vec<Shape> = Vec::new();
        out.push(Shape::Veil { x: cx - bw / 2, y: HUD_H + 6, w: bw, h: 20, color: self.bg, share: 60 });
        out.push(Shape::Frame { x: cx - bw / 2, y: HUD_H + 6, w: bw, h: 20, color: border });
        assert(out@ =~= badge_shapes(bw as int, self.bg, border, cw as int));
        (
            out,
            Label {
                x: cx,
                y: HUD_H + 10,
                text: self.text.clone(),
                color: self.fg,
                scale: 2,
                setting: Setting::Centred,
            },
        )
    }
}

pub open spec fn badge_shapes(bw: int, bg: u32, border: u32, cw: int) -> Seq<Shape> {
    let x = cw / 2 - bw / 2;
    seq![veil(x, 36, bw, 20, bg, 60), frame(x, 36, bw, 20, border)]
}

/// What a seat of the lobby is taken by: the host, another player, or the machine once the
/// match starts.
pub open spec fn seat_text(f: int, players: int) -> Seq<char> {
    let head = "SLOT "@ + decimal((f + 1) as nat);
    if f == 0 {
        head + ":  YOU  ("@ + name_of_team(Team::from_idx(f as usize)) + ")"@
    } else if f < players {
        head + ":  PLAYER  ("@ + name_of_team(Team::from_idx(f as usize)) + ")"@
    } else {
        head + ":  OPEN -> AI"@
    }
}

pub open spec fn seat_color(f: int, players: int) -> u32 {
    if f == 0 {
        rgb(120, 230, 150)
    } else if f < players {
        rgb(150, 200, 255)
    } else {
        rgb(120, 130, 140)
    }
}

pub open spec fn seat_labels(players: int, cw: int, ch: int, n: int) -> Seq<LabelV> {
    Seq::new(
        n as nat,
        |f: int|
            centred(cw / 2, ch / 2 - 150 + f * 40, seat_text(f, players), seat_color(f, players), 3),
    )
}

fn seat(f: u32, players: u32) -> (s: String)
    requires
        f < 4,
    ensures
        s@ == seat_text(f as int, players as int),
{
    let mut s: String = counted("SLOT ", f + 1);
    if f == 0 {
        s.append(":  YOU  (");
        s.append(faction_name(Team::from_idx(f as usize)));
        s.append(")");
    } else if f < players {
        s.append(":  PLAYER  (");
        s.append(faction_name(Team::from_idx(f as usize)));
        s.append(")");
    } else {
        s.append(":  OPEN -> AI");
    }
    s
}

/// Who is in the lobby of a host, line by line, and how many.
pub fn draw_seats(players: u32, cw: i32, ch: i32) -> (out: Vec<Label>)
    requires
        0 <= cw <= SPAN,
        0 <= ch <= SPAN,
    ensures
        labels_view(out@) == seat_labels(players as int, cw as int, ch as int, 4).push(
            centred(
                cw as int / 2,
                ch as int / 2 + 18,
                decimal(players as nat) + " PLAYER"@ + plural(players as int)
                    + " CONNECTED  -  LAN DISCOVERY ON"@,
                rgb(150, 165, 170),
                2,
            ),
        ),
{
    let mut out: Vec<Label> = Vec::new();
    assert(labels_view(out@) =~= seat_labels(players as int, cw as int, ch as int, 0));
    for f in 0..4u32
        invariant
            0 <= cw <= SPAN,
            0 <= ch <= SPAN,
            labels_view(out@) == seat_labels(players as int, cw as int, ch as int, f as int),
    {
        let color: u32 = if f == 0 {
            rgb(120, 230, 150)
        } else if f < players {
            rgb(150, 200, 255)
        } else {
            rgb(120, 130, 140)
        };
        push_label(
            &mut out,
            cw / 2,
            ch / 2 - 150 + f as i32 * 40,
            seat(f, players),
            color,
            3,
            Setting::Centred,
        );
        assert(labels_view(out@) =~= seat_labels(players as int, cw as int, ch as int, f + 1));
    }
    let mut s: String = String::new();
    push_decimal(&mut s, players);
    assert(s@ =~= decimal(players as nat));
    s.append(" PLAYER");
    push_plural(&mut s, players);
    s.append(" CONNECTED  -  LAN DISCOVERY ON");
    push_label(&mut out, cw / 2, ch / 2 + 18, s, rgb(150, 165, 170), 2, Setting::Centred);
    out
}

/// What a player is told at the start.
pub open spec fn intro_text(me: Team, factions: int) -> Seq<char> {
    "YOU ARE "@ + name_of_team(me) + " - "@ + decimal((factions - 1) as nat) + " RIVAL"@ + plural(
        factions - 1,
    ) + " - LAST ONE STANDING WINS"@
}

/// What everyone is told when the map is set up.
pub open spec fn opening_text(factions: int) -> Seq<char> {
    "FREE-FOR-ALL - "@ + decimal((factions - 1) as nat) + " RIVAL"@ + plural(factions - 1)
        + " - LAST ONE STANDING WINS"@
}

impl World {
    /// Tells the player how many rivals there are.
    pub fn greet(&mut self)
        requires
            old(self).wf(),
        ensures
            final(self).wf(),
            final(self)@ == old(self)@.told(opening_text(old(self)@.factions as int)),
    {
        let mut s: String = "FREE-FOR-ALL - ".to_string();
        let foes: u32 = (self.factions - 1) as u32;
        push_decimal(&mut s, foes);
        s.append(" RIVAL");
        push_plural(&mut s, foes);
        s.append(" - LAST ONE STANDING WINS");
        self.msg(s.as_str());
    }

    /// Takes down all messages and tells the player who they are.
    pub fn announce(&mut self)
        requires
            old(self).wf(),
        ensures
            final(self).wf(),
            final(self)@ == (WorldV { messages: seq![], ..old(self)@ }).told(
                intro_text(old(self)@.my_team, old(self)@.factions as int),
            ),
    {
        let mut s: String = "YOU ARE ".to_string();
        s.append(faction_name(self.my_team));
        s.append(" - ");
        let foes: u32 = (self.factions - 1) as u32;
        push_decimal(&mut s, foes);
        s.append(" RIVAL");
        push_plural(&mut s, foes);
        s.append(" - LAST ONE STANDING WINS");
        self.messages = Vec::new();
        assert(self@ =~= (WorldV { messages: seq![], ..old(self)@ }));
        self.msg(s.as_str());
    }
}

// ---- what the readouts say ------------------------------------------------------------------------------

/// The bar along the top tells the player about their own: their bank, their population and what
/// they can feed, their workers and their army, and the kills.
pub proof fn readouts_are_ones_own(w: WorldV, seconds: nat, cw: i32, ents: Seq<EntV>, e: EntV)
    requires
        w.my_team.idx() < 4,
    ensures
        ({
            let r = readouts(w, seconds, cw);
            &&& r.len() == 6
            &&& r[0].text == "MINERALS "@ + decimal(w.minerals[w.my_team.idx() as int] as nat)
            &&& r[1].text == "SUPPLY "@ + decimal(w.used(w.my_team) as nat) + "/"@ + decimal(w.cap(w.my_team) as nat)
            &&& r[2].text == "WORKERS "@ + decimal(total(w.ents, own_worker(w.my_team)) as nat)
            &&& r[3].text == "ARMY "@ + decimal(total(w.ents, own_soldier(w.my_team)) as nat)
            &&& r[4].text == "KILLS "@ + decimal(w.kills as nat)
        }),
        total(ents.push(e), own_worker(w.my_team)) == total(ents, own_worker(w.my_team)) + (if e.team == w.my_team
            && e.kind == Kind::Worker {
            1int
        } else {
            0int
        }),
        total(ents.push(e), own_soldier(w.my_team)) == total(ents, own_soldier(w.my_team)) + (if e.team == w.my_team && (
        e.kind == Kind::Soldier || e.kind == Kind::Tank || e.kind == Kind::Pyro || e.kind == Kind::Raider || e.kind
            == Kind::Mortar || e.kind == Kind::Sapper) {
            1int
        } else {
            0int
        }),
{
    assert(ents.push(e).drop_last() =~= ents);
}

/// Rivals are the factions in play that are not one's own.
pub proof fn rivals_are_counted(w: WorldV, n: int)
    requires
        0 <= n < 4,
    ensures
        w.rivals(0) == 0,
        w.rivals(n + 1) == w.rivals(n) + (if Team::from_idx(n as usize) != w.my_team && w.in_play(
            Team::from_idx(n as usize),
        ) {
            1int
        } else {
            0int
        }),
{
}

/// The newest message is on top, and at most four are up.
pub proof fn the_newest_message_is_on_top(w: WorldV, fade: Seq<u32>, cw: int, n: int, i: int)
    requires
        0 <= i < n <= w.messages.len(),
    ensures
        message_labels(w, fade, cw, n)[i].text == w.messages[w.messages.len() - 1 - i].0,
        message_labels(w, fade, cw, n)[i].y == 40 + 18 * i,
        shown_messages(w.messages.len() as int) <= 4,
        w.messages.len() <= 4 ==> shown_messages(w.messages.len() as int) == w.messages.len(),
        w.messages.len() > 4 ==> shown_messages(w.messages.len() as int) == 4,
{
}

/// The end is told as it is: a victory to the winner and a defeat to everyone else.
pub proof fn the_verdict_is_told(w: WorldV, seconds: nat, cw: int, ch: int)
    ensures
        ({
            let v = verdict_labels(w, seconds, cw, ch);
            &&& w.over == 1 ==> v[0].text == "VICTORY"@
            &&& w.over != 1 ==> v[0].text == "DEFEAT"@
            &&& v[1].text == "KILLS "@ + decimal(w.kills as nat) + "   TIME "@ + decimal(seconds / 60) + ":"@
                + two_places(seconds % 60)
        }),
{
    let a = "KILLS "@ + decimal(w.kills as nat) + "   TIME "@;
    assert(a + (decimal(seconds / 60) + ":"@ + two_places(seconds % 60)) =~= a + decimal(seconds / 60) + ":"@
        + two_places(seconds % 60));
}

/// The badge of a networked match says first that a peer is gone, then that peers came apart and
/// at which step, and otherwise how far the match is in step.
pub proof fn the_badge_says_what_matters(disconnected: bool, desync: Option<u32>, step: u32, synced: u32)
    ensures
        disconnected ==> badge_text(disconnected, desync, step, synced) == "OPPONENT DISCONNECTED"@,
        !disconnected && desync is Some ==> badge_text(disconnected, desync, step, synced) == "! DESYNC AT STEP "@
            + decimal(desync->0 as nat) + " !"@,
        !disconnected && desync is None ==> badge_text(disconnected, desync, step, synced) == "LOCKSTEP OK   F"@
            + decimal(step as nat) + "   SYNC "@ + decimal(synced as nat),
{
}

/// The population is shown in a warning colour when at most one more can be fed.
pub proof fn supply_warns_in_time(used: int, cap: int)
    ensures
        supply_color(used, cap) == (if cap - used <= 1 {
            rgb(255, 170, 70)
        } else {
            rgb(200, 210, 220)
        }),
{
}

} // verus!
