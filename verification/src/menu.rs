//! Menus: buttons, the screens in front of the game, the pause and game-over screens, and
//! the screen on which a host is chosen or an address is typed.

use vstd::prelude::*;
use vstd::string::*;
use crate::gfx::rgb;
use crate::num::{Num, V2};
use crate::scene::{frame, near, veil, Label, LabelV, Setting, Shape, SPAN};
use crate::text::{normalize_addr, with_port};

verus! {

/// A button: a labelled rectangle.
pub struct Btn {
    pub x: i32,
    pub y: i32,
    pub w: i32,
    pub h: i32,
    pub label: String,
    pub accent: u32,
}

/// A button, with its label as a sequence.
#[verifier::ext_equal]
pub struct BtnV {
    pub x: int,
    pub y: int,
    pub w: int,
    pub h: int,
    pub label: Seq<char>,
    pub accent: u32,
}

impl View for Btn {
    type V = BtnV;

    open spec fn view(&self) -> BtnV {
        BtnV {
            x: self.x as int,
            y: self.y as int,
            w: self.w as int,
            h: self.h as int,
            label: self.label@,
            accent: self.accent,
        }
    }
}

/// A button of a size, centred on a column.
pub open spec fn button(cx: int, y: int, w: int, h: int, label: Seq<char>, accent: u32) -> BtnV {
    BtnV { x: cx - w / 2, y, w, h, label, accent }
}

/// The colours of a button: its body and its border.
#[derive(Clone, Copy, PartialEq, Eq, Structural, Debug)]
pub struct BtnShades {
    pub body: u32,
    pub border: u32,
}

pub open spec fn btn_shapes(b: BtnV, s: BtnShades) -> Seq<Shape> {
    seq![veil(b.x, b.y, b.w, b.h, s.body, 92), frame(b.x, b.y, b.w, b.h, s.border)]
}

pub open spec fn btn_label(b: BtnV, hover: bool) -> LabelV {
    LabelV {
        x: b.x + b.w / 2,
        y: b.y + b.h / 2 - 7,
        text: b.label,
        color: if hover {
            rgb(248, 252, 252)
        } else {
            rgb(204, 216, 216)
        },
        scale: 3,
        setting: Setting::Centred,
    }
}

impl Btn {
    /// Whether a button has a size and lies within the coordinates of shapes.
    pub open spec fn wf(&self) -> bool {
        &&& near(self.x as int)
        &&& near(self.y as int)
        &&& 0 <= self.w <= SPAN
        &&& 0 <= self.h <= SPAN
    }

    /// A button centred on a column.
    pub fn new(cx: i32, y: i32, w: i32, h: i32, label: &str, accent: u32) -> (b: Btn)
        requires
            -SPAN / 2 <= cx <= SPAN / 2,
            near(y as int),
            0 <= w <= SPAN / 2,
            0 <= h <= SPAN / 2,
        ensures
            b.wf(),
            b@ == button(cx as int, y as int, w as int, h as int, label@, accent),
    {
        Btn { x: cx - w / 2, y, w, h, label: label.to_string(), accent }
    }

    /// Whether a point is on the button, its edges included.
    pub open spec fn covers(b: BtnV, m: V2) -> bool {
        &&& Num::integer(b.x as i32).at_most(m.x)
        &&& m.x.at_most(Num::integer((b.x + b.w) as i32))
        &&& Num::integer(b.y as i32).at_most(m.y)
        &&& m.y.at_most(Num::integer((b.y + b.h) as i32))
    }

    /// Whether a point is on the button, its edges included.
    pub fn hit(&self, m: V2) -> (r: bool)
        requires
            self.wf(),
        ensures
            r == Btn::covers(self@, m),
    {
        Num::integer(self.x).at_most(m.x) && m.x.at_most(Num::integer(self.x + self.w))
            && Num::integer(self.y).at_most(m.y) && m.y.at_most(Num::integer(self.y + self.h))
    }

    /// A button's shapes and its label; its shades depend on whether the cursor is on it.
    pub fn draw(&self, hover: bool, s: &BtnShades) -> (r: (Vec<Shape>, Label))
        requires
            self.wf(),
        ensures
            r.0@ == btn_shapes(self@, *s),
            r.1@ == btn_label(self@, hover),
    {
        let mut out: Vec<Shape> = Vec::new();
        out.push(Shape::Veil { x: self.x, y: self.y, w: self.w, h: self.h, color: s.body, share: 92 });
        out.push(Shape::Frame { x: self.x, y: self.y, w: self.w, h: self.h, color: s.border });
        assert(out@ =~= btn_shapes(self@, *s));
        let color: u32 = if hover {
            rgb(248, 252, 252)
        } else {
            rgb(204, 216, 216)
        };
        let l = Label {
            x: self.x + self.w / 2,
            y: self.y + self.h / 2 - 7,
            text: self.label.clone(),
            color,
            scale: 3,
            setting: Setting::Centred,
        };
        (out, l)
    }
}

pub open spec fn btns_view(s: Seq<Btn>) -> Seq<BtnV> {
    s.map_values(|b: Btn| b@)
}

fn push_btn(v: &mut Vec<Btn>, b: Btn)
    requires
        b.wf(),
        forall|i: int| 0 <= i < old(v)@.len() ==> (#[trigger] old(v)@[i]).wf(),
    ensures
        btns_view(final(v)@) == btns_view(old(v)@).push(b@),
        forall|i: int| 0 <= i < final(v)@.len() ==> (#[trigger] final(v)@[i]).wf(),
{
    let ghost o = v@;
    v.push(b);
    assert(btns_view(v@) =~= btns_view(o).push(b@));
}

/// What a button of the pause and game-over screens does.
#[derive(Clone, Copy, PartialEq, Eq, Structural, Debug)]
pub enum MenuAct {
    Resume,
    Surrender,
    Restart,
    ToMenu,
    Quit,
}

/// Where the front end goes next.
#[derive(Debug)]
pub enum AppNext {
    Menu,
    /// A free-for-all with this many factions.
    Single(usize),
    Host(u16),
    Join(String),
    Quit,
}

pub open spec fn is_join(n: AppNext, addr: Seq<char>) -> bool {
    match n {
        AppNext::Join(a) => a@ == addr,
        _ => false,
    }
}

/// The buttons of the pause screen, and what they do.
pub open spec fn pause_menu(cw: int, ch: int) -> (Seq<BtnV>, Seq<MenuAct>) {
    let cx = cw / 2;
    let y = ch / 2 - 64;
    (
        seq![
            button(cx, y, 320, 50, "RESUME  [ESC]"@, rgb(120, 230, 150)),
            button(cx, y + 64, 320, 50, "MAIN MENU  [M]"@, rgb(90, 200, 255)),
            button(cx, y + 128, 320, 50, "SURRENDER  [G]"@, rgb(240, 200, 110)),
            button(cx, y + 192, 320, 50, "QUIT  [Q]"@, rgb(240, 130, 120)),
        ],
        seq![MenuAct::Resume, MenuAct::ToMenu, MenuAct::Surrender, MenuAct::Quit],
    )
}

/// The buttons of the pause screen, and what they do.
pub fn pause_buttons(cw: i32, ch: i32) -> (r: (Vec<Btn>, Vec<MenuAct>))
    requires
        0 <= cw <= SPAN / 2,
        0 <= ch <= SPAN / 2,
    ensures
        btns_view(r.0@) == pause_menu(cw as int, ch as int).0,
        r.1@ == pause_menu(cw as int, ch as int).1,
        forall|i: int| 0 <= i < r.0@.len() ==> (#[trigger] r.0@[i]).wf(),
{
    let cx: i32 = cw / 2;
    let y: i32 = ch / 2 - 64;
    let mut v: Vec<Btn> = Vec::new();
    push_btn(&mut v, Btn::new(cx, y, 320, 50, "RESUME  [ESC]", rgb(120, 230, 150)));
    push_btn(&mut v, Btn::new(cx, y + 64, 320, 50, "MAIN MENU  [M]", rgb(90, 200, 255)));
    push_btn(&mut v, Btn::new(cx, y + 128, 320, 50, "SURRENDER  [G]", rgb(240, 200, 110)));
    push_btn(&mut v, Btn::new(cx, y + 192, 320, 50, "QUIT  [Q]", rgb(240, 130, 120)));
    let acts: Vec<MenuAct> = vec![MenuAct::Resume, MenuAct::ToMenu, MenuAct::Surrender, MenuAct::Quit];
    assert(btns_view(v@) =~= pause_menu(cw as int, ch as int).0);
    assert(acts@ =~= pause_menu(cw as int, ch as int).1);
    (v, acts)
}

/// The buttons of the game-over screen, and what they do. A match over a network cannot
/// be played again.
pub open spec fn gameover_menu(cw: int, ch: int, versus: bool) -> (Seq<BtnV>, Seq<MenuAct>) {
    let cx = cw / 2;
    let y = ch / 2 + 56;
    if versus {
        (
            seq![
                button(cx, y, 320, 50, "MAIN MENU  [M]"@, rgb(90, 200, 255)),
                button(cx, y + 64, 320, 50, "QUIT  [Q]"@, rgb(240, 130, 120)),
            ],
            seq![MenuAct::ToMenu, MenuAct::Quit],
        )
    } else {
        (
            seq![
                button(cx, y, 320, 50, "PLAY AGAIN  [R]"@, rgb(120, 230, 150)),
                button(cx, y + 64, 320, 50, "MAIN MENU  [M]"@, rgb(90, 200, 255)),
                button(cx, y + 128, 320, 50, "QUIT  [Q]"@, rgb(240, 130, 120)),
            ],
            seq![MenuAct::Restart, MenuAct::ToMenu, MenuAct::Quit],
        )
    }
}

/// The buttons of the game-over screen, and what they do.
pub fn gameover_buttons(cw: i32, ch: i32, versus: bool) -> (r: (Vec<Btn>, Vec<MenuAct>))
    requires
        0 <= cw <= SPAN / 2,
        0 <= ch <= SPAN / 2,
    ensures
        btns_view(r.0@) == gameover_menu(cw as int, ch as int, versus).0,
        r.1@ == gameover_menu(cw as int, ch as int, versus).1,
        forall|i: int| 0 <= i < r.0@.len() ==> (#[trigger] r.0@[i]).wf(),
{
    let cx: i32 = cw / 2;
    let mut y: i32 = ch / 2 + 56;
    let mut v: Vec<Btn> = Vec::new();
    let mut acts: Vec<MenuAct> = Vec::new();
    if !versus {
        push_btn(&mut v, Btn::new(cx, y, 320, 50, "PLAY AGAIN  [R]", rgb(120, 230, 150)));
        acts.push(MenuAct::Restart);
        y = y + 64;
    }
    push_btn(&mut v, Btn::new(cx, y, 320, 50, "MAIN MENU  [M]", rgb(90, 200, 255)));
    acts.push(MenuAct::ToMenu);
    push_btn(&mut v, Btn::new(cx, y + 64, 320, 50, "QUIT  [Q]", rgb(240, 130, 120)));
    acts.push(MenuAct::Quit);
    assert(btns_view(v@) =~= gameover_menu(cw as int, ch as int, versus).0);
    assert(acts@ =~= gameover_menu(cw as int, ch as int, versus).1);
    (v, acts)
}

/// A match over a network offers no way to play it again.
pub proof fn no_rematch_over_the_network(cw: int, ch: int)
    ensures
        !gameover_menu(cw, ch, true).1.contains(MenuAct::Restart),
        !pause_menu(cw, ch).1.contains(MenuAct::Restart),
{
}

/// The buttons of the main menu.
pub open spec fn main_menu(cw: int, ch: int) -> Seq<BtnV> {
    let cx = cw / 2;
    let y = ch / 2 - 70;
    seq![
        button(cx, y, 380, 56, "SINGLE PLAYER"@, rgb(120, 230, 140)),
        button(cx, y + 74, 380, 56, "HOST GAME (LAN)"@, rgb(90, 200, 255)),
        button(cx, y + 148, 380, 56, "JOIN GAME (LAN)"@, rgb(255, 200, 90)),
        button(cx, y + 222, 380, 56, "QUIT"@, rgb(235, 120, 110)),
    ]
}

/// The buttons of the main menu.
pub fn main_buttons(cw: i32, ch: i32) -> (v: Vec<Btn>)
    requires
        0 <= cw <= SPAN / 2,
        0 <= ch <= SPAN / 2,
    ensures
        btns_view(v@) == main_menu(cw as int, ch as int),
        forall|i: int| 0 <= i < v@.len() ==> (#[trigger] v@[i]).wf(),
{
    let cx: i32 = cw / 2;
    let y: i32 = ch / 2 - 70;
    let mut v: Vec<Btn> = Vec::new();
    push_btn(&mut v, Btn::new(cx, y, 380, 56, "SINGLE PLAYER", rgb(120, 230, 140)));
    push_btn(&mut v, Btn::new(cx, y + 74, 380, 56, "HOST GAME (LAN)", rgb(90, 200, 255)));
    push_btn(&mut v, Btn::new(cx, y + 148, 380, 56, "JOIN GAME (LAN)", rgb(255, 200, 90)));
    push_btn(&mut v, Btn::new(cx, y + 222, 380, 56, "QUIT", rgb(235, 120, 110)));
    assert(btns_view(v@) =~= main_menu(cw as int, ch as int));
    v
}

/// The buttons of the skirmish screen: one to three rivals, and the way back.
pub open spec fn skirmish_menu(cw: int, ch: int) -> Seq<BtnV> {
    let cx = cw / 2;
    let y = ch / 2 - 80;
    seq![
        button(cx, y, 380, 56, "1 AI  (DUEL)"@, rgb(120, 230, 140)),
        button(cx, y + 74, 380, 56, "2 AI  (3-WAY)"@, rgb(120, 230, 140)),
        button(cx, y + 148, 380, 56, "3 AI  (4-WAY)"@, rgb(120, 230, 140)),
        button(cx, y + 230, 220, 46, "BACK  [ESC]"@, rgb(180, 190, 196)),
    ]
}

/// The buttons of the skirmish screen.
pub fn skirmish_buttons(cw: i32, ch: i32) -> (v: Vec<Btn>)
    requires
        0 <= cw <= SPAN / 2,
        0 <= ch <= SPAN / 2,
    ensures
        btns_view(v@) == skirmish_menu(cw as int, ch as int),
        forall|i: int| 0 <= i < v@.len() ==> (#[trigger] v@[i]).wf(),
{
    let cx: i32 = cw / 2;
    let y: i32 = ch / 2 - 80;
    let mut v: Vec<Btn> = Vec::new();
    push_btn(&mut v, Btn::new(cx, y, 380, 56, "1 AI  (DUEL)", rgb(120, 230, 140)));
    push_btn(&mut v, Btn::new(cx, y + 74, 380, 56, "2 AI  (3-WAY)", rgb(120, 230, 140)));
    push_btn(&mut v, Btn::new(cx, y + 148, 380, 56, "3 AI  (4-WAY)", rgb(120, 230, 140)));
    push_btn(&mut v, Btn::new(cx, y + 230, 220, 46, "BACK  [ESC]", rgb(180, 190, 196)));
    assert(btns_view(v@) =~= skirmish_menu(cw as int, ch as int));
    v
}

/// The last button under a point, or one past the last if there is none.
pub open spec fn button_under(b: Seq<BtnV>, m: V2) -> int
    decreases b.len(),
{
    if b.len() == 0 {
        0
    } else if Btn::covers(b.last(), m) {
        b.len() - 1
    } else {
        let k = button_under(b.drop_last(), m);
        if k == b.len() - 1 {
            b.len() as int
        } else {
            k
        }
    }
}

/// The last button under a point.
pub fn pressed(v: &Vec<Btn>, m: V2) -> (r: Option<usize>)
    requires
        forall|i: int| 0 <= i < v@.len() ==> (#[trigger] v@[i]).wf(),
    ensures
        match r {
            Some(i) => i < v@.len() && button_under(btns_view(v@), m) == i,
            None => button_under(btns_view(v@), m) == v@.len(),
        },
{
    let mut r: Option<usize> = None;
    let ghost all = btns_view(v@);
    let n: usize = v.len();
    for i in 0..n
        invariant
            n == v@.len(),
            all == btns_view(v@),
            forall|i: int| 0 <= i < v@.len() ==> (#[trigger] v@[i]).wf(),
            match r {
                Some(k) => k < i && button_under(all.take(i as int), m) == k,
                None => button_under(all.take(i as int), m) == i,
            },
    {
        proof {
            assert(all.take(i + 1).drop_last() =~= all.take(i as int));
            assert(all.take(i + 1).last() == v@[i as int]@);
        }
        if v[i].hit(m) {
            r = Some(i);
        }
    }
    assert(all.take(n as int) =~= all);
    r
}

/// A key, as far as the menus read it.
#[derive(Clone, Copy, PartialEq, Eq, Structural, Debug)]
pub enum MenuKey {
    Digit(usize),
    Escape,
    Q,
    Other,
}

/// Which entry of the main menu a key stands for.
pub open spec fn main_choice_of(k: MenuKey) -> Option<usize> {
    match k {
        MenuKey::Digit(d) => if 1 <= d <= 4 {
            Some((d - 1) as usize)
        } else {
            None
        },
        MenuKey::Escape | MenuKey::Q => Some(3),
        MenuKey::Other => None,
    }
}

/// Which entry of the main menu a key stands for.
pub fn main_choice(k: MenuKey) -> (r: Option<usize>)
    ensures
        r == main_choice_of(k),
{
    match k {
        MenuKey::Digit(d) => if 1 <= d && d <= 4 {
            Some(d - 1)
        } else {
            None
        },
        MenuKey::Escape | MenuKey::Q => Some(3),
        MenuKey::Other => None,
    }
}

/// Where the skirmish screen leads after a key: a choice of one to three rivals stands for
/// a match of that many and the player; escape leads back.
pub open spec fn skirmish_after(k: MenuKey) -> Option<Option<usize>> {
    match k {
        MenuKey::Digit(d) => if 1 <= d <= 3 {
            Some(Some((d + 1) as usize))
        } else {
            None
        },
        MenuKey::Escape => Some(None),
        _ => None,
    }
}

/// Where the skirmish screen leads after a key: how many factions the match has, or none
/// for the way back.
pub fn skirmish_choice(k: MenuKey) -> (r: Option<Option<usize>>)
    ensures
        r == skirmish_after(k),
{
    match k {
        MenuKey::Digit(d) => if 1 <= d && d <= 3 {
            Some(Some(d + 1))
        } else {
            None
        },
        MenuKey::Escape => Some(None),
        _ => None,
    }
}

/// Longest address that can be typed.
pub const ADDR_MAX: usize = 23;

/// How many of the hosts found are offered.
pub const HOSTS_SHOWN: usize = 5;

/// The screen on which a host is chosen or an address is typed.
pub struct Browse {
    pub hosts: Vec<String>,
    pub addr: String,
}

/// A key, as far as the address field reads it.
#[derive(Clone, Copy, PartialEq, Eq, Structural, Debug)]
pub enum TypeKey {
    Escape,
    Backspace,
    Enter,
    /// A digit.
    Digit(u32),
    Dot,
    Colon,
    Other,
}

pub open spec fn hosts_view(h: Seq<String>) -> Seq<Seq<char>> {
    h.map_values(|s: String| s@)
}

/// The character that a key types.
pub open spec fn typed(k: TypeKey) -> Option<char> {
    match k {
        TypeKey::Digit(d) => if d < 10 {
            Some(crate::text::digit_char(d as int))
        } else {
            None
        },
        TypeKey::Dot => Some('.'),
        TypeKey::Colon => Some(':'),
        _ => None,
    }
}

/// The address field after a key.
pub open spec fn after_key(addr: Seq<char>, k: TypeKey) -> Seq<char> {
    if k == TypeKey::Backspace {
        if addr.len() > 0 {
            addr.drop_last()
        } else {
            addr
        }
    } else {
        match typed(k) {
            Some(c) => if addr.len() < ADDR_MAX {
                addr.push(c)
            } else {
                addr
            },
            None => addr,
        }
    }
}

impl Browse {
    /// Nobody found yet, nothing typed.
    pub fn new() -> (b: Browse)
        ensures
            b.hosts@.len() == 0,
            b.addr@ == Seq::<char>::empty(),
    {
        Browse { hosts: Vec::new(), addr: String::new() }
    }

    /// Notes a host that answered, once.
    pub fn found(&mut self, host: String)
        ensures
            final(self).addr == old(self).addr,
            hosts_view(final(self).hosts@) == (if hosts_view(old(self).hosts@).contains(host@) {
                hosts_view(old(self).hosts@)
            } else {
                hosts_view(old(self).hosts@).push(host@)
            }),
    {
        let ghost h = hosts_view(self.hosts@);
        let n: usize = self.hosts.len();
        for i in 0..n
            invariant
                n == self.hosts@.len(),
                *self == *old(self),
                h == hosts_view(self.hosts@),
                forall|k: int| 0 <= k < i ==> #[trigger] h[k] != host@,
        {
            if self.hosts[i] == host {
                assert(h[i as int] == host@);
                return;
            }
            assert(h[i as int] != host@);
        }
        self.hosts.push(host);
        assert(hosts_view(self.hosts@) =~= h.push(host@));
    }

    /// Reads a key: it edits the address, leads back, or, if there is an address, leads to
    /// the host there.
    pub fn key(&mut self, k: TypeKey) -> (next: Option<AppNext>)
        ensures
            final(self).hosts == old(self).hosts,
            final(self).addr@ == after_key(old(self).addr@, k),
            match next {
                Some(AppNext::Menu) => k == TypeKey::Escape,
                Some(AppNext::Join(a)) => k == TypeKey::Enter && old(self).addr@.len() > 0 && a@
                    == with_port(old(self).addr@),
                Some(_) => false,
                None => k != TypeKey::Escape && (k == TypeKey::Enter ==> old(self).addr@.len() == 0),
            },
    {
        match k {
            TypeKey::Escape => Some(AppNext::Menu),
            TypeKey::Enter => {
                if self.addr.as_str().unicode_len() > 0 {
                    Some(AppNext::Join(normalize_addr(self.addr.as_str())))
                } else {
                    None
                }
            },
            TypeKey::Backspace => {
                let n: usize = self.addr.as_str().unicode_len();
                if n > 0 {
                    let s: String = prefix(self.addr.as_str(), n - 1);
                    assert(s@ =~= self.addr@.drop_last());
                    self.addr = s;
                }
                None
            },
            _ => {
                let t: Option<&'static str> = key_text(k);
                if let Some(t) = t {
                    if self.addr.as_str().unicode_len() < ADDR_MAX {
                        let ghost a = self.addr@;
                        self.addr.append(t);
                        assert(self.addr@ =~= a.push(typed(k)->Some_0));
                    }
                }
                None
            },
        }
    }

    /// The address of the host on one of the buttons.
    pub fn choose_host(&self, i: usize) -> (next: Option<AppNext>)
        ensures
            match next {
                Some(n) => i < HOSTS_SHOWN && i < self.hosts@.len() && is_join(
                    n,
                    hosts_view(self.hosts@)[i as int],
                ),
                None => i >= HOSTS_SHOWN || i >= self.hosts@.len(),
            },
    {
        if i < HOSTS_SHOWN && i < self.hosts.len() {
            Some(AppNext::Join(self.hosts[i].clone()))
        } else {
            None
        }
    }
}

/// The buttons of the hosts found, as many as are offered, and the way back.
pub open spec fn browse_menu(hosts: Seq<Seq<char>>, cw: int, ch: int) -> Seq<BtnV> {
    host_menu(hosts, cw, ch, shown_hosts(hosts.len() as int)).push(
        button(cw / 2, ch - 92, 220, 44, "BACK  [ESC]"@, rgb(180, 190, 196)),
    )
}

pub open spec fn shown_hosts(n: int) -> int {
    if n > HOSTS_SHOWN {
        HOSTS_SHOWN as int
    } else {
        n
    }
}

pub open spec fn host_menu(hosts: Seq<Seq<char>>, cw: int, ch: int, n: int) -> Seq<BtnV> {
    Seq::new(
        n as nat,
        |i: int| button(cw / 2, ch / 2 - 130 + i * 60, 480, 48, hosts[i], rgb(120, 230, 150)),
    )
}

impl Browse {
    /// The buttons of the hosts found, and the way back.
    pub fn buttons(&self, cw: i32, ch: i32) -> (v: Vec<Btn>)
        requires
            0 <= cw <= SPAN / 2,
            0 <= ch <= SPAN / 2,
        ensures
            btns_view(v@) == browse_menu(hosts_view(self.hosts@), cw as int, ch as int),
            forall|i: int| 0 <= i < v@.len() ==> (#[trigger] v@[i]).wf(),
    {
        let ghost h = hosts_view(self.hosts@);
        let n: usize = if self.hosts.len() > HOSTS_SHOWN {
            HOSTS_SHOWN
        } else {
            self.hosts.len()
        };
        let mut v: Vec<Btn> = Vec::new();
        assert(btns_view(v@) =~= host_menu(h, cw as int, ch as int, 0));
        for i in 0..n
            invariant
                n <= self.hosts@.len(),
                n <= HOSTS_SHOWN,
                0 <= cw <= SPAN / 2,
                0 <= ch <= SPAN / 2,
                h == hosts_view(self.hosts@),
                btns_view(v@) == host_menu(h, cw as int, ch as int, i as int),
                forall|i: int| 0 <= i < v@.len() ==> (#[trigger] v@[i]).wf(),
        {
            let b = Btn::new(
                cw / 2,
                ch / 2 - 130 + i as i32 * 60,
                480,
                48,
                self.hosts[i].as_str(),
                rgb(120, 230, 150),
            );
            push_btn(&mut v, b);
            assert(btns_view(v@) =~= host_menu(h, cw as int, ch as int, i + 1));
        }
        push_btn(&mut v, Btn::new(cw / 2, ch - 92, 220, 44, "BACK  [ESC]", rgb(180, 190, 196)));
        v
    }

    /// Where a click leads: to the host whose button is under it, or back.
    pub fn click(&self, m: V2, cw: i32, ch: i32) -> (next: Option<AppNext>)
        requires
            0 <= cw <= SPAN / 2,
            0 <= ch <= SPAN / 2,
        ensures
            ({
                let h = hosts_view(self.hosts@);
                let k = button_under(browse_menu(h, cw as int, ch as int), m);
                let n = shown_hosts(h.len() as int);
                match next {
                    Some(AppNext::Menu) => k == n,
                    Some(a) => k < n && is_join(a, h[k]),
                    None => k > n,
                }
            }),
    {
        let v: Vec<Btn> = self.buttons(cw, ch);
        match pressed(&v, m) {
            Some(i) => if i + 1 == v.len() {
                Some(AppNext::Menu)
            } else {
                self.choose_host(i)
            },
            None => None,
        }
    }
}

/// What can be typed stays short.
pub proof fn addresses_stay_short(addr: Seq<char>, k: TypeKey)
    requires
        addr.len() <= ADDR_MAX,
    ensures
        after_key(addr, k).len() <= ADDR_MAX,
{
}

/// Backspace takes back what was typed.
pub proof fn backspace_undoes_typing(addr: Seq<char>, k: TypeKey)
    requires
        addr.len() < ADDR_MAX,
        typed(k) is Some,
    ensures
        after_key(after_key(addr, k), TypeKey::Backspace) == addr,
{
    assert(after_key(addr, k).drop_last() =~= addr);
}

/// The text that a key types.
fn key_text(k: TypeKey) -> (r: Option<&'static str>)
    ensures
        match r {
            Some(t) => typed(k) is Some && t@ == seq![typed(k)->Some_0],
            None => typed(k) is None,
        },
{
    proof {
        reveal_strlit(".");
        reveal_strlit(":");
        assert("."@ =~= seq!['.']);
        assert(":"@ =~= seq![':']);
    }
    match k {
        TypeKey::Digit(d) => if d < 10 {
            Some(crate::text::digit_text(d))
        } else {
            None
        },
        TypeKey::Dot => Some("."),
        TypeKey::Colon => Some(":"),
        _ => None,
    }
}

/// The first characters of a text.
fn prefix(s: &str, n: usize) -> (r: String)
    requires
        n <= s@.len(),
    ensures
        r@ == s@.take(n as int),
{
    let t: &str = s.substring_char(0, n);
    let r: String = t.to_string();
    assert(r@ =~= s@.take(n as int));
    r
}

/// How many dots of an animation are shown at a tick, one to four.
pub fn dots(t: u64) -> (n: usize)
    ensures
        n == (t as int / 16) % 4 + 1,
{
    ((t / 16) % 4) as usize + 1
}

/// Whether the caret is shown at a tick.
pub fn caret(t: u64) -> (on: bool)
    ensures
        on == ((t as int / 28) % 2 == 0),
{
    (t / 28) % 2 == 0
}

/// Whether hosts are asked to answer at a tick of the browsing screen.
pub fn browse_pings(t: u64) -> (r: bool)
    ensures
        r == (t % 20 == 0),
{
    t % 20 == 0
}

/// Whether hosts are asked to answer at a tick of the automatic search.
pub fn search_pings(t: u64) -> (r: bool)
    ensures
        r == (t % 24 == 0),
{
    t % 24 == 0
}

// ---- what the buttons do ----------------------------------------------------------------------------------

/// Every button does what it says.
pub proof fn buttons_do_what_they_say(cw: int, ch: int, versus: bool)
    ensures
        ({
            let (b, a) = pause_menu(cw, ch);
            &&& b.len() == 4 && a.len() == 4
            &&& b[0].label == "RESUME  [ESC]"@ && a[0] == MenuAct::Resume
            &&& b[1].label == "MAIN MENU  [M]"@ && a[1] == MenuAct::ToMenu
            &&& b[2].label == "SURRENDER  [G]"@ && a[2] == MenuAct::Surrender
            &&& b[3].label == "QUIT  [Q]"@ && a[3] == MenuAct::Quit
        }),
        ({
            let (b, a) = gameover_menu(cw, ch, versus);
            &&& b.len() == a.len()
            &&& versus ==> b.len() == 2 && b[0].label == "MAIN MENU  [M]"@ && a[0] == MenuAct::ToMenu && b[1].label
                == "QUIT  [Q]"@ && a[1] == MenuAct::Quit
            &&& !versus ==> b.len() == 3 && b[0].label == "PLAY AGAIN  [R]"@ && a[0] == MenuAct::Restart && b[1].label
                == "MAIN MENU  [M]"@ && a[1] == MenuAct::ToMenu && b[2].label == "QUIT  [Q]"@ && a[2] == MenuAct::Quit
        }),
        main_menu(cw, ch).len() == 4 && main_menu(cw, ch)[0].label == "SINGLE PLAYER"@ && main_menu(cw, ch)[1].label
            == "HOST GAME (LAN)"@ && main_menu(cw, ch)[2].label == "JOIN GAME (LAN)"@ && main_menu(cw, ch)[3].label
            == "QUIT"@,
        skirmish_menu(cw, ch).len() == 4 && skirmish_menu(cw, ch)[0].label == "1 AI  (DUEL)"@,
{
}

/// No two buttons of a menu overlap.
pub proof fn buttons_do_not_overlap(cw: int, ch: int, i: int, j: int)
    requires
        0 <= i < j < 4,
    ensures
        pause_menu(cw, ch).0[i].y + pause_menu(cw, ch).0[i].h < pause_menu(cw, ch).0[j].y,
        main_menu(cw, ch)[i].y + main_menu(cw, ch)[i].h < main_menu(cw, ch)[j].y,
        skirmish_menu(cw, ch)[i].y + skirmish_menu(cw, ch)[i].h < skirmish_menu(cw, ch)[j].y,
{
}

/// A press lands on a button that is under it, the last one if several are, and on none only
/// where there is none.
pub proof fn presses_land_on_buttons(b: Seq<BtnV>, m: V2, j: int)
    requires
        0 <= j < b.len(),
    ensures
        0 <= button_under(b, m) <= b.len(),
        Btn::covers(b[j], m) ==> j <= button_under(b, m) < b.len(),
        button_under(b, m) < b.len() ==> Btn::covers(b[button_under(b, m)], m),
    decreases b.len(),
{
    let front = b.drop_last();
    if !Btn::covers(b.last(), m) && front.len() > 0 {
        let k = if j < front.len() {
            j
        } else {
            0
        };
        presses_land_on_buttons(front, m, k);
        if j < front.len() {
            assert(front[j] == b[j]);
        }
        let u = button_under(front, m);
        if u < front.len() {
            assert(front[u] == b[u]);
        }
    } else if !Btn::covers(b.last(), m) {
        assert(button_under(front, m) == 0);
        assert(b[0] == b.last());
    }
}

/// A button is under a point on it, its edges included, and under no other.
pub proof fn buttons_cover_their_area(b: BtnV, m: V2)
    ensures
        Btn::covers(b, m) <==> Num::integer(b.x as i32).at_most(m.x) && m.x.at_most(
            Num::integer((b.x + b.w) as i32),
        ) && Num::integer(b.y as i32).at_most(m.y) && m.y.at_most(Num::integer((b.y + b.h) as i32)),
{
}

/// The keys of the menus: one to four for the buttons of the first, and as many computers as the
/// digit says in the second.
pub proof fn menu_keys_choose(d: usize)
    ensures
        main_choice_of(MenuKey::Escape) == Some(3usize) && main_choice_of(MenuKey::Q) == Some(3usize),
        1 <= d <= 4 ==> main_choice_of(MenuKey::Digit(d)) == Some((d - 1) as usize),
        !(1 <= d <= 4) ==> main_choice_of(MenuKey::Digit(d)) is None,
        1 <= d <= 3 ==> skirmish_after(MenuKey::Digit(d)) == Some(Some((d + 1) as usize)),
        !(1 <= d <= 3) ==> skirmish_after(MenuKey::Digit(d)) is None,
        skirmish_after(MenuKey::Escape) == Some(None::<usize>),
{
}

/// What is typed is added at the end while there is room for it, and backspace takes away the
/// last character.
pub proof fn typing_adds_and_backspace_takes(addr: Seq<char>, d: u32)
    ensures
        addr.len() < 23 ==> after_key(addr, TypeKey::Dot) == addr.push('.') && after_key(addr, TypeKey::Colon)
            == addr.push(':'),
        addr.len() < 23 && d < 10 ==> after_key(addr, TypeKey::Digit(d)) == addr.push(crate::text::digit_char(d as int)),
        addr.len() >= 23 ==> after_key(addr, TypeKey::Dot) == addr,
        addr.len() > 0 ==> after_key(addr, TypeKey::Backspace) == addr.drop_last(),
        addr.len() == 0 ==> after_key(addr, TypeKey::Backspace) == addr,
{
}

} // verus!
