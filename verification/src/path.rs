//! Routes over the tile grid. Tiles are passable unless a cliff or a building
//! stands on them; a step goes to one of the eight neighbours, and a diagonal one
//! never cuts a blocked corner. `find_cells` is an A* search, and its result is a
//! cheapest route.

use vstd::prelude::*;
use vstd::multiset::Multiset;
use crate::heap::{entry_le, Entry, Heap};

verus! {

/// Open ground.
pub const T_OPEN: u8 = 0;

/// High ground: a passable plateau with a vision edge.
pub const T_HIGH: u8 = 1;

/// An impassable plateau wall.
pub const T_CLIFF: u8 = 2;

/// The passable way up.
pub const T_RAMP: u8 = 3;

/// Most tiles a grid may have.
pub const MAX_TILES: usize = 50_000_000;

/// Cost of a straight and of a diagonal step.
pub const STRAIGHT: i32 = 10;

pub const DIAGONAL: i32 = 14;

/// The tile grid: terrain codes, and which tiles a building or a patch occupies.
pub struct Grid {
    pub tw: usize,
    pub th: usize,
    pub terrain: Vec<u8>,
    pub block: Vec<u8>,
}

/// What the searches read of a grid: its width, its height and the passability of
/// each tile in row order.
#[verifier::ext_equal]
pub struct Lattice {
    pub tw: int,
    pub th: int,
    pub free: Seq<bool>,
}

impl View for Grid {
    type V = Lattice;

    open spec fn view(&self) -> Lattice {
        Lattice {
            tw: self.tw as int,
            th: self.th as int,
            free: Seq::new(
                (self.tw * self.th) as nat,
                |i: int| self.terrain@[i] != T_CLIFF && self.block@[i] == 0,
            ),
        }
    }
}

pub open spec fn abs(a: int) -> int {
    if a < 0 {
        -a
    } else {
        a
    }
}

pub open spec fn max(a: int, b: int) -> int {
    if a < b {
        b
    } else {
        a
    }
}

pub open spec fn min(a: int, b: int) -> int {
    if a < b {
        a
    } else {
        b
    }
}

impl Lattice {
    pub open spec fn wf(self) -> bool {
        &&& 0 < self.tw
        &&& 0 < self.th
        &&& self.free.len() == self.tw * self.th
        &&& self.tw * self.th <= MAX_TILES
    }

    /// Whether a unit can stand on tile `(x, y)`; off the map it cannot.
    pub open spec fn passable(self, x: int, y: int) -> bool {
        0 <= x < self.tw && 0 <= y < self.th && self.free[y * self.tw + x]
    }

    /// Number of tiles.
    pub open spec fn n(self) -> int {
        self.tw * self.th
    }

    /// Column of a tile index.
    pub open spec fn x(self, v: int) -> int {
        v % self.tw
    }

    /// Row of a tile index.
    pub open spec fn y(self, v: int) -> int {
        v / self.tw
    }

    /// Whether one step leads from tile `u` to tile `v`.
    pub open spec fn step(self, u: int, v: int) -> bool {
        let dx = self.x(v) - self.x(u);
        let dy = self.y(v) - self.y(u);
        &&& 0 <= u < self.n()
        &&& 0 <= v < self.n()
        &&& abs(dx) <= 1
        &&& abs(dy) <= 1
        &&& u != v
        &&& self.free[v]
        &&& (dx != 0 && dy != 0 ==> self.passable(self.x(v), self.y(u)) && self.passable(
            self.x(u),
            self.y(v),
        ))
    }

    /// What the step from `u` to `v` costs.
    pub open spec fn step_cost(self, u: int, v: int) -> int {
        if self.x(u) != self.x(v) && self.y(u) != self.y(v) {
            DIAGONAL as int
        } else {
            STRAIGHT as int
        }
    }

    /// Whether `p` is a walk from tile `s` to tile `t`, one step at a time.
    pub open spec fn is_route(self, p: Seq<int>, s: int, t: int) -> bool {
        &&& p.len() > 0
        &&& p[0] == s
        &&& p.last() == t
        &&& 0 <= s < self.n()
        &&& forall|i: int, j: int|
            0 <= i && j == i + 1 && j < p.len() ==> #[trigger] self.step(p[i], #[trigger] p[j])
    }

    /// What walking `p` costs.
    pub open spec fn route_cost(self, p: Seq<int>) -> int
        decreases p.len(),
    {
        if p.len() <= 1 {
            0
        } else {
            self.route_cost(p.drop_last()) + self.step_cost(p[p.len() - 2], p.last())
        }
    }

    /// Whether some walk leads from `s` to `t`.
    pub open spec fn connected(self, s: int, t: int) -> bool {
        exists|p: Seq<int>| self.is_route(p, s, t)
    }

    /// Whether `p` is a cheapest walk from `s` to `t`.
    pub open spec fn is_cheapest(self, p: Seq<int>, s: int, t: int) -> bool {
        &&& self.is_route(p, s, t)
        &&& forall|q: Seq<int>| #[trigger]
            self.is_route(q, s, t) ==> self.route_cost(p) <= self.route_cost(q)
    }

    /// Cost of the way from `v` to `goal` on a grid without obstacles.
    pub open spec fn octile(self, v: int, goal: int) -> int {
        let dx = abs(self.x(v) - self.x(goal));
        let dy = abs(self.y(v) - self.y(goal));
        10 * (dx + dy) - 6 * min(dx, dy)
    }
}

/// Rings around a tile.
pub open spec fn ring(dx: int, dy: int) -> int {
    max(abs(dx), abs(dy))
}

/// The order in which tiles around a centre are tried: ring by ring, and within a
/// ring row by row.
pub open spec fn tried_before(ax: int, ay: int, bx: int, by: int) -> bool {
    ring(ax, ay) < ring(bx, by) || (ring(ax, ay) == ring(bx, by) && (ay < by || (ay == by && ax < bx)))
}

impl Lattice {
    /// How many rings around a tile are tried.
    pub open spec fn reach(self) -> int {
        max(self.tw, self.th)
    }

    /// Whether `(x, y)` is the passable tile that is tried first around `(cx, cy)`.
    pub open spec fn is_nearest(self, cx: int, cy: int, x: int, y: int) -> bool {
        &&& self.passable(x, y)
        &&& ring(x - cx, y - cy) < self.reach()
        &&& forall|a: int, b: int| #[trigger]
            self.passable(a, b) && !(a == x && b == y) ==> tried_before(
                x - cx,
                y - cy,
                a - cx,
                b - cy,
            )
    }

    /// Whether no tile within reach of `(cx, cy)` is passable.
    pub open spec fn walled_in(self, cx: int, cy: int) -> bool {
        forall|a: int, b: int| #[trigger] self.passable(a, b) ==> ring(a - cx, b - cy) >= self.reach()
    }

    /// Index of a tile.
    pub open spec fn at(self, x: int, y: int) -> int {
        y * self.tw + x
    }
}

/// A tile index, named so that quantifiers over tiles can be instantiated.
spec fn lattice_index(g: Lattice, v: int) -> int {
    v
}

pub proof fn lemma_xy(g: Lattice, x: int, y: int)
    requires
        0 < g.tw,
        0 <= x < g.tw,
        0 <= y < g.th,
    ensures
        0 <= y * g.tw + x < g.n(),
        g.x(y * g.tw + x) == x,
        g.y(y * g.tw + x) == y,
{
    let tw = g.tw;
    let th = g.th;
    assert(0 <= y * tw + x < tw * th) by (nonlinear_arith)
        requires
            0 <= x < tw,
            0 <= y < th,
    ;
    vstd::arithmetic::div_mod::lemma_fundamental_div_mod_converse(y * tw + x, tw, y, x);
}

proof fn lemma_index(g: Lattice, v: int)
    requires
        0 < g.tw,
        0 <= v < g.n(),
    ensures
        0 <= g.x(v) < g.tw,
        0 <= g.y(v) < g.th,
        g.y(v) * g.tw + g.x(v) == v,
{
    let tw = g.tw;
    let th = g.th;
    vstd::arithmetic::div_mod::lemma_fundamental_div_mod(v, tw);
    assert(v / tw * tw == tw * (v / tw)) by (nonlinear_arith);
    assert(0 <= v / tw < th) by (nonlinear_arith)
        requires
            0 <= v < tw * th,
            0 < tw,
    ;
}

/// A step never gains more on the goal than it costs, and the way left is never
/// negative, nor positive at the goal itself.
proof fn lemma_octile_step(g: Lattice, u: int, v: int, goal: int)
    requires
        g.wf(),
        g.step(u, v),
    ensures
        g.octile(u, goal) <= g.step_cost(u, v) + g.octile(v, goal),
{
    lemma_index(g, u);
    lemma_index(g, v);
}

proof fn lemma_octile_bounds(g: Lattice, v: int, goal: int)
    requires
        g.wf(),
        0 <= v < g.n(),
        0 <= goal < g.n(),
    ensures
        0 <= g.octile(v, goal) <= 10 * (g.n() + 1),
        g.octile(goal, goal) == 0,
{
    lemma_index(g, v);
    lemma_index(g, goal);
    let tw = g.tw;
    let th = g.th;
    assert(tw + th <= tw * th + 1) by (nonlinear_arith)
        requires
            0 < tw,
            0 < th,
    ;
}


// ---- walks ---------------------------------------------------------------

proof fn lemma_cost_prepend(g: Lattice, u: int, p: Seq<int>)
    requires
        p.len() > 0,
    ensures
        g.route_cost(seq![u] + p) == g.step_cost(u, p[0]) + g.route_cost(p),
    decreases p.len(),
{
    let q = seq![u] + p;
    if p.len() == 1 {
        assert(q.drop_last().len() == 1);
        assert(g.route_cost(q.drop_last()) == 0);
    } else {
        lemma_cost_prepend(g, u, p.drop_last());
        assert(q.drop_last() =~= seq![u] + p.drop_last());
    }
}

proof fn lemma_cost_push(g: Lattice, p: Seq<int>, v: int)
    requires
        p.len() > 0,
    ensures
        g.route_cost(p.push(v)) == g.route_cost(p) + g.step_cost(p.last(), v),
{
    assert(p.push(v).drop_last() =~= p);
}

proof fn lemma_route_in_range(g: Lattice, p: Seq<int>, s: int, t: int, i: int)
    requires
        g.is_route(p, s, t),
        0 <= i < p.len(),
    ensures
        0 <= p[i] < g.n(),
{
    if i > 0 {
        assert(g.step(p[i - 1], p[i]));
    }
}

proof fn lemma_cost_bound(g: Lattice, p: Seq<int>)
    ensures
        0 <= g.route_cost(p),
        p.len() > 0 ==> g.route_cost(p) <= 14 * (p.len() - 1),
    decreases p.len(),
{
    if p.len() > 1 {
        lemma_cost_bound(g, p.drop_last());
    }
}

/// A walk that visits no tile twice is shorter than the grid has tiles.
proof fn lemma_simple_walk_is_short(g: Lattice, p: Seq<int>, s: int, t: int)
    requires
        g.is_route(p, s, t),
        p.no_duplicates(),
    ensures
        p.len() <= g.n(),
        g.route_cost(p) <= 14 * (g.n() - 1),
{
    let all = vstd::set_lib::set_int_range(0, g.n());
    vstd::set_lib::lemma_int_range(0, g.n());
    assert forall|v: int| p.to_set().contains(v) implies all.contains(v) by {
        let i = choose|i: int| 0 <= i < p.len() && p[i] == v;
        lemma_route_in_range(g, p, s, t, i);
    }
    vstd::set_lib::lemma_len_subset(p.to_set(), all);
    p.unique_seq_to_set();
    lemma_cost_bound(g, p);
}

// ---- the state of a search -------------------------------------------------

/// Whether a tile has been reached.
spec fn reached(gc: Seq<i32>, v: int) -> bool {
    gc[v] != i32::MAX
}

/// The best known costs and predecessors: the start costs nothing, and every other
/// reached tile is entered from a reached one for no more than its own cost.
#[verifier::opaque]
spec fn costs_ok(g: Lattice, s: int, gc: Seq<i32>, came: Seq<i32>) -> bool {
    &&& gc.len() == g.n()
    &&& came.len() == g.n()
    &&& gc[s] == 0
    &&& came[s] == -1
    &&& forall|v: int| 0 <= v < g.n() && #[trigger] reached(gc, v) ==> gc[v] >= 0
    &&& forall|v: int|
        0 <= v < g.n() && #[trigger] reached(gc, v) && v != s ==> {
            let u = came[v] as int;
            &&& 0 <= u < g.n()
            &&& reached(gc, u)
            &&& g.step(u, v)
            &&& gc[u] + g.step_cost(u, v) <= gc[v]
        }
}

/// A walk of exactly the known cost leads to tile `v`, and no tile on it is known
/// to be more expensive than the walk makes it.
spec fn walk_ok(g: Lattice, s: int, gc: Seq<i32>, w: Seq<int>, v: int) -> bool {
    &&& g.is_route(w, s, v)
    &&& w.no_duplicates()
    &&& g.route_cost(w) == gc[v]
    &&& forall|i: int|
        0 <= i < w.len() ==> reached(gc, #[trigger] w[i]) && gc[w[i]] <= g.route_cost(w.take(i + 1))
}

#[verifier::opaque]
spec fn walks_ok(g: Lattice, s: int, gc: Seq<i32>, walks: Seq<Seq<int>>) -> bool {
    &&& walks.len() == g.n()
    &&& forall|v: int| 0 <= v < g.n() && reached(gc, v) ==> walk_ok(g, s, gc, #[trigger] walks[v], v)
}

/// No frontier entry promises less than what is known of its tile.
#[verifier::opaque]
spec fn entries_ok(g: Lattice, goal: int, gc: Seq<i32>, heap: Multiset<Entry>) -> bool {
    forall|e: Entry| #[trigger]
        heap.contains(e) ==> 0 <= e.cell < g.n() && reached(gc, e.cell as int) && e.f >= gc[e.cell as int]
            + g.octile(e.cell as int, goal)
}

/// A tile waits in the frontier under its known cost.
spec fn open(g: Lattice, goal: int, gc: Seq<i32>, heap: Multiset<Entry>, v: int) -> bool {
    exists|e: Entry| #[trigger] heap.contains(e) && e.cell == v && e.f == gc[v] + g.octile(v, goal)
}

/// Every step out of a tile has been accounted for.
spec fn settled(g: Lattice, gc: Seq<i32>, v: int) -> bool {
    forall|w: int| #[trigger]
        g.step(v, w) ==> reached(gc, w) && gc[w] <= gc[v] + g.step_cost(v, w)
}

/// Every reached tile but `u` is open or settled.
#[verifier::opaque]
spec fn frontier_ok(g: Lattice, goal: int, gc: Seq<i32>, heap: Multiset<Entry>, u: int) -> bool {
    forall|v: int|
        0 <= v < g.n() && #[trigger] reached(gc, v) && v != u ==> open(g, goal, gc, heap, v) || settled(
            g,
            gc,
            v,
        )
}

/// Sum of the known costs, an unreached tile counting as `cap`.
spec fn potential(gc: Seq<i32>, cap: int) -> int
    decreases gc.len(),
{
    if gc.len() == 0 {
        0
    } else {
        potential(gc.drop_last(), cap) + if gc.last() == i32::MAX {
            cap
        } else {
            gc.last() as int
        }
    }
}

proof fn lemma_potential_update(gc: Seq<i32>, v: int, c: i32, cap: int)
    requires
        0 <= v < gc.len(),
    ensures
        potential(gc.update(v, c), cap) == potential(gc, cap) - (if gc[v] == i32::MAX {
            cap
        } else {
            gc[v] as int
        }) + (if c == i32::MAX {
            cap
        } else {
            c as int
        }),
    decreases gc.len(),
{
    let t = gc.update(v, c);
    if v == gc.len() - 1 {
        assert(t.drop_last() =~= gc.drop_last());
    } else {
        lemma_potential_update(gc.drop_last(), v, c, cap);
        assert(t.drop_last() =~= gc.drop_last().update(v, c));
    }
}

proof fn lemma_potential_bounds(gc: Seq<i32>, cap: int)
    requires
        0 <= cap,
        forall|v: int| 0 <= v < gc.len() ==> 0 <= #[trigger] gc[v],
    ensures
        0 <= potential(gc, cap),
    decreases gc.len(),
{
    if gc.len() > 0 {
        let t = gc.drop_last();
        assert forall|v: int| 0 <= v < t.len() implies 0 <= #[trigger] t[v] by {
            assert(t[v] == gc[v]);
        }
        lemma_potential_bounds(t, cap);
    }
}

proof fn lemma_potential_start(n: nat, cap: int)
    requires
        0 <= cap,
    ensures
        potential(Seq::new(n, |i: int| i32::MAX), cap) == n * cap,
    decreases n,
{
    let s = Seq::new(n, |i: int| i32::MAX);
    if n > 0 {
        lemma_potential_start((n - 1) as nat, cap);
        assert(s.drop_last() =~= Seq::new((n - 1) as nat, |i: int| i32::MAX));
        assert((n - 1) * cap + cap == n * cap) by (nonlinear_arith);
    } else {
        assert(n * cap == 0) by (nonlinear_arith)
            requires
                n == 0,
        ;
    }
}

/// Entering `v` from `u` for less than known keeps the state sound.
proof fn lemma_relax(
    g: Lattice,
    s: int,
    goal: int,
    gc: Seq<i32>,
    came: Seq<i32>,
    walks: Seq<Seq<int>>,
    heap: Multiset<Entry>,
    u: int,
    v: int,
    ng: i32,
    e: Entry,
)
    requires
        g.wf(),
        0 <= s < g.n(),
        0 <= goal < g.n(),
        costs_ok(g, s, gc, came),
        walks_ok(g, s, gc, walks),
        entries_ok(g, goal, gc, heap),
        frontier_ok(g, goal, gc, heap, u),
        0 <= u < g.n(),
        reached(gc, u),
        g.step(u, v),
        ng == gc[u] + g.step_cost(u, v),
        ng < gc[v],
        e.cell == v,
        e.f == ng + g.octile(v, goal),
    ensures
        costs_ok(g, s, gc.update(v, ng), came.update(v, u as i32)),
        walks_ok(g, s, gc.update(v, ng), walks.update(v, walks[u].push(v))),
        entries_ok(g, goal, gc.update(v, ng), heap.insert(e)),
        frontier_ok(g, goal, gc.update(v, ng), heap.insert(e), u),
{
    reveal(costs_ok);
    reveal(walks_ok);
    reveal(entries_ok);
    reveal(frontier_ok);
    let gc2 = gc.update(v, ng);
    let came2 = came.update(v, u as i32);
    let w = walks[u];
    let nw = w.push(v);
    let walks2 = walks.update(v, nw);
    let heap2 = heap.insert(e);
    assert(gc[u] >= 0);
    assert(v != s);
    assert(walk_ok(g, s, gc, walks[u], u));
    assert forall|x: int| 0 <= x < g.n() implies #[trigger] reached(gc2, x) == (x == v || reached(
        gc,
        x,
    )) by {}
    assert forall|x: int| 0 <= x < g.n() && #[trigger] reached(gc2, x) && x != s implies {
        let y = came2[x] as int;
        &&& 0 <= y < g.n()
        &&& reached(gc2, y)
        &&& g.step(y, x)
        &&& gc2[y] + g.step_cost(y, x) <= gc2[x]
    } by {
        if x != v {
            assert(reached(gc, x));
            assert(reached(gc, came[x] as int));
        }
    }
    // the new walk
    assert forall|i: int, j: int| 0 <= i && j == i + 1 && j < nw.len() implies #[trigger] g.step(
        nw[i],
        #[trigger] nw[j],
    ) by {
        if j < w.len() {
            assert(g.step(w[i], w[j]));
        }
    }
    lemma_cost_push(g, w, v);
    assert forall|i: int| 0 <= i < w.len() implies w[i] != v by {
        if w[i] == v {
            assert(gc[w[i]] <= g.route_cost(w.take(i + 1)));
            lemma_prefix_cost(g, w, i + 1);
        }
    }
    assert(nw.no_duplicates());
    assert(walk_ok(g, s, gc2, nw, v)) by {
        assert forall|i: int| 0 <= i < nw.len() implies reached(gc2, #[trigger] nw[i]) && gc2[nw[i]]
            <= g.route_cost(nw.take(i + 1)) by {
            if i < w.len() {
                assert(nw.take(i + 1) =~= w.take(i + 1));
                assert(reached(gc, w[i]));
                lemma_route_in_range(g, w, s, u, i);
            } else {
                assert(nw.take(i + 1) =~= nw);
            }
        }
    }
    assert forall|x: int| 0 <= x < g.n() && reached(gc2, x) implies walk_ok(
        g,
        s,
        gc2,
        #[trigger] walks2[x],
        x,
    ) by {
        if x != v {
            assert(reached(gc, x));
            let wx = walks[x];
            assert(walk_ok(g, s, gc, walks[x], x));
            assert forall|i: int| 0 <= i < wx.len() implies reached(gc2, #[trigger] wx[i]) && gc2[wx[i]]
                <= g.route_cost(wx.take(i + 1)) by {
                assert(reached(gc, wx[i]));
                lemma_route_in_range(g, wx, s, x, i);
            }
        }
    }
    // the frontier
    assert forall|y: Entry| #[trigger] heap2.contains(y) implies 0 <= y.cell < g.n() && reached(
        gc2,
        y.cell as int,
    ) && y.f >= gc2[y.cell as int] + g.octile(y.cell as int, goal) by {
        if y != e {
            assert(heap.contains(y));
        }
    }
    assert forall|x: int| 0 <= x < g.n() && #[trigger] reached(gc2, x) && x != u implies open(
        g,
        goal,
        gc2,
        heap2,
        x,
    ) || settled(g, gc2, x) by {
        if x == v {
            assert(heap2.contains(e));
        } else {
            assert(reached(gc, x));
            if open(g, goal, gc, heap, x) {
                let y = choose|y: Entry| #[trigger]
                    heap.contains(y) && y.cell == x && y.f == gc[x] + g.octile(x, goal);
                assert(heap2.contains(y));
            } else {
                assert forall|z: int| #[trigger] g.step(x, z) implies reached(gc2, z) && gc2[z]
                    <= gc2[x] + g.step_cost(x, z) by {
                    assert(reached(gc, z));
                }
            }
        }
    }
}

/// A prefix of a walk costs no more than the walk.
proof fn lemma_prefix_cost(g: Lattice, p: Seq<int>, k: int)
    requires
        0 <= k <= p.len(),
    ensures
        g.route_cost(p.take(k)) <= g.route_cost(p),
    decreases p.len() - k,
{
    if k < p.len() {
        lemma_prefix_cost(g, p, k + 1);
        assert(p.take(k + 1).drop_last() =~= p.take(k));
    } else {
        assert(p.take(k) =~= p);
    }
}

/// The way left from any tile of a walk to its end is at least the octile distance.
proof fn lemma_way_left(g: Lattice, p: Seq<int>, s: int, goal: int, k: int)
    requires
        g.wf(),
        g.is_route(p, s, goal),
        0 <= k < p.len(),
    ensures
        g.route_cost(p.take(k + 1)) + g.octile(p[k], goal) <= g.route_cost(p),
    decreases p.len() - k,
{
    if k + 1 < p.len() {
        lemma_way_left(g, p, s, goal, k + 1);
        assert(g.step(p[k], p[k + 1]));
        lemma_octile_step(g, p[k], p[k + 1], goal);
        assert(p.take(k + 2).drop_last() =~= p.take(k + 1));
    } else {
        assert(p.take(k + 1) =~= p);
        lemma_route_in_range(g, p, s, goal, k);
        lemma_octile_bounds(g, p[k], goal);
    }
}

/// Along a walk whose first tiles are settled, costs are known and no higher than
/// the walk makes them; the first unsettled tile is open.
proof fn lemma_walk_reached(
    g: Lattice,
    s: int,
    goal: int,
    gc: Seq<i32>,
    came: Seq<i32>,
    heap: Multiset<Entry>,
    p: Seq<int>,
    t: int,
    k: int,
)
    requires
        g.wf(),
        g.is_route(p, s, t),
        costs_ok(g, s, gc, came),
        forall|j: int| 0 <= j < k ==> settled(g, gc, #[trigger] p[j]),
        0 <= k < p.len(),
    ensures
        reached(gc, p[k]),
        gc[p[k]] <= g.route_cost(p.take(k + 1)),
    decreases k,
{
    reveal(costs_ok);
    if k == 0 {
        assert(p.take(1).len() == 1);
    } else {
        lemma_walk_reached(g, s, goal, gc, came, heap, p, t, k - 1);
        assert(settled(g, gc, p[k - 1]));
        assert(g.step(p[k - 1], p[k]));
        assert(p.take(k + 1).drop_last() =~= p.take(k));
    }
}

/// What the search knows of the goal when it stops on it, or runs dry.
proof fn lemma_goal_is_cheapest(
    g: Lattice,
    s: int,
    goal: int,
    gc: Seq<i32>,
    came: Seq<i32>,
    heap: Multiset<Entry>,
    p: Seq<int>,
)
    requires
        g.wf(),
        g.is_route(p, s, goal),
        0 <= goal < g.n(),
        costs_ok(g, s, gc, came),
        entries_ok(g, goal, gc, heap),
        frontier_ok(g, goal, gc, heap, -1),
        heap.len() == 0 || exists|e: Entry| #[trigger]
            heap.contains(e) && e.cell == goal && forall|y: Entry| #[trigger]
                heap.contains(y) ==> entry_le(e, y),
    ensures
        reached(gc, goal),
        gc[goal] <= g.route_cost(p),
{
    reveal(costs_ok);
    reveal(entries_ok);
    reveal(frontier_ok);
    if forall|j: int| 0 <= j < p.len() - 1 ==> settled(g, gc, #[trigger] p[j]) {
        lemma_walk_reached(g, s, goal, gc, came, heap, p, goal, p.len() - 1);
        assert(p.take(p.len() as int) =~= p);
    } else {
        let k = lemma_first_unsettled(g, gc, p, p.len() - 1);
        lemma_walk_reached(g, s, goal, gc, came, heap, p, goal, k);
        lemma_route_in_range(g, p, s, goal, k);
        assert(open(g, goal, gc, heap, p[k]));
        let y = choose|y: Entry| #[trigger]
            heap.contains(y) && y.cell == p[k] && y.f == gc[p[k]] + g.octile(p[k], goal);
        assert(heap.len() > 0) by {
            assert(heap.count(y) > 0);
            if heap.len() == 0 {
                vstd::multiset::lemma_multiset_empty_len(heap);
                assert(heap.count(y) == 0);
            }
        }
        let e = choose|e: Entry| #[trigger]
            heap.contains(e) && e.cell == goal && forall|y: Entry| #[trigger]
                heap.contains(y) ==> entry_le(e, y);
        assert(entry_le(e, y));
        lemma_way_left(g, p, s, goal, k);
        lemma_octile_bounds(g, goal, goal);
    }
}

proof fn lemma_first_unsettled(g: Lattice, gc: Seq<i32>, p: Seq<int>, m: int) -> (k: int)
    requires
        exists|j: int| 0 <= j < m && !settled(g, gc, #[trigger] p[j]),
    ensures
        0 <= k < m,
        !settled(g, gc, p[k]),
        forall|j: int| 0 <= j < k ==> settled(g, gc, #[trigger] p[j]),
    decreases m,
{
    if exists|j: int| 0 <= j < m - 1 && !settled(g, gc, #[trigger] p[j]) {
        lemma_first_unsettled(g, gc, p, m - 1)
    } else {
        m - 1
    }
}


// ---- the grid at work ------------------------------------------------------

/// The offset and cost of the `k`-th neighbour looked at.
spec fn nb_spec(k: int) -> (int, int, int) {
    if k == 0 {
        (1, 0, 10)
    } else if k == 1 {
        (-1, 0, 10)
    } else if k == 2 {
        (0, 1, 10)
    } else if k == 3 {
        (0, -1, 10)
    } else if k == 4 {
        (1, 1, 14)
    } else if k == 5 {
        (1, -1, 14)
    } else if k == 6 {
        (-1, 1, 14)
    } else {
        (-1, -1, 14)
    }
}

fn nb(k: usize) -> (r: (i32, i32, i32))
    requires
        k < 8,
    ensures
        (r.0 as int, r.1 as int, r.2 as int) == nb_spec(k as int),
{
    match k {
        0 => (1, 0, 10),
        1 => (-1, 0, 10),
        2 => (0, 1, 10),
        3 => (0, -1, 10),
        4 => (1, 1, 14),
        5 => (1, -1, 14),
        6 => (-1, 1, 14),
        _ => (-1, -1, 14),
    }
}

/// Which neighbour lies at an offset.
spec fn nb_index(dx: int, dy: int) -> int {
    if dx == 1 {
        if dy == 0 {
            0
        } else if dy == 1 {
            4
        } else {
            5
        }
    } else if dx == -1 {
        if dy == 0 {
            1
        } else if dy == 1 {
            6
        } else {
            7
        }
    } else if dy == 1 {
        2
    } else {
        3
    }
}

/// The steps out of `u` to its first `k` neighbours are accounted for.
spec fn partly_settled(g: Lattice, gc: Seq<i32>, u: int, k: int) -> bool {
    forall|w: int| #[trigger]
        g.step(u, w) && nb_index(g.x(w) - g.x(u), g.y(w) - g.y(u)) < k ==> reached(gc, w) && gc[w]
            <= gc[u] + g.step_cost(u, w)
}

impl Grid {
    /// One terrain code and one occupancy mark per tile.
    pub open spec fn wf(&self) -> bool {
        &&& 0 < self.tw
        &&& 0 < self.th
        &&& self.tw * self.th <= MAX_TILES
        &&& self.terrain@.len() == self.tw * self.th
        &&& self.block@.len() == self.tw * self.th
    }

    /// Whether a unit can stand on a tile; off the map it cannot.
    pub fn cell_passable(&self, cx: i32, cy: i32) -> (r: bool)
        requires
            self.wf(),
        ensures
            r == self@.passable(cx as int, cy as int),
    {
        if cx < 0 || cy < 0 || cx as usize >= self.tw || cy as usize >= self.th {
            return false;
        }
        proof {
            lemma_xy(self@, cx as int, cy as int);
            assert(cy as int * self.tw as int <= self.tw * self.th) by (nonlinear_arith)
                requires
                    cy < self.th,
                    0 <= cy,
                    0 < self.tw,
            ;
        }
        let i: usize = cy as usize * self.tw + cx as usize;
        self.terrain[i] != T_CLIFF && self.block[i] == 0
    }

    /// The passable tile nearest to a possibly blocked one, ring by ring.
    pub fn nearest_passable(&self, cx: i32, cy: i32) -> (r: Option<(i32, i32)>)
        requires
            self.wf(),
            abs(cx as int) <= 1_000_000_000,
            abs(cy as int) <= 1_000_000_000,
        ensures
            match r {
                Some((x, y)) => self@.is_nearest(cx as int, cy as int, x as int, y as int),
                None => self@.walled_in(cx as int, cy as int),
            },
    {
        let ghost g = self@;
        proof {
            assert(g.wf());
            lemma_sides(g);
        }
        if self.cell_passable(cx, cy) {
            return Some((cx, cy));
        }
        let side: usize = if self.tw < self.th { self.th } else { self.tw };
        let rings: i32 = side as i32;
        let mut r: i32 = 1;
        while r < rings
            invariant
                self.wf(),
                g == self@,
                rings == g.reach(),
                rings <= MAX_TILES,
                1 <= r,
                r <= rings || rings == 0,
                abs(cx as int) <= 1_000_000_000,
                abs(cy as int) <= 1_000_000_000,
                forall|a: int, b: int| #[trigger] g.passable(a, b) ==> ring(a - cx, b - cy) >= r,
            decreases rings - r,
        {
            let mut dy: i32 = -r;
            while dy <= r
                invariant
                    self.wf(),
                    g == self@,
                    rings == g.reach(),
                    rings <= MAX_TILES,
                    1 <= r < rings,
                    -r <= dy <= r + 1,
                    abs(cx as int) <= 1_000_000_000,
                    abs(cy as int) <= 1_000_000_000,
                    forall|a: int, b: int| #[trigger]
                        g.passable(a, b) ==> ring(a - cx, b - cy) > r || (ring(a - cx, b - cy) == r && b - cy
                            >= dy),
                decreases r + 1 - dy,
            {
                let mut dx: i32 = -r;
                while dx <= r
                    invariant
                        self.wf(),
                        g == self@,
                        rings == g.reach(),
                        rings <= MAX_TILES,
                        1 <= r < rings,
                        -r <= dy <= r,
                        -r <= dx <= r + 1,
                        abs(cx as int) <= 1_000_000_000,
                        abs(cy as int) <= 1_000_000_000,
                        forall|a: int, b: int| #[trigger]
                            g.passable(a, b) ==> ring(a - cx, b - cy) > r || (ring(a - cx, b - cy) == r && (b
                                - cy > dy || (b - cy == dy && a - cx >= dx))),
                    decreases r + 1 - dx,
                {
                    if dx == r || dx == -r || dy == r || dy == -r {
                        if self.cell_passable(cx + dx, cy + dy) {
                            return Some((cx + dx, cy + dy));
                        }
                    }
                    dx = dx + 1;
                }
                dy = dy + 1;
            }
            r = r + 1;
        }
        None
    }

    /// The tiles to walk through on the way from one tile to another, the last of
    /// them the tile to end on. Both ends are first moved to the nearest passable
    /// tile; an end in the same tile as the start is the whole way.
    pub fn find_path(&self, from: (i32, i32), to: (i32, i32)) -> (r: Option<Vec<(i32, i32)>>)
        requires
            self.wf(),
            abs(from.0 as int) <= 1_000_000_000,
            abs(from.1 as int) <= 1_000_000_000,
            abs(to.0 as int) <= 1_000_000_000,
            abs(to.1 as int) <= 1_000_000_000,
        ensures
            self@.found(from, to, r),
    {
        let ghost g = self@;
        let (sx, sy) = match self.nearest_passable(from.0, from.1) {
            Some(c) => c,
            None => {
                return None;
            },
        };
        let (tx, ty) = match self.nearest_passable(to.0, to.1) {
            Some(c) => c,
            None => {
                return None;
            },
        };
        if sx == tx && sy == ty {
            let mut out: Vec<(i32, i32)> = Vec::new();
            out.push((tx, ty));
            return Some(out);
        }
        proof {
            assert(g.wf());
            lemma_xy(g, sx as int, sy as int);
            lemma_xy(g, tx as int, ty as int);
            let w = g.tw;
            let h = g.th;
            let y1 = sy as int;
            let y2 = ty as int;
            assert(0 <= y1 * w <= w * h && 0 <= y2 * w <= w * h) by (nonlinear_arith)
                requires
                    0 <= y1 < h,
                    0 <= y2 < h,
                    0 < w,
            ;
            lemma_sides(g);
        }
        let start: usize = sy as usize * self.tw + sx as usize;
        let goal: usize = ty as usize * self.tw + tx as usize;
        let cells = match self.find_cells(start, goal) {
            Some(c) => c,
            None => {
                return None;
            },
        };
        let ghost p = cells@.map_values(|c: usize| c as int);
        proof {
            lemma_xy(g, sx as int, sy as int);
            lemma_xy(g, tx as int, ty as int);
            assert(p[0] == start);
            assert(p.last() == goal);
            assert(start != goal);
            if cells@.len() == 1 {
                assert(p[0] == p.last());
            }
        }
        let n: usize = cells.len();
        let mut out: Vec<(i32, i32)> = Vec::new();
        for i in 1..n
            invariant
                self.wf(),
                g == self@,
                g.wf(),
                n == cells@.len(),
                n >= 2,
                p == cells@.map_values(|c: usize| c as int),
                g.is_route(p, start as int, goal as int),
                out@.len() == i - 1,
                forall|j: int|
                    0 <= j < out@.len() ==> (#[trigger] out@[j]).0 == g.x(p[j + 1]) && out@[j].1 == g.y(
                        p[j + 1],
                    ),
        {
            proof {
                lemma_route_in_range(g, p, start as int, goal as int, i as int);
                assert(p[i as int] == cells@[i as int]);
                lemma_index(g, p[i as int]);
                lemma_sides(g);
            }
            let c: usize = cells[i];
            out.push(((c % self.tw) as i32, (c / self.tw) as i32));
        }
        proof {
            assert(g.is_cheapest(p, g.at(sx as int, sy as int), g.at(tx as int, ty as int)));
            assert(g.leads_along(out@, p));
            assert(g.leads(out@, sx as int, sy as int, tx as int, ty as int));
        }
        Some(out)
    }

    /// Terrain code of a tile; off the map is a wall.
    pub fn tile_at(&self, cx: i32, cy: i32) -> (r: u8)
        requires
            self.wf(),
        ensures
            r == self.tile(cx as int, cy as int),
    {
        if cx < 0 || cy < 0 || cx as usize >= self.tw || cy as usize >= self.th {
            return T_CLIFF;
        }
        proof {
            lemma_xy(self@, cx as int, cy as int);
            assert(cy as int * self.tw as int <= self.tw * self.th) by (nonlinear_arith)
                requires
                    cy < self.th,
                    0 <= cy,
                    0 < self.tw,
            ;
        }
        self.terrain[cy as usize * self.tw + cx as usize]
    }

    /// Terrain code of a tile; off the map is a wall.
    pub open spec fn tile(&self, x: int, y: int) -> u8 {
        if 0 <= x < self.tw && 0 <= y < self.th {
            self.terrain@[y * self.tw + x]
        } else {
            T_CLIFF
        }
    }

    /// Whether a tile is an impassable cliff.
    pub fn blocked_pt(&self, cx: i32, cy: i32) -> (r: bool)
        requires
            self.wf(),
        ensures
            r == (self.tile(cx as int, cy as int) == T_CLIFF),
    {
        self.tile_at(cx, cy) == T_CLIFF
    }

    /// Elevation tier of a tile: 1 on high ground, 0 elsewhere.
    pub fn elev_at(&self, cx: i32, cy: i32) -> (r: u8)
        requires
            self.wf(),
        ensures
            r == (if self.tile(cx as int, cy as int) == T_HIGH {
                1u8
            } else {
                0u8
            }),
    {
        if self.tile_at(cx, cy) == T_HIGH {
            1
        } else {
            0
        }
    }

    /// Whether a line blocks walking: one of the tiles it samples is not passable.
    pub fn line_blocked(&self, samples: &Vec<(i32, i32)>) -> (r: bool)
        requires
            self.wf(),
        ensures
            r == exists|i: int|
                0 <= i < samples@.len() && !self@.passable(
                    (#[trigger] samples@[i]).0 as int,
                    samples@[i].1 as int,
                ),
    {
        let mut i: usize = 0;
        while i < samples.len()
            invariant
                self.wf(),
                i <= samples@.len(),
                forall|j: int|
                    0 <= j < i ==> self@.passable(
                        (#[trigger] samples@[j]).0 as int,
                        samples@[j].1 as int,
                    ),
            decreases samples@.len() - i,
        {
            let (x, y) = samples[i];
            if !self.cell_passable(x, y) {
                return true;
            }
            i = i + 1;
        }
        false
    }

    /// Whether a line crosses a cliff: one of the tiles it samples is one. What
    /// merely occupies a tile does not count.
    pub fn line_blocked_cliff(&self, samples: &Vec<(i32, i32)>) -> (r: bool)
        requires
            self.wf(),
        ensures
            r == exists|i: int|
                0 <= i < samples@.len() && self.tile(
                    (#[trigger] samples@[i]).0 as int,
                    samples@[i].1 as int,
                ) == T_CLIFF,
    {
        let mut i: usize = 0;
        while i < samples.len()
            invariant
                self.wf(),
                i <= samples@.len(),
                forall|j: int|
                    0 <= j < i ==> self.tile(
                        (#[trigger] samples@[j]).0 as int,
                        samples@[j].1 as int,
                    ) != T_CLIFF,
            decreases samples@.len() - i,
        {
            let (x, y) = samples[i];
            if self.blocked_pt(x, y) {
                return true;
            }
            i = i + 1;
        }
        false
    }

    /// Where to put a point that may lie in a cliff: nowhere else when there are no
    /// cliffs or it does not, and otherwise the nearest passable tile, if any.
    pub fn snap_open(&self, has_cliffs: bool, cx: i32, cy: i32) -> (r: Option<(i32, i32)>)
        requires
            self.wf(),
            abs(cx as int) <= 1_000_000_000,
            abs(cy as int) <= 1_000_000_000,
        ensures
            match r {
                Some((x, y)) => has_cliffs && self.tile(cx as int, cy as int) == T_CLIFF && self@.is_nearest(
                    cx as int,
                    cy as int,
                    x as int,
                    y as int,
                ),
                None => !has_cliffs || self.tile(cx as int, cy as int) != T_CLIFF || self@.walled_in(
                    cx as int,
                    cy as int,
                ),
            },
    {
        if !has_cliffs || !self.blocked_pt(cx, cy) {
            return None;
        }
        self.nearest_passable(cx, cy)
    }

    /// Which of its coordinates a walker keeps that would end up in a cliff.
    pub fn unstick(&self, to: (i32, i32), from: (i32, i32)) -> (r: Slide)
        requires
            self.wf(),
        ensures
            r == (if self.tile(to.0 as int, to.1 as int) != T_CLIFF {
                Slide::Free
            } else if self.tile(to.0 as int, from.1 as int) != T_CLIFF {
                Slide::KeepX
            } else if self.tile(from.0 as int, to.1 as int) != T_CLIFF {
                Slide::KeepY
            } else {
                Slide::Stay
            }),
    {
        if !self.blocked_pt(to.0, to.1) {
            Slide::Free
        } else if !self.blocked_pt(to.0, from.1) {
            Slide::KeepX
        } else if !self.blocked_pt(from.0, to.1) {
            Slide::KeepY
        } else {
            Slide::Stay
        }
    }

    /// Marks exactly the listed tiles that lie on the map as occupied.
    pub fn rebuild_block_grid(&mut self, covered: &Vec<(i32, i32)>)
        requires
            old(self).wf(),
        ensures
            final(self).wf(),
            final(self).tw == old(self).tw,
            final(self).th == old(self).th,
            final(self).terrain@ == old(self).terrain@,
            forall|v: int|
                0 <= v < final(self)@.n() ==> #[trigger] final(self).block@[v] == (if lists(
                    covered@,
                    final(self)@.x(v),
                    final(self)@.y(v),
                ) {
                    1u8
                } else {
                    0u8
                }),
    {
        let ghost g = self@;
        let n: usize = self.block.len();
        let mut block: Vec<u8> = vec![0u8; n];
        let mut i: usize = 0;
        while i < covered.len()
            invariant
                g.tw == self.tw,
                g.th == self.th,
                self.wf(),
                block@.len() == g.n(),
                i <= covered@.len(),
                forall|v: int|
                    0 <= v < g.n() ==> #[trigger] block@[v] == (if lists(
                        covered@.take(i as int),
                        g.x(v),
                        g.y(v),
                    ) {
                        1u8
                    } else {
                        0u8
                    }),
            decreases covered@.len() - i,
        {
            let (tx, ty) = covered[i];
            let ghost before = covered@.take(i as int);
            let ghost after = covered@.take(i + 1);
            proof {
                assert(after =~= before.push(covered@[i as int]));
                assert forall|x: int, y: int| #[trigger] lists(after, x, y) == (lists(before, x, y) || (x
                    == tx && y == ty)) by {
                    if lists(before, x, y) {
                        let j = choose|j: int|
                            0 <= j < before.len() && (#[trigger] before[j]).0 == x && before[j].1 == y;
                        assert(after[j] == before[j]);
                    }
                    assert(after[i as int] == covered@[i as int]);
                    if lists(after, x, y) {
                        let j = choose|j: int|
                            0 <= j < after.len() && (#[trigger] after[j]).0 == x && after[j].1 == y;
                        if j < i {
                            assert(before[j] == after[j]);
                        }
                    }
                }
                assert forall|v: int| 0 <= v < g.n() implies (g.x(v) == tx && g.y(v) == ty) == (0 <= tx
                    < g.tw && 0 <= ty < g.th && #[trigger] lattice_index(g, v) == ty * g.tw + tx) by {
                    lemma_index(g, v);
                    if 0 <= tx < g.tw && 0 <= ty < g.th {
                        lemma_xy(g, tx as int, ty as int);
                    }
                }
            }
            if tx >= 0 && ty >= 0 && (tx as usize) < self.tw && (ty as usize) < self.th {
                proof {
                    lemma_xy(g, tx as int, ty as int);
                    assert(ty as int * self.tw as int <= self.tw * self.th) by (nonlinear_arith)
                        requires
                            ty < self.th,
                            0 <= ty,
                            0 < self.tw,
                    ;
                }
                block[ty as usize * self.tw + tx as usize] = 1;
            }
            proof {
                assert forall|v: int| 0 <= v < g.n() implies #[trigger] block@[v] == (if lists(
                    after,
                    g.x(v),
                    g.y(v),
                ) {
                    1u8
                } else {
                    0u8
                }) by {
                    assert(lattice_index(g, v) == v);
                }
            }
            i = i + 1;
        }
        proof {
            assert(covered@.take(i as int) =~= covered@);
        }
        self.block = block;
    }

    /// Searches the tiles for a cheapest way from `start` to `goal`. The answer
    /// lists the tiles from `start` to `goal`, both of them in it; there is none
    /// exactly when no way exists.
    pub fn find_cells(&self, start: usize, goal: usize) -> (r: Option<Vec<usize>>)
        requires
            self.wf(),
            start < self.tw * self.th,
            goal < self.tw * self.th,
        ensures
            match r {
                Some(p) => self@.is_cheapest(
                    p@.map_values(|c: usize| c as int),
                    start as int,
                    goal as int,
                ),
                None => !self@.connected(start as int, goal as int),
            },
    {
        let ghost g = self@;
        let ghost s: int = start as int;
        let ghost t: int = goal as int;
        let mut search = Search::new(self, start, goal);
        let ghost n = g.n();
        loop
            invariant_except_break
                frontier_ok(g, t, search.gcost@, search.heap@, -1),
            invariant
                self.wf(),
                g == self@,
                g.wf(),
                n == g.n(),
                s == start,
                t == goal,
                start < n,
                goal < n,
                search.sound(g, s, t),
            ensures
                forall|p: Seq<int>| #[trigger]
                    g.is_route(p, s, t) ==> reached(search.gcost@, t) && search.gcost@[t] <= g.route_cost(
                        p,
                    ),
            decreases potential(search.gcost@, 14 * n), search.heap@.len(),
        {
            let ghost before = search.heap@;
            let popped = search.heap.pop();
            let ci: usize = match popped {
                None => {
                    proof {
                        assert forall|p: Seq<int>| #[trigger] g.is_route(p, s, t) implies reached(
                            search.gcost@,
                            t,
                        ) && search.gcost@[t] <= g.route_cost(p) by {
                            lemma_goal_is_cheapest(g, s, t, search.gcost@, search.came@, before, p);
                        }
                    }
                    break;
                },
                Some(e) => {
                    proof {
                        lemma_entry(g, t, search.gcost@, before, e);
                        lemma_pop(g, t, search.gcost@, before, e);
                    }
                    e.cell as usize
                },
            };
            if ci == goal {
                proof {
                    assert forall|p: Seq<int>| #[trigger] g.is_route(p, s, t) implies reached(
                        search.gcost@,
                        t,
                    ) && search.gcost@[t] <= g.route_cost(p) by {
                        lemma_goal_is_cheapest(g, s, t, search.gcost@, search.came@, before, p);
                    }
                }
                break;
            }
            search.expand(self, ci, start, goal);
        }
        if search.gcost[goal] == i32::MAX {
            return None;
        }
        let out = search.walk_back(self, start, goal);
        Some(out)
    }
}

/// What a walker keeps of a move that ends in a cliff.
#[derive(Clone, Copy, PartialEq, Eq, Structural, Debug)]
pub enum Slide {
    /// The whole move.
    Free,
    /// The move along x only.
    KeepX,
    /// The move along y only.
    KeepY,
    /// Nothing.
    Stay,
}

/// Whether a list of tiles holds `(x, y)`.
pub open spec fn lists(tiles: Seq<(i32, i32)>, x: int, y: int) -> bool {
    exists|j: int| 0 <= j < tiles.len() && (#[trigger] tiles[j]).0 == x && tiles[j].1 == y
}

impl Lattice {
    /// Whether a search from one tile to another may return `r`: the way between the nearest
    /// passable tiles to both, or none if there is no such tile or no such way.
    pub open spec fn found(self, from: (i32, i32), to: (i32, i32), r: Option<Vec<(i32, i32)>>) -> bool {
        match r {
            Some(tiles) => exists|sx: int, sy: int, tx: int, ty: int| #[trigger]
                self.is_nearest(from.0 as int, from.1 as int, sx, sy) && #[trigger] self.is_nearest(
                    to.0 as int,
                    to.1 as int,
                    tx,
                    ty,
                ) && self.leads(tiles@, sx, sy, tx, ty),
            None => self.walled_in(from.0 as int, from.1 as int) || self.walled_in(
                to.0 as int,
                to.1 as int,
            ) || exists|sx: int, sy: int, tx: int, ty: int| #[trigger]
                self.is_nearest(from.0 as int, from.1 as int, sx, sy) && #[trigger] self.is_nearest(
                    to.0 as int,
                    to.1 as int,
                    tx,
                    ty,
                ) && !self.connected(self.at(sx, sy), self.at(tx, ty)),
        }
    }
}

impl Lattice {
    /// Whether `tiles` are the tiles of route `p` after its first.
    pub open spec fn leads_along(self, tiles: Seq<(i32, i32)>, p: Seq<int>) -> bool {
        &&& tiles.len() == p.len() - 1
        &&& forall|j: int|
            0 <= j < tiles.len() ==> (#[trigger] tiles[j]).0 == self.x(p[j + 1]) && tiles[j].1 == self.y(
                p[j + 1],
            )
    }

    /// Whether `tiles` are a cheapest way from `(sx, sy)`, that tile left out, to
    /// `(tx, ty)`.
    pub open spec fn leads(
        self,
        tiles: Seq<(i32, i32)>,
        sx: int,
        sy: int,
        tx: int,
        ty: int,
    ) -> bool {
        if sx == tx && sy == ty {
            tiles.len() == 1 && tiles[0].0 == tx && tiles[0].1 == ty
        } else {
            exists|p: Seq<int>| #[trigger]
                self.is_cheapest(p, self.at(sx, sy), self.at(tx, ty)) && self.leads_along(tiles, p)
        }
    }
}

/// Which waypoints of `n` remain when runs that can be walked straight are pulled
/// taut: from an anchor (0 is the start, `k + 1` waypoint `k`) the walk goes to the
/// last waypoint before the first that is not in clear sight.
pub open spec fn taut<F: Fn(usize, usize) -> bool>(clear: F, n: int, picks: Seq<usize>) -> bool {
    &&& (n == 0 ==> picks.len() == 0)
    &&& (n > 0 ==> picks.len() > 0 && picks.last() == n - 1)
    &&& forall|k: int| 0 <= k < picks.len() ==> #[trigger] taut_at(clear, n, picks, k)
}

/// The anchor of pick `k`.
pub open spec fn anchor_of(picks: Seq<usize>, k: int) -> usize {
    if k == 0 {
        0
    } else {
        (picks[k - 1] + 1) as usize
    }
}

/// Pick `k` lies past the pick before it, everything between the two is in clear
/// sight of the anchor, and what follows it is not.
pub open spec fn taut_at<F: Fn(usize, usize) -> bool>(
    clear: F,
    n: int,
    picks: Seq<usize>,
    k: int,
) -> bool {
    let a = anchor_of(picks, k);
    &&& a <= picks[k] < n
    &&& forall|j: usize| a < j <= picks[k] ==> #[trigger] call_ensures(clear, (a, j), true)
    &&& (picks[k] + 1 < n ==> call_ensures(clear, (a, (picks[k] + 1) as usize), false))
}

/// Drops the waypoints that can be walked past in a straight line. `clear(a, j)`
/// tells whether waypoint `j` is in clear sight of anchor `a`.
pub fn smooth<F: Fn(usize, usize) -> bool>(n: usize, clear: F) -> (picks: Vec<usize>)
    requires
        forall|a: usize, j: usize| #[trigger] call_requires(clear, (a, j)),
    ensures
        taut(clear, n as int, picks@),
{
    let mut picks: Vec<usize> = Vec::new();
    let mut i: usize = 0;
    while i < n
        invariant
            forall|a: usize, j: usize| #[trigger] call_requires(clear, (a, j)),
            i <= n,
            i == 0 <==> picks@.len() == 0,
            i > 0 ==> picks@.last() == i - 1,
            forall|k: int| 0 <= k < picks@.len() ==> #[trigger] taut_at(clear, n as int, picks@, k),
        decreases n - i,
    {
        let mut j: usize = i;
        while j + 1 < n
            invariant_except_break
                forall|x: usize| i < x <= j ==> #[trigger] call_ensures(clear, (i, x), true),
            invariant
                forall|a: usize, j: usize| #[trigger] call_requires(clear, (a, j)),
                i <= j < n,
            ensures
                i <= j < n,
                forall|x: usize| i < x <= j ==> #[trigger] call_ensures(clear, (i, x), true),
                j + 1 < n ==> call_ensures(clear, (i, (j + 1) as usize), false),
            decreases n - j,
        {
            if !clear(i, j + 1) {
                break;
            }
            j = j + 1;
        }
        let ghost p0 = picks@;
        picks.push(j);
        proof {
            assert forall|k: int| 0 <= k < picks@.len() implies #[trigger] taut_at(
                clear,
                n as int,
                picks@,
                k,
            ) by {
                if k < p0.len() {
                    assert(taut_at(clear, n as int, p0, k));
                    assert(anchor_of(picks@, k) == anchor_of(p0, k));
                    assert(picks@[k] == p0[k]);
                } else {
                    assert(anchor_of(picks@, k) == i);
                }
            }
        }
        i = j + 1;
    }
    picks
}

/// From a tile on the map some passable tile is found whenever there is one at all.
pub proof fn nearest_passable_finds_any(g: Lattice, cx: int, cy: int, x: int, y: int)
    requires
        g.wf(),
        0 <= cx < g.tw,
        0 <= cy < g.th,
        g.passable(x, y),
    ensures
        !g.walled_in(cx, cy),
{
    assert(ring(x - cx, y - cy) < g.reach());
}

/// At most one tile is the nearest passable one.
pub proof fn nearest_passable_is_unique(g: Lattice, cx: int, cy: int, x: int, y: int, a: int, b: int)
    requires
        g.is_nearest(cx, cy, x, y),
        g.is_nearest(cx, cy, a, b),
    ensures
        x == a,
        y == b,
{
    if !(x == a && y == b) {
        assert(tried_before(x - cx, y - cy, a - cx, b - cy));
        assert(tried_before(a - cx, b - cy, x - cx, y - cy));
    }
}

/// A way can be walked back: a step that leads there also leads back, at the same
/// cost, between passable tiles.
pub proof fn steps_are_reversible(g: Lattice, u: int, v: int)
    requires
        g.wf(),
        g.step(u, v),
        g.free[u],
    ensures
        g.step(v, u),
        g.step_cost(v, u) == g.step_cost(u, v),
{
}

/// Ways can be joined: what is connected to a tile reaches whatever that tile does.
pub proof fn connected_is_transitive(g: Lattice, a: int, b: int, c: int)
    requires
        g.connected(a, b),
        g.connected(b, c),
    ensures
        g.connected(a, c),
{
    let p = choose|p: Seq<int>| g.is_route(p, a, b);
    let q = choose|q: Seq<int>| g.is_route(q, b, c);
    let r = p + q.drop_first();
    assert forall|i: int, j: int| 0 <= i && j == i + 1 && j < r.len() implies #[trigger] g.step(
        r[i],
        #[trigger] r[j],
    ) by {
        if j < p.len() {
            assert(g.step(p[i], p[j]));
        } else {
            let k = i - p.len() + 1;
            assert(g.step(q[k], q[k + 1]));
            assert(r[j] == q[k + 1]);
            assert(r[i] == q[k]);
        }
    }
    assert(r.last() == c) by {
        if q.len() > 1 {
            assert(r.last() == q.drop_first().last());
        }
    }
    assert(g.is_route(r, a, c));
}

/// Connection goes both ways between passable tiles.
pub proof fn connected_is_symmetric(g: Lattice, a: int, b: int)
    requires
        g.wf(),
        g.connected(a, b),
        g.free[a],
    ensures
        g.connected(b, a),
{
    let p = choose|p: Seq<int>| g.is_route(p, a, b);
    let r = p.reverse();
    assert forall|i: int, j: int| 0 <= i && j == i + 1 && j < r.len() implies #[trigger] g.step(
        r[i],
        #[trigger] r[j],
    ) by {
        let k = p.len() - 1 - j;
        assert(r[j] == p[k]);
        assert(r[i] == p[k + 1]);
        assert(g.step(p[k], p[k + 1]));
        if k > 0 {
            assert(g.step(p[k - 1], p[k]));
        }
        steps_are_reversible(g, p[k], p[k + 1]);
    }
    lemma_route_in_range(g, p, a, b, p.len() - 1);
    assert(g.is_route(r, b, a));
}

/// A search under way: known costs, predecessors, the frontier, and how many
/// entries were ever pushed.
struct Search {
    gcost: Vec<i32>,
    came: Vec<i32>,
    heap: Heap,
    counter: i64,
    walks: Ghost<Seq<Seq<int>>>,
}

impl Search {
    spec fn sound(self, g: Lattice, s: int, goal: int) -> bool {
        &&& self.gcost@.len() == g.n()
        &&& self.came@.len() == g.n()
        &&& costs_ok(g, s, self.gcost@, self.came@)
        &&& walks_ok(g, s, self.gcost@, self.walks@)
        &&& self.heap.wf()
        &&& entries_ok(g, goal, self.gcost@, self.heap@)
        &&& 0 <= self.counter
        &&& self.counter + potential(self.gcost@, 14 * g.n()) <= g.n() * (14 * g.n())
        &&& 0 <= potential(self.gcost@, 14 * g.n())
    }

    fn new(grid: &Grid, start: usize, goal: usize) -> (r: Search)
        requires
            grid.wf(),
            start < grid.tw * grid.th,
            goal < grid.tw * grid.th,
        ensures
            r.sound(grid@, start as int, goal as int),
            frontier_ok(grid@, goal as int, r.gcost@, r.heap@, -1),
    {
        let ghost g = grid@;
        let ghost s: int = start as int;
        let n: usize = grid.terrain.len();
        proof {
            lemma_index(g, s);
            lemma_index(g, goal as int);
            lemma_octile_bounds(g, s, goal as int);
            lemma_sides(g);
        }
        let mut gcost: Vec<i32> = vec![i32::MAX; n];
        let came: Vec<i32> = vec![-1i32; n];
        let ghost cap: int = 14 * n as int;
        proof {
            assert(gcost@ =~= Seq::new(n as nat, |i: int| i32::MAX));
            lemma_potential_start(n as nat, cap);
            lemma_potential_update(gcost@, s, 0, cap);
        }
        gcost[start] = 0;
        let ghost walks: Seq<Seq<int>> = Seq::new(n as nat, |i: int| seq![s]);
        let mut heap = Heap::new();
        let h0: i32 = octile_from(
            (start % grid.tw) as i32,
            (start / grid.tw) as i32,
            (goal % grid.tw) as i32,
            (goal / grid.tw) as i32,
        );
        let first = Entry { f: h0, seq: 0, cell: start as i32 };
        heap.push(first);
        proof {
            reveal(costs_ok);
            reveal(walks_ok);
            reveal(entries_ok);
            reveal(frontier_ok);
            assert(walk_ok(g, s, gcost@, walks[s], s)) by {
                assert(walks[s].take(1) =~= walks[s]);
            }
            assert(heap@.contains(first));
            assert(open(g, goal as int, gcost@, heap@, s));
            assert forall|v: int| 0 <= v < gcost@.len() implies 0 <= #[trigger] gcost@[v] by {}
            lemma_potential_bounds(gcost@, cap);
        }
        Search { gcost, came, heap, counter: 0, walks: Ghost(walks) }
    }

    /// Looks at the neighbours of tile `ci`.
    fn expand(&mut self, grid: &Grid, ci: usize, start: usize, goal: usize)
        requires
            grid.wf(),
            ci < grid.tw * grid.th,
            start < grid.tw * grid.th,
            goal < grid.tw * grid.th,
            old(self).sound(grid@, start as int, goal as int),
            reached(old(self).gcost@, ci as int),
            frontier_ok(grid@, goal as int, old(self).gcost@, old(self).heap@, ci as int),
        ensures
            final(self).sound(grid@, start as int, goal as int),
            frontier_ok(grid@, goal as int, final(self).gcost@, final(self).heap@, -1),
            potential(final(self).gcost@, 14 * grid@.n()) < potential(old(self).gcost@, 14 * grid@.n())
                || (potential(final(self).gcost@, 14 * grid@.n()) == potential(
                old(self).gcost@,
                14 * grid@.n(),
            ) && final(self).heap@ == old(self).heap@),
    {
        let ghost g = grid@;
        let ghost u = ci as int;
        let ghost s = start as int;
        let ghost t = goal as int;
        for k in 0..8usize
            invariant
                grid.wf(),
                g == grid@,
                g.wf(),
                u == ci,
                s == start,
                t == goal,
                ci < g.n(),
                start < g.n(),
                goal < g.n(),
                self.sound(g, s, t),
                reached(self.gcost@, u),
                frontier_ok(g, t, self.gcost@, self.heap@, u),
                partly_settled(g, self.gcost@, u, k as int),
                potential(self.gcost@, 14 * g.n()) < potential(old(self).gcost@, 14 * g.n()) || (
                potential(self.gcost@, 14 * g.n()) == potential(old(self).gcost@, 14 * g.n())
                    && self.heap@ == old(self).heap@),
        {
            self.relax(grid, ci, k, start, goal);
        }
        proof {
            reveal(frontier_ok);
            assert(settled(g, self.gcost@, u)) by {
                assert forall|w: int| #[trigger] g.step(u, w) implies reached(self.gcost@, w)
                    && self.gcost@[w] <= self.gcost@[u] + g.step_cost(u, w) by {
                    assert(nb_index(g.x(w) - g.x(u), g.y(w) - g.y(u)) < 8);
                }
            }
        }
    }

    /// Looks at the `k`-th neighbour of tile `ci`.
    fn relax(&mut self, grid: &Grid, ci: usize, k: usize, start: usize, goal: usize)
        requires
            grid.wf(),
            k < 8,
            ci < grid.tw * grid.th,
            start < grid.tw * grid.th,
            goal < grid.tw * grid.th,
            old(self).sound(grid@, start as int, goal as int),
            reached(old(self).gcost@, ci as int),
            frontier_ok(grid@, goal as int, old(self).gcost@, old(self).heap@, ci as int),
            partly_settled(grid@, old(self).gcost@, ci as int, k as int),
        ensures
            final(self).sound(grid@, start as int, goal as int),
            reached(final(self).gcost@, ci as int),
            frontier_ok(grid@, goal as int, final(self).gcost@, final(self).heap@, ci as int),
            partly_settled(grid@, final(self).gcost@, ci as int, k + 1),
            potential(final(self).gcost@, 14 * grid@.n()) < potential(old(self).gcost@, 14 * grid@.n())
                || (potential(final(self).gcost@, 14 * grid@.n()) == potential(
                old(self).gcost@,
                14 * grid@.n(),
            ) && final(self).heap@ == old(self).heap@),
    {
        let ghost g = grid@;
        let ghost u = ci as int;
        let ghost s = start as int;
        let ghost t = goal as int;
        let ghost cap = 14 * g.n();
        let ghost gc0 = self.gcost@;
        let (dx, dy, cost) = nb(k);
        proof {
            lemma_sides(g);
            lemma_index(g, u);
            lemma_index(g, t);
            lemma_reached_cost(g, s, gc0, self.came@, self.walks@, u);
        }
        let tw: i32 = grid.tw as i32;
        let cx: i32 = (ci % grid.tw) as i32;
        let cy: i32 = (ci / grid.tw) as i32;
        let nx: i32 = cx + dx;
        let ny: i32 = cy + dy;
        let fits: bool = grid.cell_passable(nx, ny) && (dx == 0 || dy == 0 || (grid.cell_passable(nx, cy)
            && grid.cell_passable(cx, ny)));
        proof {
            assert forall|w: int| #[trigger]
                g.step(u, w) && nb_index(g.x(w) - g.x(u), g.y(w) - g.y(u)) == k implies fits && w == ny
                * g.tw + nx by {
                lemma_index(g, w);
                lemma_same_column_row(g, u, w);
                assert(g.x(w) == nx && g.y(w) == ny);
                assert(g.passable(g.x(w), g.y(w)));
            }
        }
        if !fits {
            return;
        }
        proof {
            lemma_xy(g, nx as int, ny as int);
            assert(ny as int * tw as int >= 0) by (nonlinear_arith)
                requires
                    ny >= 0,
                    tw > 0,
            ;
        }
        let ni: usize = (ny * tw + nx) as usize;
        let ghost v = ni as int;
        proof {
            assert(g.step(u, v));
            assert(g.step_cost(u, v) == cost);
            lemma_octile_bounds(g, v, t);
        }
        let ng: i32 = self.gcost[ci] + cost;
        if ng < self.gcost[ni] {
            let h: i32 = octile_from(
                nx,
                ny,
                (goal % grid.tw) as i32,
                (goal / grid.tw) as i32,
            );
            proof {
                lemma_potential_update(gc0, v, ng, cap);
                lemma_nonnegative(g, s, gc0, self.came@);
                assert forall|x: int| 0 <= x < gc0.len() implies 0 <= #[trigger] gc0.update(v, ng)[x] by {
                    assert(0 <= gc0[x]);
                }
                lemma_potential_bounds(gc0.update(v, ng), cap);
                lemma_potential_bounds(gc0, cap);
                assert(g.n() * cap <= 14 * MAX_TILES * MAX_TILES) by (nonlinear_arith)
                    requires
                        cap == 14 * g.n(),
                        0 < g.n() <= MAX_TILES,
                ;
            }
            let e = Entry { f: ng + h, seq: self.counter + 1, cell: ni as i32 };
            self.counter = self.counter + 1;
            proof {
                lemma_relax(g, s, t, gc0, self.came@, self.walks@, self.heap@, u, v, ng, e);
                self.walks@ = self.walks@.update(v, self.walks@[u].push(v));
                lemma_reached_cost(
                    g,
                    s,
                    gc0.update(v, ng),
                    self.came@.update(v, u as i32),
                    self.walks@,
                    v,
                );
            }
            self.gcost[ni] = ng;
            self.came[ni] = ci as i32;
            self.heap.push(e);
        }
    }

    /// Follows the predecessors from `goal` back to `start`, and lists the tiles in
    /// walking order.
    fn walk_back(&self, grid: &Grid, start: usize, goal: usize) -> (out: Vec<usize>)
        requires
            grid.wf(),
            start < grid.tw * grid.th,
            goal < grid.tw * grid.th,
            self.sound(grid@, start as int, goal as int),
            reached(self.gcost@, goal as int),
        ensures
            grid@.is_route(out@.map_values(|c: usize| c as int), start as int, goal as int),
            grid@.route_cost(out@.map_values(|c: usize| c as int)) <= self.gcost@[goal as int],
    {
        let ghost g = grid@;
        let ghost s = start as int;
        let ghost n = g.n();
        let ghost gc = self.gcost@;
        let mut back: Vec<usize> = Vec::new();
        let mut cur: usize = goal;
        let ghost mut tail: Seq<int> = seq![goal as int];
        proof {
            reveal(costs_ok);
        }
        while self.came[cur] >= 0
            invariant
                g.wf(),
                n == g.n(),
                gc == self.gcost@,
                gc.len() == n,
                self.came@.len() == n,
                s == start,
                start < n,
                goal < n,
                cur < n,
                costs_ok(g, s, gc, self.came@),
                reached(gc, cur as int),
                0 <= gc[cur as int],
                tail.len() == back@.len() + 1,
                tail[0] == cur,
                forall|i: int|
                    0 <= i < back@.len() ==> tail[tail.len() - 1 - i] == #[trigger] back@[i],
                g.is_route(tail, cur as int, goal as int),
                gc[cur as int] + g.route_cost(tail) <= gc[goal as int],
            decreases gc[cur as int],
        {
            proof {
                reveal(costs_ok);
                let u = self.came@[cur as int] as int;
                assert(cur != s);
                assert(reached(gc, u));
                lemma_cost_prepend(g, u, tail);
                let t2 = seq![u] + tail;
                assert forall|i: int, j: int|
                    0 <= i && j == i + 1 && j < t2.len() implies #[trigger] g.step(
                    t2[i],
                    #[trigger] t2[j],
                ) by {
                    if i > 0 {
                        assert(g.step(tail[i - 1], tail[j - 1]));
                        assert(t2[i] == tail[i - 1] && t2[j] == tail[j - 1]);
                    }
                }
                assert(t2.last() == tail.last());
                tail = t2;
            }
            back.push(cur);
            cur = self.came[cur] as usize;
        }
        proof {
            reveal(costs_ok);
            if cur != s {
                assert(reached(gc, cur as int));
            }
        }
        back.push(cur);
        let mut out: Vec<usize> = Vec::new();
        let m: usize = back.len();
        for i in 0..m
            invariant
                m == back@.len(),
                m == tail.len(),
                out@.len() == i,
                forall|j: int| 0 <= j < m ==> tail[m - 1 - j] == #[trigger] back@[j],
                forall|j: int| 0 <= j < i ==> #[trigger] out@[j] == tail[j],
        {
            assert(tail[i as int] == back@[m - 1 - i]);
            out.push(back[m - 1 - i]);
        }
        proof {
            assert(out@.map_values(|c: usize| c as int) =~= tail);
        }
        out
    }
}

pub proof fn lemma_sides(g: Lattice)
    requires
        g.wf(),
    ensures
        g.tw <= g.n(),
        g.th <= g.n(),
        g.tw + g.th <= g.n() + 1,
{
    let tw = g.tw;
    let th = g.th;
    assert(tw <= tw * th && th <= tw * th && tw + th <= tw * th + 1) by (nonlinear_arith)
        requires
            tw > 0,
            th > 0,
    ;
}

proof fn lemma_reached_cost(
    g: Lattice,
    s: int,
    gc: Seq<i32>,
    came: Seq<i32>,
    walks: Seq<Seq<int>>,
    u: int,
)
    requires
        g.wf(),
        costs_ok(g, s, gc, came),
        walks_ok(g, s, gc, walks),
        0 <= u < g.n(),
        reached(gc, u),
    ensures
        0 <= gc[u] <= 14 * (g.n() - 1),
{
    reveal(costs_ok);
    reveal(walks_ok);
    assert(walk_ok(g, s, gc, walks[u], u));
    lemma_simple_walk_is_short(g, walks[u], s, u);
}

proof fn lemma_nonnegative(g: Lattice, s: int, gc: Seq<i32>, came: Seq<i32>)
    requires
        costs_ok(g, s, gc, came),
    ensures
        forall|x: int| 0 <= x < gc.len() ==> 0 <= #[trigger] gc[x],
{
    reveal(costs_ok);
    assert forall|x: int| 0 <= x < gc.len() implies 0 <= #[trigger] gc[x] by {
        if reached(gc, x) {
        }
    }
}

proof fn lemma_entry(g: Lattice, goal: int, gc: Seq<i32>, heap: Multiset<Entry>, e: Entry)
    requires
        entries_ok(g, goal, gc, heap),
        heap.contains(e),
    ensures
        0 <= e.cell < g.n(),
        reached(gc, e.cell as int),
{
    reveal(entries_ok);
}

/// Taking an entry out leaves every tile but its own open or settled.
proof fn lemma_pop(g: Lattice, goal: int, gc: Seq<i32>, heap: Multiset<Entry>, e: Entry)
    requires
        entries_ok(g, goal, gc, heap),
        frontier_ok(g, goal, gc, heap, -1),
        heap.contains(e),
    ensures
        entries_ok(g, goal, gc, heap.remove(e)),
        frontier_ok(g, goal, gc, heap.remove(e), e.cell as int),
{
    reveal(entries_ok);
    reveal(frontier_ok);
    let rest = heap.remove(e);
    assert forall|y: Entry| #[trigger] rest.contains(y) implies heap.contains(y) by {}
    assert forall|v: int| 0 <= v < g.n() && #[trigger] reached(gc, v) && v != e.cell implies open(
        g,
        goal,
        gc,
        rest,
        v,
    ) || settled(g, gc, v) by {
        if open(g, goal, gc, heap, v) {
            let y = choose|y: Entry| #[trigger]
                heap.contains(y) && y.cell == v && y.f == gc[v] + g.octile(v, goal);
            assert(y != e);
            assert(rest.contains(y));
        }
    }
}

/// Tiles in the same column and row are the same tile.
proof fn lemma_same_column_row(g: Lattice, u: int, v: int)
    requires
        g.wf(),
        0 <= u < g.n(),
        0 <= v < g.n(),
    ensures
        g.x(u) == g.x(v) && g.y(u) == g.y(v) ==> u == v,
{
    lemma_index(g, u);
    lemma_index(g, v);
}

fn octile_from(x: i32, y: i32, gx: i32, gy: i32) -> (h: i32)
    requires
        0 <= x <= MAX_TILES,
        0 <= y <= MAX_TILES,
        0 <= gx <= MAX_TILES,
        0 <= gy <= MAX_TILES,
        10 * (abs(x - gx) + abs(y - gy)) <= 20 * MAX_TILES,
    ensures
        h == 10 * (abs(x - gx) + abs(y - gy)) - 6 * min(abs(x - gx), abs(y - gy)),
{
    let dx: i32 = if x < gx { gx - x } else { x - gx };
    let dy: i32 = if y < gy { gy - y } else { y - gy };
    let less: i32 = if dx < dy { dx } else { dy };
    10 * (dx + dy) - 6 * less
}

// ---- what holds of the ground underfoot -------------------------------------------------------------

/// A tile can be stood on exactly if it is on the map, is no cliff, and nothing stands there.
pub proof fn ground_can_be_stood_on(g: Grid, x: int, y: int)
    requires
        g.wf(),
    ensures
        g@.passable(x, y) <==> 0 <= x < g.tw && 0 <= y < g.th && g.terrain@[y * g.tw + x] != T_CLIFF && g.block@[y
            * g.tw + x] == 0,
        g.tile(x, y) == (if 0 <= x < g.tw && 0 <= y < g.th {
            g.terrain@[y * g.tw + x]
        } else {
            T_CLIFF
        }),
{
    if 0 <= x < g.tw && 0 <= y < g.th {
        lemma_xy(g@, x, y);
    }
}

/// One step leads to each of the eight neighbours that can be stood on; a straight one always,
/// a slanting one unless it cuts a blocked corner. No step leads farther, nor onto a blocked
/// tile. A straight step costs ten, a slanting one fourteen.
pub proof fn steps_lead_to_free_neighbours(g: Lattice, x: int, y: int, dx: int, dy: int)
    requires
        g.wf(),
        0 <= x < g.tw,
        0 <= y < g.th,
        0 <= x + dx < g.tw,
        0 <= y + dy < g.th,
    ensures
        ({
            let u = y * g.tw + x;
            let v = (y + dy) * g.tw + x + dx;
            &&& g.step(u, v) <==> g.passable(x + dx, y + dy) && -1 <= dx <= 1 && -1 <= dy <= 1 && !(dx == 0 && dy == 0)
                && (dx == 0 || dy == 0 || (g.passable(x + dx, y) && g.passable(x, y + dy)))
            &&& g.step(u, v) && (dx == 0 || dy == 0) ==> g.step_cost(u, v) == 10
            &&& g.step(u, v) && dx != 0 && dy != 0 ==> g.step_cost(u, v) == 14
        }),
{
    lemma_xy(g, x, y);
    lemma_xy(g, x + dx, y + dy);
}

/// A way costs what its steps cost.
pub proof fn ways_cost_what_their_steps_do(g: Lattice, p: Seq<int>, v: int)
    requires
        p.len() > 0,
    ensures
        g.route_cost(p.push(v)) == g.route_cost(p) + g.step_cost(p.last(), v),
        g.route_cost(seq![v]) == 0,
{
    assert(p.push(v).drop_last() =~= p);
}

/// Whatever is found is a way: it starts next to where one stands, every tile of it can be
/// stood on, each is next to the one before, and it ends on the tile that is nearest to where
/// one wants to go.
pub proof fn what_is_found_is_a_way(g: Lattice, from: (i32, i32), to: (i32, i32), tiles: Vec<(i32, i32)>, j: int)
    requires
        g.wf(),
        g.found(from, to, Some(tiles)),
        0 <= j < tiles@.len(),
    ensures
        g.passable(tiles@[j].0 as int, tiles@[j].1 as int),
        j > 0 ==> abs(tiles@[j].0 - tiles@[j - 1].0) <= 1 && abs(tiles@[j].1 - tiles@[j - 1].1) <= 1,
        g.is_nearest(to.0 as int, to.1 as int, tiles@.last().0 as int, tiles@.last().1 as int),
        g.passable(to.0 as int, to.1 as int) ==> tiles@.last() == to,
{
    let (sx, sy, tx, ty) = choose|sx: int, sy: int, tx: int, ty: int| #[trigger]
        g.is_nearest(from.0 as int, from.1 as int, sx, sy) && #[trigger] g.is_nearest(
            to.0 as int,
            to.1 as int,
            tx,
            ty,
        ) && g.leads(tiles@, sx, sy, tx, ty);
    lemma_xy(g, sx, sy);
    lemma_xy(g, tx, ty);
    if !(sx == tx && sy == ty) {
        let p = choose|p: Seq<int>| #[trigger]
            g.is_cheapest(p, g.at(sx, sy), g.at(tx, ty)) && g.leads_along(tiles@, p);
        assert(g.is_route(p, g.at(sx, sy), g.at(tx, ty)));
        assert(p.len() > 1);
        assert(g.step(p[j], p[j + 1]));
        let v = p[j + 1];
        let (w, h) = (g.tw, g.th);
        assert(0 <= v % w < w && 0 <= v / w < h && (v / w) * w + v % w == v) by (nonlinear_arith)
            requires
                0 <= v < w * h,
                0 < w,
        ;
        let last = tiles@.len() - 1;
        assert(tiles@[last].0 == g.x(p[last + 1]));
    }
    if g.passable(to.0 as int, to.1 as int) {
        if !(tx == to.0 && ty == to.1) {
            assert(tried_before(tx - to.0, ty - to.1, to.0 - to.0, to.1 - to.1));
        }
    }
}

/// The tile next to a blocked one that is taken instead is among the nearest: no tile in a
/// closer ring can be stood on.
pub proof fn no_closer_ring_is_free(g: Lattice, cx: int, cy: int, x: int, y: int, a: int, b: int)
    requires
        g.is_nearest(cx, cy, x, y),
        g.passable(a, b),
    ensures
        g.passable(x, y),
        max(abs(x - cx), abs(y - cy)) <= max(abs(a - cx), abs(b - cy)),
{
}

} // verus!
