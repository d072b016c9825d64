use crate::rng::{RngState, SeededRng};
use vstd::prelude::*;

verus! {

/// Side of the square grid; odd, so that a true center cell exists.
pub const SIDE: usize = 33;

pub const CELL_COUNT: usize = SIDE * SIDE;

/// Both coordinates of the center cell, where the cockpit stands.
pub const CENTER: usize = 16;

/// Steps of the random walk that seeds the hull.
pub const WALK_LENGTH: usize = 12;

/// What one cell of the automaton holds.
#[derive(Clone, Copy, PartialEq, Eq, Debug, Structural)]
pub enum CellType {
    Empty,
    Cockpit,
    Hull,
    Engine,
}

// ---------------------------------------------------------------------------
// The grid as a sequence: cell (x, y) stands at index x * SIDE + y.
// ---------------------------------------------------------------------------

pub open spec fn in_bounds(x: int, y: int) -> bool {
    0 <= x < SIDE && 0 <= y < SIDE
}

pub open spec fn index_of(x: int, y: int) -> int {
    x * SIDE + y
}

/// The cell at (x, y); outside the grid everything is empty.
pub open spec fn at(g: Seq<CellType>, x: int, y: int) -> CellType {
    if in_bounds(x, y) && index_of(x, y) < g.len() {
        g[index_of(x, y)]
    } else {
        CellType::Empty
    }
}

/// Cells that count as neighbours for the smoothing rules.
pub open spec fn solid(c: CellType) -> bool {
    c is Hull || c is Cockpit
}

/// Cells that the connectivity search may walk through.
pub open spec fn passable(c: CellType) -> bool {
    c is Hull || c is Engine
}

/// A well-formed grid: the cockpit at the center and nowhere else.
pub open spec fn grid_ok(g: Seq<CellType>) -> bool {
    &&& g.len() == CELL_COUNT
    &&& g[index_of(CENTER as int, CENTER as int)] is Cockpit
    &&& forall|i: int| 0 <= i < CELL_COUNT && i != index_of(CENTER as int, CENTER as int) ==> !(#[trigger] g[i] is Cockpit)
}

/// The eight Moore offsets, in the order the automaton visits them.
pub open spec fn moore(k: int) -> (int, int) {
    if k == 0 {
        (-1, -1)
    } else if k == 1 {
        (-1, 0)
    } else if k == 2 {
        (-1, 1)
    } else if k == 3 {
        (0, -1)
    } else if k == 4 {
        (0, 1)
    } else if k == 5 {
        (1, -1)
    } else if k == 6 {
        (1, 0)
    } else {
        (1, 1)
    }
}

/// How many of the first `k` Moore neighbours of (x, y) are solid.
pub open spec fn solid_count(g: Seq<CellType>, x: int, y: int, k: int) -> int
    decreases k,
{
    if k <= 0 {
        0
    } else {
        solid_count(g, x, y, k - 1) + if solid(at(g, x + moore(k - 1).0, y + moore(k - 1).1)) {
            1int
        } else {
            0int
        }
    }
}

pub open spec fn neighbor_count(g: Seq<CellType>, x: int, y: int) -> int {
    solid_count(g, x, y, 8)
}

pub open spec fn frontier_ok(s: Seq<(usize, usize)>) -> bool {
    forall|k: int| 0 <= k < s.len() ==> in_bounds((#[trigger] s[k]).0 as int, s[k].1 as int)
}

/// The frontier with (x, y) appended, unless it is outside the grid or already there.
pub open spec fn frontier_add(s: Seq<(usize, usize)>, x: int, y: int) -> Seq<(usize, usize)> {
    if in_bounds(x, y) && !s.contains((x as usize, y as usize)) {
        s.push((x as usize, y as usize))
    } else {
        s
    }
}

/// The frontier with the first `k` Moore neighbours of (x, y) added, in order.
pub open spec fn add_moore(s: Seq<(usize, usize)>, x: int, y: int, k: int) -> Seq<(usize, usize)>
    decreases k,
{
    if k <= 0 {
        s
    } else {
        frontier_add(add_moore(s, x, y, k - 1), x + moore(k - 1).0, y + moore(k - 1).1)
    }
}

// ---------------------------------------------------------------------------
// Seeding: a biased random walk from the cockpit.
// ---------------------------------------------------------------------------

/// Heading picked by a draw below 16, weighted north 1, south 3, east 6, west 6
/// (0 = north, 1 = south, 2 = east, 3 = west).
pub open spec fn heading(v: u64) -> int {
    if v < 1 {
        0
    } else if v < 4 {
        1
    } else if v < 10 {
        2
    } else {
        3
    }
}

pub open spec fn moved(x: int, y: int, heading: int) -> (int, int) {
    if heading == 0 {
        (x, y - 1)
    } else if heading == 1 {
        (x, y + 1)
    } else if heading == 2 {
        (x + 1, y)
    } else {
        (x - 1, y)
    }
}

pub struct WalkState {
    pub grid: Seq<CellType>,
    pub x: int,
    pub y: int,
    pub rng: RngState,
}

/// One step of the walk: a 1-in-20 draw sends the walker back to the center;
/// from the cockpit it always heads south, elsewhere along a weighted draw;
/// the cell reached turns to hull when it is empty and the cockpit is not right after it.
pub open spec fn walk_step(w: WalkState) -> WalkState {
    let reset = w.rng.value(20);
    let r1 = w.rng.advance(20);
    let x0 = if reset == 0 { CENTER as int } else { w.x };
    let y0 = if reset == 0 { CENTER as int } else { w.y };
    let forced = at(w.grid, x0, y0) is Cockpit;
    let h = if forced { 1 } else { heading(r1.value(16)) };
    let r2 = if forced { r1 } else { r1.advance(16) };
    let (nx, ny) = moved(x0, y0, h);
    let grid = if in_bounds(nx, ny) && at(w.grid, nx, ny) is Empty && !(at(w.grid, nx, ny + 1) is Cockpit) {
        w.grid.update(index_of(nx, ny), CellType::Hull)
    } else {
        w.grid
    };
    WalkState { grid, x: nx, y: ny, rng: r2 }
}

pub open spec fn walk(w: WalkState, n: nat) -> WalkState
    decreases n,
{
    if n == 0 {
        w
    } else {
        walk_step(walk(w, (n - 1) as nat))
    }
}

/// The grid before the walk: the cockpit at the center, all else empty.
pub open spec fn cockpit_only() -> Seq<CellType> {
    Seq::new(CELL_COUNT as nat, |i: int| if i == index_of(CENTER as int, CENTER as int) {
        CellType::Cockpit
    } else {
        CellType::Empty
    })
}

/// The frontier seeded from the first `n` cells in scan order: the Moore
/// neighbours of every solid cell.
pub open spec fn seed_frontier(g: Seq<CellType>, n: int) -> Seq<(usize, usize)>
    decreases n,
{
    if n <= 0 {
        Seq::empty()
    } else {
        let s = seed_frontier(g, n - 1);
        if solid(g[n - 1]) {
            add_moore(s, (n - 1) / SIDE as int, (n - 1) % SIDE as int, 8)
        } else {
            s
        }
    }
}

/// Everything the automaton carries from one phase to the next.
pub struct Phase {
    pub grid: Seq<CellType>,
    pub frontier: Seq<(usize, usize)>,
    pub rng: RngState,
}

/// The automaton after seeding from the stream `r`.
pub open spec fn seeded(r: RngState) -> Phase {
    let w = walk(
        WalkState { grid: cockpit_only(), x: CENTER as int, y: CENTER as int, rng: r },
        WALK_LENGTH as nat,
    );
    Phase { grid: w.grid, frontier: seed_frontier(w.grid, CELL_COUNT as int), rng: w.rng }
}

// ---------------------------------------------------------------------------
// Smoothing: synchronous rule updates over the frontier.
// ---------------------------------------------------------------------------

/// What the rules make of the cell at (x, y), and the stream after any draw:
/// an empty cell with three or more solid neighbours, and no cockpit right
/// after it, turns to hull with chance 4 in 10; a hull cell with at most one
/// solid neighbour turns empty with chance 4 in 10; nothing else changes.
pub open spec fn rule(g: Seq<CellType>, x: int, y: int, r: RngState) -> (Option<CellType>, RngState) {
    let c = at(g, x, y);
    let n = neighbor_count(g, x, y);
    if c is Empty && n >= 3 && !(at(g, x, y + 1) is Cockpit) {
        (if r.value(10) < 4 { Some(CellType::Hull) } else { None }, r.advance(10))
    } else if c is Hull && n <= 1 {
        (if r.value(10) < 4 { Some(CellType::Empty) } else { None }, r.advance(10))
    } else {
        (None, r)
    }
}

/// The changes buffered while evaluating the first `n` frontier positions
/// against the unchanged grid `g`, and the stream after their draws.
pub open spec fn evaluate(g: Seq<CellType>, front: Seq<(usize, usize)>, n: int, r: RngState) -> (
    Seq<((usize, usize), CellType)>,
    RngState,
)
    decreases n,
{
    if n <= 0 {
        (Seq::empty(), r)
    } else {
        let (ch, r1) = evaluate(g, front, n - 1, r);
        let p = front[n - 1];
        let (c, r2) = rule(g, p.0 as int, p.1 as int, r1);
        (
            match c {
                Some(v) => ch.push((p, v)),
                None => ch,
            },
            r2,
        )
    }
}

/// `g` with the first `n` buffered changes written, in order.
pub open spec fn apply_changes(g: Seq<CellType>, ch: Seq<((usize, usize), CellType)>, n: int) -> Seq<CellType>
    decreases n,
{
    if n <= 0 {
        g
    } else {
        apply_changes(g, ch, n - 1).update(index_of(ch[n - 1].0.0 as int, ch[n - 1].0.1 as int), ch[n - 1].1)
    }
}

/// The next frontier: the Moore neighbours of the first `n` changed cells.
pub open spec fn changed_frontier(ch: Seq<((usize, usize), CellType)>, n: int) -> Seq<(usize, usize)>
    decreases n,
{
    if n <= 0 {
        Seq::empty()
    } else {
        add_moore(changed_frontier(ch, n - 1), ch[n - 1].0.0 as int, ch[n - 1].0.1 as int, 8)
    }
}

/// One smoothing iteration.
pub open spec fn smooth_step(p: Phase) -> Phase {
    let (ch, r) = evaluate(p.grid, p.frontier, p.frontier.len() as int, p.rng);
    Phase {
        grid: apply_changes(p.grid, ch, ch.len() as int),
        frontier: changed_frontier(ch, ch.len() as int),
        rng: r,
    }
}

pub open spec fn smooth(p: Phase, n: nat) -> Phase
    decreases n,
{
    if n == 0 {
        p
    } else {
        smooth_step(smooth(p, (n - 1) as nat))
    }
}

/// Every hull cell of the bottom row becomes an engine.
pub open spec fn with_engines(g: Seq<CellType>) -> Seq<CellType> {
    Seq::new(g.len(), |i: int| if i % SIDE as int == SIDE - 1 && g[i] is Hull {
        CellType::Engine
    } else {
        g[i]
    })
}

pub proof fn lemma_index(x: int, y: int)
    requires
        in_bounds(x, y),
    ensures
        0 <= index_of(x, y) < CELL_COUNT,
        index_of(x, y) / SIDE as int == x,
        index_of(x, y) % SIDE as int == y,
{
}

pub proof fn lemma_index_injective(x1: int, y1: int, x2: int, y2: int)
    requires
        in_bounds(x1, y1),
        in_bounds(x2, y2),
        index_of(x1, y1) == index_of(x2, y2),
    ensures
        x1 == x2 && y1 == y2,
{
}

pub proof fn lemma_scan_index(n: int)
    requires
        0 <= n < CELL_COUNT,
    ensures
        in_bounds(n / SIDE as int, n % SIDE as int),
        index_of(n / SIDE as int, n % SIDE as int) == n,
{
}

// ---------------------------------------------------------------------------
// Connectivity: 8-connected walks from the cockpit through hull and engine cells.
// ---------------------------------------------------------------------------

/// Two distinct cells that touch along an edge or at a corner.
pub open spec fn touching(a: (int, int), b: (int, int)) -> bool {
    a != b && -1 <= a.0 - b.0 <= 1 && -1 <= a.1 - b.1 <= 1
}

/// A walk that starts at the cockpit and then only steps, cell to touching
/// cell, through passable cells of the grid.
pub open spec fn is_path(g: Seq<CellType>, p: Seq<(int, int)>) -> bool {
    &&& p.len() >= 1
    &&& p[0] == (CENTER as int, CENTER as int)
    &&& forall|k: int|
        1 <= k < p.len() ==> {
            &&& in_bounds((#[trigger] p[k]).0, p[k].1)
            &&& passable(at(g, p[k].0, p[k].1))
            &&& touching(p[k - 1], p[k])
        }
}

pub open spec fn reachable(g: Seq<CellType>, x: int, y: int) -> bool {
    exists|p: Seq<(int, int)>| #[trigger] is_path(g, p) && p.last() == (x, y)
}

/// Every hull and engine cell can be reached from the cockpit.
pub open spec fn connected(g: Seq<CellType>) -> bool {
    forall|x: int, y: int| in_bounds(x, y) && passable(#[trigger] at(g, x, y)) ==> reachable(g, x, y)
}

/// The grid with every hull or engine cell that the cockpit cannot reach cleared.
pub open spec fn prune(g: Seq<CellType>) -> Seq<CellType> {
    Seq::new(g.len(), |i: int| if passable(g[i]) && !reachable(g, i / SIDE as int, i % SIDE as int) {
        CellType::Empty
    } else {
        g[i]
    })
}

/// Whether the `m`-th Moore neighbour of (x, y), if it is passable, is marked in `vis`.
pub open spec fn neighbor_marked(g: Seq<CellType>, vis: Seq<bool>, x: int, y: int, m: int) -> bool {
    let nx = x + moore(m).0;
    let ny = y + moore(m).1;
    in_bounds(nx, ny) && passable(at(g, nx, ny)) ==> vis[index_of(nx, ny)]
}

pub open spec fn closed_at(g: Seq<CellType>, vis: Seq<bool>, x: int, y: int) -> bool {
    forall|m: int| 0 <= m < 8 ==> #[trigger] neighbor_marked(g, vis, x, y, m)
}

pub open spec fn moore_slot(dx: int, dy: int) -> int {
    if dx == -1 {
        if dy == -1 {
            0
        } else if dy == 0 {
            1
        } else {
            2
        }
    } else if dx == 0 {
        if dy == -1 {
            3
        } else {
            4
        }
    } else {
        if dy == -1 {
            5
        } else if dy == 0 {
            6
        } else {
            7
        }
    }
}

pub open spec fn count_true(s: Seq<bool>) -> nat
    decreases s.len(),
{
    if s.len() == 0 {
        0
    } else {
        count_true(s.drop_last()) + if s.last() {
            1nat
        } else {
            0nat
        }
    }
}

proof fn lemma_count_true_zero(s: Seq<bool>)
    requires
        forall|i: int| 0 <= i < s.len() ==> !s[i],
    ensures
        count_true(s) == 0,
    decreases s.len(),
{
    if s.len() > 0 {
        lemma_count_true_zero(s.drop_last());
    }
}

proof fn lemma_count_true_le(s: Seq<bool>)
    ensures
        count_true(s) <= s.len(),
    decreases s.len(),
{
    if s.len() > 0 {
        lemma_count_true_le(s.drop_last());
    }
}

proof fn lemma_count_true_set(s: Seq<bool>, i: int)
    requires
        0 <= i < s.len(),
        !s[i],
    ensures
        count_true(s.update(i, true)) == count_true(s) + 1,
    decreases s.len(),
{
    if i == s.len() - 1 {
        assert(s.update(i, true).drop_last() =~= s.drop_last());
    } else {
        assert(s.update(i, true).drop_last() =~= s.drop_last().update(i, true));
        lemma_count_true_set(s.drop_last(), i);
    }
}

proof fn lemma_touching_slot(a: (int, int), b: (int, int))
    requires
        touching(a, b),
    ensures
        0 <= moore_slot(b.0 - a.0, b.1 - a.1) < 8,
        moore(moore_slot(b.0 - a.0, b.1 - a.1)) == (b.0 - a.0, b.1 - a.1),
{
}

proof fn lemma_path_extend(g: Seq<CellType>, p: Seq<(int, int)>, x: int, y: int, nx: int, ny: int)
    requires
        is_path(g, p),
        p.last() == (x, y),
        in_bounds(nx, ny),
        passable(at(g, nx, ny)),
        touching((x, y), (nx, ny)),
    ensures
        is_path(g, p.push((nx, ny))),
        reachable(g, nx, ny),
{
    let q = p.push((nx, ny));
    assert forall|k: int| 1 <= k < q.len() implies {
        &&& in_bounds((#[trigger] q[k]).0, q[k].1)
        &&& passable(at(g, q[k].0, q[k].1))
        &&& touching(q[k - 1], q[k])
    } by {
        if k < p.len() {
            assert(q[k] == p[k]);
            assert(q[k - 1] == p[k - 1]);
        }
    }
    assert(is_path(g, q) && q.last() == (nx, ny));
}

proof fn lemma_path_prefix(g: Seq<CellType>, p: Seq<(int, int)>, k: int)
    requires
        is_path(g, p),
        0 <= k < p.len(),
    ensures
        is_path(g, p.take(k + 1)),
        reachable(g, p[k].0, p[k].1),
{
    let q = p.take(k + 1);
    assert forall|j: int| 1 <= j < q.len() implies {
        &&& in_bounds((#[trigger] q[j]).0, q[j].1)
        &&& passable(at(g, q[j].0, q[j].1))
        &&& touching(q[j - 1], q[j])
    } by {
        assert(q[j] == p[j]);
        assert(q[j - 1] == p[j - 1]);
    }
    assert(is_path(g, q) && q.last() == (p[k].0, p[k].1));
}

/// Every cell of a path lies in a marked set that holds the cockpit and is
/// closed under stepping to passable neighbours.
proof fn lemma_path_marked(g: Seq<CellType>, vis: Seq<bool>, queue: Seq<(usize, usize)>, p: Seq<(int, int)>, k: int)
    requires
        is_path(g, p),
        0 <= k < p.len(),
        vis.len() == CELL_COUNT,
        vis[index_of(CENTER as int, CENTER as int)],
        forall|x: int, y: int| in_bounds(x, y) && #[trigger] vis[index_of(x, y)] ==> queue.contains((x as usize, y as usize)),
        forall|j: int| 0 <= j < queue.len() ==> closed_at(g, vis, (#[trigger] queue[j]).0 as int, queue[j].1 as int),
        forall|j: int| 0 <= j < queue.len() ==> in_bounds((#[trigger] queue[j]).0 as int, queue[j].1 as int),
    ensures
        vis[index_of(p[k].0, p[k].1)],
    decreases k,
{
    if k > 0 {
        lemma_path_marked(g, vis, queue, p, k - 1);
        let a = p[k - 1];
        let b = p[k];
        assert(touching(p[k - 1], p[k]));
        assert(in_bounds(a.0, a.1)) by {
            if k - 1 > 0 {
                assert(in_bounds(p[k - 1].0, p[k - 1].1));
            }
        }
        assert(queue.contains((a.0 as usize, a.1 as usize)));
        let j = choose|j: int| 0 <= j < queue.len() && queue[j] == (a.0 as usize, a.1 as usize);
        assert(closed_at(g, vis, queue[j].0 as int, queue[j].1 as int));
        lemma_touching_slot(a, b);
        let m = moore_slot(b.0 - a.0, b.1 - a.1);
        assert(neighbor_marked(g, vis, a.0, a.1, m));
    }
}

/// What the connectivity repair leaves is connected: every hull or engine
/// cell that survives it can be reached from the cockpit through surviving
/// hull and engine cells.
pub proof fn lemma_prune_connected(g: Seq<CellType>)
    ensures
        connected(prune(g)),
{
    let h = prune(g);
    assert forall|x: int, y: int| in_bounds(x, y) && passable(#[trigger] at(h, x, y)) implies reachable(h, x, y) by {
        lemma_index(x, y);
        assert(passable(g[index_of(x, y)]) && reachable(g, x, y));
        let p = choose|p: Seq<(int, int)>| #[trigger] is_path(g, p) && p.last() == (x, y);
        assert forall|k: int| 1 <= k < p.len() implies {
            &&& in_bounds((#[trigger] p[k]).0, p[k].1)
            &&& passable(at(h, p[k].0, p[k].1))
            &&& touching(p[k - 1], p[k])
        } by {
            lemma_path_prefix(g, p, k);
            lemma_index(p[k].0, p[k].1);
        }
        assert(is_path(h, p));
    }
}

/// Whatever the stream, the silhouette that seeding, any number of smoothing
/// iterations, engine placement and repair produce is connected: every hull
/// and engine cell is reachable from the cockpit through hull and engine cells.
pub proof fn lemma_silhouette_connected(r: RngState, iterations: nat)
    ensures
        connected(prune(with_engines(smooth(seeded(r), iterations).grid))),
{
    lemma_prune_connected(with_engines(smooth(seeded(r), iterations).grid));
}

/// The repair changes nothing on a grid that is already connected.
pub proof fn lemma_prune_connected_noop(g: Seq<CellType>)
    requires
        g.len() == CELL_COUNT,
        connected(g),
    ensures
        prune(g) == g,
{
    assert forall|i: int| 0 <= i < g.len() implies #[trigger] prune(g)[i] == g[i] by {
        lemma_scan_index(i);
        assert(at(g, i / SIDE as int, i % SIDE as int) == g[i]);
    }
    assert(prune(g) =~= g);
}

/// The silhouette cells in scan order among the first `n`: position and kind of every non-empty cell.
pub open spec fn occupied(g: Seq<CellType>, n: int) -> Seq<(usize, usize, CellType)>
    decreases n,
{
    if n <= 0 {
        Seq::empty()
    } else if g[n - 1] is Empty {
        occupied(g, n - 1)
    } else {
        occupied(g, n - 1).push((((n - 1) / SIDE as int) as usize, ((n - 1) % SIDE as int) as usize, g[n - 1]))
    }
}

fn moore_offset(k: usize) -> (r: (i64, i64))
    requires
        k < 8,
    ensures
        (r.0 as int, r.1 as int) == moore(k as int),
{
    match k {
        0 => (-1, -1),
        1 => (-1, 0),
        2 => (-1, 1),
        3 => (0, -1),
        4 => (0, 1),
        5 => (1, -1),
        6 => (1, 0),
        _ => (1, 1),
    }
}

/// The cell at (x, y), or `None` where that lies outside the grid.
fn grid_index(x: i64, y: i64) -> (r: Option<usize>)
    ensures
        r is Some <==> in_bounds(x as int, y as int),
        r matches Some(i) ==> i as int == index_of(x as int, y as int) && i < CELL_COUNT,
{
    if 0 <= x && x < SIDE as i64 && 0 <= y && y < SIDE as i64 {
        proof {
            lemma_index(x as int, y as int);
        }
        Some(x as usize * SIDE + y as usize)
    } else {
        None
    }
}

fn read_cell(cells: &Vec<CellType>, x: i64, y: i64) -> (r: CellType)
    requires
        cells@.len() == CELL_COUNT,
    ensures
        r == at(cells@, x as int, y as int),
{
    match grid_index(x, y) {
        Some(i) => cells[i],
        None => CellType::Empty,
    }
}

/// Marks, by index, every cell that a path from the cockpit reaches
/// (breadth-first search over 8-connected hull and engine cells).
fn reachable_mask(cells: &Vec<CellType>) -> (vis: Vec<bool>)
    requires
        grid_ok(cells@),
    ensures
        vis@.len() == CELL_COUNT,
        forall|x: int, y: int| in_bounds(x, y) ==> (vis@[#[trigger] index_of(x, y)] <==> reachable(cells@, x, y)),
{
    let ghost g = cells@;
    let mut vis = vec![false; CELL_COUNT];
    let mut queue: Vec<(usize, usize)> = Vec::new();
    proof {
        lemma_index(CENTER as int, CENTER as int);
        assert(count_true(vis@) == 0) by {
            lemma_count_true_zero(vis@);
        }
        lemma_count_true_set(vis@, index_of(CENTER as int, CENTER as int));
        let p = seq![(CENTER as int, CENTER as int)];
        assert(is_path(g, p) && p.last() == (CENTER as int, CENTER as int));
    }
    vis.set(CENTER * SIDE + CENTER, true);
    queue.push((CENTER, CENTER));
    assert forall|x: int, y: int| in_bounds(x, y) && #[trigger] vis@[index_of(x, y)] implies reachable(g, x, y)
        && queue@.contains((x as usize, y as usize)) by {
        lemma_index(x, y);
        if index_of(x, y) != index_of(CENTER as int, CENTER as int) {
        } else {
            lemma_index_injective(x, y, CENTER as int, CENTER as int);
            assert(queue@[0] == (CENTER, CENTER));
        }
    }
    let mut head: usize = 0;
    while head < queue.len()
        invariant
            vis@.len() == CELL_COUNT,
            cells@ == g,
            grid_ok(g),
            head <= queue@.len(),
            queue@.len() == count_true(vis@),
            vis@[index_of(CENTER as int, CENTER as int)],
            forall|k: int|
                0 <= k < queue@.len() ==> in_bounds((#[trigger] queue@[k]).0 as int, queue@[k].1 as int)
                    && vis@[index_of(queue@[k].0 as int, queue@[k].1 as int)],
            forall|x: int, y: int|
                in_bounds(x, y) && #[trigger] vis@[index_of(x, y)] ==> reachable(g, x, y) && queue@.contains(
                    (x as usize, y as usize),
                ),
            forall|k: int| 0 <= k < head ==> closed_at(g, vis@, (#[trigger] queue@[k]).0 as int, queue@[k].1 as int),
        decreases 2 * CELL_COUNT - queue@.len() - head,
    {
        proof {
            lemma_count_true_le(vis@);
        }
        let (x, y) = queue[head];
        assert(in_bounds(queue@[head as int].0 as int, queue@[head as int].1 as int));
        proof {
            lemma_index(x as int, y as int);
        }
        let ghost qlen0 = queue@.len();
        let mut m: usize = 0;
        while m < 8
            invariant
                m <= 8,
                vis@.len() == CELL_COUNT,
                cells@ == g,
                grid_ok(g),
                head < queue@.len(),
                qlen0 <= queue@.len() <= qlen0 + m,
                queue@[head as int] == (x, y),
                in_bounds(x as int, y as int),
                reachable(g, x as int, y as int),
                queue@.len() == count_true(vis@),
                vis@[index_of(CENTER as int, CENTER as int)],
                forall|k: int|
                    0 <= k < queue@.len() ==> in_bounds((#[trigger] queue@[k]).0 as int, queue@[k].1 as int)
                        && vis@[index_of(queue@[k].0 as int, queue@[k].1 as int)],
                forall|x: int, y: int|
                    in_bounds(x, y) && #[trigger] vis@[index_of(x, y)] ==> reachable(g, x, y) && queue@.contains(
                        (x as usize, y as usize),
                    ),
                forall|k: int| 0 <= k < head ==> closed_at(g, vis@, (#[trigger] queue@[k]).0 as int, queue@[k].1 as int),
                forall|mm: int| 0 <= mm < m ==> #[trigger] neighbor_marked(g, vis@, x as int, y as int, mm),
            decreases 8 - m,
        {
            let (dx, dy) = moore_offset(m);
            let nx = x as i64 + dx;
            let ny = y as i64 + dy;
            match grid_index(nx, ny) {
                Some(j) => {
                    if !vis[j] && (cells[j] == CellType::Hull || cells[j] == CellType::Engine) {
                        let ghost vis0 = vis@;
                        let ghost queue0 = queue@;
                        proof {
                            lemma_count_true_set(vis@, j as int);
                            let p = choose|p: Seq<(int, int)>| #[trigger] is_path(g, p) && p.last() == (x as int, y as int);
                            lemma_path_extend(g, p, x as int, y as int, nx as int, ny as int);
                        }
                        vis.set(j, true);
                        queue.push((nx as usize, ny as usize));
                        assert forall|a: int, b: int| in_bounds(a, b) && #[trigger] vis@[index_of(a, b)] implies reachable(g, a, b)
                            && queue@.contains((a as usize, b as usize)) by {
                            lemma_index(a, b);
                            if index_of(a, b) == j {
                                lemma_index_injective(a, b, nx as int, ny as int);
                                assert(queue@.last() == (a as usize, b as usize));
                            } else {
                                assert(vis0[index_of(a, b)]);
                                let k = choose|k: int| 0 <= k < queue0.len() && queue0[k] == (a as usize, b as usize);
                                assert(queue@[k] == (a as usize, b as usize));
                            }
                        }
                        assert forall|k: int| 0 <= k < head implies closed_at(g, vis@, (#[trigger] queue@[k]).0 as int, queue@[k].1 as int) by {
                            assert(queue@[k] == queue0[k]);
                            assert(closed_at(g, vis0, queue0[k].0 as int, queue0[k].1 as int));
                            assert forall|mm: int| 0 <= mm < 8 implies #[trigger] neighbor_marked(g, vis@, queue@[k].0 as int, queue@[k].1 as int, mm) by {
                                assert(neighbor_marked(g, vis0, queue0[k].0 as int, queue0[k].1 as int, mm));
                            }
                        }
                        assert forall|k: int| 0 <= k < queue@.len() implies in_bounds((#[trigger] queue@[k]).0 as int, queue@[k].1 as int)
                            && vis@[index_of(queue@[k].0 as int, queue@[k].1 as int)] by {
                            if k < queue0.len() {
                                assert(queue@[k] == queue0[k]);
                            }
                        }
                        assert forall|mm: int| 0 <= mm < m + 1 implies #[trigger] neighbor_marked(g, vis@, x as int, y as int, mm) by {
                            if mm < m {
                                assert(neighbor_marked(g, vis0, x as int, y as int, mm));
                            }
                        }
                    }
                },
                None => {},
            }
            m += 1;
        }
        proof {
            lemma_count_true_le(vis@);
        }
        head += 1;
    }
    proof {
        assert forall|x: int, y: int| in_bounds(x, y) && reachable(g, x, y) implies #[trigger] vis@[index_of(x, y)] by {
            let p = choose|p: Seq<(int, int)>| #[trigger] is_path(g, p) && p.last() == (x, y);
            lemma_path_marked(g, vis@, queue@, p, p.len() - 1);
        }
    }
    vis
}

/// A work-list of grid positions without repeats, in insertion order.
struct Frontier {
    order: Vec<(usize, usize)>,
    marked: Vec<bool>,
}

impl Frontier {
    spec fn wf(&self) -> bool {
        &&& self.marked@.len() == CELL_COUNT
        &&& frontier_ok(self.order@)
        &&& forall|x: int, y: int|
            in_bounds(x, y) ==> (self.marked@[#[trigger] index_of(x, y)] <==> self.order@.contains(
                (x as usize, y as usize),
            ))
    }

    fn new() -> (r: Frontier)
        ensures
            r.wf(),
            r.order@ == Seq::<(usize, usize)>::empty(),
    {
        let r = Frontier { order: Vec::new(), marked: vec![false; CELL_COUNT] };
        assert forall|x: int, y: int| in_bounds(x, y) implies (r.marked@[#[trigger] index_of(x, y)]
            <==> r.order@.contains((x as usize, y as usize))) by {
            lemma_index(x, y);
        }
        r
    }

    fn insert(&mut self, x: i64, y: i64)
        requires
            old(self).wf(),
        ensures
            final(self).wf(),
            final(self).order@ == frontier_add(old(self).order@, x as int, y as int),
    {
        match grid_index(x, y) {
            None => {},
            Some(i) => {
                let ghost p = (x as usize, y as usize);
                if !self.marked[i] {
                    self.marked.set(i, true);
                    self.order.push((x as usize, y as usize));
                    assert forall|a: int, b: int| in_bounds(a, b) implies (
                    self.marked@[#[trigger] index_of(a, b)] <==> self.order@.contains(
                        (a as usize, b as usize),
                    )) by {
                        lemma_index(a, b);
                        if index_of(a, b) == i {
                            lemma_index_injective(a, b, x as int, y as int);
                            assert(self.order@.last() == (a as usize, b as usize));
                        } else {
                            if self.order@.contains((a as usize, b as usize)) {
                                let k = choose|k: int| 0 <= k < self.order@.len() && self.order@[k] == (a as usize, b as usize);
                                if k == self.order@.len() - 1 {
                                    assert(a == x && b == y);
                                } else {
                                    assert(old(self).order@[k] == (a as usize, b as usize));
                                }
                            }
                            if old(self).order@.contains((a as usize, b as usize)) {
                                let k = choose|k: int| 0 <= k < old(self).order@.len() && old(self).order@[k] == (a as usize, b as usize);
                                assert(self.order@[k] == (a as usize, b as usize));
                            }
                        }
                    }
                } else {
                    assert(self.marked@[index_of(x as int, y as int)]);
                }
            },
        }
    }

    /// Adds the Moore neighbours of (x, y) in order.
    fn insert_moore(&mut self, x: usize, y: usize)
        requires
            old(self).wf(),
            in_bounds(x as int, y as int),
        ensures
            final(self).wf(),
            final(self).order@ == add_moore(old(self).order@, x as int, y as int, 8),
    {
        let mut k: usize = 0;
        while k < 8
            invariant
                k <= 8,
                in_bounds(x as int, y as int),
                self.wf(),
                self.order@ == add_moore(old(self).order@, x as int, y as int, k as int),
            decreases 8 - k,
        {
            let (dx, dy) = moore_offset(k);
            self.insert(x as i64 + dx, y as i64 + dy);
            k += 1;
        }
    }
}

/// The automaton view: the grid and the positions to re-examine next.
pub struct AutomataView {
    pub grid: Seq<CellType>,
    pub frontier: Seq<(usize, usize)>,
}

/// The cellular automaton that carves a ship silhouette on a SIDE x SIDE grid.
pub struct Automata {
    cells: Vec<CellType>,
    active: Vec<(usize, usize)>,
}

impl View for Automata {
    type V = AutomataView;

    closed spec fn view(&self) -> AutomataView {
        AutomataView { grid: self.cells@, frontier: self.active@ }
    }
}

impl Automata {
    pub open spec fn wf(&self) -> bool {
        grid_ok(self@.grid) && frontier_ok(self@.frontier)
    }

    /// Seeds the grid: the cockpit at the center, a biased random walk of
    /// WALK_LENGTH steps that lays hull, and a frontier of the Moore
    /// neighbours of every solid cell.
    pub fn new(rng: &mut SeededRng) -> (r: Automata)
        ensures
            r.wf(),
            r@.grid == seeded(old(rng)@).grid,
            r@.frontier == seeded(old(rng)@).frontier,
            final(rng)@ == seeded(old(rng)@).rng,
    {
        let ghost r0 = rng@;
        let mut cells = vec![CellType::Empty; CELL_COUNT];
        proof {
            lemma_index(CENTER as int, CENTER as int);
        }
        cells.set(CENTER * SIDE + CENTER, CellType::Cockpit);
        assert(cells@ =~= cockpit_only());
        let ghost w0 = WalkState { grid: cockpit_only(), x: CENTER as int, y: CENTER as int, rng: r0 };
        let mut x: i64 = CENTER as i64;
        let mut y: i64 = CENTER as i64;
        let mut step: usize = 0;
        while step < WALK_LENGTH
            invariant
                step <= WALK_LENGTH,
                cells@.len() == CELL_COUNT,
                grid_ok(cells@),
                CENTER - step <= x <= CENTER + step,
                CENTER - step <= y <= CENTER + step,
                walk(w0, step as nat) == (WalkState { grid: cells@, x: x as int, y: y as int, rng: rng@ }),
            decreases WALK_LENGTH - step,
        {
            let ghost w = WalkState { grid: cells@, x: x as int, y: y as int, rng: rng@ };
            let reset = rng.below(20);
            if reset == 0 {
                x = CENTER as i64;
                y = CENTER as i64;
            }
            let heading: u64 = if read_cell(&cells, x, y) == CellType::Cockpit {
                1
            } else {
                let v = rng.below(16);
                if v < 1 {
                    0
                } else if v < 4 {
                    1
                } else if v < 10 {
                    2
                } else {
                    3
                }
            };
            if heading == 0 {
                y = y - 1;
            } else if heading == 1 {
                y = y + 1;
            } else if heading == 2 {
                x = x + 1;
            } else {
                x = x - 1;
            }
            match grid_index(x, y) {
                Some(i) => {
                    if cells[i] == CellType::Empty && read_cell(&cells, x, y + 1) != CellType::Cockpit {
                        cells.set(i, CellType::Hull);
                    }
                },
                None => {},
            }
            assert(walk_step(w) == (WalkState { grid: cells@, x: x as int, y: y as int, rng: rng@ }));
            step += 1;
        }
        let mut front = Frontier::new();
        let mut n: usize = 0;
        while n < CELL_COUNT
            invariant
                n <= CELL_COUNT,
                cells@.len() == CELL_COUNT,
                front.wf(),
                front.order@ == seed_frontier(cells@, n as int),
            decreases CELL_COUNT - n,
        {
            let c = cells[n];
            if c == CellType::Hull || c == CellType::Cockpit {
                proof {
                    lemma_scan_index(n as int);
                }
                front.insert_moore(n / SIDE, n % SIDE);
            }
            n += 1;
        }
        Automata { cells, active: front.order }
    }

    /// Runs `iterations` smoothing steps, turns the bottom row's hull into
    /// engines, and clears whatever the cockpit cannot reach.
    pub fn run(&mut self, iterations: usize, rng: &mut SeededRng)
        requires
            old(self).wf(),
        ensures
            final(self).wf(),
            ({
                let p = smooth(
                    Phase { grid: old(self)@.grid, frontier: old(self)@.frontier, rng: old(rng)@ },
                    iterations as nat,
                );
                &&& final(self)@.grid == prune(with_engines(p.grid))
                &&& final(self)@.frontier == p.frontier
                &&& final(rng)@ == p.rng
            }),
            connected(final(self)@.grid),
    {
        let ghost p0 = Phase { grid: self@.grid, frontier: self@.frontier, rng: rng@ };
        let mut i: usize = 0;
        while i < iterations
            invariant
                i <= iterations,
                self.wf(),
                ({
                    let p = smooth(p0, i as nat);
                    self@.grid == p.grid && self@.frontier == p.frontier && rng@ == p.rng
                }),
            decreases iterations - i,
        {
            self.step(rng);
            i += 1;
        }
        self.post_process();
        self.remove_disconnected_cells();
        proof {
            lemma_prune_connected(with_engines(smooth(p0, iterations as nat).grid));
        }
    }

    /// Turns every hull cell of the bottom row into an engine.
    fn post_process(&mut self)
        requires
            old(self).wf(),
        ensures
            final(self).wf(),
            final(self)@.grid == with_engines(old(self)@.grid),
            final(self)@.frontier == old(self)@.frontier,
    {
        let ghost g = self.cells@;
        let mut n: usize = 0;
        while n < CELL_COUNT
            invariant
                n <= CELL_COUNT,
                grid_ok(g),
                self.cells@.len() == CELL_COUNT,
                self.active@ == old(self)@.frontier,
                g == old(self)@.grid,
                forall|i: int| 0 <= i < n ==> #[trigger] self.cells@[i] == with_engines(g)[i],
                forall|i: int| n <= i < CELL_COUNT ==> #[trigger] self.cells@[i] == g[i],
            decreases CELL_COUNT - n,
        {
            if n % SIDE == SIDE - 1 && self.cells[n] == CellType::Hull {
                self.cells.set(n, CellType::Engine);
            }
            n += 1;
        }
        assert(self.cells@ =~= with_engines(g));
    }

    /// Whether every hull and engine cell can be reached from the cockpit.
    pub fn validate_connectivity(&self) -> (r: bool)
        requires
            self.wf(),
        ensures
            r == connected(self@.grid),
    {
        let vis = reachable_mask(&self.cells);
        let mut n: usize = 0;
        while n < CELL_COUNT
            invariant
                n <= CELL_COUNT,
                self.wf(),
                vis@.len() == CELL_COUNT,
                forall|x: int, y: int| in_bounds(x, y) ==> (vis@[#[trigger] index_of(x, y)] <==> reachable(self@.grid, x, y)),
                forall|i: int| 0 <= i < n && passable(#[trigger] self@.grid[i]) ==> vis@[i],
            decreases CELL_COUNT - n,
        {
            proof {
                lemma_scan_index(n as int);
            }
            let c = self.cells[n];
            if (c == CellType::Hull || c == CellType::Engine) && !vis[n] {
                assert(!reachable(self@.grid, n as int / SIDE as int, n as int % SIDE as int));
                assert(passable(at(self@.grid, n as int / SIDE as int, n as int % SIDE as int)));
                return false;
            }
            n += 1;
        }
        assert forall|x: int, y: int| in_bounds(x, y) && passable(#[trigger] at(self@.grid, x, y)) implies reachable(
            self@.grid,
            x,
            y,
        ) by {
            lemma_index(x, y);
        }
        true
    }

    /// Clears every hull or engine cell that the cockpit cannot reach.
    pub fn remove_disconnected_cells(&mut self)
        requires
            old(self).wf(),
        ensures
            final(self).wf(),
            final(self)@.grid == prune(old(self)@.grid),
            final(self)@.frontier == old(self)@.frontier,
    {
        if self.validate_connectivity() {
            proof {
                lemma_prune_connected_noop(self@.grid);
            }
            return;
        }
        let ghost g = self.cells@;
        let vis = reachable_mask(&self.cells);
        let mut n: usize = 0;
        while n < CELL_COUNT
            invariant
                n <= CELL_COUNT,
                grid_ok(g),
                g == old(self)@.grid,
                self.cells@.len() == CELL_COUNT,
                self.active@ == old(self)@.frontier,
                vis@.len() == CELL_COUNT,
                forall|x: int, y: int| in_bounds(x, y) ==> (vis@[#[trigger] index_of(x, y)] <==> reachable(g, x, y)),
                forall|i: int| 0 <= i < n ==> #[trigger] self.cells@[i] == prune(g)[i],
                forall|i: int| n <= i < CELL_COUNT ==> #[trigger] self.cells@[i] == g[i],
            decreases CELL_COUNT - n,
        {
            proof {
                lemma_scan_index(n as int);
            }
            let c = self.cells[n];
            if (c == CellType::Hull || c == CellType::Engine) && !vis[n] {
                self.cells.set(n, CellType::Empty);
            }
            n += 1;
        }
        assert(self.cells@ =~= prune(g));
        proof {
            lemma_index(CENTER as int, CENTER as int);
        }
    }

    /// The cell at (x, y); empty outside the grid.
    pub fn cell(&self, x: i64, y: i64) -> (r: CellType)
        requires
            self.wf(),
        ensures
            r == at(self@.grid, x as int, y as int),
    {
        read_cell(&self.cells, x, y)
    }

    /// Every non-empty cell with its position, in scan order (x, then y).
    pub fn get_non_empty(&self) -> (r: Vec<(usize, usize, CellType)>)
        requires
            self.wf(),
        ensures
            r@ == occupied(self@.grid, CELL_COUNT as int),
    {
        let mut r: Vec<(usize, usize, CellType)> = Vec::new();
        let mut n: usize = 0;
        while n < CELL_COUNT
            invariant
                n <= CELL_COUNT,
                self.wf(),
                r@ == occupied(self@.grid, n as int),
            decreases CELL_COUNT - n,
        {
            if self.cells[n] != CellType::Empty {
                r.push((n / SIDE, n % SIDE, self.cells[n]));
            }
            n += 1;
        }
        r
    }

    /// The number of Hull or Cockpit cells among the eight around (x, y).
    fn count_neighbors(&self, x: usize, y: usize) -> (r: usize)
        requires
            self@.grid.len() == CELL_COUNT,
            in_bounds(x as int, y as int),
        ensures
            r == neighbor_count(self@.grid, x as int, y as int),
    {
        let mut count: usize = 0;
        let mut k: usize = 0;
        while k < 8
            invariant
                k <= 8,
                count <= k,
                self@.grid.len() == CELL_COUNT,
                in_bounds(x as int, y as int),
                count == solid_count(self@.grid, x as int, y as int, k as int),
            decreases 8 - k,
        {
            let (dx, dy) = moore_offset(k);
            let c = read_cell(&self.cells, x as i64 + dx, y as i64 + dy);
            if c == CellType::Hull || c == CellType::Cockpit {
                count += 1;
            }
            k += 1;
        }
        count
    }

    /// One synchronous smoothing iteration over the frontier.
    fn step(&mut self, rng: &mut SeededRng)
        requires
            old(self).wf(),
        ensures
            final(self).wf(),
            ({
                let p = smooth_step(Phase { grid: old(self)@.grid, frontier: old(self)@.frontier, rng: old(rng)@ });
                final(self)@.grid == p.grid && final(self)@.frontier == p.frontier && final(rng)@ == p.rng
            }),
    {
        let ghost g = self.cells@;
        let ghost r0 = rng@;
        let mut current: Vec<(usize, usize)> = Vec::new();
        std::mem::swap(&mut current, &mut self.active);
        let mut changes: Vec<((usize, usize), CellType)> = Vec::new();
        let mut i: usize = 0;
        while i < current.len()
            invariant
                i <= current@.len(),
                self.cells@ == g,
                grid_ok(g),
                frontier_ok(current@),
                (changes@, rng@) == evaluate(g, current@, i as int, r0),
                forall|k: int|
                    0 <= k < changes@.len() ==> {
                        let c = #[trigger] changes@[k];
                        &&& in_bounds(c.0.0 as int, c.0.1 as int)
                        &&& !(at(g, c.0.0 as int, c.0.1 as int) is Cockpit)
                        &&& !(c.1 is Cockpit)
                    },
            decreases current@.len() - i,
        {
            let (x, y) = current[i];
            assert(in_bounds(current@[i as int].0 as int, current@[i as int].1 as int));
            proof {
                lemma_index(x as int, y as int);
            }
            let neighbors = self.count_neighbors(x, y);
            let cell = self.cells[x * SIDE + y];
            match cell {
                CellType::Empty => {
                    if neighbors >= 3 && read_cell(&self.cells, x as i64, y as i64 + 1) != CellType::Cockpit {
                        let chance = rng.below(10);
                        if chance < 4 {
                            changes.push(((x, y), CellType::Hull));
                        }
                    }
                },
                CellType::Hull => {
                    if neighbors <= 1 {
                        let chance = rng.below(10);
                        if chance < 4 {
                            changes.push(((x, y), CellType::Empty));
                        }
                    }
                },
                _ => {},
            }
            i += 1;
        }
        let mut front = Frontier::new();
        let mut j: usize = 0;
        while j < changes.len()
            invariant
                j <= changes@.len(),
                grid_ok(g),
                grid_ok(self.cells@),
                front.wf(),
                self.cells@ == apply_changes(g, changes@, j as int),
                front.order@ == changed_frontier(changes@, j as int),
                forall|k: int|
                    0 <= k < changes@.len() ==> {
                        let c = #[trigger] changes@[k];
                        &&& in_bounds(c.0.0 as int, c.0.1 as int)
                        &&& !(at(g, c.0.0 as int, c.0.1 as int) is Cockpit)
                        &&& !(c.1 is Cockpit)
                    },
            decreases changes@.len() - j,
        {
            let ((x, y), v) = changes[j];
            assert(in_bounds(changes@[j as int].0.0 as int, changes@[j as int].0.1 as int));
            proof {
                lemma_index(x as int, y as int);
                lemma_index(CENTER as int, CENTER as int);
            }
            self.cells.set(x * SIDE + y, v);
            front.insert_moore(x, y);
            j += 1;
        }
        self.active = front.order;
    }
}

} // verus!
