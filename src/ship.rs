use crate::automata::{
    at, connected, lemma_index, grid_ok, in_bounds, index_of, prune, seeded, smooth, with_engines, Automata, CellType,
    CELL_COUNT, CENTER, SIDE,
};
use crate::parts::{
    candidate_indices, connects_only_through, find_cockpit, find_part, first_cockpit, is_cockpit, is_cockpit_part, is_engine, is_engine_part, lemma_candidate_indices,
    lemma_first_cockpit_bounds, lemma_lookup_unique, lookup, unique_ids, Direction, GridVec,
    PartInfo, PartType,
};
use crate::rng::{RngState, SeededRng};
use vstd::prelude::*;

verus! {

pub const SHIP_ID_ALPHABET: &'static str = "abcdefghijklmnopqrstuvwxyzABCDEFGHIJKLMNOPQRSTUVWXYZ";

pub const SHIP_ID_LENGTH: usize = 6;

/// Smoothing iterations of the automaton per generated ship.
pub const SMOOTHING_ITERATIONS: usize = 7;

/// A ship's name: "PLAYER" for the player's ship, else drawn from the stream.
#[derive(Debug)]
pub struct ShipId(pub String);

/// The directions a part declares at its first `n` connector cells, concatenated in order.
pub open spec fn declared_directions(p: PartInfo, n: int) -> Seq<Direction>
    decreases n,
{
    if n <= 0 {
        Seq::empty()
    } else {
        declared_directions(p, n - 1) + p.connector_points@[n - 1].directions@
    }
}

/// The ids drawn for a ship: `n` letters of the alphabet, each picked by a draw below 52.
pub open spec fn id_draws(r: RngState, n: nat) -> (Seq<char>, RngState)
    decreases n,
{
    if n == 0 {
        (Seq::empty(), r)
    } else {
        let (s, r1) = id_draws(r, (n - 1) as nat);
        (s.push(SHIP_ID_ALPHABET@[r1.value(52) as int]), r1.advance(52))
    }
}

impl ShipId {
    /// A fresh id of SHIP_ID_LENGTH letters drawn from `rng`.
    pub fn generate(rng: &mut SeededRng) -> (r: ShipId)
        ensures
            (r.0@, final(rng)@) == id_draws(old(rng)@, SHIP_ID_LENGTH as nat),
            r.0@.len() == SHIP_ID_LENGTH,
    {
        proof {
            reveal_strlit("abcdefghijklmnopqrstuvwxyzABCDEFGHIJKLMNOPQRSTUVWXYZ");
        }
        let ghost r0 = rng@;
        let mut id = String::new();
        let mut i: usize = 0;
        while i < SHIP_ID_LENGTH
            invariant
                i <= SHIP_ID_LENGTH,
                SHIP_ID_ALPHABET@.len() == 52,
                (id@, rng@) == id_draws(r0, i as nat),
                id@.len() == i,
            decreases SHIP_ID_LENGTH - i,
        {
            let idx = rng.below(52) as usize;
            let letter = SHIP_ID_ALPHABET.substring_char(idx, idx + 1);
            let ghost before = id@;
            id.append(letter);
            assert(id@ =~= before.push(SHIP_ID_ALPHABET@[idx as int]));
            i += 1;
        }
        ShipId(id)
    }

    pub fn player_ship() -> (r: ShipId)
        ensures
            r.0@ == "PLAYER"@,
    {
        ShipId(String::from_str("PLAYER"))
    }
}

/// A placed part: a reference, by id, into the catalog.
#[derive(Debug, Clone, Copy, PartialEq, Eq, Structural)]
pub struct PartInstance {
    pub part_id: usize,
}

/// One occupied position of a ship.
#[derive(Debug, Clone, Copy, PartialEq, Eq, Structural)]
pub struct ShipCell {
    pub position: GridVec,
    pub part: PartInstance,
}

/// Aggregate stats of a ship, each summed over its placed parts.
#[derive(Debug, Clone, Copy, PartialEq, Eq, Structural)]
pub struct ShipMetrics {
    pub crew_capacity: usize,
    pub armor: usize,
    pub cargo_capacity: usize,
    pub thrust: usize,
    pub weight: usize,
}

/// Why generation failed.
#[derive(Debug, Clone, Copy, PartialEq, Eq, Structural)]
pub enum GenerateError {
    /// The catalog has duplicate ids, or not exactly one cockpit part, or no engine part.
    CatalogMisconfiguration,
    /// A hull cell found no part at all to hold it.
    NoMatchingPart,
}

pub struct ShipView {
    pub id: Seq<char>,
    pub cells: Seq<ShipCell>,
}

/// A generated ship: its id and the part placed at each occupied position.
#[derive(Debug)]
pub struct Ship {
    pub id: ShipId,
    pub cells: Vec<ShipCell>,
}

impl View for Ship {
    type V = ShipView;

    open spec fn view(&self) -> ShipView {
        ShipView { id: self.id.0@, cells: self.cells@ }
    }
}

// ---------------------------------------------------------------------------
// The model of placement and generation.
// ---------------------------------------------------------------------------

/// No two cells share a position.
pub open spec fn positions_unique(cells: Seq<ShipCell>) -> bool {
    forall|i: int, j: int| 0 <= i < j < cells.len() ==> #[trigger] cells[i].position != #[trigger] cells[j].position
}

/// Index of the first of the first `n` cells at `pos`.
pub open spec fn position_index(cells: Seq<ShipCell>, pos: GridVec, n: int) -> Option<int>
    decreases n,
{
    if n <= 0 {
        None
    } else {
        match position_index(cells, pos, n - 1) {
            Some(k) => Some(k),
            None => if cells[n - 1].position == pos {
                Some(n - 1)
            } else {
                None
            },
        }
    }
}

/// The cells after placing part `id` at `pos`, replacing what stood there.
pub open spec fn placed(cells: Seq<ShipCell>, pos: GridVec, id: usize) -> Seq<ShipCell> {
    let cell = ShipCell { position: pos, part: PartInstance { part_id: id } };
    match position_index(cells, pos, cells.len() as int) {
        Some(k) => cells.update(k, cell),
        None => cells.push(cell),
    }
}

/// The directions, in the order Up, Down, Left, Right, in which (x, y) has a non-empty neighbour.
pub open spec fn open_directions(g: Seq<CellType>, x: int, y: int) -> Seq<Direction> {
    let s1 = if !(at(g, x, y + 1) is Empty) { seq![Direction::Up] } else { Seq::empty() };
    let s2 = if !(at(g, x, y - 1) is Empty) { s1.push(Direction::Down) } else { s1 };
    let s3 = if !(at(g, x - 1, y) is Empty) { s2.push(Direction::Left) } else { s2 };
    if !(at(g, x + 1, y) is Empty) { s3.push(Direction::Right) } else { s3 }
}

pub open spec fn all_directions() -> Seq<Direction> {
    seq![Direction::Up, Direction::Down, Direction::Left, Direction::Right]
}

/// The catalog indices a hull cell at (x, y) chooses from: the parts that fit
/// its open directions, or, if none does, every non-cockpit part.
pub open spec fn hull_pool(catalog: Seq<PartInfo>, g: Seq<CellType>, x: int, y: int) -> Seq<usize> {
    let strict = candidate_indices(catalog, open_directions(g, x, y), catalog.len() as int);
    if strict.len() > 0 {
        strict
    } else {
        candidate_indices(catalog, all_directions(), catalog.len() as int)
    }
}

pub struct Assignment {
    pub cells: Seq<ShipCell>,
    pub rng: RngState,
}

/// The grid position of scan index `i`.
pub open spec fn position_of(i: int) -> GridVec {
    GridVec { x: (i / SIDE as int) as i8, y: (i % SIDE as int) as i8 }
}

/// The placement for silhouette cell `i`, after `a`: the cockpit part on the
/// cockpit cell, on a hull cell a part drawn from its pool, nothing on engine
/// or empty cells.
pub open spec fn assign_step(g: Seq<CellType>, catalog: Seq<PartInfo>, cockpit_id: usize, a: Assignment, i: int) -> Assignment {
    let pos = position_of(i);
    if g[i] is Cockpit {
        Assignment { cells: placed(a.cells, pos, cockpit_id), rng: a.rng }
    } else if g[i] is Hull {
        let pool = hull_pool(catalog, g, i / SIDE as int, i % SIDE as int);
        if pool.len() == 0 {
            a
        } else {
            let k = a.rng.value(pool.len() as u64);
            Assignment {
                cells: placed(a.cells, pos, catalog[pool[k as int] as int].id),
                rng: a.rng.advance(pool.len() as u64),
            }
        }
    } else {
        a
    }
}

/// Parts placed for the first `n` silhouette cells in scan order, onto `start`.
pub open spec fn assign(
    g: Seq<CellType>,
    catalog: Seq<PartInfo>,
    cockpit_id: usize,
    start: Seq<ShipCell>,
    n: int,
    r: RngState,
) -> Assignment
    decreases n,
{
    if n <= 0 {
        Assignment { cells: start, rng: r }
    } else {
        assign_step(g, catalog, cockpit_id, assign(g, catalog, cockpit_id, start, n - 1, r), n - 1)
    }
}

/// The silhouette carved from the stream `r`, and the stream after it.
pub open spec fn silhouette(r: RngState) -> (Seq<CellType>, RngState) {
    let p = smooth(seeded(r), SMOOTHING_ITERATIONS as nat);
    (prune(with_engines(p.grid)), p.rng)
}

pub open spec fn has_hull(g: Seq<CellType>) -> bool {
    exists|i: int| 0 <= i < g.len() && #[trigger] g[i] is Hull
}

pub open spec fn cockpit_count(catalog: Seq<PartInfo>, n: int) -> nat
    decreases n,
{
    if n <= 0 {
        0
    } else {
        cockpit_count(catalog, n - 1) + if is_cockpit_part(catalog[n - 1]) {
            1nat
        } else {
            0nat
        }
    }
}

/// A catalog that generation accepts: unique ids, exactly one cockpit part, an engine part.
pub open spec fn catalog_ok(catalog: Seq<PartInfo>) -> bool {
    &&& unique_ids(catalog)
    &&& cockpit_count(catalog, catalog.len() as int) == 1
    &&& exists|i: int| 0 <= i < catalog.len() && is_engine_part(#[trigger] catalog[i])
}

/// What `generate` yields for a seed and a catalog.
pub open spec fn generated(seed: u64, catalog: Seq<PartInfo>) -> Result<ShipView, GenerateError> {
    if !catalog_ok(catalog) {
        Err(GenerateError::CatalogMisconfiguration)
    } else {
        let (id, r1) = id_draws(RngState { seed, bounds: Seq::empty() }, SHIP_ID_LENGTH as nat);
        let (g, r2) = silhouette(r1);
        let c = first_cockpit(catalog, catalog.len() as int).unwrap();
        Ok(ShipView { id, cells: assign(g, catalog, catalog[c].id, Seq::empty(), CELL_COUNT as int, r2).cells })
    }
}

pub open spec fn outcome(r: Result<Ship, GenerateError>) -> Result<ShipView, GenerateError> {
    match r {
        Ok(s) => Ok(s@),
        Err(e) => Err(e),
    }
}

/// The cell holds a part that resolves, through the catalog, to a cockpit.
pub open spec fn holds_cockpit(catalog: Seq<PartInfo>, c: ShipCell) -> bool {
    lookup(catalog, c.part.part_id) matches Some(p) && is_cockpit_part(p)
}

/// Exactly one cell holds a cockpit part.
pub open spec fn single_cockpit(catalog: Seq<PartInfo>, cells: Seq<ShipCell>) -> bool {
    exists|k: int|
        0 <= k < cells.len() && holds_cockpit(catalog, #[trigger] cells[k]) && forall|j: int|
            0 <= j < cells.len() && j != k ==> !holds_cockpit(catalog, #[trigger] cells[j])
}

/// Every placed id resolves to an entry of the catalog.
pub open spec fn all_resolve(catalog: Seq<PartInfo>, cells: Seq<ShipCell>) -> bool {
    forall|k: int| 0 <= k < cells.len() ==> lookup(catalog, (#[trigger] cells[k]).part.part_id) is Some
}

/// The letter a part shows in a text picture of the ship.
pub open spec fn kind_letter(t: PartType) -> char {
    match t {
        PartType::Cockpit { .. } => 'C',
        PartType::Hull { .. } => 'H',
        PartType::Cargo { .. } => 'O',
        PartType::Engine { .. } => 'E',
    }
}

/// Index of the first of the first `n` cells at (x, y).
pub open spec fn cell_index_at(cells: Seq<ShipCell>, x: int, y: int, n: int) -> Option<int>
    decreases n,
{
    if n <= 0 {
        None
    } else {
        match cell_index_at(cells, x, y, n - 1) {
            Some(k) => Some(k),
            None => if cells[n - 1].position.x == x && cells[n - 1].position.y == y {
                Some(n - 1)
            } else {
                None
            },
        }
    }
}

/// What the picture shows at (x, y): the letter of the part placed there, or a blank.
pub open spec fn letter_at(catalog: Seq<PartInfo>, cells: Seq<ShipCell>, x: int, y: int) -> char {
    match cell_index_at(cells, x, y, cells.len() as int) {
        Some(k) => match lookup(catalog, cells[k].part.part_id) {
            Some(p) => kind_letter(p.properties.part_type),
            None => ' ',
        },
        None => ' ',
    }
}

/// The picture's frame over the first `n` cells: (min x, max x, min y, max y),
/// starting from the origin, each maximum reaching past a cell by its part's size.
pub open spec fn frame(catalog: Seq<PartInfo>, cells: Seq<ShipCell>, n: int) -> (int, int, int, int)
    decreases n,
{
    if n <= 0 {
        (0, 0, 0, 0)
    } else {
        let (a, b, c, d) = frame(catalog, cells, n - 1);
        let q = cells[n - 1].position;
        let (w, h) = match lookup(catalog, cells[n - 1].part.part_id) {
            Some(p) => (p.size.x as int, p.size.y as int),
            None => (0, 0),
        };
        (
            if (q.x as int) < a { q.x as int } else { a },
            if q.x as int + w > b { q.x as int + w } else { b },
            if (q.y as int) < c { q.y as int } else { c },
            if q.y as int + h > d { q.y as int + h } else { d },
        )
    }
}

/// The picture's rows, top (largest y) first: row `r` shows y = max y - r, and
/// column `i` shows x = min x + i.
pub open spec fn picture(catalog: Seq<PartInfo>, cells: Seq<ShipCell>) -> Seq<Seq<char>> {
    let (x0, x1, y0, y1) = frame(catalog, cells, cells.len() as int);
    Seq::new(
        (y1 - y0 + 1) as nat,
        |r: int| Seq::new((x1 - x0 + 1) as nat, |i: int| letter_at(catalog, cells, x0 + i, y1 - r)),
    )
}

proof fn lemma_frame_bounds(catalog: Seq<PartInfo>, cells: Seq<ShipCell>, n: int)
    ensures
        ({
            let (a, b, c, d) = frame(catalog, cells, n);
            &&& -128 <= a <= 0 <= b <= 127 + 255
            &&& -128 <= c <= 0 <= d <= 127 + 255
        }),
    decreases n,
{
    if n > 0 {
        lemma_frame_bounds(catalog, cells, n - 1);
    }
}

pub open spec fn center_position() -> GridVec {
    GridVec { x: CENTER as i8, y: CENTER as i8 }
}

pub proof fn lemma_position_index(cells: Seq<ShipCell>, pos: GridVec, n: int)
    requires
        n <= cells.len(),
    ensures
        position_index(cells, pos, n) matches Some(k) ==> 0 <= k < n && cells[k].position == pos,
        position_index(cells, pos, n) is None <==> forall|k: int| 0 <= k < n ==> #[trigger] cells[k].position != pos,
    decreases n,
{
    if n > 0 {
        lemma_position_index(cells, pos, n - 1);
    }
}

proof fn lemma_cell_index_stable(cells: Seq<ShipCell>, x: int, y: int, n: int, m: int)
    requires
        n <= m,
        cell_index_at(cells, x, y, n) is Some,
    ensures
        cell_index_at(cells, x, y, m) == cell_index_at(cells, x, y, n),
    decreases m - n,
{
    if n < m {
        lemma_cell_index_stable(cells, x, y, n, m - 1);
    }
}

pub proof fn lemma_position_index_stable(cells: Seq<ShipCell>, pos: GridVec, n: int, m: int)
    requires
        n <= m,
        position_index(cells, pos, n) is Some,
    ensures
        position_index(cells, pos, m) == position_index(cells, pos, n),
    decreases m - n,
{
    if n < m {
        lemma_position_index_stable(cells, pos, n, m - 1);
    }
}

/// A ship's totals as mathematical integers.
pub struct Totals {
    pub crew_capacity: int,
    pub armor: int,
    pub cargo_capacity: int,
    pub thrust: int,
    pub weight: int,
}

/// What one part adds: its weight, and the stats of its capability.
pub open spec fn part_totals(p: PartInfo) -> Totals {
    let w = p.properties.weight as int;
    match p.properties.part_type {
        PartType::Cockpit { crew_capacity } => Totals {
            crew_capacity: crew_capacity as int,
            armor: 0,
            cargo_capacity: 0,
            thrust: 0,
            weight: w,
        },
        PartType::Hull { armor, cargo_capacity } => Totals {
            crew_capacity: 0,
            armor: armor as int,
            cargo_capacity: cargo_capacity as int,
            thrust: 0,
            weight: w,
        },
        PartType::Cargo { cargo_capacity } => Totals {
            crew_capacity: 0,
            armor: 0,
            cargo_capacity: cargo_capacity as int,
            thrust: 0,
            weight: w,
        },
        PartType::Engine { thrust } => Totals {
            crew_capacity: 0,
            armor: 0,
            cargo_capacity: 0,
            thrust: thrust as int,
            weight: w,
        },
    }
}

/// The sums, over the first `n` cells, of what their resolved parts add.
pub open spec fn totals(catalog: Seq<PartInfo>, cells: Seq<ShipCell>, n: int) -> Totals
    decreases n,
{
    if n <= 0 {
        Totals { crew_capacity: 0, armor: 0, cargo_capacity: 0, thrust: 0, weight: 0 }
    } else {
        let t = totals(catalog, cells, n - 1);
        match lookup(catalog, cells[n - 1].part.part_id) {
            Some(p) => {
                let d = part_totals(p);
                Totals {
                    crew_capacity: t.crew_capacity + d.crew_capacity,
                    armor: t.armor + d.armor,
                    cargo_capacity: t.cargo_capacity + d.cargo_capacity,
                    thrust: t.thrust + d.thrust,
                    weight: t.weight + d.weight,
                }
            },
            None => t,
        }
    }
}

pub open spec fn totals_fit(t: Totals) -> bool {
    &&& t.crew_capacity <= usize::MAX
    &&& t.armor <= usize::MAX
    &&& t.cargo_capacity <= usize::MAX
    &&& t.thrust <= usize::MAX
    &&& t.weight <= usize::MAX
}

/// `m` holds exactly the totals of the ship's cells against the catalog.
pub open spec fn metrics_of(catalog: Seq<PartInfo>, cells: Seq<ShipCell>, m: ShipMetrics) -> bool {
    let t = totals(catalog, cells, cells.len() as int);
    &&& m.crew_capacity == t.crew_capacity
    &&& m.armor == t.armor
    &&& m.cargo_capacity == t.cargo_capacity
    &&& m.thrust == t.thrust
    &&& m.weight == t.weight
}

proof fn lemma_totals_grow(catalog: Seq<PartInfo>, cells: Seq<ShipCell>, n: int, m: int)
    requires
        0 <= n <= m,
    ensures
        ({
            let a = totals(catalog, cells, n);
            let b = totals(catalog, cells, m);
            &&& 0 <= a.crew_capacity <= b.crew_capacity
            &&& 0 <= a.armor <= b.armor
            &&& 0 <= a.cargo_capacity <= b.cargo_capacity
            &&& 0 <= a.thrust <= b.thrust
            &&& 0 <= a.weight <= b.weight
        }),
    decreases m,
{
    if m > 0 {
        if n < m {
            lemma_totals_grow(catalog, cells, n, m - 1);
        } else {
            lemma_totals_grow(catalog, cells, n - 1, m - 1);
        }
    }
}

pub proof fn lemma_lookup_some(catalog: Seq<PartInfo>, i: int)
    requires
        0 <= i < catalog.len(),
    ensures
        lookup(catalog, catalog[i].id) is Some,
    decreases catalog.len(),
{
    if i > 0 && catalog[0].id != catalog[i].id {
        assert(catalog.drop_first()[i - 1] == catalog[i]);
        lemma_lookup_some(catalog.drop_first(), i - 1);
    }
}

pub proof fn lemma_all_directions(d: Direction)
    ensures
        all_directions().contains(d),
{
    let a = all_directions();
    match d {
        Direction::Up => assert(a[0] == d),
        Direction::Down => assert(a[1] == d),
        Direction::Left => assert(a[2] == d),
        Direction::Right => assert(a[3] == d),
    }
}

/// Every non-cockpit part is a candidate when every direction is open.
pub proof fn lemma_candidates_widen(catalog: Seq<PartInfo>, dirs: Seq<Direction>, n: int)
    ensures
        candidate_indices(catalog, dirs, n).len() <= candidate_indices(catalog, all_directions(), n).len(),
        forall|i: int| 0 <= i < n && !is_cockpit_part(#[trigger] catalog[i]) ==> candidate_indices(catalog, all_directions(), n).len() > 0,
    decreases n,
{
    if n > 0 {
        lemma_candidates_widen(catalog, dirs, n - 1);
        let p = catalog[n - 1];
        assert forall|k: int, j: int|
            0 <= k < p.connector_points@.len() && 0 <= j < p.connector_points@[k].directions@.len()
            implies all_directions().contains(#[trigger] p.connector_points@[k].directions@[j]) by {
            lemma_all_directions(p.connector_points@[k].directions@[j]);
        }
    }
}

pub proof fn lemma_cockpit_count(catalog: Seq<PartInfo>, n: int)
    requires
        first_cockpit(catalog, n) is None,
    ensures
        cockpit_count(catalog, n) == 0,
    decreases n,
{
    if n > 0 {
        lemma_cockpit_count(catalog, n - 1);
    }
}

/// The shape of a placement built from nothing over the first `n` scan
/// indices: every cell lies on the grid below index `n`, every id resolves,
/// with unique ids a cell holds a cockpit exactly at the center, and once the
/// center is passed it is occupied.
pub open spec fn layout_ok(catalog: Seq<PartInfo>, cells: Seq<ShipCell>, n: int) -> bool {
    &&& forall|k: int|
        0 <= k < cells.len() ==> {
            let q = (#[trigger] cells[k]).position;
            in_bounds(q.x as int, q.y as int) && index_of(q.x as int, q.y as int) < n
        }
    &&& all_resolve(catalog, cells)
    &&& unique_ids(catalog) ==> forall|k: int|
        0 <= k < cells.len() ==> (holds_cockpit(catalog, #[trigger] cells[k]) <==> cells[k].position
            == center_position())
    &&& n > index_of(CENTER as int, CENTER as int) ==> exists|k: int|
        0 <= k < cells.len() && (#[trigger] cells[k]).position == center_position()
}

proof fn lemma_layout_step(catalog: Seq<PartInfo>, g: Seq<CellType>, before: Seq<ShipCell>, after: Seq<ShipCell>, n: int, i: int)
    requires
        layout_ok(catalog, before, n),
        grid_ok(g),
        0 <= n < CELL_COUNT,
        0 <= i < catalog.len(),
        g[n] is Cockpit ==> is_cockpit_part(catalog[i]) && after == placed(before, position_of(n), catalog[i].id),
        g[n] is Hull ==> !is_cockpit_part(catalog[i]) && after == placed(before, position_of(n), catalog[i].id),
        !(g[n] is Cockpit) && !(g[n] is Hull) ==> after == before,
    ensures
        layout_ok(catalog, after, n + 1),
{
    let center = index_of(CENTER as int, CENTER as int);
    crate::automata::lemma_scan_index(n);
    lemma_index(CENTER as int, CENTER as int);
    let x = n / SIDE as int;
    let y = n % SIDE as int;
    let position = position_of(n);
    if g[n] is Cockpit || g[n] is Hull {
        assert forall|k: int| 0 <= k < before.len() implies #[trigger] before[k].position != position by {
            let q = before[k].position;
            if q == position {
                crate::automata::lemma_index_injective(q.x as int, q.y as int, x, y);
            }
        }
        lemma_position_index(before, position, before.len() as int);
        assert(after == before.push(after.last()));
        lemma_lookup_some(catalog, i);
        if unique_ids(catalog) {
            lemma_lookup_unique(catalog, i);
        }
        if g[n] is Cockpit {
            assert(n == center);
        } else {
            assert(position != center_position()) by {
                if position == center_position() {
                    crate::automata::lemma_index_injective(x, y, CENTER as int, CENTER as int);
                }
            }
        }
    }
    assert forall|k: int| 0 <= k < after.len() implies {
        let q = (#[trigger] after[k]).position;
        in_bounds(q.x as int, q.y as int) && index_of(q.x as int, q.y as int) < n + 1
    } by {
        if k < before.len() {
            assert(after[k] == before[k]);
        }
    }
    if n + 1 > center && n != center {
        let k = choose|k: int| 0 <= k < before.len() && (#[trigger] before[k]).position == center_position();
        assert(after[k] == before[k]);
    }
    if n == center {
        assert(after[before.len() as int].position == center_position());
    }
    assert forall|k: int| 0 <= k < after.len() implies lookup(catalog, (#[trigger] after[k]).part.part_id) is Some by {
        if k < before.len() {
            assert(after[k] == before[k]);
        }
    }
    if unique_ids(catalog) {
        assert forall|k: int| 0 <= k < after.len() implies (holds_cockpit(catalog, #[trigger] after[k])
            <==> after[k].position == center_position()) by {
            if k < before.len() {
                assert(after[k] == before[k]);
            }
        }
    }
}

fn open_directions_at(automata: &Automata, x: usize, y: usize) -> (r: Vec<Direction>)
    requires
        automata.wf(),
        in_bounds(x as int, y as int),
    ensures
        r@ == open_directions(automata@.grid, x as int, y as int),
{
    let x = x as i64;
    let y = y as i64;
    let mut r: Vec<Direction> = Vec::new();
    if automata.cell(x, y + 1) != CellType::Empty {
        r.push(Direction::Up);
    }
    if automata.cell(x, y - 1) != CellType::Empty {
        r.push(Direction::Down);
    }
    if automata.cell(x - 1, y) != CellType::Empty {
        r.push(Direction::Left);
    }
    if automata.cell(x + 1, y) != CellType::Empty {
        r.push(Direction::Right);
    }
    assert(r@ =~= open_directions(automata@.grid, x as int, y as int));
    r
}

/// The pool a hull cell at (x, y) draws its part from, as catalog indices.
fn hull_pool_at(automata: &Automata, parts: &Vec<PartInfo>, x: usize, y: usize, all_dirs: &Vec<Direction>) -> (r: Vec<usize>)
    requires
        automata.wf(),
        in_bounds(x as int, y as int),
        all_dirs@ == all_directions(),
    ensures
        r@ == hull_pool(parts@, automata@.grid, x as int, y as int),
        r@.len() == 0 <==> candidate_indices(parts@, all_directions(), parts@.len() as int).len() == 0,
        forall|k: int| 0 <= k < r@.len() ==> (#[trigger] r@[k]) < parts@.len() && !is_cockpit_part(parts@[r@[k] as int]),
{
    let part_count = parts.len();
    assert(part_count == parts@.len());
    let dirs = open_directions_at(automata, x, y);
    let strict = Ship::find_parts_with_only_directions(parts, &dirs);
    proof {
        lemma_candidates_widen(parts@, dirs@, parts@.len() as int);
        lemma_candidate_indices(parts@, dirs@, parts@.len() as int);
        lemma_candidate_indices(parts@, all_directions(), parts@.len() as int);
    }
    if strict.len() > 0 {
        strict
    } else {
        Ship::find_parts_with_only_directions(parts, all_dirs)
    }
}

/// Places the part for silhouette cell `n`; false where a hull cell finds no part at all.
fn assign_cell(
    ship: &mut Ship,
    automata: &Automata,
    rng: &mut SeededRng,
    parts: &Vec<PartInfo>,
    cockpit: usize,
    all_dirs: &Vec<Direction>,
    n: usize,
) -> (ok: bool)
    requires
        old(ship).wf(),
        automata.wf(),
        n < CELL_COUNT,
        cockpit < parts@.len(),
        all_dirs@ == all_directions(),
    ensures
        final(ship).wf(),
        final(ship).id == old(ship).id,
        ok ==> (Assignment { cells: final(ship).cells@, rng: final(rng)@ }) == assign_step(
            automata@.grid,
            parts@,
            parts@[cockpit as int].id,
            Assignment { cells: old(ship).cells@, rng: old(rng)@ },
            n as int,
        ),
        !ok ==> final(ship).cells@ == old(ship).cells@ && final(rng)@ == old(rng)@,
        !ok ==> automata@.grid[n as int] is Hull && candidate_indices(parts@, all_directions(), parts@.len() as int).len() == 0,
        ok && automata@.grid[n as int] is Hull ==> candidate_indices(parts@, all_directions(), parts@.len() as int).len() > 0,
        ok && automata@.grid[n as int] is Cockpit ==> final(ship).cells@ == placed(
            old(ship).cells@,
            position_of(n as int),
            parts@[cockpit as int].id,
        ),
        ok && automata@.grid[n as int] is Hull ==> exists|i: int|
            0 <= i < parts@.len() && !is_cockpit_part(#[trigger] parts@[i]) && final(ship).cells@ == placed(
                old(ship).cells@,
                position_of(n as int),
                parts@[i].id,
            ),
        !(automata@.grid[n as int] is Hull) && !(automata@.grid[n as int] is Cockpit) ==> final(ship).cells@
            == old(ship).cells@,
{
    let x = n / SIDE;
    let y = n % SIDE;
    proof {
        crate::automata::lemma_scan_index(n as int);
    }
    let ghost g = automata@.grid;
    assert(g[n as int] == at(g, x as int, y as int));
    let position = GridVec { x: x as i8, y: y as i8 };
    match automata.cell(x as i64, y as i64) {
        CellType::Cockpit => {
            ship.place_part(&parts[cockpit], position);
            true
        },
        CellType::Hull => {
            let pool = hull_pool_at(automata, parts, x, y, all_dirs);
            if pool.len() == 0 {
                return false;
            }
            let k = rng.below(pool.len() as u64) as usize;
            let chosen = pool[k];
            ship.place_part(&parts[chosen], position);
            true
        },
        _ => true,
    }
}

/// Whether the catalog is one that generation accepts.
fn check_catalog(parts: &Vec<PartInfo>) -> (r: bool)
    ensures
        r == catalog_ok(parts@),
{
    let mut i: usize = 0;
    while i < parts.len()
        invariant
            i <= parts@.len(),
            forall|a: int, b: int| 0 <= a < b < parts@.len() && a < i ==> #[trigger] parts@[a].id != #[trigger] parts@[b].id,
        decreases parts@.len() - i,
    {
        let mut j: usize = i + 1;
        while j < parts.len()
            invariant
                i < j <= parts@.len(),
                forall|a: int, b: int| 0 <= a < b < parts@.len() && a < i ==> #[trigger] parts@[a].id != #[trigger] parts@[b].id,
                forall|b: int| i < b < j ==> parts@[i as int].id != #[trigger] parts@[b].id,
            decreases parts@.len() - j,
        {
            if parts[i].id == parts[j].id {
                return false;
            }
            j += 1;
        }
        i += 1;
    }
    let mut cockpits: usize = 0;
    let mut engine = false;
    let mut k: usize = 0;
    while k < parts.len()
        invariant
            k <= parts@.len(),
            cockpits == cockpit_count(parts@, k as int),
            cockpits <= k,
            engine == exists|a: int| 0 <= a < k && is_engine_part(#[trigger] parts@[a]),
        decreases parts@.len() - k,
    {
        if is_cockpit(&parts[k]) {
            cockpits += 1;
        }
        if is_engine(&parts[k]) {
            engine = true;
        }
        k += 1;
    }
    cockpits == 1 && engine
}

impl Ship {
    pub open spec fn wf(&self) -> bool {
        positions_unique(self.cells@)
    }

    pub fn new(id: ShipId) -> (r: Ship)
        ensures
            r.id == id,
            r.cells@.len() == 0,
            r.wf(),
    {
        Ship { id, cells: Vec::new() }
    }

    /// Whether a part stands at `position`.
    pub fn check_position_taken(&self, position: GridVec) -> (r: bool)
        ensures
            r == exists|k: int| 0 <= k < self.cells@.len() && (#[trigger] self.cells@[k]).position == position,
    {
        let mut k: usize = 0;
        while k < self.cells.len()
            invariant
                k <= self.cells@.len(),
                forall|j: int| 0 <= j < k ==> (#[trigger] self.cells@[j]).position != position,
            decreases self.cells@.len() - k,
        {
            if self.cells[k].position == position {
                return true;
            }
            k += 1;
        }
        false
    }

    /// Generates a ship from `seed` against the catalog `parts`: checks the
    /// catalog, draws the id, carves the silhouette and assigns the parts, all
    /// from one stream seeded with `seed`.
    pub fn generate(seed: u64, parts: &Vec<PartInfo>) -> (r: Result<Ship, GenerateError>)
        ensures
            outcome(r) == generated(seed, parts@),
            r matches Ok(s) ==> s.wf() && all_resolve(parts@, s.cells@) && single_cockpit(parts@, s.cells@),
    {
        if !check_catalog(parts) {
            return Err(GenerateError::CatalogMisconfiguration);
        }
        let mut rng = SeededRng::from_seed(seed);
        let id = ShipId::generate(&mut rng);
        let ship = Ship::new(id);
        assert(ship.cells@ =~= Seq::<ShipCell>::empty());
        proof {
            if first_cockpit(parts@, parts@.len() as int) is None {
                lemma_cockpit_count(parts@, parts@.len() as int);
            }
            let e = choose|i: int| 0 <= i < parts@.len() && is_engine_part(#[trigger] parts@[i]);
            assert(!is_cockpit_part(parts@[e]));
            lemma_candidates_widen(parts@, all_directions(), parts@.len() as int);
        }
        ship.cellular(&mut rng, parts)
    }

    /// Carves a silhouette from `rng` and places a catalog part on each of its
    /// cells: the catalog's first cockpit part on the cockpit cell, on each hull
    /// cell a part drawn among those whose connectors all face open directions,
    /// or among all non-cockpit parts when none does. Engine cells get no part.
    pub fn cellular(self, rng: &mut SeededRng, parts: &Vec<PartInfo>) -> (r: Result<Ship, GenerateError>)
        requires
            self.wf(),
        ensures
            first_cockpit(parts@, parts@.len() as int) is None ==> r == Err::<Ship, GenerateError>(
                GenerateError::CatalogMisconfiguration,
            ) && final(rng)@ == old(rng)@,
            first_cockpit(parts@, parts@.len() as int) matches Some(c) ==> {
                let (g, r1) = silhouette(old(rng)@);
                let stuck = candidate_indices(parts@, all_directions(), parts@.len() as int).len() == 0 && has_hull(g);
                let a = assign(g, parts@, parts@[c].id, self.cells@, CELL_COUNT as int, r1);
                &&& grid_ok(g)
                &&& connected(g)
                &&& stuck ==> r == Err::<Ship, GenerateError>(GenerateError::NoMatchingPart)
                &&& !stuck ==> (r matches Ok(s) && s.id == self.id && s.wf() && s.cells@ == a.cells
                    && final(rng)@ == a.rng)
            },
            self.cells@.len() == 0 ==> (r matches Ok(s) ==> all_resolve(parts@, s.cells@)),
            self.cells@.len() == 0 && unique_ids(parts@) ==> (r matches Ok(s) ==> single_cockpit(parts@, s.cells@)),
    {
        let ghost start = self.cells@;
        let ghost id0 = self.id;
        let cockpit = match find_cockpit(parts) {
            None => {
                return Err(GenerateError::CatalogMisconfiguration);
            },
            Some(c) => c,
        };
        proof {
            lemma_first_cockpit_bounds(parts@, parts@.len() as int);
        }
        let ghost cid = parts@[cockpit as int].id;
        let mut ship = self;
        let ghost r0 = rng@;
        let mut automata = Automata::new(rng);
        automata.run(SMOOTHING_ITERATIONS, rng);
        let ghost g = automata@.grid;
        let ghost r1 = rng@;
        assert(g == silhouette(r0).0 && r1 == silhouette(r0).1);
        let all_dirs = vec![Direction::Up, Direction::Down, Direction::Left, Direction::Right];
        assert(all_dirs@ =~= all_directions());
        let mut n: usize = 0;
        let mut stuck = false;
        while n < CELL_COUNT && !stuck
            invariant
                stuck ==> has_hull(g) && candidate_indices(parts@, all_directions(), parts@.len() as int).len() == 0,
                n <= CELL_COUNT,
                automata.wf(),
                automata@.grid == g,
                grid_ok(g),
                ship.wf(),
                ship.id == id0,
                all_dirs@ == all_directions(),
                cockpit < parts@.len(),
                is_cockpit_part(parts@[cockpit as int]),
                cid == parts@[cockpit as int].id,
                assign(g, parts@, cid, start, n as int, r1) == (Assignment { cells: ship.cells@, rng: rng@ }),
                candidate_indices(parts@, all_directions(), parts@.len() as int).len() == 0 ==> forall|i: int|
                    0 <= i < n ==> !(#[trigger] g[i] is Hull),
                start.len() == 0 ==> layout_ok(parts@, ship.cells@, n as int),
            decreases CELL_COUNT - n + if stuck { 0int } else { 1int },
        {
            let x = n / SIDE;
            let y = n % SIDE;
            proof {
                crate::automata::lemma_scan_index(n as int);
            }
            let position = GridVec { x: x as i8, y: y as i8 };
            assert(position == position_of(n as int));
            let ghost before = ship.cells@;
            if !assign_cell(&mut ship, &automata, rng, parts, cockpit, &all_dirs, n) {
                assert(has_hull(g));
                stuck = true;
            }
            proof {
                if !stuck && start.len() == 0 {
                    let i = if g[n as int] is Hull {
                        choose|i: int|
                            0 <= i < parts@.len() && !is_cockpit_part(#[trigger] parts@[i]) && ship.cells@ == placed(
                                before,
                                position_of(n as int),
                                parts@[i].id,
                            )
                    } else {
                        cockpit as int
                    };
                    lemma_layout_step(parts@, g, before, ship.cells@, n as int, i);
                }
            }
            if !stuck {
                n += 1;
            }
        }
        if stuck {
            return Err(GenerateError::NoMatchingPart);
        }
        proof {
            if start.len() == 0 && unique_ids(parts@) {
                lemma_index(CENTER as int, CENTER as int);
                let k = choose|k: int| 0 <= k < ship.cells@.len() && (#[trigger] ship.cells@[k]).position == center_position();
                assert forall|j: int| 0 <= j < ship.cells@.len() && j != k implies !holds_cockpit(parts@, #[trigger] ship.cells@[j]) by {
                    assert(ship.cells@[j].position != ship.cells@[k].position);
                }
            }
        }
        Ok(ship)
    }

    /// Sums, over the placed parts resolved against `parts`, the weight and the
    /// stats of each capability.
    pub fn metrics(&self, parts: &Vec<PartInfo>) -> (r: ShipMetrics)
        requires
            all_resolve(parts@, self.cells@),
            totals_fit(totals(parts@, self.cells@, self.cells@.len() as int)),
        ensures
            metrics_of(parts@, self.cells@, r),
    {
        let mut crew_capacity: usize = 0;
        let mut armor: usize = 0;
        let mut cargo_capacity: usize = 0;
        let mut thrust: usize = 0;
        let mut weight: usize = 0;
        let mut i: usize = 0;
        while i < self.cells.len()
            invariant
                i <= self.cells@.len(),
                all_resolve(parts@, self.cells@),
                totals_fit(totals(parts@, self.cells@, self.cells@.len() as int)),
                ({
                    let t = totals(parts@, self.cells@, i as int);
                    &&& crew_capacity == t.crew_capacity
                    &&& armor == t.armor
                    &&& cargo_capacity == t.cargo_capacity
                    &&& thrust == t.thrust
                    &&& weight == t.weight
                }),
            decreases self.cells@.len() - i,
        {
            proof {
                lemma_totals_grow(parts@, self.cells@, i as int + 1, self.cells@.len() as int);
            }
            assert(lookup(parts@, self.cells@[i as int].part.part_id) is Some);
            let part = find_part(parts, self.cells[i].part.part_id).unwrap();
            let properties = &part.properties;
            weight += properties.weight;
            match properties.part_type {
                PartType::Cockpit { crew_capacity: c } => crew_capacity += c,
                PartType::Hull { armor: a, cargo_capacity: c } => {
                    armor += a;
                    cargo_capacity += c;
                },
                PartType::Cargo { cargo_capacity: c } => cargo_capacity += c,
                PartType::Engine { thrust: t } => thrust += t,
            }
            i += 1;
        }
        ShipMetrics { crew_capacity, armor, cargo_capacity, thrust, weight }
    }

    /// Indices, in catalog order, of the non-cockpit parts whose every declared
    /// connector direction is one of `directions`.
    pub fn find_parts_with_only_directions(parts: &Vec<PartInfo>, directions: &Vec<Direction>) -> (r: Vec<usize>)
        ensures
            r@ == candidate_indices(parts@, directions@, parts@.len() as int),
    {
        let mut r: Vec<usize> = Vec::new();
        let mut i: usize = 0;
        while i < parts.len()
            invariant
                i <= parts@.len(),
                r@ == candidate_indices(parts@, directions@, i as int),
            decreases parts@.len() - i,
        {
            if connects_only_through(&parts[i], directions) && !is_cockpit(&parts[i]) {
                r.push(i);
            }
            i += 1;
        }
        r
    }

    /// Every direction declared, at any of its connector cells, by the part
    /// placed at `current`, in declaration order.
    pub fn get_directions(&self, current: GridVec, parts: &Vec<PartInfo>) -> (r: Vec<Direction>)
        requires
            exists|k: int| 0 <= k < self.cells@.len() && (#[trigger] self.cells@[k]).position == current,
            all_resolve(parts@, self.cells@),
        ensures
            ({
                let k = position_index(self.cells@, current, self.cells@.len() as int).unwrap();
                let p = lookup(parts@, self.cells@[k].part.part_id).unwrap();
                r@ == declared_directions(p, p.connector_points@.len() as int)
            }),
    {
        let mut k: usize = 0;
        proof {
            lemma_position_index(self.cells@, current, self.cells@.len() as int);
        }
        while k < self.cells.len() && self.cells[k].position != current
            invariant
                k <= self.cells@.len(),
                position_index(self.cells@, current, k as int) is None,
                position_index(self.cells@, current, self.cells@.len() as int) is Some,
            decreases self.cells@.len() - k,
        {
            k += 1;
        }
        proof {
            if k == self.cells@.len() {
                assert(false);
            }
            lemma_position_index_stable(self.cells@, current, k as int + 1, self.cells@.len() as int);
        }
        let part = find_part(parts, self.cells[k].part.part_id).unwrap();
        let mut directions: Vec<Direction> = Vec::new();
        let mut i: usize = 0;
        while i < part.connector_points.len()
            invariant
                i <= part.connector_points@.len(),
                directions@ == declared_directions(*part, i as int),
            decreases part.connector_points@.len() - i,
        {
            let point = &part.connector_points[i];
            let mut j: usize = 0;
            let ghost before = directions@;
            while j < point.directions.len()
                invariant
                    i < part.connector_points@.len(),
                    *point == part.connector_points@[i as int],
                    j <= point.directions@.len(),
                    directions@ == before + point.directions@.take(j as int),
                decreases point.directions@.len() - j,
            {
                directions.push(point.directions[j]);
                assert(point.directions@.take(j as int + 1) == point.directions@.take(j as int).push(point.directions@[j as int]));
                j += 1;
            }
            assert(point.directions@.take(point.directions@.len() as int) == point.directions@);
            i += 1;
        }
        directions
    }

    /// A text picture of the ship, one string per row, top row first: each
    /// placed part shows as C, H, O or E by its kind, all else as a blank.
    pub fn ascii_rows(&self, parts: &Vec<PartInfo>) -> (r: Vec<String>)
        requires
            all_resolve(parts@, self.cells@),
        ensures
            r@.len() == picture(parts@, self.cells@).len(),
            forall|i: int| 0 <= i < r@.len() ==> (#[trigger] r@[i])@ == picture(parts@, self.cells@)[i],
    {
        let ghost cells = self.cells@;
        let mut min_x: i64 = 0;
        let mut max_x: i64 = 0;
        let mut min_y: i64 = 0;
        let mut max_y: i64 = 0;
        let mut k: usize = 0;
        while k < self.cells.len()
            invariant
                k <= cells.len(),
                cells == self.cells@,
                all_resolve(parts@, cells),
                frame(parts@, cells, k as int) == (min_x as int, max_x as int, min_y as int, max_y as int),
            decreases cells.len() - k,
        {
            proof {
                lemma_frame_bounds(parts@, cells, k as int);
            }
            let cell = self.cells[k];
            assert(lookup(parts@, cells[k as int].part.part_id) is Some);
            let part = find_part(parts, cell.part.part_id).unwrap();
            let x = cell.position.x as i64;
            let y = cell.position.y as i64;
            if x < min_x {
                min_x = x;
            }
            if x + part.size.x as i64 > max_x {
                max_x = x + part.size.x as i64;
            }
            if y < min_y {
                min_y = y;
            }
            if y + part.size.y as i64 > max_y {
                max_y = y + part.size.y as i64;
            }
            k += 1;
        }
        proof {
            lemma_frame_bounds(parts@, cells, cells.len() as int);
        }
        let ghost pic = picture(parts@, cells);
        let mut rows: Vec<String> = Vec::new();
        let mut y = max_y;
        while y >= min_y
            invariant
                min_y <= 0 <= max_y <= 127 + 255,
                -128 <= min_y,
                min_x <= 0 <= max_x <= 127 + 255,
                -128 <= min_x,
                min_y - 1 <= y <= max_y,
                cells == self.cells@,
                frame(parts@, cells, cells.len() as int) == (min_x as int, max_x as int, min_y as int, max_y as int),
                pic == picture(parts@, cells),
                rows@.len() == max_y - y,
                forall|i: int| 0 <= i < rows@.len() ==> (#[trigger] rows@[i])@ == pic[i],
            decreases y - min_y + 1,
        {
            let mut line = String::new();
            let mut x = min_x;
            while x <= max_x
                invariant
                    min_x <= x <= max_x + 1,
                    max_x <= 127 + 255,
                    min_x <= 0,
                    min_y <= y <= max_y,
                    cells == self.cells@,
                    line@ == Seq::new((x - min_x) as nat, |i: int| letter_at(parts@, cells, min_x + i, y as int)),
                decreases max_x - x + 1,
            {
                let letter = self.letter_at(parts, x, y);
                let ghost before = line@;
                line.append(letter);
                assert(line@ =~= Seq::new((x + 1 - min_x) as nat, |i: int| letter_at(parts@, cells, min_x + i, y as int)));
                x += 1;
            }
            let ghost r = max_y - y;
            assert(line@ =~= pic[r as int]);
            rows.push(line);
            y -= 1;
        }
        rows
    }

    /// The one-letter text for what stands at (x, y).
    fn letter_at(&self, parts: &Vec<PartInfo>, x: i64, y: i64) -> (r: &'static str)
        ensures
            r@ == seq![letter_at(parts@, self.cells@, x as int, y as int)],
    {
        let mut k: usize = 0;
        while k < self.cells.len()
            invariant
                k <= self.cells@.len(),
                cell_index_at(self.cells@, x as int, y as int, k as int) is None,
            decreases self.cells@.len() - k,
        {
            if self.cells[k].position.x as i64 == x && self.cells[k].position.y as i64 == y {
                proof {
                    lemma_cell_index_stable(self.cells@, x as int, y as int, k as int + 1, self.cells@.len() as int);
                }
                proof {
                    reveal_strlit("C");
                    reveal_strlit("H");
                    reveal_strlit("O");
                    reveal_strlit("E");
                    reveal_strlit(" ");
                }
                return match find_part(parts, self.cells[k].part.part_id) {
                    Some(p) => match p.properties.part_type {
                        PartType::Cockpit { .. } => "C",
                        PartType::Hull { .. } => "H",
                        PartType::Cargo { .. } => "O",
                        PartType::Engine { .. } => "E",
                    },
                    None => " ",
                };
            }
            k += 1;
        }
        proof {
            reveal_strlit(" ");
        }
        " "
    }

    /// Places `part` at `position`, replacing whatever stood there.
    pub fn place_part(&mut self, part: &PartInfo, position: GridVec)
        requires
            old(self).wf(),
        ensures
            final(self).wf(),
            final(self).id == old(self).id,
            final(self).cells@ == placed(old(self).cells@, position, part.id),
    {
        let cell = ShipCell { position, part: PartInstance { part_id: part.id } };
        let mut k: usize = 0;
        while k < self.cells.len()
            invariant
                k <= self.cells@.len(),
                self.cells@ == old(self).cells@,
                self.id == old(self).id,
                cell == (ShipCell { position, part: PartInstance { part_id: part.id } }),
                positions_unique(old(self).cells@),
                position_index(self.cells@, position, k as int) is None,
            decreases self.cells@.len() - k,
        {
            if self.cells[k].position == position {
                proof {
                    lemma_position_index_stable(self.cells@, position, k as int + 1, self.cells@.len() as int);
                }
                let ghost before = self.cells@;
                assert(before[k as int].position == position);
                self.cells.set(k, cell);
                assert forall|i: int| 0 <= i < self.cells@.len() implies (#[trigger] self.cells@[i]).position
                    == before[i].position by {
                    if i == k {
                    }
                }
                assert forall|i: int, j: int| 0 <= i < j < self.cells@.len() implies #[trigger] self.cells@[i].position
                    != #[trigger] self.cells@[j].position by {
                    assert(before[i].position == self.cells@[i].position);
                    assert(before[j].position == self.cells@[j].position);
                }
                return;
            }
            k += 1;
        }
        proof {
            lemma_position_index(self.cells@, position, self.cells@.len() as int);
        }
        self.cells.push(cell);
        assert forall|i: int, j: int| 0 <= i < j < self.cells@.len() implies #[trigger] self.cells@[i].position
            != #[trigger] self.cells@[j].position by {
            if j < old(self).cells@.len() {
                assert(old(self).cells@[i] == self.cells@[i]);
                assert(old(self).cells@[j] == self.cells@[j]);
            } else {
                assert(old(self).cells@[i] == self.cells@[i]);
            }
        }
    }
}

/// Generation is a function of the seed and the catalog: two calls with the
/// same seed against the same catalog give the same id and the same cells,
/// or the same error.
pub proof fn lemma_generate_deterministic(
    seed: u64,
    catalog: Seq<PartInfo>,
    a: Result<Ship, GenerateError>,
    b: Result<Ship, GenerateError>,
)
    requires
        outcome(a) == generated(seed, catalog),
        outcome(b) == generated(seed, catalog),
    ensures
        a is Ok <==> b is Ok,
        a matches Ok(s) ==> b matches Ok(t) && s.id.0@ == t.id.0@ && s.cells@ == t.cells@,
        a matches Err(e) ==> b matches Err(f) && e == f,
{
}

/// Metrics are a function of the ship and the catalog: two results that
/// both meet the contract of `metrics` on the same ship and catalog are equal.
pub proof fn lemma_metrics_idempotent(catalog: Seq<PartInfo>, cells: Seq<ShipCell>, m1: ShipMetrics, m2: ShipMetrics)
    requires
        metrics_of(catalog, cells, m1),
        metrics_of(catalog, cells, m2),
    ensures
        m1 == m2,
{
}

} // verus!
