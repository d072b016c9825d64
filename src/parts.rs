use vstd::prelude::*;

verus! {

/// What a part does for the ship, with the stats that go with it.
#[derive(Debug, Clone, Copy, PartialEq, Eq, Hash, Structural)]
pub enum PartType {
    Cockpit { crew_capacity: usize },
    Hull { armor: usize, cargo_capacity: usize },
    Cargo { cargo_capacity: usize },
    Engine { thrust: usize },
}

#[derive(Debug, Clone, Copy, PartialEq, Eq, Hash, Structural)]
pub struct PartProperties {
    pub part_type: PartType,
    pub weight: usize,
}

/// A cardinal direction on the grid, `Up` towards increasing `y`.
#[derive(Debug, Clone, Copy, PartialEq, Eq, Hash, Structural)]
pub enum Direction {
    Up,
    Down,
    Left,
    Right,
}

/// A signed grid vector.
#[derive(Debug, Clone, Copy, PartialEq, Eq, Hash, Structural)]
pub struct GridVec {
    pub x: i8,
    pub y: i8,
}

/// An unsigned vector inside a part's footprint: a size, or a local cell.
#[derive(Debug, Clone, Copy, PartialEq, Eq, Hash, Structural)]
pub struct LocalVec {
    pub x: u8,
    pub y: u8,
}

pub open spec fn opposite(d: Direction) -> Direction {
    match d {
        Direction::Up => Direction::Down,
        Direction::Down => Direction::Up,
        Direction::Left => Direction::Right,
        Direction::Right => Direction::Left,
    }
}

pub open spec fn unit_offset(d: Direction) -> (int, int) {
    match d {
        Direction::Up => (0, 1),
        Direction::Down => (0, -1),
        Direction::Left => (-1, 0),
        Direction::Right => (1, 0),
    }
}

impl Direction {
    pub fn invert(&self) -> (r: Direction)
        ensures
            r == opposite(*self),
    {
        match self {
            Direction::Up => Direction::Down,
            Direction::Down => Direction::Up,
            Direction::Left => Direction::Right,
            Direction::Right => Direction::Left,
        }
    }

    /// The unit step one cell in this direction.
    pub fn to_vec2(&self) -> (r: GridVec)
        ensures
            (r.x as int, r.y as int) == unit_offset(*self),
    {
        match self {
            Direction::Up => GridVec { x: 0, y: 1 },
            Direction::Down => GridVec { x: 0, y: -1 },
            Direction::Left => GridVec { x: -1, y: 0 },
            Direction::Right => GridVec { x: 1, y: 0 },
        }
    }
}

/// Where a part's sprite sits on its sheet: origin and size, in pixels.
#[derive(Debug, Clone, Copy, PartialEq, Eq, Hash, Structural)]
pub struct UvRect {
    pub x: u32,
    pub y: u32,
    pub width: u32,
    pub height: u32,
}

/// The directions through which a part connects at one cell of its footprint.
#[derive(Debug, Clone)]
pub struct ConnectorPoint {
    pub cell: LocalVec,
    pub directions: Vec<Direction>,
}

#[derive(Debug, Clone)]
pub struct PartInfo {
    pub id: usize,
    pub name: String,
    pub size: LocalVec,
    pub properties: PartProperties,
    pub connector_points: Vec<ConnectorPoint>,
    pub mount_points: Vec<LocalVec>,
    pub sprite_sheet: Option<String>,
    pub uv: UvRect,
}

pub open spec fn is_cockpit_part(p: PartInfo) -> bool {
    p.properties.part_type is Cockpit
}

pub open spec fn is_engine_part(p: PartInfo) -> bool {
    p.properties.part_type is Engine
}

/// Every direction the part declares, at any of its connector cells, is one of `dirs`.
pub open spec fn connects_only(p: PartInfo, dirs: Seq<Direction>) -> bool {
    forall|k: int, j: int|
        0 <= k < p.connector_points@.len() && 0 <= j < p.connector_points@[k].directions@.len()
            ==> dirs.contains(#[trigger] p.connector_points@[k].directions@[j])
}

/// A part that may fill a hull cell whose open directions are `dirs`.
pub open spec fn hull_candidate(p: PartInfo, dirs: Seq<Direction>) -> bool {
    !is_cockpit_part(p) && connects_only(p, dirs)
}

/// Indices, in catalog order, of the first `n` catalog entries that are hull candidates.
pub open spec fn candidate_indices(catalog: Seq<PartInfo>, dirs: Seq<Direction>, n: int) -> Seq<usize>
    decreases n,
{
    if n <= 0 {
        Seq::empty()
    } else {
        let prev = candidate_indices(catalog, dirs, n - 1);
        if hull_candidate(catalog[n - 1], dirs) {
            prev.push((n - 1) as usize)
        } else {
            prev
        }
    }
}

/// The first catalog entry with this id.
pub open spec fn lookup(catalog: Seq<PartInfo>, id: usize) -> Option<PartInfo>
    decreases catalog.len(),
{
    if catalog.len() == 0 {
        None
    } else if catalog[0].id == id {
        Some(catalog[0])
    } else {
        lookup(catalog.drop_first(), id)
    }
}

/// Index of the first entry satisfying `is_cockpit_part`, if any.
pub open spec fn first_cockpit(catalog: Seq<PartInfo>, n: int) -> Option<int>
    decreases n,
{
    if n <= 0 {
        None
    } else {
        match first_cockpit(catalog, n - 1) {
            Some(i) => Some(i),
            None => if is_cockpit_part(catalog[n - 1]) {
                Some(n - 1)
            } else {
                None
            },
        }
    }
}

pub proof fn lemma_lookup_skip(catalog: Seq<PartInfo>, id: usize, i: int)
    requires
        0 <= i < catalog.len(),
        catalog[i].id != id,
    ensures
        lookup(catalog.skip(i), id) == lookup(catalog.skip(i + 1), id),
{
    assert(catalog.skip(i).drop_first() =~= catalog.skip(i + 1));
}

pub proof fn lemma_first_cockpit_stable(catalog: Seq<PartInfo>, n: int, m: int)
    requires
        n <= m,
        first_cockpit(catalog, n) is Some,
    ensures
        first_cockpit(catalog, m) == first_cockpit(catalog, n),
    decreases m - n,
{
    if n < m {
        lemma_first_cockpit_stable(catalog, n, m - 1);
    }
}

pub proof fn lemma_first_cockpit_bounds(catalog: Seq<PartInfo>, n: int)
    ensures
        first_cockpit(catalog, n) matches Some(i) ==> 0 <= i < n && is_cockpit_part(catalog[i]),
        first_cockpit(catalog, n) is None ==> forall|j: int| 0 <= j < n ==> !is_cockpit_part(#[trigger] catalog[j]),
    decreases n,
{
    if n > 0 {
        lemma_first_cockpit_bounds(catalog, n - 1);
    }
}

fn contains_direction(dirs: &Vec<Direction>, d: Direction) -> (r: bool)
    ensures
        r == dirs@.contains(d),
{
    let mut i: usize = 0;
    while i < dirs.len()
        invariant
            i <= dirs@.len(),
            forall|j: int| 0 <= j < i ==> dirs@[j] != d,
        decreases dirs@.len() - i,
    {
        if dirs[i] == d {
            return true;
        }
        i += 1;
    }
    false
}

/// Whether every direction that `part` declares is one of `dirs`.
pub fn connects_only_through(part: &PartInfo, dirs: &Vec<Direction>) -> (r: bool)
    ensures
        r == connects_only(*part, dirs@),
{
    let mut k: usize = 0;
    while k < part.connector_points.len()
        invariant
            k <= part.connector_points@.len(),
            forall|a: int, j: int|
                0 <= a < k && 0 <= j < part.connector_points@[a].directions@.len()
                    ==> dirs@.contains(#[trigger] part.connector_points@[a].directions@[j]),
        decreases part.connector_points@.len() - k,
    {
        let point = &part.connector_points[k];
        let mut j: usize = 0;
        while j < point.directions.len()
            invariant
                k < part.connector_points@.len(),
                *point == part.connector_points@[k as int],
                j <= point.directions@.len(),
                forall|b: int| 0 <= b < j ==> dirs@.contains(#[trigger] point.directions@[b]),
            decreases point.directions@.len() - j,
        {
            if !contains_direction(dirs, point.directions[j]) {
                return false;
            }
            j += 1;
        }
        k += 1;
    }
    true
}

pub fn is_cockpit(part: &PartInfo) -> (r: bool)
    ensures
        r == is_cockpit_part(*part),
{
    matches!(part.properties.part_type, PartType::Cockpit { .. })
}

pub fn is_engine(part: &PartInfo) -> (r: bool)
    ensures
        r == is_engine_part(*part),
{
    matches!(part.properties.part_type, PartType::Engine { .. })
}

/// The first part of `parts` with this id.
pub fn find_part(parts: &Vec<PartInfo>, id: usize) -> (r: Option<&PartInfo>)
    ensures
        r is Some <==> lookup(parts@, id) is Some,
        r matches Some(p) ==> lookup(parts@, id) == Some(*p),
{
    let mut i: usize = 0;
    assert(parts@.skip(0) =~= parts@);
    while i < parts.len()
        invariant
            i <= parts@.len(),
            lookup(parts@, id) == lookup(parts@.skip(i as int), id),
        decreases parts@.len() - i,
    {
        if parts[i].id == id {
            assert(parts@.skip(i as int)[0] == parts@[i as int]);
            return Some(&parts[i]);
        }
        proof {
            lemma_lookup_skip(parts@, id, i as int);
        }
        i += 1;
    }
    None
}

/// Index of the first cockpit part.
pub fn find_cockpit(parts: &Vec<PartInfo>) -> (r: Option<usize>)
    ensures
        r matches Some(i) ==> first_cockpit(parts@, parts@.len() as int) == Some(i as int),
        r is None ==> first_cockpit(parts@, parts@.len() as int) is None,
{
    let mut i: usize = 0;
    while i < parts.len()
        invariant
            i <= parts@.len(),
            first_cockpit(parts@, i as int) is None,
        decreases parts@.len() - i,
    {
        if is_cockpit(&parts[i]) {
            proof {
                lemma_first_cockpit_stable(parts@, i as int + 1, parts@.len() as int);
            }
            return Some(i);
        }
        i += 1;
    }
    None
}

pub proof fn lemma_candidate_indices(catalog: Seq<PartInfo>, dirs: Seq<Direction>, n: int)
    requires
        n <= catalog.len() <= usize::MAX,
    ensures
        forall|k: int|
            0 <= k < candidate_indices(catalog, dirs, n).len() ==> {
                let i = #[trigger] candidate_indices(catalog, dirs, n)[k];
                &&& 0 <= i < n
                &&& hull_candidate(catalog[i as int], dirs)
            },
    decreases n,
{
    if n > 0 {
        lemma_candidate_indices(catalog, dirs, n - 1);
        let prev = candidate_indices(catalog, dirs, n - 1);
        assert forall|k: int| 0 <= k < candidate_indices(catalog, dirs, n).len() implies {
            let i = #[trigger] candidate_indices(catalog, dirs, n)[k];
            &&& 0 <= i < n
            &&& hull_candidate(catalog[i as int], dirs)
        } by {
            if k < prev.len() {
                assert(candidate_indices(catalog, dirs, n)[k] == prev[k]);
            } else {
                assert(candidate_indices(catalog, dirs, n)[k] == (n - 1) as usize);
            }
        }
    }
}

/// Ids that no two catalog entries share.
pub open spec fn unique_ids(catalog: Seq<PartInfo>) -> bool {
    forall|i: int, j: int| 0 <= i < j < catalog.len() ==> #[trigger] catalog[i].id != #[trigger] catalog[j].id
}

pub proof fn lemma_lookup_unique(catalog: Seq<PartInfo>, i: int)
    requires
        unique_ids(catalog),
        0 <= i < catalog.len(),
    ensures
        lookup(catalog, catalog[i].id) == Some(catalog[i]),
    decreases catalog.len(),
{
    if i > 0 {
        let rest = catalog.drop_first();
        assert(catalog[0].id != catalog[i].id);
        assert(rest[i - 1] == catalog[i]);
        assert(unique_ids(rest)) by {
            assert forall|a: int, b: int| 0 <= a < b < rest.len() implies #[trigger] rest[a].id != #[trigger] rest[b].id by {
                assert(rest[a] == catalog[a + 1] && rest[b] == catalog[b + 1]);
            }
        }
        lemma_lookup_unique(rest, i - 1);
    }
}

/// The catalog a ship is generated against, and the sprite sheet its parts are drawn from.
#[derive(Debug, Clone)]
pub struct Parts {
    pub sprite_sheet: String,
    pub parts: Vec<PartInfo>,
}

impl Parts {
    /// The first part of the catalog with this id.
    pub fn get_part(&self, id: usize) -> (r: Option<&PartInfo>)
        ensures
            r is Some <==> lookup(self.parts@, id) is Some,
            r matches Some(p) ==> lookup(self.parts@, id) == Some(*p),
    {
        find_part(&self.parts, id)
    }

    /// Points every part at the catalog's sprite sheet, leaving all else as it was.
    pub fn assign_sprite_sheet(&mut self)
        ensures
            final(self).sprite_sheet@ == old(self).sprite_sheet@,
            final(self).parts@.len() == old(self).parts@.len(),
            forall|i: int|
                0 <= i < old(self).parts@.len() ==> {
                    let p = #[trigger] final(self).parts@[i];
                    let q = old(self).parts@[i];
                    &&& p.sprite_sheet matches Some(s) && s@ == old(self).sprite_sheet@
                    &&& p.id == q.id && p.name == q.name && p.size == q.size
                    &&& p.properties == q.properties && p.connector_points == q.connector_points
                    &&& p.mount_points == q.mount_points && p.uv == q.uv
                },
    {
        let mut rest: Vec<PartInfo> = Vec::new();
        std::mem::swap(&mut rest, &mut self.parts);
        let ghost orig = rest@;
        let mut done: Vec<PartInfo> = Vec::new();
        while rest.len() > 0
            invariant
                done@.len() + rest@.len() == orig.len(),
                rest@ =~= orig.skip(done@.len() as int),
                self.parts@.len() == 0,
                self.sprite_sheet@ == old(self).sprite_sheet@,
                orig == old(self).parts@,
                forall|i: int|
                    0 <= i < done@.len() ==> {
                        let p = #[trigger] done@[i];
                        let q = orig[i];
                        &&& p.sprite_sheet matches Some(s) && s@ == old(self).sprite_sheet@
                        &&& p.id == q.id && p.name == q.name && p.size == q.size
                        &&& p.properties == q.properties && p.connector_points == q.connector_points
                        &&& p.mount_points == q.mount_points && p.uv == q.uv
                    },
            decreases rest@.len(),
        {
            let mut part = rest.remove(0);
            part.sprite_sheet = Some(self.sprite_sheet.clone());
            done.push(part);
        }
        self.parts = done;
    }
}

} // verus!
