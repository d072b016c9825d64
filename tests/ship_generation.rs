use junk_ship::automata::{Automata, CENTER};
use junk_ship::parts::{
    ConnectorPoint, Direction, GridVec, LocalVec, PartInfo, PartProperties, PartType, Parts, UvRect,
};
use junk_ship::rng::SeededRng;
use junk_ship::ship::{GenerateError, Ship, ShipId, SHIP_ID_ALPHABET, SHIP_ID_LENGTH};

fn part(id: usize, part_type: PartType, weight: usize, directions: Vec<Direction>) -> PartInfo {
    let connector_points = if directions.is_empty() {
        Vec::new()
    } else {
        vec![ConnectorPoint { cell: LocalVec { x: 0, y: 0 }, directions }]
    };
    PartInfo {
        id,
        name: format!("part{}", id),
        size: LocalVec { x: 1, y: 1 },
        properties: PartProperties { part_type, weight },
        connector_points,
        mount_points: Vec::new(),
        sprite_sheet: None,
        uv: UvRect { x: 0, y: 0, width: 16, height: 16 },
    }
}

fn all_dirs() -> Vec<Direction> {
    vec![Direction::Up, Direction::Down, Direction::Left, Direction::Right]
}

/// Cockpit 1, hull 2 with unrestricted connectors, engine 3 connecting up.
fn minimal_catalog() -> Vec<PartInfo> {
    vec![
        part(1, PartType::Cockpit { crew_capacity: 1 }, 1, all_dirs()),
        part(2, PartType::Hull { armor: 1, cargo_capacity: 0 }, 1, all_dirs()),
        part(3, PartType::Engine { thrust: 10 }, 2, vec![Direction::Up]),
    ]
}

fn rich_catalog() -> Vec<PartInfo> {
    vec![
        part(10, PartType::Cockpit { crew_capacity: 3 }, 5, all_dirs()),
        part(11, PartType::Hull { armor: 4, cargo_capacity: 1 }, 2, vec![Direction::Left, Direction::Right]),
        part(12, PartType::Hull { armor: 2, cargo_capacity: 0 }, 1, vec![Direction::Up, Direction::Down]),
        part(13, PartType::Cargo { cargo_capacity: 6 }, 3, vec![Direction::Up]),
        part(14, PartType::Engine { thrust: 20 }, 4, vec![Direction::Up]),
        part(15, PartType::Hull { armor: 1, cargo_capacity: 1 }, 1, all_dirs()),
    ]
}

fn resolve<'a>(catalog: &'a [PartInfo], id: usize) -> &'a PartInfo {
    catalog.iter().find(|p| p.id == id).expect("placed id resolves")
}

fn is_cockpit(p: &PartInfo) -> bool {
    matches!(p.properties.part_type, PartType::Cockpit { .. })
}

/// Breadth-first search over the placed positions, 8-connected, from the cockpit.
fn placement_connected(ship: &Ship, catalog: &[PartInfo]) -> bool {
    let positions: Vec<GridVec> = ship.cells.iter().map(|c| c.position).collect();
    let start = match ship.cells.iter().find(|c| is_cockpit(resolve(catalog, c.part.part_id))) {
        Some(c) => c.position,
        None => return false,
    };
    let mut seen = vec![start];
    let mut queue = vec![start];
    while let Some(p) = queue.pop() {
        for q in &positions {
            let touching = (p.x - q.x).abs() <= 1 && (p.y - q.y).abs() <= 1;
            if touching && !seen.contains(q) {
                seen.push(*q);
                queue.push(*q);
            }
        }
    }
    positions.iter().all(|p| seen.contains(p))
}

#[test]
fn test_ship_id_generate() {
    let mut rng = SeededRng::from_seed(0);
    let ship_id = ShipId::generate(&mut rng);
    assert_eq!(ship_id.0.len(), SHIP_ID_LENGTH);
}

#[test]
fn test_ship_id_player_ship() {
    let ship_id = ShipId::player_ship();
    assert_eq!(ship_id.0, "PLAYER");
}

#[test]
fn test_ship() {
    let mut parts = Parts { sprite_sheet: "stock.png".to_string(), parts: rich_catalog() };
    parts.assign_sprite_sheet();
    assert_eq!(parts.sprite_sheet, "stock.png");
    for i in 0..10 {
        let ship = Ship::generate(i, &parts.parts).expect("catalog is valid");
        let metrics = ship.metrics(&parts.parts);
        println!("{:?}", ship.id);
        println!("{:?}", metrics);
        assert!(metrics.weight > 0);
    }
}

#[test]
fn ship_id_letters_come_from_the_alphabet() {
    let mut rng = SeededRng::from_seed(42);
    let id = ShipId::generate(&mut rng);
    assert!(id.0.chars().all(|c| SHIP_ID_ALPHABET.contains(c)));
}

#[test]
fn ship_ids_follow_the_stream() {
    let ids: Vec<String> = (0..8u64)
        .map(|seed| ShipId::generate(&mut SeededRng::from_seed(seed)).0)
        .collect();
    assert!(ids.iter().any(|id| id != &ids[0]));
    let mut rng = SeededRng::from_seed(3);
    let first = ShipId::generate(&mut rng).0;
    let second = ShipId::generate(&mut rng).0;
    assert_ne!(first, second);
    assert_eq!(first, ShipId::generate(&mut SeededRng::from_seed(3)).0);
}

#[test]
fn generation_is_deterministic() {
    let catalog = rich_catalog();
    for seed in [0u64, 1, 7, 12345, u64::MAX] {
        let a = Ship::generate(seed, &catalog).unwrap();
        let b = Ship::generate(seed, &catalog).unwrap();
        assert_eq!(a.id.0, b.id.0);
        assert_eq!(a.cells, b.cells);
    }
}

#[test]
fn silhouette_is_connected_after_repair() {
    for seed in 0..30u64 {
        let mut rng = SeededRng::from_seed(seed);
        let mut automata = Automata::new(&mut rng);
        automata.run(7, &mut rng);
        assert!(automata.validate_connectivity());
        let cells = automata.get_non_empty();
        assert!(cells.iter().any(|&(x, y, _)| x == CENTER && y == CENTER));
    }
}

#[test]
fn exactly_one_cockpit_is_placed() {
    let catalog = rich_catalog();
    for seed in 0..20u64 {
        let ship = Ship::generate(seed, &catalog).unwrap();
        let cockpits = ship
            .cells
            .iter()
            .filter(|c| is_cockpit(resolve(&catalog, c.part.part_id)))
            .count();
        assert_eq!(cockpits, 1);
    }
}

#[test]
fn placed_ids_resolve_in_the_catalog() {
    let parts = Parts { sprite_sheet: String::new(), parts: rich_catalog() };
    for seed in 0..20u64 {
        let ship = Ship::generate(seed, &parts.parts).unwrap();
        for cell in &ship.cells {
            assert!(parts.get_part(cell.part.part_id).is_some());
        }
    }
}

#[test]
fn metrics_are_sums_over_placed_parts() {
    let catalog = rich_catalog();
    let ship = Ship::generate(5, &catalog).unwrap();
    let m = ship.metrics(&catalog);
    let (mut crew, mut armor, mut cargo, mut thrust, mut weight) = (0, 0, 0, 0, 0);
    for cell in &ship.cells {
        let p = resolve(&catalog, cell.part.part_id);
        weight += p.properties.weight;
        match p.properties.part_type {
            PartType::Cockpit { crew_capacity } => crew += crew_capacity,
            PartType::Hull { armor: a, cargo_capacity: c } => {
                armor += a;
                cargo += c;
            }
            PartType::Cargo { cargo_capacity } => cargo += cargo_capacity,
            PartType::Engine { thrust: t } => thrust += t,
        }
    }
    assert_eq!((m.crew_capacity, m.armor, m.cargo_capacity, m.thrust, m.weight), (crew, armor, cargo, thrust, weight));
}

#[test]
fn metrics_of_a_hand_built_ship() {
    let catalog = rich_catalog();
    let mut ship = Ship::new(ShipId::player_ship());
    ship.place_part(&catalog[0], GridVec { x: 0, y: 0 });
    ship.place_part(&catalog[1], GridVec { x: 1, y: 0 });
    ship.place_part(&catalog[3], GridVec { x: 0, y: 1 });
    ship.place_part(&catalog[4], GridVec { x: 0, y: -1 });
    let m = ship.metrics(&catalog);
    assert_eq!(m.crew_capacity, 3);
    assert_eq!(m.armor, 4);
    assert_eq!(m.cargo_capacity, 7);
    assert_eq!(m.thrust, 20);
    assert_eq!(m.weight, 14);
    let empty = Ship::new(ShipId::player_ship()).metrics(&catalog);
    assert_eq!(empty.weight, 0);
}

#[test]
fn ascii_picture_of_a_hand_built_ship() {
    let catalog = rich_catalog();
    let mut ship = Ship::new(ShipId::player_ship());
    ship.place_part(&catalog[0], GridVec { x: 0, y: 0 });
    ship.place_part(&catalog[1], GridVec { x: 1, y: 0 });
    ship.place_part(&catalog[3], GridVec { x: 0, y: 1 });
    ship.place_part(&catalog[4], GridVec { x: 0, y: -1 });
    assert_eq!(ship.ascii_rows(&catalog), vec!["   ", "O  ", "CH ", "E  "]);
    let empty = Ship::new(ShipId::player_ship());
    assert_eq!(empty.ascii_rows(&catalog), vec![" "]);
}

#[test]
fn part_directions_at_a_position() {
    let catalog = rich_catalog();
    let mut ship = Ship::new(ShipId::player_ship());
    ship.place_part(&catalog[1], GridVec { x: 2, y: 3 });
    ship.place_part(&catalog[0], GridVec { x: 0, y: 0 });
    assert_eq!(ship.get_directions(GridVec { x: 2, y: 3 }, &catalog), vec![Direction::Left, Direction::Right]);
    assert_eq!(ship.get_directions(GridVec { x: 0, y: 0 }, &catalog), all_dirs());
}

#[test]
fn metrics_twice_give_the_same_result() {
    let catalog = rich_catalog();
    let ship = Ship::generate(9, &catalog).unwrap();
    assert_eq!(ship.metrics(&catalog), ship.metrics(&catalog));
}

#[test]
fn minimal_catalog_seed_zero() {
    let catalog = minimal_catalog();
    let ship = Ship::generate(0, &catalog).unwrap();
    assert!(!ship.cells.is_empty());
    assert_eq!(ship.cells.iter().filter(|c| c.part.part_id == 1).count(), 1);
    assert!(placement_connected(&ship, &catalog));
}

#[test]
fn missing_engine_is_a_misconfiguration() {
    let catalog: Vec<PartInfo> = minimal_catalog().into_iter().filter(|p| p.id != 3).collect();
    assert_eq!(Ship::generate(0, &catalog).unwrap_err(), GenerateError::CatalogMisconfiguration);
}

#[test]
fn missing_cockpit_is_a_misconfiguration() {
    let catalog: Vec<PartInfo> = minimal_catalog().into_iter().filter(|p| p.id != 1).collect();
    assert_eq!(Ship::generate(4, &catalog).unwrap_err(), GenerateError::CatalogMisconfiguration);
}

#[test]
fn duplicate_ids_are_a_misconfiguration() {
    let mut catalog = minimal_catalog();
    catalog.push(part(2, PartType::Cargo { cargo_capacity: 1 }, 1, all_dirs()));
    assert_eq!(Ship::generate(0, &catalog).unwrap_err(), GenerateError::CatalogMisconfiguration);
}

#[test]
fn two_cockpit_parts_are_a_misconfiguration() {
    let mut catalog = minimal_catalog();
    catalog.push(part(9, PartType::Cockpit { crew_capacity: 2 }, 1, all_dirs()));
    assert_eq!(Ship::generate(0, &catalog).unwrap_err(), GenerateError::CatalogMisconfiguration);
}

#[test]
fn empty_catalog_is_a_misconfiguration() {
    assert_eq!(Ship::generate(0, &Vec::new()).unwrap_err(), GenerateError::CatalogMisconfiguration);
}

#[test]
fn hull_cells_without_any_part_fail() {
    let catalog = vec![part(1, PartType::Cockpit { crew_capacity: 1 }, 1, all_dirs())];
    let ship = Ship::new(ShipId::player_ship());
    let mut rng = SeededRng::from_seed(0);
    assert_eq!(ship.cellular(&mut rng, &catalog).unwrap_err(), GenerateError::NoMatchingPart);
}

#[test]
fn cellular_without_cockpit_part_fails() {
    let catalog = vec![part(3, PartType::Engine { thrust: 1 }, 1, vec![Direction::Up])];
    let ship = Ship::new(ShipId::player_ship());
    let mut rng = SeededRng::from_seed(0);
    assert_eq!(ship.cellular(&mut rng, &catalog).unwrap_err(), GenerateError::CatalogMisconfiguration);
}

#[test]
fn engine_cells_get_no_part() {
    let catalog = minimal_catalog();
    for seed in 0..10u64 {
        let ship = Ship::generate(seed, &catalog).unwrap();
        // hull on the bottom row has become engine, which receives no part
        assert!(ship.cells.iter().all(|c| c.position.y != 32));
        assert!(ship.cells.iter().all(|c| (0..33).contains(&c.position.x) && (0..33).contains(&c.position.y)));
    }
}
