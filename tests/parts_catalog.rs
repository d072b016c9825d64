use junk_ship::parts::{
    ConnectorPoint, Direction, GridVec, LocalVec, PartInfo,
    PartProperties, PartType, Parts, UvRect,
};
use junk_ship::ship::{Ship, ShipId};

fn part(id: usize, part_type: PartType, points: Vec<Vec<Direction>>) -> PartInfo {
    PartInfo {
        id,
        name: format!("p{}", id),
        size: LocalVec { x: 1, y: points.len().max(1) as u8 },
        properties: PartProperties { part_type, weight: 1 },
        connector_points: points
            .into_iter()
            .enumerate()
            .map(|(i, directions)| ConnectorPoint { cell: LocalVec { x: 0, y: i as u8 }, directions })
            .collect(),
        mount_points: Vec::new(),
        sprite_sheet: None,
        uv: UvRect { x: 0, y: 0, width: 0, height: 0 },
    }
}

#[test]
fn invert_swaps_opposites() {
    assert_eq!(Direction::Up.invert(), Direction::Down);
    assert_eq!(Direction::Down.invert(), Direction::Up);
    assert_eq!(Direction::Left.invert(), Direction::Right);
    assert_eq!(Direction::Right.invert(), Direction::Left);
}

#[test]
fn unit_vectors() {
    assert_eq!(Direction::Up.to_vec2(), GridVec { x: 0, y: 1 });
    assert_eq!(Direction::Down.to_vec2(), GridVec { x: 0, y: -1 });
    assert_eq!(Direction::Left.to_vec2(), GridVec { x: -1, y: 0 });
    assert_eq!(Direction::Right.to_vec2(), GridVec { x: 1, y: 0 });
}

#[test]
fn only_directions_filter() {
    let parts = vec![
        part(1, PartType::Cockpit { crew_capacity: 1 }, vec![vec![Direction::Up]]),
        part(2, PartType::Hull { armor: 1, cargo_capacity: 0 }, vec![vec![Direction::Up], vec![Direction::Left]]),
        part(3, PartType::Cargo { cargo_capacity: 2 }, vec![vec![Direction::Up]]),
        part(4, PartType::Engine { thrust: 5 }, vec![]),
        part(5, PartType::Hull { armor: 1, cargo_capacity: 0 }, vec![vec![Direction::Right, Direction::Down]]),
    ];
    assert_eq!(Ship::find_parts_with_only_directions(&parts, &vec![Direction::Up]), vec![2, 3]);
    assert_eq!(Ship::find_parts_with_only_directions(&parts, &vec![Direction::Up, Direction::Left]), vec![1, 2, 3]);
    assert_eq!(Ship::find_parts_with_only_directions(&parts, &vec![]), vec![3]);
    assert_eq!(
        Ship::find_parts_with_only_directions(&parts, &vec![Direction::Up, Direction::Down, Direction::Left, Direction::Right]),
        vec![1, 2, 3, 4]
    );
}

#[test]
fn get_part_finds_the_first_with_the_id() {
    let mut a = part(7, PartType::Cargo { cargo_capacity: 1 }, vec![]);
    a.name = "first".to_string();
    let mut b = part(7, PartType::Cargo { cargo_capacity: 2 }, vec![]);
    b.name = "second".to_string();
    let parts = Parts { sprite_sheet: String::new(), parts: vec![part(1, PartType::Engine { thrust: 1 }, vec![]), a, b] };
    assert_eq!(parts.get_part(7).unwrap().name, "first");
    assert!(parts.get_part(8).is_none());
}

#[test]
fn sprite_sheet_reaches_every_part() {
    let mut parts = Parts {
        sprite_sheet: "ships.png".to_string(),
        parts: vec![part(1, PartType::Engine { thrust: 1 }, vec![]), part(2, PartType::Cargo { cargo_capacity: 3 }, vec![])],
    };
    parts.assign_sprite_sheet();
    assert_eq!(parts.parts.len(), 2);
    assert_eq!(parts.parts[0].id, 1);
    assert_eq!(parts.parts[1].id, 2);
    assert!(parts.parts.iter().all(|p| p.sprite_sheet.as_deref() == Some("ships.png")));
}

#[test]
fn place_part_replaces_what_stood_there() {
    let hull = part(2, PartType::Hull { armor: 1, cargo_capacity: 0 }, vec![]);
    let cargo = part(3, PartType::Cargo { cargo_capacity: 1 }, vec![]);
    let mut ship = Ship::new(ShipId::player_ship());
    let here = GridVec { x: -3, y: 4 };
    assert!(!ship.check_position_taken(here));
    ship.place_part(&hull, here);
    assert!(ship.check_position_taken(here));
    ship.place_part(&cargo, here);
    assert_eq!(ship.cells.len(), 1);
    assert_eq!(ship.cells[0].part.part_id, 3);
    ship.place_part(&hull, GridVec { x: 0, y: 0 });
    assert_eq!(ship.cells.len(), 2);
}
