use junk_ship::navigation::{Connection, Connections, SystemId};

fn id(s: &str) -> SystemId {
    SystemId(s.to_string())
}

fn map() -> Connections {
    Connections::new(vec![
        Connection { from: id("a"), to: id("b"), distance: 3 },
        Connection { from: id("b"), to: id("a"), distance: 3 },
        Connection { from: id("a"), to: id("c"), distance: 5 },
    ])
}

#[test]
fn navigation_follows_directed_connections() {
    let m = map();
    assert!(m.can_navigate_to(&id("a"), &id("b")));
    assert!(m.can_navigate_to(&id("a"), &id("c")));
    assert!(!m.can_navigate_to(&id("c"), &id("a")));
    assert!(!m.can_navigate_to(&id("b"), &id("c")));
}

#[test]
fn navigatable_systems_in_order() {
    let m = map();
    let from_a: Vec<String> = m.get_navigatable_systems(&id("a")).into_iter().map(|s| s.0).collect();
    assert_eq!(from_a, vec!["b".to_string(), "c".to_string()]);
    assert!(m.get_navigatable_systems(&id("c")).is_empty());
    assert_eq!(m.connections().len(), 3);
    assert_eq!(m.connections()[2].distance, 5);
}
