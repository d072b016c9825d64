use junk_ship::automata::{Automata, CellType, CENTER, SIDE};
use junk_ship::rng::SeededRng;

#[test]
fn automata_run() {
    let mut rng = SeededRng::from_seed(0);
    let mut automata = Automata::new(&mut rng);
    automata.run(8, &mut rng);
    assert!(automata.validate_connectivity());
}

#[test]
fn batch_test() {
    for i in 0..100 {
        let mut rng = SeededRng::from_seed(i as u64);
        let mut automata = Automata::new(&mut rng);
        automata.run(i, &mut rng);
        assert!(automata.validate_connectivity());
    }
}

#[test]
fn cockpit_stays_at_the_center() {
    let mut rng = SeededRng::from_seed(11);
    let mut automata = Automata::new(&mut rng);
    assert_eq!(automata.cell(CENTER as i64, CENTER as i64), CellType::Cockpit);
    automata.run(7, &mut rng);
    assert_eq!(automata.cell(CENTER as i64, CENTER as i64), CellType::Cockpit);
    let cockpits = automata.get_non_empty().iter().filter(|c| c.2 == CellType::Cockpit).count();
    assert_eq!(cockpits, 1);
}

#[test]
fn outside_the_grid_is_empty() {
    let mut rng = SeededRng::from_seed(1);
    let automata = Automata::new(&mut rng);
    assert_eq!(automata.cell(-1, 0), CellType::Empty);
    assert_eq!(automata.cell(0, SIDE as i64), CellType::Empty);
}

#[test]
fn engines_only_on_the_bottom_row() {
    for seed in 0..20u64 {
        let mut rng = SeededRng::from_seed(seed);
        let mut automata = Automata::new(&mut rng);
        automata.run(7, &mut rng);
        for (_, y, c) in automata.get_non_empty() {
            if c == CellType::Engine {
                assert_eq!(y, SIDE - 1);
            }
        }
    }
}

#[test]
fn non_empty_cells_come_in_scan_order() {
    let mut rng = SeededRng::from_seed(5);
    let mut automata = Automata::new(&mut rng);
    automata.run(3, &mut rng);
    let cells = automata.get_non_empty();
    assert!(cells.len() > 1);
    for w in cells.windows(2) {
        assert!((w[0].0, w[0].1) < (w[1].0, w[1].1));
    }
    for &(x, y, c) in &cells {
        assert_ne!(c, CellType::Empty);
        assert_eq!(automata.cell(x as i64, y as i64), c);
    }
}

#[test]
fn the_walk_grows_hull_from_the_cockpit() {
    let mut rng = SeededRng::from_seed(2);
    let automata = Automata::new(&mut rng);
    let hull = automata.get_non_empty().iter().filter(|c| c.2 == CellType::Hull).count();
    assert!(hull >= 1);
    assert!(hull <= 12);
}

#[test]
fn repair_keeps_a_connected_grid() {
    let mut rng = SeededRng::from_seed(8);
    let mut automata = Automata::new(&mut rng);
    automata.run(0, &mut rng);
    let before = automata.get_non_empty();
    assert!(automata.validate_connectivity());
    automata.remove_disconnected_cells();
    assert_eq!(automata.get_non_empty(), before);
}
