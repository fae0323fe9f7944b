use wave_collapse::domain::TileDomain;
use wave_collapse::grid::CellPosition;
use wave_collapse::grid::Grid;
use wave_collapse::rng::SeedRng;
use wave_collapse::tiles::Tiles;

fn pos(x: usize, y: usize) -> CellPosition {
    CellPosition { x, y }
}

#[test]
fn tile_values_in_declaration_order() {
    assert_eq!(Tiles::values(), vec![Tiles::Sand, Tiles::Grass, Tiles::Water, Tiles::Forest]);
    assert_eq!(Tiles::values_len(), 4);
    assert_eq!(Tiles::values().len(), Tiles::values_len());
}

#[test]
fn tile_allowed_neighbors_table() {
    assert_eq!(Tiles::Sand.allowed_neighbors(), vec![Tiles::Grass, Tiles::Water]);
    assert_eq!(Tiles::Grass.allowed_neighbors(), vec![Tiles::Sand, Tiles::Forest]);
    assert_eq!(Tiles::Water.allowed_neighbors(), vec![Tiles::Sand]);
    assert_eq!(Tiles::Forest.allowed_neighbors(), vec![Tiles::Grass]);
}

#[test]
fn tile_labels_round_trip() {
    for (i, t) in Tiles::values().into_iter().enumerate() {
        assert_eq!(t.index(), i);
        assert_eq!(Tiles::from_label(i), t);
    }
}

#[test]
fn tile_domain_matches_the_table() {
    let d = Tiles::domain();
    assert_eq!(d.num_labels(), 4);
    for a in Tiles::values() {
        for b in Tiles::values() {
            let listed = a.allowed_neighbors().contains(&b);
            assert_eq!(d.is_allowed(a.index(), b.index()), listed);
        }
    }
}

#[test]
fn union_allowed_joins_the_rows() {
    let d = Tiles::domain();
    // the set {Sand, Forest}: together they accept Grass and Water
    let mask = vec![true, false, false, true];
    assert_eq!(d.union_allowed(&mask), vec![false, true, true, false]);
    let nothing = vec![false, false, false, false];
    assert_eq!(d.union_allowed(&nothing), vec![false, false, false, false]);
}

#[test]
fn domain_permit_is_directional() {
    let mut d = TileDomain::new(2);
    d.permit(0, 1);
    assert!(d.is_allowed(0, 1));
    assert!(!d.is_allowed(1, 0));
    assert!(!d.is_allowed(0, 0));
    assert!(!d.is_allowed(1, 1));
}

#[test]
fn moore_neighbors_in_scan_order() {
    let g = Grid::new(3, 3);
    assert_eq!(
        g.neighbors(pos(1, 1)),
        vec![
            pos(0, 0),
            pos(0, 1),
            pos(0, 2),
            pos(1, 0),
            pos(1, 2),
            pos(2, 0),
            pos(2, 1),
            pos(2, 2),
        ],
    );
    assert_eq!(g.neighbors(pos(0, 0)), vec![pos(0, 1), pos(1, 0), pos(1, 1)]);
    assert_eq!(
        g.neighbors(pos(1, 0)),
        vec![pos(0, 0), pos(0, 1), pos(1, 1), pos(2, 0), pos(2, 1)],
    );
}

#[test]
fn grid_bounds_and_row_major_index() {
    let g = Grid::new(4, 3);
    assert!(g.contains(pos(3, 2)));
    assert!(!g.contains(pos(4, 0)));
    assert!(!g.contains(pos(0, 3)));
    assert_eq!(g.index(pos(0, 0)), 0);
    assert_eq!(g.index(pos(3, 0)), 3);
    assert_eq!(g.index(pos(0, 1)), 4);
    assert_eq!(g.index(pos(3, 2)), 11);
}

#[test]
fn seeded_generator_replays_and_stays_below_the_bound() {
    let mut a = SeedRng::new(7);
    let mut b = SeedRng::new(7);
    let mut c = SeedRng::new(8);
    let mut differs = false;
    for n in 1..40usize {
        let x = a.next_below(n);
        assert_eq!(x, b.next_below(n));
        assert!(x < n);
        if c.next_below(n) != x {
            differs = true;
        }
    }
    assert!(differs);
}
