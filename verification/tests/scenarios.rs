use wave_collapse::cell::CellState;
use wave_collapse::cell::Event;
use wave_collapse::cell::StepResult;
use wave_collapse::cell::WaveError;
use wave_collapse::domain::TileDomain;
use wave_collapse::engine::Session;
use wave_collapse::grid::CellPosition;
use wave_collapse::tiles::Tiles;

fn pos(x: usize, y: usize) -> CellPosition {
    CellPosition { x, y }
}

/// 2x2 grid over the tile alphabet, (0,0) seeded to Water: one
/// propagation narrows the three Moore-adjacent cells to exactly {Sand}.
#[test]
fn water_seed_narrows_neighbors_to_sand() {
    let mut s = Session::create(2, 2, Tiles::domain(), 0);
    assert_eq!(s.seed_cell(pos(0, 0), Tiles::Water.index()), Ok(()));
    let r = s.propagate(pos(0, 0));
    assert_eq!(r, StepResult::Narrowed(vec![pos(0, 1), pos(1, 0), pos(1, 1)]));
    let sand = Tiles::Sand.index();
    assert_eq!(s.inspect(pos(0, 1)), Ok(CellState::Possible(vec![sand])));
    assert_eq!(s.inspect(pos(1, 0)), Ok(CellState::Possible(vec![sand])));
    assert_eq!(s.inspect(pos(1, 1)), Ok(CellState::Possible(vec![sand])));
    assert_eq!(s.inspect(pos(0, 0)), Ok(CellState::Fixed(Tiles::Water.index())));
}

/// Continuing from the Water seed, three collapses fix the three
/// remaining cells to Sand (entropy 1 leaves no ambiguity), with no
/// contradiction, and every cell ends `Fixed`.
#[test]
fn three_collapses_fix_all_to_sand() {
    let mut s = Session::create(2, 2, Tiles::domain(), 0);
    assert_eq!(s.seed_cell(pos(0, 0), Tiles::Water.index()), Ok(()));
    s.propagate(pos(0, 0));
    let sand = Tiles::Sand.index();
    for _ in 0..3 {
        match s.collapse_one() {
            StepResult::Fixed(_, label) => assert_eq!(label, sand),
            other => panic!("expected a fix, got {:?}", other),
        }
    }
    assert_eq!(s.inspect(pos(0, 0)), Ok(CellState::Fixed(Tiles::Water.index())));
    assert_eq!(s.inspect(pos(0, 1)), Ok(CellState::Fixed(sand)));
    assert_eq!(s.inspect(pos(1, 0)), Ok(CellState::Fixed(sand)));
    assert_eq!(s.inspect(pos(1, 1)), Ok(CellState::Fixed(sand)));
    assert_eq!(s.collapse_one(), StepResult::Done);
}

/// 3x1 grid, asymmetric domain {A -> [B], B -> [A], C -> []}: seeding A
/// at one end narrows the middle to {B}; force-seeding C at the other
/// end empties the middle cell's set, and propagation reports the
/// contradiction at that cell while its set stays {B}.
#[test]
fn conflicting_seeds_contradict_in_the_middle() {
    let mut d = TileDomain::new(3);
    let (a, b, c) = (0, 1, 2);
    d.permit(a, b);
    d.permit(b, a);
    let mut s = Session::create(3, 1, d, 0);
    assert_eq!(s.seed_cell(pos(0, 0), a), Ok(()));
    assert_eq!(s.propagate(pos(0, 0)), StepResult::Narrowed(vec![pos(1, 0)]));
    assert_eq!(s.inspect(pos(1, 0)), Ok(CellState::Possible(vec![b])));
    assert_eq!(s.seed_cell(pos(2, 0), c), Ok(()));
    assert_eq!(s.propagate(pos(2, 0)), StepResult::Contradiction(pos(1, 0)));
    assert_eq!(s.inspect(pos(1, 0)), Ok(CellState::Possible(vec![b])));
    assert_eq!(
        s.events(),
        &vec![Event::CellNarrowed(pos(1, 0)), Event::Contradiction(pos(1, 0))],
    );
}

/// Seeding at x == width is out of bounds and leaves the grid unchanged.
#[test]
fn seed_out_of_bounds_changes_nothing() {
    let mut s = Session::create(4, 3, Tiles::domain(), 9);
    assert_eq!(s.seed_cell(pos(4, 0), Tiles::Sand.index()), Err(WaveError::OutOfBounds));
    let all = vec![0, 1, 2, 3];
    for y in 0..3 {
        for x in 0..4 {
            assert_eq!(s.inspect(pos(x, y)), Ok(CellState::Possible(all.clone())));
        }
    }
    assert!(s.events().is_empty());
}
