use wave_collapse::cell::CellState;
use wave_collapse::cell::Event;
use wave_collapse::cell::StepResult;
use wave_collapse::cell::WaveError;
use wave_collapse::domain::TileDomain;
use wave_collapse::engine::Session;
use wave_collapse::grid::CellPosition;
use wave_collapse::tiles::Tiles;

fn pos(x: usize, y: usize) -> CellPosition {
    CellPosition { x, y }
}

fn drive(s: &mut Session, cap: usize) -> Vec<StepResult> {
    let mut results = Vec::new();
    for _ in 0..cap {
        let r = s.step();
        let stop = matches!(r, StepResult::Done | StepResult::Contradiction(_));
        results.push(r);
        if stop {
            break;
        }
    }
    results
}

/// Two sessions created with the same extents, domain and seed, driven by
/// the same calls, report identical step results and identical events.
#[test]
fn identical_seeds_replay_identically() {
    let mut s1 = Session::create(4, 4, Tiles::domain(), 42);
    let mut s2 = Session::create(4, 4, Tiles::domain(), 42);
    let r1 = drive(&mut s1, 64);
    let r2 = drive(&mut s2, 64);
    assert_eq!(r1, r2);
    assert_eq!(s1.events(), s2.events());
    for y in 0..4 {
        for x in 0..4 {
            assert_eq!(s1.inspect(pos(x, y)), s2.inspect(pos(x, y)));
        }
    }
}

/// A different seed is allowed to produce a different run; the grid is
/// still fully solved or reports a contradiction.
#[test]
fn session_runs_to_an_end_state() {
    let mut s = Session::create(5, 5, Tiles::domain(), 7);
    let results = drive(&mut s, 200);
    let last = results.last().expect("at least one step");
    assert!(matches!(last, StepResult::Done | StepResult::Contradiction(_)));
}

/// Once every cell is fixed, `step` keeps returning `Done`, mutates no
/// cell, and only appends a `Done` event per call.
#[test]
fn step_after_done_is_idempotent() {
    let mut s = Session::create(1, 1, Tiles::domain(), 3);
    let first = s.step();
    assert!(matches!(first, StepResult::Fixed(_, _)));
    assert_eq!(s.step(), StepResult::Done);
    let frozen = s.inspect(pos(0, 0));
    let events_before = s.events().len();
    assert_eq!(s.step(), StepResult::Done);
    assert_eq!(s.inspect(pos(0, 0)), frozen);
    assert_eq!(s.events().len(), events_before + 1);
    assert_eq!(*s.events().last().unwrap(), Event::Done);
}

/// A cell can be seeded once; the second attempt is rejected, as is a
/// label outside the alphabet.
#[test]
fn seeding_rejects_double_fix_and_foreign_labels() {
    let mut s = Session::create(2, 2, Tiles::domain(), 0);
    assert_eq!(s.seed_cell(pos(1, 1), 9), Err(WaveError::LabelNotAllowed));
    assert_eq!(s.seed_cell(pos(1, 1), Tiles::Grass.index()), Ok(()));
    assert_eq!(s.seed_cell(pos(1, 1), Tiles::Sand.index()), Err(WaveError::AlreadyFixed));
    assert_eq!(s.inspect(pos(1, 1)), Ok(CellState::Fixed(Tiles::Grass.index())));
    assert_eq!(s.inspect(pos(2, 2)), Err(WaveError::OutOfBounds));
}

/// A possibility set's size never grows while a session is driven.
#[test]
fn possibility_sets_only_shrink() {
    let mut s = Session::create(4, 4, Tiles::domain(), 11);
    let mut sizes: Vec<Option<usize>> = Vec::new();
    for y in 0..4 {
        for x in 0..4 {
            match s.inspect(pos(x, y)).unwrap() {
                CellState::Possible(v) => sizes.push(Some(v.len())),
                CellState::Fixed(_) => sizes.push(None),
            }
        }
    }
    for _ in 0..64 {
        let r = s.step();
        let mut i = 0;
        for y in 0..4 {
            for x in 0..4 {
                match s.inspect(pos(x, y)).unwrap() {
                    CellState::Possible(v) => {
                        assert!(!v.is_empty());
                        if let Some(before) = sizes[i] {
                            assert!(v.len() <= before);
                        } else {
                            panic!("a fixed cell reverted to possible");
                        }
                        sizes[i] = Some(v.len());
                    },
                    CellState::Fixed(_) => {
                        sizes[i] = None;
                    },
                }
                i += 1;
            }
        }
        if matches!(r, StepResult::Done | StepResult::Contradiction(_)) {
            break;
        }
    }
}

/// The first step of a fresh session emits exactly one `CellFixed` event,
/// followed by the narrowing events of its propagation, in order.
#[test]
fn step_event_batch_starts_with_the_fix() {
    let mut s = Session::create(3, 3, Tiles::domain(), 5);
    let r = s.step();
    let events = s.events();
    assert!(matches!(events[0], Event::CellFixed(_, _)));
    match r {
        StepResult::Narrowed(list) => {
            assert_eq!(events.len(), 1 + list.len());
            for (k, p) in list.iter().enumerate() {
                assert_eq!(events[1 + k], Event::CellNarrowed(*p));
            }
        },
        StepResult::Fixed(p, t) => {
            assert_eq!(events.len(), 1);
            assert_eq!(events[0], Event::CellFixed(p, t));
        },
        other => panic!("unexpected first step {:?}", other),
    }
}

/// A session over a domain whose only label permits itself fills the
/// whole grid with that label.
#[test]
fn single_label_domain_fills_the_grid() {
    let mut d = TileDomain::new(1);
    d.permit(0, 0);
    let mut s = Session::create(3, 2, d, 123);
    let results = drive(&mut s, 20);
    assert_eq!(*results.last().unwrap(), StepResult::Done);
    for y in 0..2 {
        for x in 0..3 {
            assert_eq!(s.inspect(pos(x, y)), Ok(CellState::Fixed(0)));
        }
    }
}

/// An empty grid is done from the start.
#[test]
fn empty_grid_is_done_immediately() {
    let mut s = Session::create(0, 3, Tiles::domain(), 1);
    assert_eq!(s.step(), StepResult::Done);
    assert_eq!(s.width(), 0);
    assert_eq!(s.height(), 3);
}
