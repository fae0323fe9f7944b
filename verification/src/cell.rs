//! Per-cell state, the events a step emits, the step results, and the
//! error kinds of the seeding and query calls.

use vstd::prelude::*;

use crate::grid::CellPosition;
use crate::masks::count_true;

verus! {

/// Runtime state of one cell: either a possibility mask over the domain's
/// alphabet, or one fixed label.
#[derive(Clone, Debug)]
pub enum Cell {
    Possible(Vec<bool>),
    Fixed(usize),
}

/// The mathematical value of a cell.
pub enum CellModel {
    Possible(Seq<bool>),
    Fixed(int),
}

impl View for Cell {
    type V = CellModel;

    open spec fn view(&self) -> CellModel {
        match self {
            Cell::Possible(m) => CellModel::Possible(m@),
            Cell::Fixed(t) => CellModel::Fixed(*t as int),
        }
    }
}

impl CellModel {
    pub open spec fn is_possible(self) -> bool {
        match self {
            CellModel::Possible(_) => true,
            CellModel::Fixed(_) => false,
        }
    }

    pub open spec fn is_fixed(self) -> bool {
        !self.is_possible()
    }

    /// The possibility mask of a `Possible` cell.
    pub open spec fn mask(self) -> Seq<bool> {
        match self {
            CellModel::Possible(m) => m,
            CellModel::Fixed(_) => Seq::empty(),
        }
    }

    /// The label of a `Fixed` cell.
    pub open spec fn fixed_label(self) -> int {
        match self {
            CellModel::Possible(_) => 0,
            CellModel::Fixed(t) => t,
        }
    }

    /// The number of still-possible labels of a `Possible` cell.
    pub open spec fn entropy(self) -> nat {
        count_true(self.mask())
    }
}

/// Read-only cell state handed to a caller: a `Possible` cell is reported
/// as the ascending list of its still-possible labels.
#[derive(Clone, PartialEq, Eq, Debug)]
pub enum CellState {
    Possible(Vec<usize>),
    Fixed(usize),
}

/// One entry of the per-step event batch.
#[derive(Clone, Copy, PartialEq, Eq, Structural, Debug)]
pub enum Event {
    /// A cell was fixed to a label, by collapse or by seeding.
    CellFixed(CellPosition, usize),
    /// Propagation shrank a cell's possibility set.
    CellNarrowed(CellPosition),
    /// A possibility set became empty at this cell.
    Contradiction(CellPosition),
    /// No `Possible` cell remains.
    Done,
}

/// Result of one step, and of one propagation pass.
#[derive(Clone, PartialEq, Eq, Debug)]
pub enum StepResult {
    /// A cell was fixed to a label and propagation narrowed nothing.
    Fixed(CellPosition, usize),
    /// The cells narrowed by propagation, in the order they were narrowed.
    Narrowed(Vec<CellPosition>),
    /// A possibility set became empty at this cell.
    Contradiction(CellPosition),
    /// No `Possible` cell remains; nothing was mutated.
    Done,
}

/// The mathematical value of a step result.
pub enum StepOutcome {
    Fixed(CellPosition, usize),
    Narrowed(Seq<CellPosition>),
    Contradiction(CellPosition),
    Done,
}

impl View for StepResult {
    type V = StepOutcome;

    open spec fn view(&self) -> StepOutcome {
        match self {
            StepResult::Fixed(p, t) => StepOutcome::Fixed(*p, *t),
            StepResult::Narrowed(v) => StepOutcome::Narrowed(v@),
            StepResult::Contradiction(p) => StepOutcome::Contradiction(*p),
            StepResult::Done => StepOutcome::Done,
        }
    }
}

/// Why a seeding or query call was rejected.
#[derive(Clone, Copy, PartialEq, Eq, Structural, Debug)]
pub enum WaveError {
    /// The coordinate lies outside the grid extents.
    OutOfBounds,
    /// The cell is already `Fixed`.
    AlreadyFixed,
    /// The label is not a member of the domain's alphabet.
    LabelNotAllowed,
}

} // verus!
