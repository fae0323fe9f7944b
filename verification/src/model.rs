//! The mathematical model of a solving session: what the cell store looks
//! like, how it may evolve, and what one collapse or propagation pass
//! computes.  The executable engine is proved equal to these functions.

use vstd::prelude::*;

use crate::cell::CellModel;
use crate::cell::Event;
use crate::cell::StepOutcome;
use crate::domain::TileDomain;
use crate::grid::CellPosition;
use crate::grid::Grid;
use crate::masks::and_bits;
use crate::masks::count_true;
use crate::masks::kth_true;
use crate::masks::lemma_count_subset;
use crate::masks::lemma_kth_true_props;
use crate::masks::mask_le;
use crate::rng::next_state;

verus! {

/// The cell store fits the grid and the domain: one cell per coordinate,
/// every possibility mask as wide as the alphabet and never empty, every
/// fixed label a member of the alphabet.
pub open spec fn cells_wf(g: Grid, d: TileDomain, cells: Seq<CellModel>) -> bool {
    &&& cells.len() == g.cell_count()
    &&& forall|i: int|
        0 <= i < cells.len() ==> match #[trigger] cells[i] {
            CellModel::Possible(m) => m.len() == d.label_count() && count_true(m) >= 1,
            CellModel::Fixed(t) => 0 <= t < d.label_count(),
        }
}

/// The entropy a cell contributes to the store's total.
pub open spec fn cell_entropy(c: CellModel) -> nat {
    match c {
        CellModel::Possible(m) => count_true(m),
        CellModel::Fixed(_) => 0,
    }
}

/// Sum of the entropies of all `Possible` cells: the propagation measure.
pub open spec fn total_entropy(cells: Seq<CellModel>) -> nat
    decreases cells.len(),
{
    if cells.len() == 0 {
        0
    } else {
        total_entropy(cells.drop_last()) + cell_entropy(cells.last())
    }
}

pub proof fn lemma_total_entropy_update(cells: Seq<CellModel>, i: int, c: CellModel)
    requires
        0 <= i < cells.len(),
    ensures
        total_entropy(cells.update(i, c)) + cell_entropy(cells[i]) == total_entropy(cells)
            + cell_entropy(c),
    decreases cells.len(),
{
    let upd = cells.update(i, c);
    if i == cells.len() - 1 {
        assert(upd.drop_last() =~= cells.drop_last());
        assert(upd.last() == c);
    } else {
        assert(upd.drop_last() =~= cells.drop_last().update(i, c));
        assert(upd.last() == cells.last());
        lemma_total_entropy_update(cells.drop_last(), i, c);
    }
}

/// One cell's legal transitions: a fixed cell never changes, a possibility
/// set only shrinks or is fixed to one of its own labels.
pub open spec fn evolves_cell(a: CellModel, b: CellModel) -> bool {
    match a {
        CellModel::Fixed(t) => b == CellModel::Fixed(t),
        CellModel::Possible(m) => match b {
            CellModel::Possible(m2) => mask_le(m2, m),
            CellModel::Fixed(t) => 0 <= t < m.len() && m[t],
        },
    }
}

/// The store's legal evolution over a session's lifetime, cell by cell.
pub open spec fn evolves(a: Seq<CellModel>, b: Seq<CellModel>) -> bool {
    &&& a.len() == b.len()
    &&& forall|i: int| 0 <= i < a.len() ==> evolves_cell(#[trigger] a[i], b[i])
}

pub proof fn lemma_evolves_refl(a: Seq<CellModel>)
    ensures
        evolves(a, a),
{
}

pub proof fn lemma_evolves_trans(a: Seq<CellModel>, b: Seq<CellModel>, c: Seq<CellModel>)
    requires
        evolves(a, b),
        evolves(b, c),
    ensures
        evolves(a, c),
{
    assert forall|i: int| 0 <= i < a.len() implies evolves_cell(#[trigger] a[i], c[i]) by {
        assert(evolves_cell(a[i], b[i]));
        assert(evolves_cell(b[i], c[i]));
    }
}

/// Narrows `cur` by every `Fixed` cell among `nbrs`: the intersection of
/// `cur` with the permission row of each fixed neighbour's label.
pub open spec fn constrain_by(
    d: TileDomain,
    g: Grid,
    cells: Seq<CellModel>,
    cur: Seq<bool>,
    nbrs: Seq<CellPosition>,
) -> Seq<bool>
    decreases nbrs.len(),
{
    if nbrs.len() == 0 {
        cur
    } else {
        let q = nbrs[0];
        let cur2 = match cells[g.index_of(q)] {
            CellModel::Fixed(t) => and_bits(cur, d.row_spec(t)),
            CellModel::Possible(_) => cur,
        };
        constrain_by(d, g, cells, cur2, nbrs.drop_first())
    }
}

/// Constraining never grows the mask.
pub proof fn lemma_constrain_le(
    d: TileDomain,
    g: Grid,
    cells: Seq<CellModel>,
    cur: Seq<bool>,
    nbrs: Seq<CellPosition>,
)
    ensures
        mask_le(constrain_by(d, g, cells, cur, nbrs), cur),
    decreases nbrs.len(),
{
    if nbrs.len() > 0 {
        let q = nbrs[0];
        match cells[g.index_of(q)] {
            CellModel::Fixed(t) => {
                let cur2 = and_bits(cur, d.row_spec(t));
                lemma_constrain_le(d, g, cells, cur2, nbrs.drop_first());
            },
            CellModel::Possible(_) => {
                lemma_constrain_le(d, g, cells, cur, nbrs.drop_first());
            },
        }
    }
}

/// Every label surviving the constraint was permitted by each fixed
/// cell among `nbrs`.
pub proof fn lemma_constrain_sound(
    d: TileDomain,
    g: Grid,
    cells: Seq<CellModel>,
    cur: Seq<bool>,
    nbrs: Seq<CellPosition>,
    t: int,
    k: int,
)
    requires
        d.wf(),
        cur.len() == d.label_count(),
        0 <= t < cur.len(),
        0 <= k < nbrs.len(),
        cells[g.index_of(nbrs[k])].is_fixed(),
        0 <= cells[g.index_of(nbrs[k])].fixed_label() < d.label_count(),
        constrain_by(d, g, cells, cur, nbrs)[t],
    ensures
        d.allows(cells[g.index_of(nbrs[k])].fixed_label(), t),
    decreases nbrs.len(),
{
    let q = nbrs[0];
    let rest = nbrs.drop_first();
    match cells[g.index_of(q)] {
        CellModel::Fixed(t0) => {
            let cur2 = and_bits(cur, d.row_spec(t0));
            if k == 0 {
                d.lemma_row_spec(t0);
                lemma_constrain_le(d, g, cells, cur2, rest);
                assert(cur2[t]);
            } else {
                assert(rest[k - 1] == nbrs[k]);
                lemma_constrain_sound(d, g, cells, cur2, rest, t, k - 1);
            }
        },
        CellModel::Possible(_) => {
            assert(k != 0);
            assert(rest[k - 1] == nbrs[k]);
            lemma_constrain_sound(d, g, cells, cur, rest, t, k - 1);
        },
    }
}

/// Result of one propagation pass: the cell store at its fixpoint (or at
/// the halt), the narrowed coordinates in order, and the position of the
/// contradiction if one was found.
pub struct Propagation {
    pub cells: Seq<CellModel>,
    pub narrowed: Seq<CellPosition>,
    pub halted: Option<CellPosition>,
}

/// The worklist pass: pops the queue from the front; a fixed or
/// unchanged cell is skipped; a strict narrowing is written back and
/// re-enqueues the cell's neighbours; an emptied set halts the pass.
pub open spec fn prop_rec(
    g: Grid,
    d: TileDomain,
    cells: Seq<CellModel>,
    queue: Seq<CellPosition>,
) -> Propagation
    decreases total_entropy(cells), queue.len(),
{
    if queue.len() == 0 {
        Propagation { cells, narrowed: Seq::empty(), halted: None }
    } else {
        let p = queue[0];
        let rest = queue.drop_first();
        if !g.in_bounds(p) || g.index_of(p) >= cells.len() {
            prop_rec(g, d, cells, rest)
        } else {
            let i = g.index_of(p);
            match cells[i] {
                CellModel::Fixed(_) => prop_rec(g, d, cells, rest),
                CellModel::Possible(cur) => {
                    let new_mask = constrain_by(d, g, cells, cur, g.neighbor_seq(p));
                    if count_true(new_mask) == count_true(cur) {
                        prop_rec(g, d, cells, rest)
                    } else if count_true(new_mask) == 0 {
                        Propagation { cells, narrowed: Seq::empty(), halted: Some(p) }
                    } else {
                        proof {
                            lemma_constrain_le(d, g, cells, cur, g.neighbor_seq(p));
                            lemma_count_subset(new_mask, cur);
                            lemma_total_entropy_update(cells, i, CellModel::Possible(new_mask));
                        }
                        let cells2 = cells.update(i, CellModel::Possible(new_mask));
                        let out = prop_rec(g, d, cells2, rest + g.neighbor_seq(p));
                        Propagation {
                            cells: out.cells,
                            narrowed: seq![p] + out.narrowed,
                            halted: out.halted,
                        }
                    }
                },
            }
        }
    }
}

/// Some cell still holds a possibility set.
pub open spec fn has_possible(cells: Seq<CellModel>) -> bool {
    exists|i: int| 0 <= i < cells.len() && (#[trigger] cells[i]).is_possible()
}

/// The least entropy among the `Possible` cells; meaningful when one
/// exists.
pub open spec fn min_entropy(cells: Seq<CellModel>) -> nat
    decreases cells.len(),
{
    if cells.len() == 0 {
        0
    } else {
        let rest = cells.drop_last();
        let m0 = min_entropy(rest);
        match cells.last() {
            CellModel::Possible(mask) => if !has_possible(rest) || count_true(mask) < m0 {
                count_true(mask)
            } else {
                m0
            },
            CellModel::Fixed(_) => m0,
        }
    }
}

/// The indices of the `Possible` cells of entropy `m`, in row-major
/// order: the candidate list of a collapse at minimum entropy `m`.
pub open spec fn candidates(cells: Seq<CellModel>, m: nat) -> Seq<usize>
    decreases cells.len(),
{
    if cells.len() == 0 {
        Seq::empty()
    } else {
        candidates(cells.drop_last(), m) + (match cells.last() {
            CellModel::Possible(mask) => if count_true(mask) == m {
                seq![(cells.len() - 1) as usize]
            } else {
                Seq::empty()
            },
            CellModel::Fixed(_) => Seq::empty(),
        })
    }
}

/// The minimum is a lower bound on every possibility set's entropy.
pub proof fn lemma_min_entropy_le(cells: Seq<CellModel>, i: int)
    requires
        0 <= i < cells.len(),
        cells[i].is_possible(),
    ensures
        has_possible(cells),
        min_entropy(cells) <= cells[i].entropy(),
    decreases cells.len(),
{
    let rest = cells.drop_last();
    if i < cells.len() - 1 {
        assert(rest[i] == cells[i]);
        lemma_min_entropy_le(rest, i);
    }
}

/// Where a possibility set exists, so does a candidate of minimum
/// entropy.
pub proof fn lemma_candidates_nonempty(cells: Seq<CellModel>)
    requires
        has_possible(cells),
    ensures
        candidates(cells, min_entropy(cells)).len() >= 1,
    decreases cells.len(),
{
    let rest = cells.drop_last();
    match cells.last() {
        CellModel::Possible(mask) => {
            if !has_possible(rest) || count_true(mask) < min_entropy(rest) {
            } else {
                lemma_candidates_nonempty(rest);
            }
        },
        CellModel::Fixed(_) => {
            let i = choose|i: int| 0 <= i < cells.len() && (#[trigger] cells[i]).is_possible();
            assert(rest[i] == cells[i]);
            assert(has_possible(rest));
            lemma_candidates_nonempty(rest);
        },
    }
}

/// Every candidate is an in-range `Possible` cell of entropy `m`.
pub proof fn lemma_candidates_props(cells: Seq<CellModel>, m: nat, j: int)
    requires
        cells.len() <= usize::MAX,
        0 <= j < candidates(cells, m).len(),
    ensures
        candidates(cells, m)[j] < cells.len(),
        cells[candidates(cells, m)[j] as int].is_possible(),
        cells[candidates(cells, m)[j] as int].entropy() == m,
    decreases cells.len(),
{
    let rest = cells.drop_last();
    let head = candidates(rest, m);
    if j < head.len() {
        lemma_candidates_props(rest, m, j);
        assert(candidates(cells, m)[j] == head[j]);
        assert(rest[head[j] as int] == cells[head[j] as int]);
    } else {
        match cells.last() {
            CellModel::Possible(mask) => {
                assert(count_true(mask) == m);
                assert(candidates(cells, m)[j] == (cells.len() - 1) as usize);
                assert(cells[cells.len() - 1] == cells.last());
            },
            CellModel::Fixed(_) => {
                assert(false);
            },
        }
    }
}

/// Result of one collapse: the cell store, the generator state, and the
/// outcome reported to the driver.
pub struct Collapse {
    pub cells: Seq<CellModel>,
    pub rng: u64,
    pub outcome: StepOutcome,
}

/// One collapse: if no `Possible` cell remains the session is done
/// and nothing changes; a zero-entropy cell (impossible in a well-formed
/// store, but defended against) reports a contradiction; otherwise two
/// draws of the generator pick a minimum-entropy candidate and one of its
/// labels, and the cell is fixed.
pub open spec fn spec_collapse(g: Grid, d: TileDomain, cells: Seq<CellModel>, rng: u64) -> Collapse {
    if !has_possible(cells) {
        Collapse { cells, rng, outcome: StepOutcome::Done }
    } else {
        let m = min_entropy(cells);
        if m == 0 {
            let i = candidates(cells, 0)[0];
            Collapse { cells, rng, outcome: StepOutcome::Contradiction(g.pos_of(i as int)) }
        } else {
            let cands = candidates(cells, m);
            let r1 = next_state(rng);
            let i = cands[r1 as int % cands.len() as int] as int;
            let mask = cells[i].mask();
            let r2 = next_state(r1);
            let t = kth_true(mask, (r2 as int % count_true(mask) as int) as nat);
            Collapse {
                cells: cells.update(i, CellModel::Fixed(t)),
                rng: r2,
                outcome: StepOutcome::Fixed(g.pos_of(i), t as usize),
            }
        }
    }
}

/// The event batch a collapse emits.
pub open spec fn collapse_events(c: Collapse) -> Seq<Event> {
    match c.outcome {
        StepOutcome::Done => seq![Event::Done],
        StepOutcome::Contradiction(p) => seq![Event::Contradiction(p)],
        StepOutcome::Fixed(p, t) => seq![Event::CellFixed(p, t)],
        StepOutcome::Narrowed(_) => Seq::empty(),
    }
}

/// The event batch a propagation pass emits: one narrowing event per
/// narrowed cell, in order, then the contradiction if the pass halted.
pub open spec fn propagation_events(out: Propagation) -> Seq<Event> {
    out.narrowed.map_values(|p: CellPosition| Event::CellNarrowed(p)) + (match out.halted {
        Some(p) => seq![Event::Contradiction(p)],
        None => Seq::empty(),
    })
}

/// A collapse preserves well-formedness and is a legal evolution: it fixes
/// at most one cell, to one of that cell's own possible labels.
pub proof fn lemma_collapse_wf(g: Grid, d: TileDomain, cells: Seq<CellModel>, rng: u64)
    requires
        cells.len() <= usize::MAX,
        cells_wf(g, d, cells),
    ensures
        cells_wf(g, d, spec_collapse(g, d, cells, rng).cells),
        evolves(cells, spec_collapse(g, d, cells, rng).cells),
{
    lemma_evolves_refl(cells);
    if has_possible(cells) {
        let m = min_entropy(cells);
        if m != 0 {
            let cands = candidates(cells, m);
            lemma_candidates_nonempty(cells);
            let r1 = next_state(rng);
            let ci = r1 as int % cands.len() as int;
            lemma_candidates_props(cells, m, ci);
            let i = cands[ci] as int;
            let mask = cells[i].mask();
            let r2 = next_state(r1);
            let k = (r2 as int % count_true(mask) as int) as nat;
            lemma_kth_true_props(mask, k);
            let t = kth_true(mask, k);
            assert(mask[t]);
            assert(0 <= t < d.label_count());
            assert(cells_wf(g, d, cells.update(i, CellModel::Fixed(t))));
        }
    }
}


/// How one more cell changes the scan for `Possible` cells and for the
/// minimum entropy: the unfolding a left-to-right scan needs.
pub proof fn lemma_scan_step(cells: Seq<CellModel>, i: int)
    requires
        0 <= i < cells.len(),
    ensures
        has_possible(cells.take(i + 1)) == (has_possible(cells.take(i)) || cells[i].is_possible()),
        min_entropy(cells.take(i + 1)) == (if cells[i].is_possible() && (!has_possible(
            cells.take(i),
        ) || cells[i].entropy() < min_entropy(cells.take(i))) {
            cells[i].entropy()
        } else {
            min_entropy(cells.take(i))
        }),
{
    let a = cells.take(i);
    let b = cells.take(i + 1);
    assert(b.drop_last() =~= a);
    assert(b.last() == cells[i]);
    if has_possible(a) {
        let j = choose|j: int| 0 <= j < a.len() && (#[trigger] a[j]).is_possible();
        assert(b[j] == a[j]);
        assert(has_possible(b));
    }
    if cells[i].is_possible() {
        assert(b[i] == cells[i]);
        assert(has_possible(b));
    }
    if has_possible(b) && !cells[i].is_possible() {
        let j = choose|j: int| 0 <= j < b.len() && (#[trigger] b[j]).is_possible();
        assert(j < i);
        assert(a[j] == b[j]);
        assert(has_possible(a));
    }
}

/// How one more cell extends the candidate list of entropy `m`.
pub proof fn lemma_candidates_step(cells: Seq<CellModel>, m: nat, i: int)
    requires
        cells.len() <= usize::MAX,
        0 <= i < cells.len(),
    ensures
        candidates(cells.take(i + 1), m) == candidates(cells.take(i), m) + (match cells[i] {
            CellModel::Possible(mask) => if count_true(mask) == m {
                seq![i as usize]
            } else {
                Seq::<usize>::empty()
            },
            CellModel::Fixed(_) => Seq::<usize>::empty(),
        }),
{
    let a = cells.take(i);
    let b = cells.take(i + 1);
    assert(b.drop_last() =~= a);
    assert(b.last() == cells[i]);
    assert(b.len() - 1 == i);
}

/// Result of one full step: the cell store, the generator state, the
/// result reported, and the event batch emitted.
pub struct Step {
    pub cells: Seq<CellModel>,
    pub rng: u64,
    pub outcome: StepOutcome,
    pub events: Seq<Event>,
}

/// One driver step: one collapse, then one propagation pass from the cell
/// just fixed.  A contradiction found by either phase is the result; an
/// uneventful propagation leaves the collapse's own result.
pub open spec fn spec_step(g: Grid, d: TileDomain, cells: Seq<CellModel>, rng: u64) -> Step {
    let c = spec_collapse(g, d, cells, rng);
    match c.outcome {
        StepOutcome::Fixed(p, t) => {
            let out = prop_rec(g, d, c.cells, g.neighbor_seq(p));
            let outcome = match out.halted {
                Some(q) => StepOutcome::Contradiction(q),
                None => if out.narrowed.len() == 0 {
                    StepOutcome::Fixed(p, t)
                } else {
                    StepOutcome::Narrowed(out.narrowed)
                },
            };
            Step {
                cells: out.cells,
                rng: c.rng,
                outcome,
                events: collapse_events(c) + propagation_events(out),
            }
        },
        _ => Step { cells: c.cells, rng: c.rng, outcome: c.outcome, events: collapse_events(c) },
    }
}

} // verus!
