//! The engine's global guarantees: possibility sets never empty, set
//! sizes non-increasing, and — for symmetric domains — every pair of
//! adjacent fixed cells compatible in both directions once a session
//! driven by collapse-and-propagate steps is done.

use vstd::prelude::*;

use crate::cell::CellModel;
use crate::cell::StepOutcome;
use crate::domain::TileDomain;
use crate::engine::Session;
use crate::grid::CellPosition;
use crate::grid::Grid;
use crate::grid::is_adjacent;
use crate::masks::count_true;
use crate::masks::lemma_count_eq_subset;
use crate::masks::lemma_count_subset;
use crate::masks::kth_true;
use crate::masks::lemma_kth_true_props;
use crate::masks::mask_le;
use crate::model::candidates;
use crate::model::cells_wf;
use crate::model::constrain_by;
use crate::model::evolves;
use crate::model::has_possible;
use crate::model::lemma_candidates_nonempty;
use crate::model::lemma_candidates_props;
use crate::model::lemma_collapse_wf;
use crate::model::lemma_constrain_le;
use crate::model::lemma_constrain_sound;
use crate::model::lemma_total_entropy_update;
use crate::model::min_entropy;
use crate::model::prop_rec;
use crate::model::spec_collapse;
use crate::model::spec_step;
use crate::model::total_entropy;
use crate::rng::next_state;

verus! {

/// In a well-formed store no possibility set is empty: emptiness is
/// reported as a contradiction, never stored.
pub proof fn lemma_possible_nonempty(g: Grid, d: TileDomain, cells: Seq<CellModel>, i: int)
    requires
        cells_wf(g, d, cells),
        0 <= i < cells.len(),
        cells[i].is_possible(),
    ensures
        cells[i].entropy() >= 1,
{
}

/// A possibility set's size never grows along a session's evolution.
pub proof fn lemma_entropy_monotonic(a: Seq<CellModel>, b: Seq<CellModel>, i: int)
    requires
        evolves(a, b),
        0 <= i < a.len(),
        a[i].is_possible(),
        b[i].is_possible(),
    ensures
        b[i].entropy() <= a[i].entropy(),
{
    assert(mask_le(b[i].mask(), a[i].mask()));
    lemma_count_subset(b[i].mask(), a[i].mask());
}

/// The possibility set of `p` holds only labels the fixed cell at `q`
/// permits.
pub open spec fn narrow_ok(
    g: Grid,
    d: TileDomain,
    cells: Seq<CellModel>,
    p: CellPosition,
    q: CellPosition,
) -> bool {
    forall|t: int|
        0 <= t < cells[g.index_of(p)].mask().len() && #[trigger] cells[g.index_of(p)].mask()[t]
            ==> d.allows(cells[g.index_of(q)].fixed_label(), t)
}

/// Every `Possible` cell excludes the labels its fixed neighbours forbid.
pub open spec fn possible_ok(g: Grid, d: TileDomain, cells: Seq<CellModel>) -> bool {
    forall|p: CellPosition, q: CellPosition|
        g.in_bounds(p) && g.in_bounds(q) && is_adjacent(p, q) && (
        #[trigger] cells[g.index_of(p)]).is_possible() && (
        #[trigger] cells[g.index_of(q)]).is_fixed() ==> narrow_ok(g, d, cells, p, q)
}

/// As `possible_ok`, but the fixed cell at `ex` imposes nothing yet:
/// the state right after a fix, before its propagation pass.
pub open spec fn possible_ok_except(
    g: Grid,
    d: TileDomain,
    cells: Seq<CellModel>,
    ex: CellPosition,
) -> bool {
    forall|p: CellPosition, q: CellPosition|
        g.in_bounds(p) && g.in_bounds(q) && is_adjacent(p, q) && q != ex && (
        #[trigger] cells[g.index_of(p)]).is_possible() && (
        #[trigger] cells[g.index_of(q)]).is_fixed() ==> narrow_ok(g, d, cells, p, q)
}

/// Every pair of adjacent fixed cells is permitted in both directions.
pub open spec fn fixed_pairs_ok(g: Grid, d: TileDomain, cells: Seq<CellModel>) -> bool {
    forall|p: CellPosition, q: CellPosition|
        g.in_bounds(p) && g.in_bounds(q) && is_adjacent(p, q) && (
        #[trigger] cells[g.index_of(p)]).is_fixed() && (
        #[trigger] cells[g.index_of(q)]).is_fixed() ==> d.allows(
            cells[g.index_of(q)].fixed_label(),
            cells[g.index_of(p)].fixed_label(),
        )
}

/// The adjacency-consistency invariant: no possibility set holds a
/// forbidden label, and no two adjacent fixed cells conflict.
pub open spec fn consistent(g: Grid, d: TileDomain, cells: Seq<CellModel>) -> bool {
    possible_ok(g, d, cells) && fixed_pairs_ok(g, d, cells)
}

/// Every cell whose set may still hold a forbidden label is on the
/// worklist: the invariant the propagation pass maintains.
pub open spec fn queue_covers(
    g: Grid,
    d: TileDomain,
    cells: Seq<CellModel>,
    queue: Seq<CellPosition>,
) -> bool {
    forall|p: CellPosition, q: CellPosition|
        g.in_bounds(p) && g.in_bounds(q) && is_adjacent(p, q) && (
        #[trigger] cells[g.index_of(p)]).is_possible() && (
        #[trigger] cells[g.index_of(q)]).is_fixed() && !narrow_ok(g, d, cells, p, q)
            ==> queue.contains(p)
}

/// Fixed cells of `a` stand unchanged in `b`, and `b` fixed none anew.
pub open spec fn same_fixed(a: Seq<CellModel>, b: Seq<CellModel>) -> bool {
    &&& a.len() == b.len()
    &&& forall|i: int|
        0 <= i < a.len() ==> ((#[trigger] a[i]).is_fixed() ==> b[i] == a[i]) && ((
        #[trigger] b[i]).is_fixed() ==> a[i].is_fixed())
}

/// A store with no fixed cell — a freshly created session — is
/// consistent.
pub proof fn lemma_all_possible_consistent(g: Grid, d: TileDomain, cells: Seq<CellModel>)
    requires
        forall|i: int| 0 <= i < cells.len() ==> (#[trigger] cells[i]).is_possible(),
        cells.len() == g.cell_count(),
    ensures
        consistent(g, d, cells),
{
    assert forall|p: CellPosition, q: CellPosition|
        g.in_bounds(p) && g.in_bounds(q) && is_adjacent(p, q) && (
        #[trigger] cells[g.index_of(p)]).is_possible() && (
        #[trigger] cells[g.index_of(q)]).is_fixed() implies narrow_ok(g, d, cells, p, q) by {
        g.lemma_index_of_bounds(q);
        assert(cells[g.index_of(q)].is_possible());
    }
    assert forall|p: CellPosition, q: CellPosition|
        g.in_bounds(p) && g.in_bounds(q) && is_adjacent(p, q) && (
        #[trigger] cells[g.index_of(p)]).is_fixed() && (
        #[trigger] cells[g.index_of(q)]).is_fixed() implies d.allows(
        cells[g.index_of(q)].fixed_label(),
        cells[g.index_of(p)].fixed_label(),
    ) by {
        g.lemma_index_of_bounds(q);
        assert(cells[g.index_of(q)].is_possible());
    }
}

proof fn lemma_contains_rest(s: Seq<CellPosition>, x: CellPosition)
    requires
        s.len() > 0,
        s.contains(x),
        x != s[0],
    ensures
        s.drop_first().contains(x),
{
    let i = choose|i: int| 0 <= i < s.len() && s[i] == x;
    assert(i >= 1);
    assert(s.drop_first()[i - 1] == x);
}

proof fn lemma_contains_concat_left(a: Seq<CellPosition>, b: Seq<CellPosition>, x: CellPosition)
    requires
        a.contains(x),
    ensures
        (a + b).contains(x),
{
    let i = choose|i: int| 0 <= i < a.len() && a[i] == x;
    assert((a + b)[i] == x);
}

/// Fixing a `Possible` cell to one of its own labels keeps every fixed
/// pair compatible (the domain being symmetric), and every other
/// possibility set already respects every fixed cell but the new one.
pub proof fn lemma_fix_consistent(
    g: Grid,
    d: TileDomain,
    cells: Seq<CellModel>,
    pos: CellPosition,
    t: int,
)
    requires
        d.wf(),
        d.symmetric(),
        cells_wf(g, d, cells),
        consistent(g, d, cells),
        g.in_bounds(pos),
        cells[g.index_of(pos)].is_possible(),
        0 <= t < d.label_count(),
        cells[g.index_of(pos)].mask()[t],
    ensures
        possible_ok_except(g, d, cells.update(g.index_of(pos), CellModel::Fixed(t)), pos),
        fixed_pairs_ok(g, d, cells.update(g.index_of(pos), CellModel::Fixed(t))),
{
    let i = g.index_of(pos);
    let b = cells.update(i, CellModel::Fixed(t));
    g.lemma_index_of_bounds(pos);
    assert forall|p: CellPosition, q: CellPosition|
        g.in_bounds(p) && g.in_bounds(q) && is_adjacent(p, q) && q != pos && (
        #[trigger] b[g.index_of(p)]).is_possible() && (
        #[trigger] b[g.index_of(q)]).is_fixed() implies narrow_ok(g, d, b, p, q) by {
        g.lemma_index_of_bounds(p);
        g.lemma_index_of_bounds(q);
        g.lemma_index_injective(q, pos);
        if p == pos {
            assert(b[g.index_of(p)] == CellModel::Fixed(t));
            assert(false);
        }
        g.lemma_index_injective(p, pos);
        assert(b[g.index_of(p)] == cells[g.index_of(p)]);
        assert(b[g.index_of(q)] == cells[g.index_of(q)]);
        assert(narrow_ok(g, d, cells, p, q));
        assert forall|u: int|
            0 <= u < b[g.index_of(p)].mask().len() && #[trigger] b[g.index_of(p)].mask()[u]
                implies d.allows(b[g.index_of(q)].fixed_label(), u) by {
            assert(cells[g.index_of(p)].mask()[u]);
        }
    }
    assert forall|p: CellPosition, q: CellPosition|
        g.in_bounds(p) && g.in_bounds(q) && is_adjacent(p, q) && (
        #[trigger] b[g.index_of(p)]).is_fixed() && (#[trigger] b[g.index_of(q)]).is_fixed()
        implies d.allows(b[g.index_of(q)].fixed_label(), b[g.index_of(p)].fixed_label()) by {
        g.lemma_index_of_bounds(p);
        g.lemma_index_of_bounds(q);
        if p == pos {
            g.lemma_index_injective(q, pos);
            assert(b[g.index_of(q)] == cells[g.index_of(q)]);
            assert(cells[g.index_of(q)].is_fixed());
            assert(narrow_ok(g, d, cells, pos, q));
            assert(d.allows(cells[g.index_of(q)].fixed_label(), t));
        } else if q == pos {
            g.lemma_index_injective(p, pos);
            assert(b[g.index_of(p)] == cells[g.index_of(p)]);
            assert(cells[g.index_of(p)].is_fixed());
            assert(narrow_ok(g, d, cells, pos, p));
            assert(d.allows(cells[g.index_of(p)].fixed_label(), t));
            assert(d.allows(t, cells[g.index_of(p)].fixed_label()));
        } else {
            g.lemma_index_injective(p, pos);
            g.lemma_index_injective(q, pos);
            assert(b[g.index_of(p)] == cells[g.index_of(p)]);
            assert(b[g.index_of(q)] == cells[g.index_of(q)]);
        }
    }
}

/// The propagation pass restores consistency: when every cell whose set
/// might still hold a forbidden label is on the worklist and all fixed
/// pairs agree, a pass that ends without contradiction leaves a fully
/// consistent store.  Fixed cells are never touched by the pass.
pub proof fn lemma_prop_restores(
    g: Grid,
    d: TileDomain,
    cells: Seq<CellModel>,
    queue: Seq<CellPosition>,
)
    requires
        d.wf(),
        cells_wf(g, d, cells),
        forall|k: int| 0 <= k < queue.len() ==> g.in_bounds(#[trigger] queue[k]),
        fixed_pairs_ok(g, d, cells),
        queue_covers(g, d, cells, queue),
    ensures
        same_fixed(cells, prop_rec(g, d, cells, queue).cells),
        fixed_pairs_ok(g, d, prop_rec(g, d, cells, queue).cells),
        prop_rec(g, d, cells, queue).halted is None ==> consistent(
            g,
            d,
            prop_rec(g, d, cells, queue).cells,
        ),
    decreases total_entropy(cells), queue.len(),
{
    let out = prop_rec(g, d, cells, queue);
    if queue.len() == 0 {
        assert forall|p: CellPosition, q: CellPosition|
            g.in_bounds(p) && g.in_bounds(q) && is_adjacent(p, q) && (
            #[trigger] cells[g.index_of(p)]).is_possible() && (
            #[trigger] cells[g.index_of(q)]).is_fixed() implies narrow_ok(g, d, cells, p, q) by {
            if !narrow_ok(g, d, cells, p, q) {
                assert(queue.contains(p));
                let i = choose|i: int| 0 <= i < queue.len() && queue[i] == p;
                assert(false);
            }
        }
    } else {
        let p = queue[0];
        let rest = queue.drop_first();
        assert forall|k: int| 0 <= k < rest.len() implies g.in_bounds(#[trigger] rest[k]) by {
            assert(rest[k] == queue[k + 1]);
        }
        let i = g.index_of(p);
        g.lemma_index_of_bounds(p);
        match cells[i] {
            CellModel::Fixed(_) => {
                assert forall|p2: CellPosition, q2: CellPosition|
                    g.in_bounds(p2) && g.in_bounds(q2) && is_adjacent(p2, q2) && (
                    #[trigger] cells[g.index_of(p2)]).is_possible() && (
                    #[trigger] cells[g.index_of(q2)]).is_fixed() && !narrow_ok(
                        g,
                        d,
                        cells,
                        p2,
                        q2,
                    ) implies rest.contains(p2) by {
                    assert(queue.contains(p2));
                    assert(p2 != p);
                    lemma_contains_rest(queue, p2);
                }
                lemma_prop_restores(g, d, cells, rest);
            },
            CellModel::Possible(cur) => {
                let nbrs = g.neighbor_seq(p);
                let new_mask = constrain_by(d, g, cells, cur, nbrs);
                lemma_constrain_le(d, g, cells, cur, nbrs);
                lemma_count_subset(new_mask, cur);
                assert forall|k: int| 0 <= k < nbrs.len() implies g.in_bounds(
                    #[trigger] nbrs[k],
                ) && is_adjacent(p, nbrs[k]) by {
                    assert(nbrs.contains(nbrs[k]));
                    g.lemma_neighbor_seq_iff(p, nbrs[k]);
                }
                if count_true(new_mask) == count_true(cur) {
                    lemma_count_eq_subset(new_mask, cur);
                    assert forall|q: CellPosition|
                        g.in_bounds(q) && is_adjacent(p, q) && (#[trigger] cells[g.index_of(
                            q,
                        )]).is_fixed() implies narrow_ok(g, d, cells, p, q) by {
                        g.lemma_neighbor_seq_iff(p, q);
                        assert(nbrs.contains(q));
                        let k = choose|k: int| 0 <= k < nbrs.len() && nbrs[k] == q;
                        g.lemma_index_of_bounds(q);
                        assert forall|t: int|
                            0 <= t < cells[g.index_of(p)].mask().len() && #[trigger] cells[g.index_of(
                                p,
                            )].mask()[t] implies d.allows(
                            cells[g.index_of(q)].fixed_label(),
                            t,
                        ) by {
                            assert(new_mask[t]);
                            lemma_constrain_sound(d, g, cells, cur, nbrs, t, k);
                        }
                    }
                    assert forall|p2: CellPosition, q2: CellPosition|
                        g.in_bounds(p2) && g.in_bounds(q2) && is_adjacent(p2, q2) && (
                        #[trigger] cells[g.index_of(p2)]).is_possible() && (
                        #[trigger] cells[g.index_of(q2)]).is_fixed() && !narrow_ok(
                            g,
                            d,
                            cells,
                            p2,
                            q2,
                        ) implies rest.contains(p2) by {
                        assert(queue.contains(p2));
                        assert(p2 != p);
                        lemma_contains_rest(queue, p2);
                    }
                    lemma_prop_restores(g, d, cells, rest);
                } else if count_true(new_mask) == 0 {
                } else {
                    lemma_total_entropy_update(cells, i, CellModel::Possible(new_mask));
                    let cells2 = cells.update(i, CellModel::Possible(new_mask));
                    let queue2 = rest + nbrs;
                    assert forall|ii: int| 0 <= ii < cells2.len() implies match #[trigger] cells2[ii] {
                        CellModel::Possible(m) => m.len() == d.label_count() && count_true(m) >= 1,
                        CellModel::Fixed(t) => 0 <= t < d.label_count(),
                    } by {
                        if ii != i {
                            assert(cells2[ii] == cells[ii]);
                        }
                    }
                    assert(cells_wf(g, d, cells2));
                    assert forall|k: int| 0 <= k < queue2.len() implies g.in_bounds(
                        #[trigger] queue2[k],
                    ) by {
                        if k < rest.len() {
                            assert(queue2[k] == rest[k]);
                        } else {
                            assert(queue2[k] == nbrs[k - rest.len()]);
                        }
                    }
                    assert forall|p2: CellPosition, q2: CellPosition|
                        g.in_bounds(p2) && g.in_bounds(q2) && is_adjacent(p2, q2) && (
                        #[trigger] cells2[g.index_of(p2)]).is_fixed() && (
                        #[trigger] cells2[g.index_of(q2)]).is_fixed() implies d.allows(
                        cells2[g.index_of(q2)].fixed_label(),
                        cells2[g.index_of(p2)].fixed_label(),
                    ) by {
                        g.lemma_index_of_bounds(p2);
                        g.lemma_index_of_bounds(q2);
                        assert(g.index_of(p2) != i && g.index_of(q2) != i);
                        assert(cells2[g.index_of(p2)] == cells[g.index_of(p2)]);
                        assert(cells2[g.index_of(q2)] == cells[g.index_of(q2)]);
                    }
                    assert(fixed_pairs_ok(g, d, cells2));
                    assert forall|p2: CellPosition, q2: CellPosition|
                        g.in_bounds(p2) && g.in_bounds(q2) && is_adjacent(p2, q2) && (
                        #[trigger] cells2[g.index_of(p2)]).is_possible() && (
                        #[trigger] cells2[g.index_of(q2)]).is_fixed() && !narrow_ok(
                            g,
                            d,
                            cells2,
                            p2,
                            q2,
                        ) implies queue2.contains(p2) by {
                        g.lemma_index_of_bounds(p2);
                        g.lemma_index_of_bounds(q2);
                        assert(g.index_of(q2) != i);
                        assert(cells2[g.index_of(q2)] == cells[g.index_of(q2)]);
                        if g.index_of(p2) == i {
                            g.lemma_pos_of_index_of(p2);
                            g.lemma_pos_of_index_of(p);
                            assert(p2 == p);
                            g.lemma_neighbor_seq_iff(p, q2);
                            assert(nbrs.contains(q2));
                            let k = choose|k: int| 0 <= k < nbrs.len() && nbrs[k] == q2;
                            g.lemma_index_of_bounds(q2);
                            assert forall|t: int|
                                0 <= t < cells2[g.index_of(p2)].mask().len()
                                    && #[trigger] cells2[g.index_of(p2)].mask()[t] implies d.allows(
                                cells2[g.index_of(q2)].fixed_label(),
                                t,
                            ) by {
                                assert(new_mask[t]);
                                lemma_constrain_sound(d, g, cells, cur, nbrs, t, k);
                            }
                            assert(narrow_ok(g, d, cells2, p2, q2));
                            assert(false);
                        } else {
                            assert(cells2[g.index_of(p2)] == cells[g.index_of(p2)]);
                            assert(!narrow_ok(g, d, cells, p2, q2)) by {
                                if narrow_ok(g, d, cells, p2, q2) {
                                    assert forall|t: int|
                                        0 <= t < cells2[g.index_of(p2)].mask().len()
                                            && #[trigger] cells2[g.index_of(p2)].mask()[t]
                                        implies d.allows(
                                        cells2[g.index_of(q2)].fixed_label(),
                                        t,
                                    ) by {
                                        assert(cells[g.index_of(p2)].mask()[t]);
                                    }
                                }
                            }
                            assert(queue.contains(p2));
                            assert(p2 != p);
                            lemma_contains_rest(queue, p2);
                            lemma_contains_concat_left(rest, nbrs, p2);
                        }
                    }
                    assert(queue_covers(g, d, cells2, queue2));
                    lemma_prop_restores(g, d, cells2, queue2);
                    let out2 = prop_rec(g, d, cells2, queue2);
                    assert(out.cells == out2.cells && out.halted == out2.halted);
                    assert forall|ii: int|
                        0 <= ii < cells.len() implies ((#[trigger] cells[ii]).is_fixed()
                            ==> out.cells[ii] == cells[ii]) && ((
                        #[trigger] out.cells[ii]).is_fixed() ==> cells[ii].is_fixed()) by {
                        assert(cells2[ii].is_fixed() ==> out2.cells[ii] == cells2[ii]);
                        assert(out2.cells[ii].is_fixed() ==> cells2[ii].is_fixed());
                        if ii != i {
                            assert(cells2[ii] == cells[ii]);
                        }
                    }
                }
            },
        }
    }
}

/// One step of a session with a symmetric domain preserves the
/// adjacency-consistency invariant, unless it reports a contradiction —
/// in which case the session is abandoned, not claimed consistent.
pub proof fn lemma_step_preserves_consistent(
    g: Grid,
    d: TileDomain,
    cells: Seq<CellModel>,
    rng: u64,
)
    requires
        d.wf(),
        d.symmetric(),
        cells.len() <= usize::MAX,
        cells_wf(g, d, cells),
        consistent(g, d, cells),
    ensures
        !(spec_step(g, d, cells, rng).outcome matches StepOutcome::Contradiction(_))
            ==> consistent(g, d, spec_step(g, d, cells, rng).cells),
{
    let c = spec_collapse(g, d, cells, rng);
    if has_possible(cells) {
        let m = min_entropy(cells);
        if m != 0 {
            let cands = candidates(cells, m);
            lemma_candidates_nonempty(cells);
            let r1 = next_state(rng);
            let ci = r1 as int % cands.len() as int;
            lemma_candidates_props(cells, m, ci);
            let i = cands[ci] as int;
            let mask = cells[i].mask();
            let r2 = next_state(r1);
            let k = (r2 as int % count_true(mask) as int) as nat;
            lemma_kth_true_props(mask, k);
            let t = kth_true(mask, k);
            let p = g.pos_of(i);
            g.lemma_pos_of_bounds(i);
            assert(g.index_of(p) == i);
            lemma_fix_consistent(g, d, cells, p, t);
            lemma_collapse_wf(g, d, cells, rng);
            let nbrs = g.neighbor_seq(p);
            assert forall|j: int| 0 <= j < nbrs.len() implies g.in_bounds(#[trigger] nbrs[j]) by {
                assert(nbrs.contains(nbrs[j]));
                g.lemma_neighbor_seq_iff(p, nbrs[j]);
            }
            assert forall|p2: CellPosition, q2: CellPosition|
                g.in_bounds(p2) && g.in_bounds(q2) && is_adjacent(p2, q2) && (
                #[trigger] c.cells[g.index_of(p2)]).is_possible() && (
                #[trigger] c.cells[g.index_of(q2)]).is_fixed() && !narrow_ok(
                    g,
                    d,
                    c.cells,
                    p2,
                    q2,
                ) implies nbrs.contains(p2) by {
                assert(q2 == p);
                g.lemma_neighbor_seq_iff(p, p2);
            }
            lemma_prop_restores(g, d, c.cells, nbrs);
        }
    }
}

/// The adjacency-consistency guarantee read at a finished session: in a
/// consistent store every pair of adjacent fixed cells is permitted,
/// checked from either side.
pub proof fn lemma_done_adjacency(
    g: Grid,
    d: TileDomain,
    cells: Seq<CellModel>,
    p: CellPosition,
    q: CellPosition,
)
    requires
        consistent(g, d, cells),
        g.in_bounds(p),
        g.in_bounds(q),
        is_adjacent(p, q),
        cells[g.index_of(p)].is_fixed(),
        cells[g.index_of(q)].is_fixed(),
    ensures
        d.allows(cells[g.index_of(p)].fixed_label(), cells[g.index_of(q)].fixed_label()),
        d.allows(cells[g.index_of(q)].fixed_label(), cells[g.index_of(p)].fixed_label()),
{
    assert(is_adjacent(q, p));
}

/// Seeding a cell with a label its fixed neighbours permit in both
/// directions keeps every fixed pair compatible, and leaves only the new
/// cell's own constraint to propagate.
pub proof fn lemma_seed_consistent(
    g: Grid,
    d: TileDomain,
    cells: Seq<CellModel>,
    pos: CellPosition,
    t: int,
)
    requires
        d.wf(),
        cells_wf(g, d, cells),
        consistent(g, d, cells),
        g.in_bounds(pos),
        cells[g.index_of(pos)].is_possible(),
        0 <= t < d.label_count(),
        forall|q: CellPosition|
            g.in_bounds(q) && is_adjacent(pos, q) && (#[trigger] cells[g.index_of(q)]).is_fixed()
                ==> d.allows(cells[g.index_of(q)].fixed_label(), t) && d.allows(
                t,
                cells[g.index_of(q)].fixed_label(),
            ),
    ensures
        possible_ok_except(g, d, cells.update(g.index_of(pos), CellModel::Fixed(t)), pos),
        fixed_pairs_ok(g, d, cells.update(g.index_of(pos), CellModel::Fixed(t))),
{
    let i = g.index_of(pos);
    let b = cells.update(i, CellModel::Fixed(t));
    g.lemma_index_of_bounds(pos);
    assert forall|p: CellPosition, q: CellPosition|
        g.in_bounds(p) && g.in_bounds(q) && is_adjacent(p, q) && q != pos && (
        #[trigger] b[g.index_of(p)]).is_possible() && (
        #[trigger] b[g.index_of(q)]).is_fixed() implies narrow_ok(g, d, b, p, q) by {
        g.lemma_index_of_bounds(p);
        g.lemma_index_of_bounds(q);
        g.lemma_index_injective(q, pos);
        if p == pos {
            assert(b[g.index_of(p)] == CellModel::Fixed(t));
            assert(false);
        }
        g.lemma_index_injective(p, pos);
        assert(b[g.index_of(p)] == cells[g.index_of(p)]);
        assert(b[g.index_of(q)] == cells[g.index_of(q)]);
        assert(narrow_ok(g, d, cells, p, q));
        assert forall|u: int|
            0 <= u < b[g.index_of(p)].mask().len() && #[trigger] b[g.index_of(p)].mask()[u]
                implies d.allows(b[g.index_of(q)].fixed_label(), u) by {
            assert(cells[g.index_of(p)].mask()[u]);
        }
    }
    assert forall|p: CellPosition, q: CellPosition|
        g.in_bounds(p) && g.in_bounds(q) && is_adjacent(p, q) && (
        #[trigger] b[g.index_of(p)]).is_fixed() && (#[trigger] b[g.index_of(q)]).is_fixed()
        implies d.allows(b[g.index_of(q)].fixed_label(), b[g.index_of(p)].fixed_label()) by {
        g.lemma_index_of_bounds(p);
        g.lemma_index_of_bounds(q);
        if p == pos {
            g.lemma_index_injective(q, pos);
            assert(b[g.index_of(q)] == cells[g.index_of(q)]);
            assert(is_adjacent(pos, q));
        } else if q == pos {
            g.lemma_index_injective(p, pos);
            assert(b[g.index_of(p)] == cells[g.index_of(p)]);
            assert(is_adjacent(pos, p));
        } else {
            g.lemma_index_injective(p, pos);
            g.lemma_index_injective(q, pos);
            assert(b[g.index_of(p)] == cells[g.index_of(p)]);
            assert(b[g.index_of(q)] == cells[g.index_of(q)]);
        }
    }
}

/// A freshly created session is consistent: no cell is fixed yet.
pub proof fn lemma_create_consistent(s: Session)
    requires
        s.wf(),
        forall|i: int| 0 <= i < s.cells_model().len() ==> (#[trigger] s.cells_model()[i]).is_possible(),
    ensures
        consistent(s.grid_spec(), s.domain_spec(), s.cells_model()),
{
    lemma_all_possible_consistent(s.grid_spec(), s.domain_spec(), s.cells_model());
}

/// Read with `step`'s contract: a step of a consistent session over a
/// symmetric domain leaves a consistent session, unless it reports a
/// contradiction.  Chained from creation, a session that reaches `Done`
/// with no contradiction has every pair of adjacent fixed cells
/// compatible in both directions (`lemma_done_adjacency`).
pub proof fn lemma_session_step_consistent(s: Session, rng: u64)
    requires
        s.wf(),
        s.domain_spec().symmetric(),
        consistent(s.grid_spec(), s.domain_spec(), s.cells_model()),
    ensures
        !(spec_step(s.grid_spec(), s.domain_spec(), s.cells_model(), rng).outcome
            matches StepOutcome::Contradiction(_)) ==> consistent(
            s.grid_spec(),
            s.domain_spec(),
            spec_step(s.grid_spec(), s.domain_spec(), s.cells_model(), rng).cells,
        ),
{
    lemma_step_preserves_consistent(s.grid_spec(), s.domain_spec(), s.cells_model(), rng);
}

/// Seeding a compatible label and then propagating from the seeded cell
/// restores full consistency, unless the pass reports a contradiction:
/// the seeded-session counterpart of `lemma_session_step_consistent`.
pub proof fn lemma_seed_then_propagate_consistent(
    g: Grid,
    d: TileDomain,
    cells: Seq<CellModel>,
    pos: CellPosition,
    t: int,
)
    requires
        d.wf(),
        cells_wf(g, d, cells),
        consistent(g, d, cells),
        g.in_bounds(pos),
        cells[g.index_of(pos)].is_possible(),
        0 <= t < d.label_count(),
        forall|q: CellPosition|
            g.in_bounds(q) && is_adjacent(pos, q) && (#[trigger] cells[g.index_of(q)]).is_fixed()
                ==> d.allows(cells[g.index_of(q)].fixed_label(), t) && d.allows(
                t,
                cells[g.index_of(q)].fixed_label(),
            ),
    ensures
        prop_rec(
            g,
            d,
            cells.update(g.index_of(pos), CellModel::Fixed(t)),
            g.neighbor_seq(pos),
        ).halted is None ==> consistent(
            g,
            d,
            prop_rec(
                g,
                d,
                cells.update(g.index_of(pos), CellModel::Fixed(t)),
                g.neighbor_seq(pos),
            ).cells,
        ),
{
    let i = g.index_of(pos);
    g.lemma_index_of_bounds(pos);
    let seeded = cells.update(i, CellModel::Fixed(t));
    lemma_seed_consistent(g, d, cells, pos, t);
    assert forall|ii: int| 0 <= ii < seeded.len() implies match #[trigger] seeded[ii] {
        CellModel::Possible(m) => m.len() == d.label_count() && count_true(m) >= 1,
        CellModel::Fixed(u) => 0 <= u < d.label_count(),
    } by {
        if ii != i {
            assert(seeded[ii] == cells[ii]);
        }
    }
    assert(cells_wf(g, d, seeded));
    let nbrs = g.neighbor_seq(pos);
    assert forall|j: int| 0 <= j < nbrs.len() implies g.in_bounds(#[trigger] nbrs[j]) by {
        assert(nbrs.contains(nbrs[j]));
        g.lemma_neighbor_seq_iff(pos, nbrs[j]);
    }
    assert forall|p2: CellPosition, q2: CellPosition|
        g.in_bounds(p2) && g.in_bounds(q2) && is_adjacent(p2, q2) && (
        #[trigger] seeded[g.index_of(p2)]).is_possible() && (
        #[trigger] seeded[g.index_of(q2)]).is_fixed() && !narrow_ok(
            g,
            d,
            seeded,
            p2,
            q2,
        ) implies nbrs.contains(p2) by {
        assert(q2 == pos);
        g.lemma_neighbor_seq_iff(pos, p2);
    }
    lemma_prop_restores(g, d, seeded, nbrs);
}

} // verus!
