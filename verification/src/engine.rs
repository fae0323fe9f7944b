//! The solving session: the grid of cells owned by one engine for its
//! whole lifetime, the collapse step, the propagation pass, and the event
//! log.  Every mutating call is proved equal to the model functions, so a
//! session replays identically from the same seed.

use vstd::prelude::*;

use crate::cell::Cell;
use crate::cell::CellModel;
use crate::cell::CellState;
use crate::cell::Event;
use crate::cell::StepOutcome;
use crate::cell::StepResult;
use crate::cell::WaveError;
use crate::domain::TileDomain;
use crate::grid::CellPosition;
use crate::grid::Grid;
use crate::masks::collect_true_indices;
use crate::masks::copy_mask;
use crate::masks::count_true;
use crate::masks::count_trues;
use crate::masks::full_mask;
use crate::masks::intersect;
use crate::masks::lemma_count_full;
use crate::masks::lemma_count_subset;
use crate::masks::make_full_mask;
use crate::masks::select_kth_true;
use crate::masks::true_indices;
use crate::model::candidates;
use crate::model::cells_wf;
use crate::model::collapse_events;
use crate::model::constrain_by;
use crate::model::evolves;
use crate::model::has_possible;
use crate::model::lemma_candidates_nonempty;
use crate::model::lemma_candidates_props;
use crate::model::lemma_candidates_step;
use crate::model::lemma_collapse_wf;
use crate::model::lemma_constrain_le;
use crate::model::lemma_evolves_refl;
use crate::model::lemma_evolves_trans;
use crate::model::lemma_total_entropy_update;
use crate::model::evolves_cell;
use crate::model::lemma_scan_step;
use crate::model::min_entropy;
use crate::model::prop_rec;
use crate::model::propagation_events;
use crate::model::spec_collapse;
use crate::model::spec_step;
use crate::model::total_entropy;
use crate::rng::SeedRng;

verus! {

/// One solving session: a grid of cells, the caller's domain, the seeded
/// random source, and the ordered log of emitted events.
pub struct Session {
    grid: Grid,
    domain: TileDomain,
    cells: Vec<Cell>,
    rng: SeedRng,
    events: Vec<Event>,
}

impl Session {
    pub closed spec fn grid_spec(&self) -> Grid {
        self.grid
    }

    pub closed spec fn domain_spec(&self) -> TileDomain {
        self.domain
    }

    /// The cell store as a sequence of mathematical cell values.
    pub closed spec fn cells_model(&self) -> Seq<CellModel> {
        Seq::new(self.cells@.len(), |i: int| self.cells@[i]@)
    }

    /// The state of the session's random source.
    pub closed spec fn rng_model(&self) -> u64 {
        self.rng@
    }

    /// The events emitted so far, in order.
    pub closed spec fn events_model(&self) -> Seq<Event> {
        self.events@
    }

    /// A session is well formed when its domain is, its cell store fits
    /// grid and domain, and no possibility set is empty.
    pub open spec fn wf(&self) -> bool {
        &&& self.domain_spec().wf()
        &&& self.grid_spec().cell_count() <= usize::MAX
        &&& cells_wf(self.grid_spec(), self.domain_spec(), self.cells_model())
    }

    pub fn width(&self) -> (w: usize)
        ensures
            w == self.grid_spec().width,
    {
        self.grid.width
    }

    pub fn height(&self) -> (h: usize)
        ensures
            h == self.grid_spec().height,
    {
        self.grid.height
    }

    pub fn events(&self) -> (r: &Vec<Event>)
        ensures
            r@ == self.events_model(),
    {
        &self.events
    }

    /// Creates a session: every cell `Possible` with the full alphabet,
    /// the random source holding the given seed, the event log empty.
    pub fn create(width: usize, height: usize, domain: TileDomain, seed: u64) -> (s: Session)
        requires
            domain.wf(),
            width * height <= usize::MAX,
        ensures
            s.wf(),
            s.grid_spec() == (Grid { width, height }),
            s.domain_spec() == domain,
            s.rng_model() == seed,
            s.events_model() == Seq::<Event>::empty(),
            s.cells_model().len() == width * height,
            forall|i: int|
                0 <= i < s.cells_model().len() ==> s.cells_model()[i] == CellModel::Possible(
                    full_mask(domain.label_count() as nat),
                ),
    {
        let grid = Grid::new(width, height);
        let n = domain.num_labels();
        let total: usize = width * height;
        let mut cells: Vec<Cell> = Vec::new();
        let mut i: usize = 0;
        while i < total
            invariant
                0 <= i <= total,
                n == domain.label_count(),
                cells@.len() == i,
                forall|j: int|
                    0 <= j < i ==> (#[trigger] cells@[j])@ == CellModel::Possible(
                        full_mask(n as nat),
                    ),
            decreases total - i,
        {
            let mask = make_full_mask(n);
            cells.push(Cell::Possible(mask));
            i = i + 1;
        }
        let s = Session { grid, domain, cells, rng: SeedRng::new(seed), events: Vec::new() };
        proof {
            s.domain_spec().lemma_wf_positive();
            lemma_count_full(n as nat);
            assert forall|j: int| 0 <= j < s.cells_model().len() implies s.cells_model()[j]
                == CellModel::Possible(full_mask(n as nat)) by {
                assert(s.cells_model()[j] == s.cells@[j]@);
            }
            assert(s.cells_model().len() == s.grid_spec().cell_count());
            assert forall|j: int| 0 <= j < s.cells_model().len() implies match #[trigger] s.cells_model()[j] {
                CellModel::Possible(m) => m.len() == s.domain_spec().label_count() && count_true(m)
                    >= 1,
                CellModel::Fixed(t) => 0 <= t < s.domain_spec().label_count(),
            } by {
                assert(s.cells_model()[j] == CellModel::Possible(full_mask(n as nat)));
            }
            assert(cells_wf(s.grid_spec(), s.domain_spec(), s.cells_model()));
        }
        s
    }

    /// Pre-seeds one cell to a fixed label.  Rejected out of bounds, on a
    /// cell already fixed, and for a label outside the alphabet — in that
    /// order — leaving the session unchanged; otherwise the cell becomes
    /// `Fixed(label)` and nothing else changes.  No event is emitted and
    /// no propagation happens: the caller drives propagation.
    pub fn seed_cell(&mut self, pos: CellPosition, label: usize) -> (r: Result<(), WaveError>)
        requires
            old(self).wf(),
        ensures
            final (self).wf(),
            final (self).grid_spec() == old(self).grid_spec(),
            final (self).domain_spec() == old(self).domain_spec(),
            final (self).rng_model() == old(self).rng_model(),
            final (self).events_model() == old(self).events_model(),
            !old(self).grid_spec().in_bounds(pos) ==> r == Err::<(), WaveError>(
                WaveError::OutOfBounds,
            ) && final (self).cells_model() == old(self).cells_model(),
            old(self).grid_spec().in_bounds(pos) && old(self).cells_model()[old(
                self,
            ).grid_spec().index_of(pos)].is_fixed() ==> r == Err::<(), WaveError>(
                WaveError::AlreadyFixed,
            ) && final (self).cells_model() == old(self).cells_model(),
            old(self).grid_spec().in_bounds(pos) && old(self).cells_model()[old(
                self,
            ).grid_spec().index_of(pos)].is_possible() && label >= old(
                self,
            ).domain_spec().label_count() ==> r == Err::<(), WaveError>(WaveError::LabelNotAllowed)
                && final (self).cells_model() == old(self).cells_model(),
            old(self).grid_spec().in_bounds(pos) && old(self).cells_model()[old(
                self,
            ).grid_spec().index_of(pos)].is_possible() && label < old(
                self,
            ).domain_spec().label_count() ==> r == Ok::<(), WaveError>(()) && final (
            self).cells_model() == old(self).cells_model().update(
                old(self).grid_spec().index_of(pos),
                CellModel::Fixed(label as int),
            ),
    {
        if !self.grid.contains(pos) {
            return Err(WaveError::OutOfBounds);
        }
        let idx = self.grid.index(pos);
        let already: bool = match &self.cells[idx] {
            Cell::Fixed(_) => true,
            Cell::Possible(_) => false,
        };
        proof {
            assert(self.cells_model()[idx as int] == self.cells@[idx as int]@);
        }
        if already {
            return Err(WaveError::AlreadyFixed);
        }
        if label >= self.domain.num_labels() {
            return Err(WaveError::LabelNotAllowed);
        }
        self.cells.set(idx, Cell::Fixed(label));
        proof {
            assert(self.cells_model() =~= old(self).cells_model().update(
                old(self).grid_spec().index_of(pos),
                CellModel::Fixed(label as int),
            ));
        }
        Ok(())
    }


    /// One collapse: scans for the minimum-entropy `Possible` cells, picks
    /// one candidate and one of its labels with the session's random
    /// source, and fixes it.  With no `Possible` cell left the session is
    /// done and nothing is mutated.  The zero-entropy defence of the model
    /// is proved unreachable in a well-formed session.  No propagation
    /// happens: `step` drives it.
    pub fn collapse_one(&mut self) -> (r: StepResult)
        requires
            old(self).wf(),
        ensures
            final (self).wf(),
            final (self).grid_spec() == old(self).grid_spec(),
            final (self).domain_spec() == old(self).domain_spec(),
            final (self).cells_model() == spec_collapse(
                old(self).grid_spec(),
                old(self).domain_spec(),
                old(self).cells_model(),
                old(self).rng_model(),
            ).cells,
            final (self).rng_model() == spec_collapse(
                old(self).grid_spec(),
                old(self).domain_spec(),
                old(self).cells_model(),
                old(self).rng_model(),
            ).rng,
            r@ == spec_collapse(
                old(self).grid_spec(),
                old(self).domain_spec(),
                old(self).cells_model(),
                old(self).rng_model(),
            ).outcome,
            final (self).events_model() == old(self).events_model() + collapse_events(
                spec_collapse(
                    old(self).grid_spec(),
                    old(self).domain_spec(),
                    old(self).cells_model(),
                    old(self).rng_model(),
                ),
            ),
            evolves(old(self).cells_model(), final (self).cells_model()),
            r@ matches StepOutcome::Fixed(p, t) ==> old(self).grid_spec().in_bounds(p) && (
            t as int) < old(self).domain_spec().label_count(),
    {
        let ghost g = self.grid_spec();
        let ghost d = self.domain_spec();
        let ghost cells0 = self.cells_model();
        let ghost rng0 = self.rng_model();
        let ghost target = spec_collapse(g, d, cells0, rng0);

        let len = self.cells.len();
        let mut found: bool = false;
        let mut best: usize = 0;
        let mut i: usize = 0;
        while i < len
            invariant
                *self == *old(self),
                old(self).wf(),
                g == self.grid_spec(),
                d == self.domain_spec(),
                cells0 == self.cells_model(),
                len == cells0.len(),
                0 <= i <= len,
                found == has_possible(cells0.take(i as int)),
                found ==> best == min_entropy(cells0.take(i as int)),
            decreases len - i,
        {
            proof {
                lemma_scan_step(cells0, i as int);
                assert(cells0[i as int] == self.cells@[i as int]@);
            }
            match &self.cells[i] {
                Cell::Possible(mask) => {
                    let cnt = count_trues(mask);
                    proof {
                        assert(cells0[i as int].entropy() == cnt);
                    }
                    if !found || cnt < best {
                        best = cnt;
                    }
                    found = true;
                },
                Cell::Fixed(_) => {},
            }
            i = i + 1;
        }
        proof {
            assert(cells0.take(len as int) =~= cells0);
        }
        if !found {
            self.events.push(Event::Done);
            proof {
                assert(self.events_model() =~= old(self).events_model() + collapse_events(target));
                assert(self.cells_model() =~= cells0);
                lemma_evolves_refl(cells0);
            }
            return StepResult::Done;
        }
        if best == 0 {
            proof {
                lemma_candidates_nonempty(cells0);
                lemma_candidates_props(cells0, 0nat, 0);
                assert(false);
            }
            return StepResult::Contradiction(CellPosition { x: 0, y: 0 });
        }
        let mut cands: Vec<usize> = Vec::new();
        let mut j: usize = 0;
        while j < len
            invariant
                *self == *old(self),
                old(self).wf(),
                g == self.grid_spec(),
                d == self.domain_spec(),
                cells0 == self.cells_model(),
                len == cells0.len(),
                cells0.len() <= usize::MAX,
                0 <= j <= len,
                cands@ == candidates(cells0.take(j as int), best as nat),
            decreases len - j,
        {
            proof {
                lemma_candidates_step(cells0, best as nat, j as int);
                assert(cells0[j as int] == self.cells@[j as int]@);
            }
            match &self.cells[j] {
                Cell::Possible(mask) => {
                    let cnt = count_trues(mask);
                    if cnt == best {
                        cands.push(j);
                    }
                },
                Cell::Fixed(_) => {},
            }
            proof {
                assert(cands@ =~= candidates(cells0.take(j + 1), best as nat));
            }
            j = j + 1;
        }
        proof {
            assert(cells0.take(len as int) =~= cells0);
            lemma_candidates_nonempty(cells0);
        }
        let ci = self.rng.next_below(cands.len());
        let idx = cands[ci];
        proof {
            lemma_candidates_props(cells0, best as nat, ci as int);
        }
        let cur: Vec<bool> = match &self.cells[idx] {
            Cell::Possible(mask) => copy_mask(mask),
            Cell::Fixed(_) => Vec::new(),
        };
        proof {
            assert(cells0[idx as int] == self.cells@[idx as int]@);
            assert(cur@ == cells0[idx as int].mask());
            assert(count_true(cur@) == best);
        }
        let k = self.rng.next_below(best);
        let t = select_kth_true(&cur, k);
        let w = self.grid.width;
        proof {
            assert(w >= 1) by (nonlinear_arith)
                requires
                    cells0.len() == (w as int) * (g.height as int),
                    cells0.len() >= 1,
                    w == g.width,
                    g.height >= 0,
                    w >= 0,
            ;
        }
        let x = idx % w;
        let y = idx / w;
        let pos = CellPosition { x, y };
        proof {
            assert(pos == g.pos_of(idx as int));
            g.lemma_pos_of_bounds(idx as int);
        }
        self.cells.set(idx, Cell::Fixed(t));
        self.events.push(Event::CellFixed(pos, t));
        proof {
            assert(self.cells_model() =~= cells0.update(idx as int, CellModel::Fixed(t as int)));
            assert(self.events_model() =~= old(self).events_model() + collapse_events(target));
            lemma_collapse_wf(g, d, cells0, rng0);
        }
        StepResult::Fixed(pos, t)
    }


    /// One propagation pass from `origin`: a worklist seeded with the
    /// origin's neighbours is drained; each `Possible` cell popped is
    /// narrowed to the labels its fixed neighbours permit; a strict
    /// narrowing re-enqueues that cell's neighbours; an emptied set halts
    /// the pass with a contradiction, leaving the set as it was.  Runs to
    /// the fixpoint of the model's worklist pass.
    pub fn propagate(&mut self, origin: CellPosition) -> (r: StepResult)
        requires
            old(self).wf(),
            old(self).grid_spec().in_bounds(origin),
        ensures
            final (self).wf(),
            final (self).grid_spec() == old(self).grid_spec(),
            final (self).domain_spec() == old(self).domain_spec(),
            final (self).rng_model() == old(self).rng_model(),
            final (self).cells_model() == prop_rec(
                old(self).grid_spec(),
                old(self).domain_spec(),
                old(self).cells_model(),
                old(self).grid_spec().neighbor_seq(origin),
            ).cells,
            final (self).events_model() == old(self).events_model() + propagation_events(
                prop_rec(
                    old(self).grid_spec(),
                    old(self).domain_spec(),
                    old(self).cells_model(),
                    old(self).grid_spec().neighbor_seq(origin),
                ),
            ),
            prop_rec(
                old(self).grid_spec(),
                old(self).domain_spec(),
                old(self).cells_model(),
                old(self).grid_spec().neighbor_seq(origin),
            ).halted matches Some(p) ==> r@ == StepOutcome::Contradiction(p),
            prop_rec(
                old(self).grid_spec(),
                old(self).domain_spec(),
                old(self).cells_model(),
                old(self).grid_spec().neighbor_seq(origin),
            ).halted is None ==> r@ == StepOutcome::Narrowed(
                prop_rec(
                    old(self).grid_spec(),
                    old(self).domain_spec(),
                    old(self).cells_model(),
                    old(self).grid_spec().neighbor_seq(origin),
                ).narrowed,
            ),
            evolves(old(self).cells_model(), final (self).cells_model()),
    {
        let ghost g = self.grid_spec();
        let ghost d = self.domain_spec();
        let ghost cells0 = self.cells_model();
        let mut queue: Vec<CellPosition> = self.grid.neighbors(origin);
        let ghost target = prop_rec(g, d, cells0, g.neighbor_seq(origin));
        proof {
            assert forall|k: int| 0 <= k < queue@.len() implies g.in_bounds(
                #[trigger] queue@[k],
            ) by {
                assert(g.neighbor_seq(origin)[k] == queue@[k]);
                assert(g.neighbor_seq(origin).contains(queue@[k]));
                g.lemma_neighbor_seq_iff(origin, queue@[k]);
            }
            lemma_evolves_refl(cells0);
        }
        let mut head: usize = 0;
        let mut narrowed: Vec<CellPosition> = Vec::new();
        proof {
            assert(queue@.skip(0) =~= queue@);
            assert(narrowed@ + target.narrowed =~= target.narrowed);
            assert(old(self).events_model() + narrowed@.map_values(
                |p: CellPosition| Event::CellNarrowed(p),
            ) =~= old(self).events_model());
        }
        while head < queue.len()
            invariant
                old(self).wf(),
                self.wf(),
                g == self.grid_spec(),
                d == self.domain_spec(),
                self.rng_model() == old(self).rng_model(),
                g == old(self).grid_spec(),
                d == old(self).domain_spec(),
                cells0 == old(self).cells_model(),
                target == prop_rec(g, d, cells0, g.neighbor_seq(origin)),
                0 <= head <= queue@.len(),
                forall|k: int| 0 <= k < queue@.len() ==> g.in_bounds(#[trigger] queue@[k]),
                evolves(cells0, self.cells_model()),
                self.events_model() == old(self).events_model() + narrowed@.map_values(
                    |p: CellPosition| Event::CellNarrowed(p),
                ),
                target.cells == prop_rec(g, d, self.cells_model(), queue@.skip(head as int)).cells,
                target.narrowed == narrowed@ + prop_rec(
                    g,
                    d,
                    self.cells_model(),
                    queue@.skip(head as int),
                ).narrowed,
                target.halted == prop_rec(
                    g,
                    d,
                    self.cells_model(),
                    queue@.skip(head as int),
                ).halted,
            decreases total_entropy(self.cells_model()), queue@.len() - head,
        {
            let ghost mid_cells = self.cells_model();
            let ghost remaining = queue@.skip(head as int);
            let p = queue[head];
            head = head + 1;
            proof {
                assert(remaining[0] == p);
                assert(remaining.drop_first() =~= queue@.skip(head as int));
                g.lemma_index_of_bounds(p);
            }
            let idx = self.grid.index(p);
            proof {
                assert(mid_cells[idx as int] == self.cells@[idx as int]@);
            }
            let fixed_now: bool = match &self.cells[idx] {
                Cell::Fixed(_) => true,
                Cell::Possible(_) => false,
            };
            if fixed_now {
                proof {
                    assert(prop_rec(g, d, mid_cells, remaining) == prop_rec(
                        g,
                        d,
                        mid_cells,
                        remaining.drop_first(),
                    ));
                }
            } else {
                let cur: Vec<bool> = match &self.cells[idx] {
                    Cell::Possible(m) => copy_mask(m),
                    Cell::Fixed(_) => Vec::new(),
                };
                proof {
                    assert(cur@ == mid_cells[idx as int].mask());
                }
                let pn: Vec<CellPosition> = self.grid.neighbors(p);
                proof {
                    assert forall|k: int| 0 <= k < pn@.len() implies g.in_bounds(
                        #[trigger] pn@[k],
                    ) by {
                        assert(g.neighbor_seq(p)[k] == pn@[k]);
                        assert(g.neighbor_seq(p).contains(pn@[k]));
                        g.lemma_neighbor_seq_iff(p, pn@[k]);
                    }
                }
                let mut acc: Vec<bool> = copy_mask(&cur);
                proof {
                    assert(pn@.skip(0) =~= pn@);
                    assert(cur@.len() == d.label_count());
                }
                let ghost ev_mid = self.events_model();
                let mut jj: usize = 0;
                while jj < pn.len()
                    invariant
                        self.wf(),
                        g == self.grid_spec(),
                        d == self.domain_spec(),
                        mid_cells == self.cells_model(),
                        ev_mid == self.events_model(),
                        self.rng_model() == old(self).rng_model(),
                        0 <= jj <= pn@.len(),
                        forall|k: int| 0 <= k < pn@.len() ==> g.in_bounds(#[trigger] pn@[k]),
                        acc@.len() == cur@.len(),
                        cur@.len() == d.label_count(),
                        constrain_by(d, g, mid_cells, acc@, pn@.skip(jj as int)) == constrain_by(
                            d,
                            g,
                            mid_cells,
                            cur@,
                            pn@,
                        ),
                    decreases pn@.len() - jj,
                {
                    let ghost pn_rem = pn@.skip(jj as int);
                    let q = pn[jj];
                    proof {
                        assert(pn_rem[0] == q);
                        assert(pn_rem.drop_first() =~= pn@.skip(jj + 1));
                        g.lemma_index_of_bounds(q);
                    }
                    let qidx = self.grid.index(q);
                    proof {
                        assert(mid_cells[qidx as int] == self.cells@[qidx as int]@);
                    }
                    let step_mask: Option<Vec<bool>> = match &self.cells[qidx] {
                        Cell::Fixed(tq) => {
                            proof {
                                assert(mid_cells[qidx as int] == CellModel::Fixed(*tq as int));
                                assert((*tq as int) < d.label_count());
                                d.lemma_row_spec(*tq as int);
                            }
                            let row = self.domain.row(*tq);
                            Some(intersect(&acc, &row))
                        },
                        Cell::Possible(_) => None,
                    };
                    match step_mask {
                        Some(acc2) => {
                            acc = acc2;
                        },
                        None => {},
                    }
                    jj = jj + 1;
                }
                proof {
                    assert(pn@.skip(pn@.len() as int) =~= Seq::<CellPosition>::empty());
                    assert(acc@ == constrain_by(d, g, mid_cells, cur@, pn@));
                }
                let new_count = count_trues(&acc);
                let cur_count = count_trues(&cur);
                if new_count == cur_count {
                    proof {
                        assert(prop_rec(g, d, mid_cells, remaining) == prop_rec(
                            g,
                            d,
                            mid_cells,
                            remaining.drop_first(),
                        ));
                    }
                } else if new_count == 0 {
                    self.events.push(Event::Contradiction(p));
                    proof {
                        assert(prop_rec(g, d, mid_cells, remaining).halted == Some(p));
                        assert(prop_rec(g, d, mid_cells, remaining).cells == mid_cells);
                        assert(prop_rec(g, d, mid_cells, remaining).narrowed
                            == Seq::<CellPosition>::empty());
                        assert(target.halted == Some(p));
                        assert(target.cells == self.cells_model());
                        assert(target.narrowed =~= narrowed@);
                        assert(self.events_model() =~= old(self).events_model()
                            + propagation_events(target));
                    }
                    return StepResult::Contradiction(p);
                } else {
                    proof {
                        lemma_constrain_le(d, g, mid_cells, cur@, pn@);
                        lemma_count_subset(acc@, cur@);
                        lemma_total_entropy_update(
                            mid_cells,
                            idx as int,
                            CellModel::Possible(acc@),
                        );
                    }
                    let ghost acc_view = acc@;
                    let ghost queue_mid = queue@;
                    self.cells.set(idx, Cell::Possible(acc));
                    narrowed.push(p);
                    self.events.push(Event::CellNarrowed(p));
                    let mut kk: usize = 0;
                    while kk < pn.len()
                        invariant
                            0 <= kk <= pn@.len(),
                            queue@ == queue_mid + pn@.take(kk as int),
                        decreases pn@.len() - kk,
                    {
                        let q2 = pn[kk];
                        queue.push(q2);
                        proof {
                            assert(queue@ =~= queue_mid + pn@.take(kk + 1));
                        }
                        kk = kk + 1;
                    }
                    proof {
                        assert(pn@.take(pn@.len() as int) =~= pn@);
                        assert(queue@ =~= queue_mid + pn@);
                        let next_cells = mid_cells.update(
                            idx as int,
                            CellModel::Possible(acc_view),
                        );
                        assert(self.cells_model() =~= next_cells);
                        assert(queue@.skip(head as int) =~= remaining.drop_first()
                            + g.neighbor_seq(p));
                        // unfold the model's narrowing branch
                        assert(prop_rec(g, d, mid_cells, remaining).cells == prop_rec(
                            g,
                            d,
                            next_cells,
                            remaining.drop_first() + g.neighbor_seq(p),
                        ).cells);
                        assert(prop_rec(g, d, mid_cells, remaining).narrowed == seq![p] + prop_rec(
                            g,
                            d,
                            next_cells,
                            remaining.drop_first() + g.neighbor_seq(p),
                        ).narrowed);
                        assert(prop_rec(g, d, mid_cells, remaining).halted == prop_rec(
                            g,
                            d,
                            next_cells,
                            remaining.drop_first() + g.neighbor_seq(p),
                        ).halted);
                        assert(target.narrowed =~= narrowed@ + prop_rec(
                            g,
                            d,
                            self.cells_model(),
                            queue@.skip(head as int),
                        ).narrowed);
                        // well-formedness and evolution of the written store
                        assert forall|ii: int| 0 <= ii < next_cells.len() implies match #[trigger] next_cells[ii] {
                            CellModel::Possible(m) => m.len() == d.label_count() && count_true(m)
                                >= 1,
                            CellModel::Fixed(t) => 0 <= t < d.label_count(),
                        } by {
                            if ii != idx as int {
                                assert(next_cells[ii] == mid_cells[ii]);
                            }
                        }
                        assert(cells_wf(g, d, next_cells));
                        assert(evolves_cell(mid_cells[idx as int], next_cells[idx as int]));
                        assert(evolves(mid_cells, next_cells));
                        lemma_evolves_trans(cells0, mid_cells, next_cells);
                        assert(self.events_model() =~= old(self).events_model()
                            + narrowed@.map_values(|pp: CellPosition| Event::CellNarrowed(pp)));
                    }
                }
            }
        }
        proof {
            assert(queue@.skip(queue@.len() as int) =~= Seq::<CellPosition>::empty());
            assert(target.cells == self.cells_model());
            assert(target.narrowed =~= narrowed@);
            assert(target.halted is None);
            assert(self.events_model() =~= old(self).events_model() + propagation_events(target));
        }
        StepResult::Narrowed(narrowed)
    }


    /// One driver step: one collapse, then one propagation pass from the
    /// cell just fixed.  Returns `Done` (and mutates neither cells nor
    /// generator) when every cell is fixed; `Contradiction` if a
    /// possibility set emptied; `Narrowed` with the narrowed cells in
    /// order; `Fixed` if the propagation narrowed nothing.  The result,
    /// the new state and the event batch are functions of the prior state
    /// alone, so equal sessions stepped equally stay equal.
    pub fn step(&mut self) -> (r: StepResult)
        requires
            old(self).wf(),
        ensures
            final (self).wf(),
            final (self).grid_spec() == old(self).grid_spec(),
            final (self).domain_spec() == old(self).domain_spec(),
            final (self).cells_model() == spec_step(
                old(self).grid_spec(),
                old(self).domain_spec(),
                old(self).cells_model(),
                old(self).rng_model(),
            ).cells,
            final (self).rng_model() == spec_step(
                old(self).grid_spec(),
                old(self).domain_spec(),
                old(self).cells_model(),
                old(self).rng_model(),
            ).rng,
            r@ == spec_step(
                old(self).grid_spec(),
                old(self).domain_spec(),
                old(self).cells_model(),
                old(self).rng_model(),
            ).outcome,
            final (self).events_model() == old(self).events_model() + spec_step(
                old(self).grid_spec(),
                old(self).domain_spec(),
                old(self).cells_model(),
                old(self).rng_model(),
            ).events,
            evolves(old(self).cells_model(), final (self).cells_model()),
            !has_possible(old(self).cells_model()) ==> r@ == StepOutcome::Done && final (
            self).cells_model() == old(self).cells_model() && final (self).rng_model() == old(
                self,
            ).rng_model(),
    {
        let ghost g0 = self.grid_spec();
        let ghost d0 = self.domain_spec();
        let ghost c0 = self.cells_model();
        let ghost r0 = self.rng_model();
        let ghost c = spec_collapse(g0, d0, c0, r0);
        let res = self.collapse_one();
        match res {
            StepResult::Fixed(p, t) => {
                let ghost out = prop_rec(g0, d0, c.cells, g0.neighbor_seq(p));
                let ghost ev_mid = self.events_model();
                let pr = self.propagate(p);
                proof {
                    assert(self.events_model() =~= old(self).events_model() + (collapse_events(c)
                        + propagation_events(out)));
                    lemma_evolves_trans(c0, c.cells, out.cells);
                }
                match pr {
                    StepResult::Contradiction(q) => StepResult::Contradiction(q),
                    StepResult::Narrowed(v) => {
                        if v.len() == 0 {
                            StepResult::Fixed(p, t)
                        } else {
                            StepResult::Narrowed(v)
                        }
                    },
                    StepResult::Fixed(_, _) => {
                        proof {
                            assert(false);
                        }
                        StepResult::Done
                    },
                    StepResult::Done => {
                        proof {
                            assert(false);
                        }
                        StepResult::Done
                    },
                }
            },
            other => other,
        }
    }

    /// Reports one cell's state: the fixed label, or the ascending list of
    /// still-possible labels.  Out of bounds is the only error.
    pub fn inspect(&self, pos: CellPosition) -> (r: Result<CellState, WaveError>)
        requires
            self.wf(),
        ensures
            !self.grid_spec().in_bounds(pos) ==> r == Err::<CellState, WaveError>(
                WaveError::OutOfBounds,
            ),
            self.grid_spec().in_bounds(pos) && self.cells_model()[self.grid_spec().index_of(
                pos,
            )].is_fixed() ==> (r matches Ok(CellState::Fixed(t)) && t == self.cells_model()[self.grid_spec().index_of(pos)].fixed_label()),
            self.grid_spec().in_bounds(pos) && self.cells_model()[self.grid_spec().index_of(
                pos,
            )].is_possible() ==> (r matches Ok(CellState::Possible(v)) && v@ == true_indices(
                self.cells_model()[self.grid_spec().index_of(pos)].mask(),
            )),
    {
        if !self.grid.contains(pos) {
            return Err(WaveError::OutOfBounds);
        }
        let idx = self.grid.index(pos);
        proof {
            assert(self.cells_model()[idx as int] == self.cells@[idx as int]@);
        }
        match &self.cells[idx] {
            Cell::Fixed(t) => Ok(CellState::Fixed(*t)),
            Cell::Possible(mask) => Ok(CellState::Possible(collect_true_indices(mask))),
        }
    }
}

} // verus!
