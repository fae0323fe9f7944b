//! The bounded 2-D grid: coordinates, row-major indexing, and the
//! Moore neighbourhood (up to 8 in-bounds neighbours, no wraparound).

use vstd::prelude::*;

verus! {

/// A cell coordinate; `x` grows to the right, `y` downwards.
#[derive(Clone, Copy, PartialEq, Eq, Structural, Debug, Hash)]
pub struct CellPosition {
    pub x: usize,
    pub y: usize,
}

/// The extents of a grid.  Cells are stored row-major: the cell at
/// `(x, y)` lives at index `y * width + x`.
#[derive(Clone, Copy, PartialEq, Eq, Structural, Debug)]
pub struct Grid {
    pub width: usize,
    pub height: usize,
}

/// Two distinct coordinates whose components each differ by at most one:
/// the Moore adjacency.
pub open spec fn is_adjacent(a: CellPosition, b: CellPosition) -> bool {
    &&& !(a.x == b.x && a.y == b.y)
    &&& -1 <= a.x - b.x <= 1
    &&& -1 <= a.y - b.y <= 1
}

/// The fixed scan order of the eight Moore offsets: `x` offset outermost,
/// `y` offset innermost, each from -1 to 1, skipping (0, 0).
pub open spec fn nb_offset(k: int) -> (int, int) {
    if k == 0 {
        (-1, -1)
    } else if k == 1 {
        (-1, 0)
    } else if k == 2 {
        (-1, 1)
    } else if k == 3 {
        (0, -1)
    } else if k == 4 {
        (0, 1)
    } else if k == 5 {
        (1, -1)
    } else if k == 6 {
        (1, 0)
    } else {
        (1, 1)
    }
}

impl Grid {
    /// Total number of cells.
    pub open spec fn cell_count(&self) -> int {
        self.width * self.height
    }

    pub open spec fn in_bounds(&self, p: CellPosition) -> bool {
        p.x < self.width && p.y < self.height
    }

    /// Row-major index of an in-bounds coordinate.
    pub open spec fn index_of(&self, p: CellPosition) -> int {
        p.y * self.width + p.x
    }

    /// Coordinate of a row-major index; meaningful when the grid is
    /// non-empty and the index is in range.
    pub open spec fn pos_of(&self, i: int) -> CellPosition {
        CellPosition { x: (i % (self.width as int)) as usize, y: (i / (self.width as int)) as usize }
    }

    pub open spec fn nb_x(&self, p: CellPosition, k: int) -> int {
        p.x + nb_offset(k).0
    }

    pub open spec fn nb_y(&self, p: CellPosition, k: int) -> int {
        p.y + nb_offset(k).1
    }

    /// The `k`-th offset applied to `p` lands in bounds.
    pub open spec fn nb_ok(&self, p: CellPosition, k: int) -> bool {
        &&& 0 <= self.nb_x(p, k) < self.width
        &&& 0 <= self.nb_y(p, k) < self.height
    }

    /// The coordinate reached from `p` by the `k`-th offset.
    pub open spec fn nb_pos(&self, p: CellPosition, k: int) -> CellPosition {
        CellPosition { x: self.nb_x(p, k) as usize, y: self.nb_y(p, k) as usize }
    }

    /// The in-bounds neighbours reached by the first `k` offsets, in scan
    /// order.
    pub open spec fn neighbors_upto(&self, p: CellPosition, k: int) -> Seq<CellPosition>
        decreases k,
    {
        if k <= 0 {
            Seq::empty()
        } else {
            let s = self.neighbors_upto(p, k - 1);
            if self.nb_ok(p, k - 1) {
                s.push(self.nb_pos(p, k - 1))
            } else {
                s
            }
        }
    }

    /// The full neighbour list of `p`: all eight offsets, filtered to the
    /// grid, in scan order.
    pub open spec fn neighbor_seq(&self, p: CellPosition) -> Seq<CellPosition> {
        self.neighbors_upto(p, 8)
    }

    pub proof fn lemma_index_of_bounds(&self, p: CellPosition)
        requires
            self.in_bounds(p),
        ensures
            0 <= self.index_of(p) < self.cell_count(),
    {
        assert(p.y * self.width + p.x < self.width * self.height) by (nonlinear_arith)
            requires
                p.x < self.width,
                p.y < self.height,
        ;
    }

    pub proof fn lemma_pos_of_index_of(&self, p: CellPosition)
        requires
            self.in_bounds(p),
        ensures
            self.pos_of(self.index_of(p)) == p,
    {
        let w = self.width as int;
        assert((p.y * w + p.x) % w == p.x && (p.y * w + p.x) / w == p.y) by (nonlinear_arith)
            requires
                0 <= p.x < w,
                0 <= p.y,
        ;
    }

    pub proof fn lemma_pos_of_bounds(&self, i: int)
        requires
            0 <= i < self.cell_count(),
        ensures
            self.in_bounds(self.pos_of(i)),
            self.index_of(self.pos_of(i)) == i,
    {
        let w = self.width as int;
        let h = self.height as int;
        assert(0 < w && 0 < h) by (nonlinear_arith)
            requires
                0 <= w,
                0 <= h,
                0 <= i < w * h,
        ;
        assert(0 <= i % w < w && 0 <= i / w < h && (i / w) * w + i % w == i) by (nonlinear_arith)
            requires
                0 < w,
                0 <= i < w * h,
        ;
    }

    /// Row-major indexing is injective on in-bounds coordinates.
    pub proof fn lemma_index_injective(&self, p: CellPosition, q: CellPosition)
        requires
            self.in_bounds(p),
            self.in_bounds(q),
            p != q,
        ensures
            self.index_of(p) != self.index_of(q),
    {
        self.lemma_pos_of_index_of(p);
        self.lemma_pos_of_index_of(q);
    }

    /// Every listed neighbour is in bounds and adjacent, and every
    /// in-bounds adjacent coordinate is listed.
    pub proof fn lemma_neighbor_seq_iff(&self, p: CellPosition, q: CellPosition)
        ensures
            self.neighbor_seq(p).contains(q) <==> (self.in_bounds(q) && is_adjacent(p, q)),
    {
        self.lemma_neighbors_upto_iff(p, q, 8);
        if self.in_bounds(q) && is_adjacent(p, q) {
            let dx = q.x - p.x;
            let dy = q.y - p.y;
            let k: int = if dx == -1 && dy == -1 {
                0
            } else if dx == -1 && dy == 0 {
                1
            } else if dx == -1 && dy == 1 {
                2
            } else if dx == 0 && dy == -1 {
                3
            } else if dx == 0 && dy == 1 {
                4
            } else if dx == 1 && dy == -1 {
                5
            } else if dx == 1 && dy == 0 {
                6
            } else {
                7
            };
            assert(self.nb_ok(p, k) && self.nb_pos(p, k) == q);
        }
    }

    proof fn lemma_neighbors_upto_iff(&self, p: CellPosition, q: CellPosition, k: int)
        requires
            0 <= k <= 8,
        ensures
            self.neighbors_upto(p, k).contains(q) <==> exists|j: int|
                0 <= j < k && self.nb_ok(p, j) && self.nb_pos(p, j) == q,
        decreases k,
    {
        if k > 0 {
            self.lemma_neighbors_upto_iff(p, q, k - 1);
            let s = self.neighbors_upto(p, k - 1);
            if self.nb_ok(p, k - 1) {
                let t = self.nb_pos(p, k - 1);
                assert(self.neighbors_upto(p, k) == s.push(t));
                if s.push(t).contains(q) {
                    let i = choose|i: int| 0 <= i < s.push(t).len() && s.push(t)[i] == q;
                    if i < s.len() {
                        assert(s[i] == q);
                        assert(s.contains(q));
                    } else {
                        assert(q == t);
                    }
                }
                if q == t {
                    assert(s.push(t)[s.len() as int] == q);
                    assert(s.push(t).contains(q));
                }
                if s.contains(q) {
                    let i = choose|i: int| 0 <= i < s.len() && s[i] == q;
                    assert(s.push(t)[i] == q);
                    assert(s.push(t).contains(q));
                }
            }
        }
    }

    /// Builds a grid of the given extents.  The product bound is what the
    /// row-major cell store needs.
    pub fn new(width: usize, height: usize) -> (g: Grid)
        requires
            width * height <= usize::MAX,
        ensures
            g.width == width,
            g.height == height,
    {
        Grid { width, height }
    }

    pub fn contains(&self, p: CellPosition) -> (r: bool)
        ensures
            r == self.in_bounds(p),
    {
        p.x < self.width && p.y < self.height
    }

    /// Row-major index of an in-bounds coordinate.
    pub fn index(&self, p: CellPosition) -> (i: usize)
        requires
            self.in_bounds(p),
            self.cell_count() <= usize::MAX,
        ensures
            i == self.index_of(p),
            0 <= i < self.cell_count(),
    {
        proof {
            self.lemma_index_of_bounds(p);
        }
        p.y * self.width + p.x
    }

    /// The in-bounds Moore neighbours of `pos`, in the fixed scan order.
    pub fn neighbors(&self, pos: CellPosition) -> (r: Vec<CellPosition>)
        requires
            self.in_bounds(pos),
        ensures
            r@ == self.neighbor_seq(pos),
    {
        let x = pos.x;
        let y = pos.y;
        let mut r: Vec<CellPosition> = Vec::new();
        proof {
            assert(self.neighbors_upto(pos, 0) =~= Seq::<CellPosition>::empty());
        }
        if x >= 1 && y >= 1 {
            r.push(CellPosition { x: x - 1, y: y - 1 });
        }
        proof {
            assert(r@ =~= self.neighbors_upto(pos, 1));
        }
        if x >= 1 {
            r.push(CellPosition { x: x - 1, y });
        }
        proof {
            assert(r@ =~= self.neighbors_upto(pos, 2));
        }
        if x >= 1 && y + 1 < self.height {
            r.push(CellPosition { x: x - 1, y: y + 1 });
        }
        proof {
            assert(r@ =~= self.neighbors_upto(pos, 3));
        }
        if y >= 1 {
            r.push(CellPosition { x, y: y - 1 });
        }
        proof {
            assert(r@ =~= self.neighbors_upto(pos, 4));
        }
        if y + 1 < self.height {
            r.push(CellPosition { x, y: y + 1 });
        }
        proof {
            assert(r@ =~= self.neighbors_upto(pos, 5));
        }
        if x + 1 < self.width && y >= 1 {
            r.push(CellPosition { x: x + 1, y: y - 1 });
        }
        proof {
            assert(r@ =~= self.neighbors_upto(pos, 6));
        }
        if x + 1 < self.width {
            r.push(CellPosition { x: x + 1, y });
        }
        proof {
            assert(r@ =~= self.neighbors_upto(pos, 7));
        }
        if x + 1 < self.width && y + 1 < self.height {
            r.push(CellPosition { x: x + 1, y: y + 1 });
        }
        proof {
            assert(r@ =~= self.neighbors_upto(pos, 8));
        }
        r
    }
}

} // verus!
