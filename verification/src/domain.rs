//! The tile-domain capability: a finite alphabet of labels `0 .. n` and,
//! for each label, the set of labels permitted on an adjacent cell.
//!
//! The relation is declared per label and need not be symmetric; the
//! engine checks each direction independently and never assumes symmetry.

use vstd::prelude::*;

verus! {

/// A caller-supplied adjacency-compatibility rule over labels `0 .. n`.
/// `allowed[l][m]` holds when label `m` may occupy a cell adjacent to a
/// cell fixed to label `l`.
pub struct TileDomain {
    allowed: Vec<Vec<bool>>,
}

impl TileDomain {
    /// The size of the alphabet.
    pub closed spec fn label_count(&self) -> int {
        self.allowed@.len() as int
    }

    /// A domain is a non-empty square matrix of permissions.
    pub closed spec fn wf(&self) -> bool {
        &&& self.allowed@.len() >= 1
        &&& forall|l: int|
            0 <= l < self.allowed@.len() ==> (#[trigger] self.allowed@[l])@.len()
                == self.allowed@.len()
    }

    /// Label `m` is permitted next to a cell fixed to label `l`.
    pub closed spec fn allows(&self, l: int, m: int) -> bool {
        self.allowed@[l]@[m]
    }

    /// The permission row of label `l`, as a mask over the alphabet.
    pub closed spec fn row_spec(&self, l: int) -> Seq<bool> {
        self.allowed@[l]@
    }

    /// The permission relation holds in both directions or in neither.
    pub open spec fn symmetric(&self) -> bool {
        forall|l: int, m: int|
            0 <= l < self.label_count() && 0 <= m < self.label_count() ==> (#[trigger] self.allows(
                l,
                m,
            )) == self.allows(m, l)
    }

    /// A well-formed domain has a non-empty alphabet.
    pub proof fn lemma_wf_positive(&self)
        requires
            self.wf(),
        ensures
            self.label_count() >= 1,
    {
    }

    pub proof fn lemma_row_spec(&self, l: int)
        requires
            self.wf(),
            0 <= l < self.label_count(),
        ensures
            self.row_spec(l).len() == self.label_count(),
            forall|m: int| 0 <= m < self.label_count() ==> self.row_spec(l)[m] == self.allows(l, m),
    {
    }

    /// A domain over `n` labels in which nothing is permitted yet.
    pub fn new(n: usize) -> (d: TileDomain)
        requires
            n >= 1,
        ensures
            d.wf(),
            d.label_count() == n,
            forall|l: int, m: int| 0 <= l < n && 0 <= m < n ==> !d.allows(l, m),
    {
        let mut allowed: Vec<Vec<bool>> = Vec::new();
        let mut l: usize = 0;
        while l < n
            invariant
                0 <= l <= n,
                allowed@.len() == l,
                forall|i: int|
                    0 <= i < l ==> (#[trigger] allowed@[i])@ =~= Seq::new(
                        n as nat,
                        |j: int| false,
                    ),
            decreases n - l,
        {
            let mut row: Vec<bool> = Vec::new();
            let mut m: usize = 0;
            while m < n
                invariant
                    0 <= m <= n,
                    row@ =~= Seq::new(m as nat, |j: int| false),
                decreases n - m,
            {
                row.push(false);
                proof {
                    assert(row@ =~= Seq::new(m as nat + 1, |j: int| false));
                }
                m = m + 1;
            }
            allowed.push(row);
            l = l + 1;
        }
        TileDomain { allowed }
    }

    /// Declares that label `m` is permitted next to label `l`.
    pub fn permit(&mut self, l: usize, m: usize)
        requires
            old(self).wf(),
            l < old(self).label_count(),
            m < old(self).label_count(),
        ensures
            final (self).wf(),
            final (self).label_count() == old(self).label_count(),
            forall|a: int, b: int|
                0 <= a < old(self).label_count() && 0 <= b < old(self).label_count()
                    ==> final (self).allows(a, b) == (old(self).allows(a, b) || (a == l && b == m)),
    {
        let mut row: Vec<bool> = Vec::new();
        let n = self.allowed.len();
        let mut j: usize = 0;
        while j < n
            invariant
                old(self).wf(),
                l < old(self).label_count(),
                m < old(self).label_count(),
                self == old(self),
                n == old(self).label_count(),
                0 <= j <= n,
                row@.len() == j,
                forall|b: int| 0 <= b < j ==> row@[b] == (old(self).allows(l as int, b) || b == m),
            decreases n - j,
        {
            let v: bool = self.allowed[l][j] || j == m;
            row.push(v);
            j = j + 1;
        }
        self.allowed.set(l, row);
    }

    pub fn num_labels(&self) -> (n: usize)
        ensures
            n == self.label_count(),
    {
        self.allowed.len()
    }

    /// Whether label `m` is permitted next to a cell fixed to label `l`.
    pub fn is_allowed(&self, l: usize, m: usize) -> (r: bool)
        requires
            self.wf(),
            l < self.label_count(),
            m < self.label_count(),
        ensures
            r == self.allows(l as int, m as int),
    {
        self.allowed[l][m]
    }

    /// A copy of the permission row of label `l`.
    pub fn row(&self, l: usize) -> (r: Vec<bool>)
        requires
            self.wf(),
            l < self.label_count(),
        ensures
            r@ == self.row_spec(l as int),
    {
        let source: &Vec<bool> = &self.allowed[l];
        let mut r: Vec<bool> = Vec::new();
        let mut j: usize = 0;
        while j < source.len()
            invariant
                0 <= j <= source@.len(),
                r@ =~= source@.take(j as int),
            decreases source@.len() - j,
        {
            r.push(source[j]);
            proof {
                assert(r@ =~= source@.take(j + 1));
            }
            j = j + 1;
        }
        proof {
            assert(source@.take(source@.len() as int) =~= source@);
        }
        r
    }

    /// The union, over every label possible in `mask`, of that label's
    /// permission row: every label that at least one member of the set
    /// would accept as a neighbour.
    pub fn union_allowed(&self, mask: &Vec<bool>) -> (r: Vec<bool>)
        requires
            self.wf(),
            mask@.len() == self.label_count(),
        ensures
            r@.len() == self.label_count(),
            forall|m: int|
                0 <= m < self.label_count() ==> r@[m] == exists|l: int|
                    0 <= l < self.label_count() && mask@[l] && #[trigger] self.allows(l, m),
    {
        let n = self.allowed.len();
        let mut r: Vec<bool> = Vec::new();
        let mut m: usize = 0;
        while m < n
            invariant
                self.wf(),
                mask@.len() == self.label_count(),
                n == self.label_count(),
                0 <= m <= n,
                r@.len() == m,
                forall|b: int|
                    0 <= b < m ==> r@[b] == exists|l: int|
                        0 <= l < n && mask@[l] && #[trigger] self.allows(l, b),
            decreases n - m,
        {
            let mut found: bool = false;
            let mut l: usize = 0;
            while l < n
                invariant
                    self.wf(),
                    mask@.len() == self.label_count(),
                    n == self.label_count(),
                    m < n,
                    0 <= l <= n,
                    found == exists|a: int|
                        0 <= a < l && mask@[a] && #[trigger] self.allows(a, m as int),
                decreases n - l,
            {
                let hit: bool = mask[l] && self.allowed[l][m];
                proof {
                    assert(hit == (mask@[l as int] && self.allows(l as int, m as int)));
                    if hit {
                        assert(0 <= l as int && (l as int) < n && mask@[l as int] && self.allows(
                            l as int,
                            m as int,
                        ));
                    }
                    if exists|a: int| 0 <= a < l + 1 && mask@[a] && #[trigger] self.allows(
                        a,
                        m as int,
                    ) {
                        let a = choose|a: int|
                            0 <= a < l + 1 && mask@[a] && #[trigger] self.allows(a, m as int);
                        if a < l {
                            assert(exists|b: int|
                                0 <= b < l && mask@[b] && #[trigger] self.allows(b, m as int));
                        } else {
                            assert(hit);
                        }
                    }
                }
                if hit {
                    found = true;
                }
                l = l + 1;
            }
            r.push(found);
            m = m + 1;
        }
        r
    }
}

} // verus!
