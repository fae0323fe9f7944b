//! Possibility sets as boolean masks.
//!
//! A cell's possibility set over an alphabet of `n` labels is a mask of
//! length `n`: entry `t` is true exactly when label `t` is still possible.
//! The entropy of a set is the number of true entries of its mask.

use vstd::prelude::*;

verus! {

/// Number of true entries of a mask: the entropy of a possibility set.
pub open spec fn count_true(s: Seq<bool>) -> nat
    decreases s.len(),
{
    if s.len() == 0 {
        0
    } else {
        count_true(s.drop_last()) + if s.last() {
            1nat
        } else {
            0nat
        }
    }
}

/// Pointwise intersection of two masks of equal length.
pub open spec fn and_bits(a: Seq<bool>, b: Seq<bool>) -> Seq<bool> {
    Seq::new(a.len(), |i: int| a[i] && b[i])
}

/// `a` denotes a subset of `b`: every label possible in `a` is possible in `b`.
pub open spec fn mask_le(a: Seq<bool>, b: Seq<bool>) -> bool {
    &&& a.len() == b.len()
    &&& forall|i: int| 0 <= i < a.len() ==> (a[i] ==> b[i])
}

/// The ascending list of true positions of a mask: the labels of the set.
pub open spec fn true_indices(s: Seq<bool>) -> Seq<usize>
    decreases s.len(),
{
    if s.len() == 0 {
        Seq::empty()
    } else {
        true_indices(s.drop_last()) + if s.last() {
            seq![(s.len() - 1) as usize]
        } else {
            Seq::empty()
        }
    }
}

/// Position of the `k`-th true entry of `s` (counting from zero);
/// meaningful when `k < count_true(s)`.
pub open spec fn kth_true(s: Seq<bool>, k: nat) -> int
    decreases s.len(),
{
    if s.len() == 0 {
        0
    } else if count_true(s.drop_last()) > k {
        kth_true(s.drop_last(), k)
    } else {
        s.len() - 1
    }
}

pub proof fn lemma_count_le_len(s: Seq<bool>)
    ensures
        count_true(s) <= s.len(),
    decreases s.len(),
{
    if s.len() > 0 {
        lemma_count_le_len(s.drop_last());
    }
}

/// A subset has at most the entropy of its superset.
pub proof fn lemma_count_subset(a: Seq<bool>, b: Seq<bool>)
    requires
        mask_le(a, b),
    ensures
        count_true(a) <= count_true(b),
    decreases a.len(),
{
    if a.len() > 0 {
        assert(mask_le(a.drop_last(), b.drop_last()));
        lemma_count_subset(a.drop_last(), b.drop_last());
    }
}

/// A subset with the same entropy as its superset is that superset.
pub proof fn lemma_count_eq_subset(a: Seq<bool>, b: Seq<bool>)
    requires
        mask_le(a, b),
        count_true(a) == count_true(b),
    ensures
        a =~= b,
    decreases a.len(),
{
    if a.len() > 0 {
        assert(mask_le(a.drop_last(), b.drop_last()));
        lemma_count_subset(a.drop_last(), b.drop_last());
        if a.last() == b.last() {
            lemma_count_eq_subset(a.drop_last(), b.drop_last());
            assert forall|i: int| 0 <= i < a.len() implies a[i] == b[i] by {
                if i < a.len() - 1 {
                    assert(a.drop_last()[i] == b.drop_last()[i]);
                }
            }
        } else {
            assert(!a.last() && b.last());
            assert(count_true(a.drop_last()) == count_true(b.drop_last()) + 1);
            assert(false);
        }
    }
}

/// Extending a prefix by one entry adds that entry's contribution.
pub proof fn lemma_count_take_step(s: Seq<bool>, i: int)
    requires
        0 <= i < s.len(),
    ensures
        count_true(s.take(i + 1)) == count_true(s.take(i)) + if s[i] {
            1nat
        } else {
            0nat
        },
{
    assert(s.take(i + 1).drop_last() =~= s.take(i));
    assert(s.take(i + 1).last() == s[i]);
}

/// Entropy of a prefix grows with the prefix.
pub proof fn lemma_count_take_mono(s: Seq<bool>, i: int, j: int)
    requires
        0 <= i <= j <= s.len(),
    ensures
        count_true(s.take(i)) <= count_true(s.take(j)),
    decreases j - i,
{
    if i < j {
        lemma_count_take_step(s, j - 1);
        lemma_count_take_mono(s, i, j - 1);
    }
}

/// The `k`-th true entry is a true entry, and exactly `k` true entries
/// precede it.
pub proof fn lemma_kth_true_props(s: Seq<bool>, k: nat)
    requires
        k < count_true(s),
    ensures
        0 <= kth_true(s, k) < s.len(),
        s[kth_true(s, k)],
        count_true(s.take(kth_true(s, k))) == k,
    decreases s.len(),
{
    lemma_count_le_len(s);
    let d = s.drop_last();
    if count_true(d) > k {
        lemma_kth_true_props(d, k);
        let r = kth_true(d, k);
        assert(s[r] == d[r]);
        assert(s.take(r) =~= d.take(r));
    } else {
        if !s.last() {
            assert(count_true(s) == count_true(d));
            assert(false);
        }
        assert(count_true(s) == count_true(d) + 1);
        assert(k == count_true(d));
        assert(s.take(s.len() - 1) =~= d);
    }
}

/// Distinct true entries have distinct ranks, so the rank characterises
/// the position: `kth_true` is the only true entry with `k` predecessors.
pub proof fn lemma_kth_true_unique(s: Seq<bool>, k: nat, i: int)
    requires
        0 <= i < s.len(),
        s[i],
        count_true(s.take(i)) == k,
    ensures
        k < count_true(s),
        i == kth_true(s, k),
{
    lemma_count_take_step(s, i);
    lemma_count_take_mono(s, i + 1, s.len() as int);
    assert(s.take(s.len() as int) =~= s);
    assert(k < count_true(s));
    lemma_kth_true_props(s, k);
    let r = kth_true(s, k);
    if i < r {
        lemma_count_take_step(s, i);
        lemma_count_take_mono(s, i + 1, r);
        assert(false);
    }
    if r < i {
        lemma_count_take_step(s, r);
        lemma_count_take_mono(s, r + 1, i);
        assert(false);
    }
}

/// Counts the true entries of a mask.
pub fn count_trues(v: &Vec<bool>) -> (c: usize)
    ensures
        c == count_true(v@),
{
    let mut c: usize = 0;
    let mut i: usize = 0;
    while i < v.len()
        invariant
            0 <= i <= v@.len(),
            c == count_true(v@.take(i as int)),
        decreases v@.len() - i,
    {
        proof {
            lemma_count_take_step(v@, i as int);
            lemma_count_le_len(v@.take(i as int));
        }
        if v[i] {
            c = c + 1;
        }
        i = i + 1;
    }
    proof {
        assert(v@.take(v@.len() as int) =~= v@);
    }
    c
}

/// Pointwise intersection of two masks of equal length.
pub fn intersect(a: &Vec<bool>, b: &Vec<bool>) -> (r: Vec<bool>)
    requires
        a@.len() == b@.len(),
    ensures
        r@ == and_bits(a@, b@),
{
    let mut r: Vec<bool> = Vec::new();
    let mut i: usize = 0;
    while i < a.len()
        invariant
            0 <= i <= a@.len(),
            a@.len() == b@.len(),
            r@.len() == i,
            forall|j: int| 0 <= j < i ==> r@[j] == (a@[j] && b@[j]),
        decreases a@.len() - i,
    {
        r.push(a[i] && b[i]);
        i = i + 1;
    }
    proof {
        assert(r@ =~= and_bits(a@, b@));
    }
    r
}

/// The ascending list of true positions of a mask.
pub fn collect_true_indices(v: &Vec<bool>) -> (r: Vec<usize>)
    ensures
        r@ == true_indices(v@),
{
    let mut r: Vec<usize> = Vec::new();
    let mut i: usize = 0;
    while i < v.len()
        invariant
            0 <= i <= v@.len(),
            r@ == true_indices(v@.take(i as int)),
        decreases v@.len() - i,
    {
        proof {
            assert(v@.take(i + 1).drop_last() =~= v@.take(i as int));
            assert(v@.take(i + 1).last() == v@[i as int]);
        }
        if v[i] {
            r.push(i);
            proof {
                assert(r@ =~= true_indices(v@.take(i as int)) + seq![i]);
            }
        }
        proof {
            assert(r@ =~= true_indices(v@.take(i + 1)));
        }
        i = i + 1;
    }
    proof {
        assert(v@.take(v@.len() as int) =~= v@);
    }
    r
}

/// Position of the `k`-th true entry of a mask.
pub fn select_kth_true(v: &Vec<bool>, k: usize) -> (r: usize)
    requires
        k < count_true(v@),
    ensures
        r == kth_true(v@, k as nat),
        r < v@.len(),
        v@[r as int],
{
    let mut c: usize = 0;
    let mut i: usize = 0;
    while i < v.len()
        invariant
            0 <= i <= v@.len(),
            c == count_true(v@.take(i as int)),
            c <= k,
            k < count_true(v@),
        decreases v@.len() - i,
    {
        proof {
            lemma_count_take_step(v@, i as int);
        }
        if v[i] {
            if c == k {
                proof {
                    lemma_kth_true_unique(v@, k as nat, i as int);
                }
                return i;
            }
            c = c + 1;
        }
        i = i + 1;
    }
    proof {
        assert(v@.take(v@.len() as int) =~= v@);
        assert(false);
    }
    0
}

/// The mask of a full possibility set: every label still possible.
pub open spec fn full_mask(n: nat) -> Seq<bool> {
    Seq::new(n, |i: int| true)
}

pub proof fn lemma_count_full(n: nat)
    ensures
        count_true(full_mask(n)) == n,
    decreases n,
{
    if n > 0 {
        lemma_count_full((n - 1) as nat);
        assert(full_mask(n).drop_last() =~= full_mask((n - 1) as nat));
        assert(full_mask(n).last());
    }
}

/// A full possibility mask over an alphabet of `n` labels.
pub fn make_full_mask(n: usize) -> (r: Vec<bool>)
    ensures
        r@ == full_mask(n as nat),
{
    let mut r: Vec<bool> = Vec::new();
    let mut i: usize = 0;
    while i < n
        invariant
            0 <= i <= n,
            r@ =~= full_mask(i as nat),
        decreases n - i,
    {
        r.push(true);
        proof {
            assert(r@ =~= full_mask((i + 1) as nat));
        }
        i = i + 1;
    }
    proof {
        assert(r@ =~= full_mask(n as nat));
    }
    r
}

/// A copy of a mask.
pub fn copy_mask(v: &Vec<bool>) -> (r: Vec<bool>)
    ensures
        r@ == v@,
{
    let mut r: Vec<bool> = Vec::new();
    let mut i: usize = 0;
    while i < v.len()
        invariant
            0 <= i <= v@.len(),
            r@ =~= v@.take(i as int),
        decreases v@.len() - i,
    {
        r.push(v[i]);
        proof {
            assert(r@ =~= v@.take(i + 1));
        }
        i = i + 1;
    }
    proof {
        assert(v@.take(v@.len() as int) =~= v@);
    }
    r
}

} // verus!
