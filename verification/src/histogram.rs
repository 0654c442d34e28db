//! The histogram engine's discrete core: clamping raw bin indices and
//! counting how many observations land in each bin.
//!
//! The driver turns each observed value into a raw bin index by scaling its
//! offset from the minimum over the value range; the raw index of the maximum
//! observation comes out one past the last bin, and a raw index at or past
//! `num_bins` is therefore pulled back into the last bin here.  Everything
//! after that scaling step is integer work and is verified: a `Histogram`
//! holds exactly one count per bin, and the counts sum to the number of
//! indices it was built from.

use vstd::prelude::*;

verus! {

/// The bin a raw index resolves to: an index below `num_bins` stands as it
/// is, one at or past `num_bins` lands in the last bin.
pub open spec fn clamp_spec(i: int, num_bins: int) -> int {
    if i < num_bins {
        i
    } else {
        num_bins - 1
    }
}

/// Number of occurrences of `j` in `s`.
pub open spec fn count_eq(s: Seq<int>, j: int) -> nat
    decreases s.len(),
{
    if s.len() == 0 {
        0
    } else {
        count_eq(s.drop_last(), j) + if s.last() == j {
            1nat
        } else {
            0nat
        }
    }
}

/// Each raw index of `indices`, clamped into `[0, num_bins)`.
pub open spec fn clamped_indices(indices: Seq<usize>, num_bins: int) -> Seq<int> {
    indices.map_values(|i: usize| clamp_spec(i as int, num_bins))
}

/// The count that bin `j` receives from `indices`.
pub open spec fn bin_count(indices: Seq<usize>, num_bins: int, j: int) -> nat {
    count_eq(clamped_indices(indices, num_bins), j)
}

/// Sum of a sequence of per-bin counts.
pub open spec fn sum_counts(s: Seq<usize>) -> int
    decreases s.len(),
{
    if s.len() == 0 {
        0
    } else {
        sum_counts(s.drop_last()) + s.last()
    }
}

proof fn lemma_count_le_len(s: Seq<int>, j: int)
    ensures
        count_eq(s, j) <= s.len(),
    decreases s.len(),
{
    if s.len() > 0 {
        lemma_count_le_len(s.drop_last(), j);
    }
}

proof fn lemma_count_push(s: Seq<int>, x: int, j: int)
    ensures
        count_eq(s.push(x), j) == count_eq(s, j) + if x == j {
            1nat
        } else {
            0nat
        },
{
    assert(s.push(x).drop_last() =~= s);
    assert(s.push(x).last() == x);
}

proof fn lemma_sum_update(s: Seq<usize>, i: int, v: usize)
    requires
        0 <= i < s.len(),
    ensures
        sum_counts(s.update(i, v)) == sum_counts(s) - s[i] + v,
    decreases s.len(),
{
    if i == s.len() - 1 {
        assert(s.update(i, v).drop_last() =~= s.drop_last());
        assert(s.update(i, v).last() == v);
    } else {
        assert(s.update(i, v).drop_last() =~= s.drop_last().update(i, v));
        assert(s.update(i, v).last() == s.last());
        lemma_sum_update(s.drop_last(), i, v);
    }
}

/// Every non-negative raw bin index resolves to a bin in `[0, num_bins)`,
/// and a raw index at `num_bins` — the one the maximum observation's
/// scaling can produce — resolves to the last bin.
pub proof fn lemma_bin_index_in_range(i: int, num_bins: int)
    requires
        num_bins >= 1,
        0 <= i,
    ensures
        0 <= clamp_spec(i, num_bins) < num_bins,
        i >= num_bins ==> clamp_spec(i, num_bins) == num_bins - 1,
{
}

/// Clamp a raw bin index into `[0, num_bins)`.  The maximum observation's
/// raw index resolves to exactly `num_bins` in the driver's scaling step and
/// is pulled back into the last bin here.
pub fn clamp_index(i: usize, num_bins: usize) -> (b: usize)
    requires
        num_bins >= 1,
    ensures
        b as int == clamp_spec(i as int, num_bins as int),
        b < num_bins,
        i < num_bins ==> b == i,
        i >= num_bins ==> b == num_bins - 1,
{
    if i < num_bins {
        i
    } else {
        num_bins - 1
    }
}

/// An ordered sequence of per-bin occurrence counts, one per bin.
pub struct Histogram {
    counts: Vec<usize>,
}

impl View for Histogram {
    type V = Seq<usize>;

    closed spec fn view(&self) -> Seq<usize> {
        self.counts@
    }
}

impl Histogram {
    /// Build a histogram from one raw bin index per observed value.
    ///
    /// No indices yield the empty histogram (zero bins); otherwise there are
    /// exactly `num_bins` bins, bin `j` counts the indices that clamp to
    /// `j`, and the counts sum to the number of indices.
    pub fn from_indices(indices: &Vec<usize>, num_bins: usize) -> (h: Histogram)
        requires
            indices@.len() > 0 ==> num_bins >= 1,
        ensures
            h@.len() == if indices@.len() == 0 {
                0int
            } else {
                num_bins as int
            },
            forall|j: int|
                0 <= j < h@.len() ==> h@[j] as nat == bin_count(indices@, num_bins as int, j),
            sum_counts(h@) == indices@.len(),
    {
        let mut counts: Vec<usize> = Vec::new();
        if indices.len() == 0 {
            return Histogram { counts };
        }
        let mut j: usize = 0;
        while j < num_bins
            invariant
                j <= num_bins,
                counts@.len() == j,
                forall|t: int| 0 <= t < j ==> counts@[t] == 0,
                sum_counts(counts@) == 0,
            decreases num_bins - j,
        {
            proof {
                assert(counts@.push(0usize).drop_last() =~= counts@);
            }
            counts.push(0);
            j = j + 1;
        }
        proof {
            assert(indices@.take(0) =~= Seq::<usize>::empty());
            assert forall|t: int| 0 <= t < num_bins implies counts@[t] as nat == bin_count(
                indices@.take(0),
                num_bins as int,
                t,
            ) by {
                assert(clamped_indices(indices@.take(0), num_bins as int) =~= Seq::<int>::empty());
            }
        }
        let mut k: usize = 0;
        while k < indices.len()
            invariant
                k <= indices@.len(),
                num_bins >= 1,
                counts@.len() == num_bins,
                forall|t: int|
                    0 <= t < num_bins ==> counts@[t] as nat == bin_count(
                        indices@.take(k as int),
                        num_bins as int,
                        t,
                    ),
                sum_counts(counts@) == k,
            decreases indices@.len() - k,
        {
            let i = indices[k];
            let b = clamp_index(i, num_bins);
            proof {
                lemma_count_le_len(clamped_indices(indices@.take(k as int), num_bins as int), b as int);
            }
            let c = counts[b];
            let ghost old_counts = counts@;
            counts.set(b, c + 1);
            proof {
                let n = num_bins as int;
                let taken = indices@.take(k as int);
                let bumped = indices@.take(k as int + 1);
                assert(bumped =~= taken.push(indices@[k as int]));
                assert(clamped_indices(bumped, n) =~= clamped_indices(taken, n).push(
                    clamp_spec(i as int, n),
                ));
                assert forall|t: int| 0 <= t < num_bins implies counts@[t] as nat == bin_count(
                    bumped,
                    n,
                    t,
                ) by {
                    lemma_count_push(clamped_indices(taken, n), clamp_spec(i as int, n), t);
                }
                lemma_sum_update(old_counts, b as int, (c + 1) as usize);
            }
            k = k + 1;
        }
        proof {
            assert(indices@.take(indices@.len() as int) =~= indices@);
        }
        Histogram { counts }
    }

    /// The per-bin counts, ordered by bin index ascending.
    pub fn into_counts(self) -> (r: Vec<usize>)
        ensures
            r@ == self@,
    {
        self.counts
    }
}

/// Rebuilding a histogram from the same bin indices and bin count yields an
/// identical count sequence: the contract of `from_indices` pins every bin's
/// count, so any two count sequences that satisfy it are equal.
pub proof fn lemma_histogram_deterministic(
    c1: Seq<usize>,
    c2: Seq<usize>,
    indices: Seq<usize>,
    num_bins: int,
)
    requires
        c1.len() == c2.len(),
        forall|j: int| 0 <= j < c1.len() ==> c1[j] as nat == bin_count(indices, num_bins, j),
        forall|j: int| 0 <= j < c2.len() ==> c2[j] as nat == bin_count(indices, num_bins, j),
    ensures
        c1 == c2,
{
    assert(c1 =~= c2);
}

} // verus!
