use vstd::prelude::*;

verus! {

/// The bin that index `i` falls in among `bins` bins: indices past the last
/// bin count in the last one.
pub open spec fn clamp_bin(i: usize, bins: nat) -> int {
    if (i as int) < bins {
        i as int
    } else {
        bins - 1
    }
}

/// The test that an index falls in bin `b` among `bins` bins.
pub open spec fn in_bin(b: int, bins: nat) -> spec_fn(usize) -> bool {
    |i: usize| clamp_bin(i, bins) == b
}

/// How many of `indices` fall in bin `b`.
pub open spec fn bin_count(indices: Seq<usize>, b: int, bins: nat) -> nat {
    indices.filter(in_bin(b, bins)).len()
}

/// The number of values in each of `bins` bins, given the bin index of each
/// value; an index past the last bin counts in the last one.
pub fn bin_counts(indices: &Vec<usize>, bins: usize) -> (r: Vec<usize>)
    requires
        bins > 0,
    ensures
        r@.len() == bins,
        forall|b: int| 0 <= b < bins ==> #[trigger] r@[b] == bin_count(indices@, b, bins as nat),
{
    let mut counts: Vec<usize> = Vec::new();
    let mut b: usize = 0;
    while b < bins
        invariant
            b <= bins,
            counts@.len() == b,
            forall|j: int| 0 <= j < b ==> #[trigger] counts@[j] == 0,
        decreases bins - b,
    {
        counts.push(0);
        b = b + 1;
    }
    let mut i: usize = 0;
    while i < indices.len()
        invariant
            i <= indices.len(),
            bins > 0,
            counts@.len() == bins,
            forall|j: int|
                0 <= j < bins ==> #[trigger] counts@[j] == bin_count(
                    indices@.take(i as int),
                    j,
                    bins as nat,
                ),
        decreases indices.len() - i,
    {
        let ghost before = indices@.take(i as int);
        let idx = indices[i];
        let target = if idx < bins {
            idx
        } else {
            bins - 1
        };
        proof {
            assert(indices@.take(i + 1) =~= before.push(idx));
            assert forall|j: int| 0 <= j < bins implies bin_count(indices@.take(i + 1), j, bins as nat)
                == bin_count(before, j, bins as nat) + (if j == target {
                1int
            } else {
                0int
            }) by {
                before.lemma_filter_push(idx, in_bin(j, bins as nat));
            }
            before.lemma_filter_len(in_bin(target as int, bins as nat));
        }
        counts.set(target, counts[target] + 1);
        i = i + 1;
    }
    assert(indices@.take(indices.len() as int) =~= indices@);
    counts
}

} // verus!
