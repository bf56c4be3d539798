use vstd::prelude::*;

verus! {

broadcast use vstd::seq_lib::group_to_multiset_ensures;

/// Whether the entries come by key, strictly ascending.
pub open spec fn keys_ascending<V>(e: Seq<(i32, V)>) -> bool {
    forall|i: int, j: int| 0 <= i < j < e.len() ==> e[i].0 < e[j].0
}

proof fn lemma_insert_multiset<A>(s: Seq<A>, p: int, a: A)
    requires
        0 <= p <= s.len(),
    ensures
        s.insert(p, a).to_multiset() == s.to_multiset().insert(a),
{
    broadcast use vstd::seq_lib::lemma_multiset_commutative;

    assert(s.insert(p, a) =~= s.take(p).push(a) + s.skip(p));
    assert(s =~= s.take(p) + s.skip(p));
    assert(s.insert(p, a).to_multiset() =~= s.to_multiset().insert(a));
}

/// Whether `e` tallies `values`: one entry for each distinct value, ascending,
/// holding the number of its occurrences.
pub open spec fn tallies(e: Seq<(i32, usize)>, values: Seq<i32>) -> bool {
    &&& keys_ascending(e)
    &&& forall|i: int|
        0 <= i < e.len() ==> (#[trigger] e[i]).1 as nat == values.to_multiset().count(e[i].0)
    &&& forall|i: int| 0 <= i < e.len() ==> values.contains((#[trigger] e[i]).0)
    &&& forall|v: i32| values.contains(v) ==> exists|i: int| 0 <= i < e.len() && #[trigger] e[i].0 == v
}

/// The first position whose key is not below `x`, in entries ascending by key.
fn lower_bound<V>(e: &Vec<(i32, V)>, x: i32) -> (p: usize)
    requires
        keys_ascending(e@),
    ensures
        p <= e@.len(),
        forall|k: int| 0 <= k < p ==> e@[k].0 < x,
        forall|k: int| p <= k < e@.len() ==> e@[k].0 >= x,
{
    let mut p: usize = 0;
    while p < e.len() && e[p].0 < x
        invariant
            p <= e@.len(),
            keys_ascending(e@),
            forall|k: int| 0 <= k < p ==> e@[k].0 < x,
        decreases e@.len() - p,
    {
        p = p + 1;
    }
    proof {
        assert forall|k: int| p <= k < e@.len() implies e@[k].0 >= x by {
            if k > p {
                assert(e@[p as int].0 < e@[k].0);
            }
        }
    }
    p
}

/// The distinct values of `values` in ascending order, each with the number
/// of times it occurs.
pub fn value_counts(values: &Vec<i32>) -> (r: Vec<(i32, usize)>)
    ensures
        tallies(r@, values@),
{
    let mut out: Vec<(i32, usize)> = Vec::new();
    let mut i: usize = 0;
    while i < values.len()
        invariant
            i <= values.len(),
            tallies(out@, values@.take(i as int)),
        decreases values.len() - i,
    {
        let x = values[i];
        let ghost before = values@.take(i as int);
        let ghost old_out = out@;
        assert(values@.take(i + 1) =~= before.push(x));
        let p = lower_bound(&out, x);
        if p < out.len() && out[p].0 == x {
            let c = out[p].1;
            assert(c <= i) by {
                lemma_count_le_len(before, x);
            }
            out.set(p, (x, c + 1));
            proof {
                assert forall|v: i32| #[trigger] before.push(x).contains(v) implies exists|k: int|
                    0 <= k < out@.len() && #[trigger] out@[k].0 == v by {
                    if v == x {
                        assert(out@[p as int].0 == v);
                    } else {
                        let m = choose|m: int| 0 <= m < before.push(x).len() && before.push(x)[m] == v;
                        assert(before.contains(v)) by {
                            assert(before[m] == v);
                        }
                        let k = choose|k: int| 0 <= k < old_out.len() && #[trigger] old_out[k].0 == v;
                        assert(out@[k].0 == v);
                    }
                }
                assert forall|k: int| 0 <= k < out@.len() implies before.push(x).contains(
                    (#[trigger] out@[k]).0,
                ) by {
                    if k != p {
                        let m = choose|m: int| 0 <= m < before.len() && before[m] == old_out[k].0;
                        assert(before.push(x)[m] == old_out[k].0);
                    } else {
                        assert(before.push(x)[i as int] == x);
                    }
                }
            }
        } else {
            proof {
                if before.contains(x) {
                    let k = choose|k: int| 0 <= k < old_out.len() && #[trigger] old_out[k].0 == x;
                    assert(false);
                }
                lemma_insert_multiset(old_out, p as int, (x, 1usize));
            }
            out.insert(p, (x, 1));
            proof {
                assert forall|a: int, b: int| 0 <= a < b < out@.len() implies out@[a].0
                    < out@[b].0 by {
                    if b < p {
                    } else if b == p {
                    } else if a < p {
                        assert(out@[b] == old_out[b - 1]);
                    } else if a == p {
                        assert(out@[b] == old_out[b - 1]);
                    } else {
                        assert(out@[a] == old_out[a - 1]);
                        assert(out@[b] == old_out[b - 1]);
                    }
                }
                assert forall|k: int| 0 <= k < out@.len() implies (
                #[trigger] out@[k]).1 as nat == before.push(x).to_multiset().count(out@[k].0) by {
                    if k < p {
                        assert(out@[k] == old_out[k]);
                    } else if k > p {
                        assert(out@[k] == old_out[k - 1]);
                    }
                }
                assert forall|v: i32| #[trigger] before.push(x).contains(v) implies exists|k: int|
                    0 <= k < out@.len() && #[trigger] out@[k].0 == v by {
                    if v == x {
                        assert(out@[p as int].0 == v);
                    } else {
                        let m = choose|m: int| 0 <= m < before.push(x).len() && before.push(x)[m] == v;
                        assert(before.contains(v)) by {
                            assert(before[m] == v);
                        }
                        let k = choose|k: int| 0 <= k < old_out.len() && #[trigger] old_out[k].0 == v;
                        if k < p {
                            assert(out@[k].0 == v);
                        } else {
                            assert(out@[k + 1].0 == v);
                        }
                    }
                }
                assert forall|k: int| 0 <= k < out@.len() implies before.push(x).contains(
                    (#[trigger] out@[k]).0,
                ) by {
                    if k == p {
                        assert(before.push(x)[i as int] == x);
                    } else {
                        let j = if k < p {
                            k
                        } else {
                            k - 1
                        };
                        assert(out@[k] == old_out[j]);
                        let m = choose|m: int| 0 <= m < before.len() && before[m] == old_out[j].0;
                        assert(before.push(x)[m] == old_out[j].0);
                    }
                }
            }
        }
        i = i + 1;
    }
    assert(values@.take(values.len() as int) =~= values@);
    out
}

proof fn lemma_count_le_len<A>(s: Seq<A>, v: A)
    ensures
        s.to_multiset().count(v) <= s.len(),
    decreases s.len(),
{
    if s.len() > 0 {
        lemma_count_le_len(s.drop_last(), v);
        assert(s =~= s.drop_last().push(s.last()));
    }
}

/// The stem of a value written in tenths: its whole units, rounded toward
/// zero.
pub open spec fn stem_of(v: i32) -> i32 {
    if v >= 0 {
        (v / 10) as i32
    } else {
        (-((-(v as int)) / 10)) as i32
    }
}

/// The leaf of a value written in tenths: its tenths digit, without sign.
pub open spec fn leaf_of(v: i32) -> i32 {
    if v >= 0 {
        (v % 10) as i32
    } else {
        ((-(v as int)) % 10) as i32
    }
}

/// The stem and leaf of each value.
pub open spec fn stem_leaf_pairs(values: Seq<i32>) -> Seq<(i32, i32)> {
    values.map_values(|v: i32| (stem_of(v), leaf_of(v)))
}

/// Whether the leaves come in ascending order.
pub open spec fn leaves_ascending(s: Seq<i32>) -> bool {
    forall|a: int, b: int| 0 <= a < b < s.len() ==> s[a] <= s[b]
}

/// Whether `e` is the stem-and-leaf table of `values`: stems ascending, no
/// stem without leaves, each stem's leaves ascending and holding one leaf for
/// each value with that stem, and a stem for every value.
pub open spec fn is_stem_leaf_table(e: Seq<(i32, Vec<i32>)>, values: Seq<i32>) -> bool {
    &&& keys_ascending(e)
    &&& forall|i: int| 0 <= i < e.len() ==> (#[trigger] e[i]).1@.len() > 0
    &&& forall|i: int| 0 <= i < e.len() ==> leaves_ascending((#[trigger] e[i]).1@)
    &&& forall|i: int, l: i32|
        0 <= i < e.len() ==> #[trigger] e[i].1@.to_multiset().count(l) == stem_leaf_pairs(
            values,
        ).to_multiset().count((e[i].0, l))
    &&& forall|k: int|
        0 <= k < values.len() ==> exists|i: int|
            0 <= i < e.len() && #[trigger] e[i].0 == stem_of(#[trigger] values[k])
}

/// Splits a value written in tenths into its stem and leaf.
fn split_tenths(v: i32) -> (r: (i32, i32))
    ensures
        r.0 == stem_of(v),
        r.1 == leaf_of(v),
{
    if v >= 0 {
        (v / 10, v % 10)
    } else {
        let a: i64 = -(v as i64);
        (-(a / 10) as i32, (a % 10) as i32)
    }
}

/// `leaves` with `l` put in its place in ascending order.
fn insert_leaf(leaves: Vec<i32>, l: i32) -> (r: Vec<i32>)
    requires
        leaves_ascending(leaves@),
    ensures
        r@.to_multiset() == leaves@.to_multiset().insert(l),
        r@.len() == leaves@.len() + 1,
        leaves_ascending(r@),
{
    let mut r = leaves;
    let ghost before = r@;
    let mut p: usize = 0;
    while p < r.len() && r[p] <= l
        invariant
            p <= r@.len(),
            r@ == before,
            forall|k: int| 0 <= k < p ==> r@[k] <= l,
        decreases r@.len() - p,
    {
        p = p + 1;
    }
    proof {
        lemma_insert_multiset(before, p as int, l);
        assert forall|k: int| p <= k < before.len() implies before[k] > l by {
            assert(before[p as int] > l);
        }
    }
    r.insert(p, l);
    proof {
        assert forall|a: int, b: int| 0 <= a < b < r@.len() implies r@[a] <= r@[b] by {
            if b < p {
            } else if b == p {
            } else if a <= p {
                assert(r@[b] == before[b - 1]);
            } else {
                assert(r@[a] == before[a - 1]);
                assert(r@[b] == before[b - 1]);
            }
        }
    }
    r
}

/// The stem-and-leaf table of values written in tenths (`23` for 2.3).
pub fn stem_and_leaf(tenths: &Vec<i32>) -> (r: Vec<(i32, Vec<i32>)>)
    ensures
        is_stem_leaf_table(r@, tenths@),
{
    let mut out: Vec<(i32, Vec<i32>)> = Vec::new();
    let mut i: usize = 0;
    while i < tenths.len()
        invariant
            i <= tenths.len(),
            is_stem_leaf_table(out@, tenths@.take(i as int)),
        decreases tenths.len() - i,
    {
        let x = tenths[i];
        let ghost before = tenths@.take(i as int);
        let ghost after = tenths@.take(i + 1);
        let ghost old_out = out@;
        let (stem, leaf) = split_tenths(x);
        assert(after =~= before.push(x));
        assert(stem_leaf_pairs(after) =~= stem_leaf_pairs(before).push((stem, leaf)));
        let ghost pm = stem_leaf_pairs(after).to_multiset();
        assert(pm == stem_leaf_pairs(before).to_multiset().insert((stem, leaf)));
        let p = lower_bound(&out, stem);
        if p < out.len() && out[p].0 == stem {
            let (s, leaves) = out.remove(p);
            let ghost removed = out@;
            let merged = insert_leaf(leaves, leaf);
            out.insert(p, (s, merged));
            proof {
                assert forall|k: int| 0 <= k < out@.len() && k != p implies out@[k] == old_out[k] by {
                    if k < p {
                        assert(removed[k] == old_out[k]);
                    } else {
                        assert(removed[k - 1] == old_out[k]);
                    }
                }
                assert(keys_ascending(out@)) by {
                    assert forall|a: int, b: int| 0 <= a < b < out@.len() implies out@[a].0
                        < out@[b].0 by {
                        assert(out@[a].0 == old_out[a].0);
                        assert(out@[b].0 == old_out[b].0);
                    }
                }
                assert forall|k: int| 0 <= k < after.len() implies exists|j: int|
                    0 <= j < out@.len() && #[trigger] out@[j].0 == stem_of(#[trigger] after[k]) by {
                    if k < i {
                        assert(after[k] == before[k]);
                        let j = choose|j: int|
                            0 <= j < old_out.len() && #[trigger] old_out[j].0 == stem_of(before[k]);
                        assert(out@[j].0 == old_out[j].0);
                    } else {
                        assert(out@[p as int].0 == stem_of(after[k]));
                    }
                }
                assert forall|j: int, l: i32| 0 <= j < out@.len() implies #[trigger] out@[
                    j
                ].1@.to_multiset().count(l) == pm.count((out@[j].0, l)) by {
                    if j != p {
                        assert(old_out[j].1@.to_multiset().count(l) == stem_leaf_pairs(
                            before,
                        ).to_multiset().count((old_out[j].0, l)));
                        assert(old_out[j].0 != stem);
                    } else {
                        assert(old_out[j].1@.to_multiset().count(l) == stem_leaf_pairs(
                            before,
                        ).to_multiset().count((old_out[j].0, l)));
                    }
                }
                assert forall|j: int| 0 <= j < out@.len() implies leaves_ascending(
                    (#[trigger] out@[j]).1@,
                ) by {
                    if j != p {
                        assert(leaves_ascending(old_out[j].1@));
                    }
                }
            }
        } else {
            let mut leaves: Vec<i32> = Vec::new();
            leaves.push(leaf);
            out.insert(p, (stem, leaves));
            proof {
                assert forall|k: int| 0 <= k < out@.len() && k != p implies out@[k] == old_out[if k
                    < p {
                    k
                } else {
                    k - 1
                }] by {}
                assert(keys_ascending(out@)) by {
                    assert forall|a: int, b: int| 0 <= a < b < out@.len() implies out@[a].0
                        < out@[b].0 by {
                        if b < p {
                        } else if b == p {
                        } else if a < p {
                            assert(out@[b] == old_out[b - 1]);
                        } else if a == p {
                            assert(out@[b] == old_out[b - 1]);
                        } else {
                            assert(out@[a] == old_out[a - 1]);
                            assert(out@[b] == old_out[b - 1]);
                        }
                    }
                }
                assert forall|k: int| 0 <= k < after.len() implies exists|j: int|
                    0 <= j < out@.len() && #[trigger] out@[j].0 == stem_of(#[trigger] after[k]) by {
                    if k < i {
                        assert(after[k] == before[k]);
                        let j = choose|j: int|
                            0 <= j < old_out.len() && #[trigger] old_out[j].0 == stem_of(before[k]);
                        if j < p {
                            assert(out@[j].0 == old_out[j].0);
                        } else {
                            assert(out@[j + 1].0 == old_out[j].0);
                        }
                    } else {
                        assert(out@[p as int].0 == stem_of(after[k]));
                    }
                }
                assert forall|j: int, l: i32| 0 <= j < out@.len() implies #[trigger] out@[
                    j
                ].1@.to_multiset().count(l) == pm.count((out@[j].0, l)) by {
                    if j != p {
                        let o = if j < p {
                            j
                        } else {
                            j - 1
                        };
                        assert(old_out[o].1@.to_multiset().count(l) == stem_leaf_pairs(
                            before,
                        ).to_multiset().count((old_out[o].0, l)));
                        assert(old_out[o].0 != stem);
                    } else {
                        assert(out@[j].1@ =~= seq![leaf]);
                        assert(seq![leaf] =~= Seq::<i32>::empty().push(leaf));
                        if stem_leaf_pairs(before).to_multiset().count((stem, l)) > 0 {
                            let m = choose|m: int|
                                0 <= m < stem_leaf_pairs(before).len() && stem_leaf_pairs(
                                    before,
                                )[m] == (stem, l);
                            assert(stem_of(before[m]) == stem);
                            let o = choose|o: int|
                                0 <= o < old_out.len() && #[trigger] old_out[o].0 == stem_of(
                                    before[m],
                                );
                            assert(false);
                        }
                    }
                }
                assert forall|j: int| 0 <= j < out@.len() implies leaves_ascending(
                    (#[trigger] out@[j]).1@,
                ) by {
                    if j != p {
                        let o = if j < p {
                            j
                        } else {
                            j - 1
                        };
                        assert(leaves_ascending(old_out[o].1@));
                    }
                }
            }
        }
        proof {
            assert(keys_ascending(out@));
            assert(forall|j: int| 0 <= j < out@.len() ==> (#[trigger] out@[j]).1@.len() > 0);
            assert(forall|j: int| 0 <= j < out@.len() ==> leaves_ascending((#[trigger] out@[j]).1@));
            assert(forall|j: int, l: i32|
                0 <= j < out@.len() ==> #[trigger] out@[j].1@.to_multiset().count(l)
                    == stem_leaf_pairs(after).to_multiset().count((out@[j].0, l)));
            assert(forall|k: int|
                0 <= k < after.len() ==> exists|j: int|
                    0 <= j < out@.len() && #[trigger] out@[j].0 == stem_of(#[trigger] after[k]));
            assert(is_stem_leaf_table(out@, after));
        }
        i = i + 1;
    }
    assert(tenths@.take(tenths.len() as int) =~= tenths@);
    out
}

} // verus!
