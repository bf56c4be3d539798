use vstd::prelude::*;

use crate::analyzer::DataAnalyzer;
use crate::dataset::{column_position, column_values, has_column, names_missing_column, DataSet};
use crate::error::AnalysisError;

verus! {

broadcast use vstd::seq_lib::group_to_multiset_ensures;

/// The text of each string of `s`.
pub open spec fn texts(s: Seq<String>) -> Seq<Seq<char>> {
    s.map_values(|x: String| x@)
}

/// The distinct values of a frequency table, in the order of the table.
pub open spec fn keys_of(entries: Seq<(String, usize)>) -> Seq<Seq<char>> {
    entries.map_values(|e: (String, usize)| e.0@)
}

/// How often each distinct value occurs, with the number of values counted.
/// The order of the entries carries no meaning.
#[derive(Debug, Clone)]
pub struct FrequencyData {
    pub frequencies: Vec<(String, usize)>,
    pub total_count: usize,
}

impl FrequencyData {
    /// Whether this table counts `values`: one entry for each distinct value,
    /// holding the number of its occurrences, and the total is the number of
    /// values.
    pub open spec fn counts(self, values: Seq<Seq<char>>) -> bool {
        &&& keys_of(self.frequencies@).no_duplicates()
        &&& forall|i: int|
            0 <= i < self.frequencies@.len() ==> (#[trigger] self.frequencies@[i]).1 as nat
                == values.to_multiset().count(self.frequencies@[i].0@)
        &&& forall|i: int|
            0 <= i < self.frequencies@.len() ==> values.contains(
                (#[trigger] self.frequencies@[i]).0@,
            )
        &&& forall|v: Seq<char>| values.contains(v) ==> #[trigger] keys_of(
            self.frequencies@,
        ).contains(v)
        &&& self.total_count == values.len()
    }

    /// The number of occurrences of `value`, zero when it never occurs.
    pub fn count_of(&self, value: &str) -> (r: usize)
        requires
            keys_of(self.frequencies@).no_duplicates(),
        ensures
            forall|values: Seq<Seq<char>>| #[trigger]
                self.counts(values) ==> r as nat == values.to_multiset().count(value@),
    {
        let key: String = value.to_owned();
        let mut j: usize = 0;
        while j < self.frequencies.len()
            invariant
                j <= self.frequencies.len(),
                key@ == value@,
                forall|k: int| 0 <= k < j ==> self.frequencies@[k].0@ != value@,
            decreases self.frequencies.len() - j,
        {
            if self.frequencies[j].0 == key {
                return self.frequencies[j].1;
            }
            j = j + 1;
        }
        proof {
            assert forall|values: Seq<Seq<char>>| #[trigger]
                self.counts(values) implies 0 == values.to_multiset().count(value@) by {
                if values.to_multiset().count(value@) > 0 {
                    assert(values.contains(value@));
                    assert(keys_of(self.frequencies@).contains(value@));
                    let k = choose|k: int|
                        0 <= k < self.frequencies@.len() && keys_of(self.frequencies@)[k]
                            == value@;
                    assert(self.frequencies@[k].0@ == value@);
                }
            }
        }
        0
    }
}

/// Whether the entries come by count, largest first.
pub open spec fn by_count_descending(e: Seq<(String, usize)>) -> bool {
    forall|i: int, j: int| 0 <= i < j < e.len() ==> e[i].1 >= e[j].1
}

proof fn lemma_insert_multiset(s: Seq<(String, usize)>, p: int, a: (String, usize))
    requires
        0 <= p <= s.len(),
    ensures
        s.insert(p, a).to_multiset() == s.to_multiset().insert(a),
{
    broadcast use vstd::seq_lib::lemma_multiset_commutative;

    assert(s.insert(p, a) =~= s.take(p).push(a) + s.skip(p));
    assert(s =~= s.take(p) + s.skip(p));
    assert(s.insert(p, a).to_multiset() =~= s.to_multiset().insert(a));
}

impl FrequencyData {
    /// The entries ordered by count, largest first; entries with equal counts
    /// keep their order.
    pub fn entries_by_count(&self) -> (r: Vec<(String, usize)>)
        ensures
            r@.to_multiset() == self.frequencies@.to_multiset(),
            by_count_descending(r@),
    {
        let mut out: Vec<(String, usize)> = Vec::new();
        let mut i: usize = 0;
        while i < self.frequencies.len()
            invariant
                i <= self.frequencies.len(),
                out@.to_multiset() == self.frequencies@.take(i as int).to_multiset(),
                by_count_descending(out@),
            decreases self.frequencies.len() - i,
        {
            let count = self.frequencies[i].1;
            let entry = (self.frequencies[i].0.clone(), count);
            assert(entry == self.frequencies@[i as int]);
            let mut p: usize = 0;
            while p < out.len() && out[p].1 >= count
                invariant
                    p <= out.len(),
                    forall|k: int| 0 <= k < p ==> out@[k].1 >= count,
                decreases out.len() - p,
            {
                p = p + 1;
            }
            let ghost before = out@;
            proof {
                lemma_insert_multiset(before, p as int, entry);
                assert(self.frequencies@.take(i + 1) =~= self.frequencies@.take(i as int).push(
                    entry,
                ));
            }
            out.insert(p, entry);
            proof {
                assert forall|k: int| p <= k < before.len() implies before[k].1 < count by {
                    assert(before[p as int].1 < count);
                }
                assert forall|a: int, b: int| 0 <= a < b < out@.len() implies out@[a].1
                    >= out@[b].1 by {
                    if b < p {
                    } else if b == p {
                    } else if a < p {
                        assert(out@[b] == before[b - 1]);
                    } else if a == p {
                        assert(out@[b] == before[b - 1]);
                    } else {
                        assert(out@[a] == before[a - 1]);
                        assert(out@[b] == before[b - 1]);
                    }
                }
            }
            i = i + 1;
        }
        assert(self.frequencies@.take(self.frequencies.len() as int) =~= self.frequencies@);
        out
    }
}

impl DataAnalyzer {
    /// Counts the occurrences of each distinct string of `data`.
    pub fn calculate_frequency(&self, data: &[String]) -> (r: FrequencyData)
        ensures
            r.counts(texts(data@)),
    {
        let ghost all = texts(data@);
        let mut entries: Vec<(String, usize)> = Vec::new();
        let mut i: usize = 0;
        while i < data.len()
            invariant
                i <= data.len(),
                all == texts(data@),
                (FrequencyData { frequencies: entries, total_count: i }).counts(
                    all.take(i as int),
                ),
            decreases data.len() - i,
        {
            let ghost before = all.take(i as int);
            let ghost after = all.take(i + 1);
            let ghost old_entries = entries@;
            assert(after =~= before.push(data@[i as int]@));
            let mut j: usize = 0;
            let mut found = false;
            while j < entries.len() && !found
                invariant
                    j <= entries.len(),
                    i < data.len(),
                    entries@ == old_entries,
                    found ==> j < entries.len() && entries@[j as int].0@ == data@[i as int]@,
                    !found ==> forall|k: int| 0 <= k < j ==> entries@[k].0@ != data@[i as int]@,
                decreases entries.len() - j + (if found {
                    0int
                } else {
                    1int
                }),
            {
                if entries[j].0 == data[i] {
                    found = true;
                } else {
                    j = j + 1;
                }
            }
            assert(!found ==> j == entries.len());
            if found {
                let c = entries[j].1;
                assert(c as nat == before.to_multiset().count(data@[i as int]@));
                assert(before.to_multiset().count(data@[i as int]@) <= before.len()) by {
                    before.to_multiset_ensures();
                    lemma_count_le_len(before, data@[i as int]@);
                }
                let key = entries[j].0.clone();
                entries.set(j, (key, c + 1));
                assert(keys_of(entries@) =~= keys_of(old_entries));
            } else {
                proof {
                    assert forall|k: int| 0 <= k < old_entries.len() implies keys_of(
                        old_entries,
                    )[k] != data@[i as int]@ by {
                        assert(old_entries[k].0@ != data@[i as int]@);
                    }
                    if before.contains(data@[i as int]@) {
                        assert(keys_of(old_entries).contains(data@[i as int]@));
                        let m = choose|m: int|
                            0 <= m < old_entries.len() && keys_of(old_entries)[m]
                                == data@[i as int]@;
                        assert(false);
                    }
                }
                entries.push((data[i].clone(), 1));
                assert(keys_of(entries@) =~= keys_of(old_entries).push(data@[i as int]@));
            }
            i = i + 1;
            proof {
                let e = FrequencyData { frequencies: entries, total_count: i };
                assert forall|v: Seq<char>| after.contains(v) implies #[trigger] keys_of(
                    e.frequencies@,
                ).contains(v) by {
                    if v != data@[i - 1]@ {
                        let k = choose|k: int| 0 <= k < after.len() && after[k] == v;
                        assert(before[k] == v);
                        assert(keys_of(old_entries).contains(v));
                        let m = choose|m: int|
                            0 <= m < old_entries.len() && keys_of(old_entries)[m] == v;
                        assert(keys_of(e.frequencies@)[m] == v);
                    } else if found {
                        assert(keys_of(e.frequencies@)[j as int] == v);
                    } else {
                        assert(keys_of(e.frequencies@)[old_entries.len() as int] == v);
                    }
                }
                assert forall|k: int| 0 <= k < e.frequencies@.len() implies after.contains(
                    (#[trigger] e.frequencies@[k]).0@,
                ) by {
                    if k < old_entries.len() {
                        assert(e.frequencies@[k].0@ == old_entries[k].0@);
                        assert(before.contains(old_entries[k].0@));
                        let m = choose|m: int| 0 <= m < before.len() && before[m] == old_entries[k].0@;
                        assert(after[m] == before[m]);
                    } else {
                        assert(after[i - 1] == data@[i - 1]@);
                    }
                }
                assert(keys_of(e.frequencies@).no_duplicates());
                assert forall|k: int| 0 <= k < e.frequencies@.len() implies (
                #[trigger] e.frequencies@[k]).1 as nat == after.to_multiset().count(
                    e.frequencies@[k].0@,
                ) by {
                    let x = data@[i - 1]@;
                    assert(after.to_multiset() =~= before.to_multiset().insert(x));
                    if k < old_entries.len() {
                        assert(old_entries[k].1 as nat == before.to_multiset().count(
                            old_entries[k].0@,
                        ));
                        if found && k == j {
                            assert(old_entries[k].0@ == x);
                        } else {
                            assert(e.frequencies@[k] == old_entries[k]);
                            if old_entries[k].0@ == x {
                                assert(keys_of(old_entries)[k] == x);
                                assert(found);
                                assert(keys_of(old_entries)[j as int] == x);
                                assert(false);
                            }
                        }
                    } else {
                        assert(!before.contains(x));
                        assert(before.to_multiset().count(x) == 0);
                    }
                }
                assert(e.counts(after));
            }
        }
        assert(all.take(data.len() as int) =~= all);
        FrequencyData { frequencies: entries, total_count: data.len() }
    }

    /// The frequency table of the column named `column_name`.
    pub fn analyze_column_frequency(&self, dataset: &DataSet, column_name: &str) -> (r: Result<
        FrequencyData,
        AnalysisError,
    >)
        ensures
            match r {
                Ok(f) => has_column(dataset@.headers, column_name@) && f.counts(
                    column_values(dataset@, column_position(dataset@.headers, column_name@)),
                ),
                Err(e) => !has_column(dataset@.headers, column_name@) && names_missing_column(
                    e,
                    column_name@,
                ),
            },
    {
        let column = dataset.get_column(column_name)?;
        let r = self.calculate_frequency(column.as_slice());
        assert(texts(column@) =~= column.deep_view());
        Ok(r)
    }
}

proof fn lemma_count_le_len(s: Seq<Seq<char>>, v: Seq<char>)
    ensures
        s.to_multiset().count(v) <= s.len(),
    decreases s.len(),
{
    if s.len() > 0 {
        lemma_count_le_len(s.drop_last(), v);
        assert(s =~= s.drop_last().push(s.last()));
        s.drop_last().to_multiset_ensures();
    }
}

} // verus!
