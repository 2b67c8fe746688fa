//! The frequency table: how often each key has been seen.

use vstd::hash_map::StringHashMap;
use vstd::prelude::*;
use vstd::string::StringExecFns;
use crate::error::HistError;

verus! {

/// The sum of a sequence of counts.
pub open spec fn sum(counts: Seq<nat>) -> nat
    decreases counts.len(),
{
    if counts.len() == 0 {
        0
    } else {
        sum(counts.drop_last()) + counts.last()
    }
}

/// Appending a count adds it to the sum.
pub proof fn lemma_sum_push(counts: Seq<nat>, count: nat)
    ensures
        sum(counts.push(count)) == sum(counts) + count,
{
    assert(counts.push(count).drop_last() =~= counts);
}

/// No count exceeds the sum, and replacing one count changes the sum by the difference.
pub proof fn lemma_sum_update(counts: Seq<nat>, i: int, count: nat)
    requires
        0 <= i < counts.len(),
    ensures
        counts[i] <= sum(counts),
        sum(counts.update(i, count)) == sum(counts) - counts[i] + count,
    decreases counts.len(),
{
    if i == counts.len() - 1 {
        assert(counts.update(i, count).drop_last() =~= counts.drop_last());
    } else {
        lemma_sum_update(counts.drop_last(), i, count);
        assert(counts.update(i, count).drop_last() =~= counts.drop_last().update(i, count));
    }
}

/// Taking one count out lowers the sum by that count.
pub proof fn lemma_sum_remove(counts: Seq<nat>, i: int)
    requires
        0 <= i < counts.len(),
    ensures
        sum(counts) == sum(counts.remove(i)) + counts[i],
    decreases counts.len(),
{
    if i == counts.len() - 1 {
        assert(counts.remove(i) =~= counts.drop_last());
    } else {
        lemma_sum_remove(counts.drop_last(), i);
        assert(counts.remove(i).drop_last() =~= counts.drop_last().remove(i));
        assert(counts.remove(i).last() == counts.last());
    }
}

/// The counts that `counts` gives to the keys of `order`, in that order.
pub open spec fn counts_along(order: Seq<Seq<char>>, counts: Map<Seq<char>, nat>) -> Seq<nat> {
    order.map_values(|key: Seq<char>| counts[key])
}

/// The counts of the same keys in another order have the same sum.
pub proof fn lemma_sum_rearranged(
    left: Seq<Seq<char>>,
    right: Seq<Seq<char>>,
    counts: Map<Seq<char>, nat>,
)
    requires
        left.to_multiset() == right.to_multiset(),
    ensures
        sum(counts_along(left, counts)) == sum(counts_along(right, counts)),
    decreases left.len(),
{
    broadcast use vstd::seq_lib::group_to_multiset_ensures;

    vstd::seq_lib::to_multiset_len(left);
    vstd::seq_lib::to_multiset_len(right);
    if left.len() == 0 {
        assert(counts_along(left, counts) =~= counts_along(right, counts));
    } else {
        let key = left.last();
        assert(left.contains(key));
        assert(right.to_multiset().count(key) > 0);
        let at = right.index_of(key);
        assert(left.remove(left.len() - 1) =~= left.drop_last());
        lemma_sum_rearranged(left.drop_last(), right.remove(at), counts);
        assert(counts_along(left, counts).drop_last() =~= counts_along(left.drop_last(), counts));
        assert(counts_along(right, counts).remove(at) =~= counts_along(right.remove(at), counts));
        lemma_sum_remove(counts_along(right, counts), at);
    }
}

/// How often each key occurs in `column`.
pub open spec fn counts_of(column: Seq<Seq<char>>) -> Map<Seq<char>, nat> {
    Map::new(
        |key: Seq<char>| column.contains(key),
        |key: Seq<char>| column.to_multiset().count(key),
    )
}

/// The keys of `column`, each once, in the order in which each occurs first.
pub open spec fn distinct(column: Seq<Seq<char>>) -> Seq<Seq<char>> {
    column.remove_duplicates(Seq::empty())
}

/// What one more key at the end of a column changes: a key that the
/// column does not hold yet becomes the last of the distinct keys, and the
/// count of the key grows by one.
pub proof fn lemma_tally_push(column: Seq<Seq<char>>, key: Seq<char>)
    ensures
        distinct(column).contains(key) <==> column.contains(key),
        distinct(column.push(key)) == if column.contains(key) {
            distinct(column)
        } else {
            distinct(column).push(key)
        },
        counts_of(column.push(key)) == counts_of(column).insert(
            key,
            column.to_multiset().count(key) + 1,
        ),
        !column.contains(key) ==> column.to_multiset().count(key) == 0,
{
    broadcast use vstd::seq_lib::group_to_multiset_ensures;
    broadcast use vstd::multiset::group_multiset_axioms;

    let empty = Seq::<Seq<char>>::empty();
    column.lemma_remove_duplicates_properties(empty);
    column.lemma_remove_duplicates_append(key, empty);
    assert(column + empty =~= column);
    assert(column + seq![key] =~= column.push(key));
    assert(distinct(column) + seq![key] =~= distinct(column).push(key));
    assert(column.push(key).to_multiset() =~= column.to_multiset().insert(key));
    assert forall|other: Seq<char>| column.push(key).contains(other) <==> column.contains(other)
        || other == key by {
        if column.contains(other) {
            let at = column.index_of(other);
            assert(column.push(key)[at] == other);
        }
        if other == key {
            assert(column.push(key)[column.len() as int] == other);
        }
    }
    assert(counts_of(column.push(key)) =~= counts_of(column).insert(
        key,
        column.to_multiset().count(key) + 1,
    ));
}

/// A mapping from key to the number of times the key has been added.
///
/// The keys are kept in the order in which each was added first, each
/// with its count at the same position; a hash map leads from a key to its
/// position.
pub struct FrequencyTable {
    keys: Vec<String>,
    counts: Vec<usize>,
    positions: StringHashMap<usize>,
    total: usize,
}

impl View for FrequencyTable {
    type V = Map<Seq<char>, nat>;

    /// The table as a mapping: each key that was added, with its count.
    open spec fn view(&self) -> Map<Seq<char>, nat> {
        Map::new(
            |key: Seq<char>| self.keys().contains(key),
            |key: Seq<char>| self.counts()[self.keys().index_of(key)],
        )
    }
}

impl FrequencyTable {
    /// The keys of the table, in the order in which each was added first.
    pub closed spec fn keys(&self) -> Seq<Seq<char>> {
        self.keys@.map_values(|key: String| key@)
    }

    /// The counts of the table, each at the position of its key in `keys()`.
    pub closed spec fn counts(&self) -> Seq<nat> {
        self.counts@.map_values(|count: usize| count as nat)
    }

    /// The number of additions that the table has seen.
    pub closed spec fn spec_total(&self) -> nat {
        self.total as nat
    }

    /// Whether the hash map leads from each key, and from nothing else, to
    /// the position of the key.
    pub closed spec fn indexed(&self) -> bool {
        &&& forall|key: Seq<char>|
            self.positions@.contains_key(key) <==> self.keys().contains(key)
        &&& forall|key: Seq<char>| #[trigger]
            self.positions@.contains_key(key) ==> 0 <= self.positions@[key] < self.keys().len()
                && self.keys()[self.positions@[key] as int] == key
    }

    /// Well-formedness: every key stands once, with a positive count, and
    /// the counts add up to the number of additions.
    pub open spec fn wf(&self) -> bool {
        &&& self.keys().len() == self.counts().len()
        &&& self.keys().no_duplicates()
        &&& forall|i: int| 0 <= i < self.counts().len() ==> self.counts()[i] >= 1
        &&& self.spec_total() == sum(self.counts())
        &&& self.spec_total() <= usize::MAX
        &&& self.indexed()
    }

    /// How often `key` has been added: zero for a key that the table does not hold.
    pub open spec fn count_of(&self, key: Seq<char>) -> nat {
        if self@.dom().contains(key) {
            self@[key]
        } else {
            0
        }
    }

    /// Whether the table is the tally of `column`: whether it holds the keys
    /// of the column, each with the number of times it occurs there.
    pub open spec fn holds(&self, column: Seq<Seq<char>>) -> bool {
        &&& self.wf()
        &&& self.keys() == distinct(column)
        &&& self@ == counts_of(column)
        &&& self.spec_total() == column.len()
    }

    /// In a well-formed table the key at a position maps to the count at that position.
    pub proof fn lemma_entry(&self, i: int)
        requires
            self.wf(),
            0 <= i < self.keys().len(),
        ensures
            self@.dom().contains(self.keys()[i]),
            self@[self.keys()[i]] == self.counts()[i],
            self.count_of(self.keys()[i]) == self.counts()[i],
            1 <= self.counts()[i] <= self.spec_total(),
    {
        let key = self.keys()[i];
        assert(self.keys().contains(key));
        assert(self.keys().index_of(key) == i);
        lemma_sum_update(self.counts(), i, 0);
    }

    /// The counts of a well-formed table are those of its keys, and add up
    /// to the number of additions.
    pub proof fn lemma_counts(&self)
        requires
            self.wf(),
        ensures
            counts_along(self.keys(), self@) == self.counts(),
            sum(counts_along(self.keys(), self@)) == self.spec_total(),
    {
        assert forall|i: int| 0 <= i < self.keys().len() implies counts_along(self.keys(), self@)[i]
            == self.counts()[i] by {
            self.lemma_entry(i);
        }
        assert(counts_along(self.keys(), self@) =~= self.counts());
    }

    /// The empty table.
    pub fn new() -> (table: FrequencyTable)
        ensures
            table.wf(),
            table.keys() == Seq::<Seq<char>>::empty(),
            table@ == Map::<Seq<char>, nat>::empty(),
            table.spec_total() == 0,
            table.holds(Seq::empty()),
    {
        let table = FrequencyTable {
            keys: Vec::new(),
            counts: Vec::new(),
            positions: StringHashMap::new(),
            total: 0,
        };
        assert(table.keys() =~= Seq::<Seq<char>>::empty());
        assert(table.counts() =~= Seq::<nat>::empty());
        assert(table@ =~= Map::<Seq<char>, nat>::empty());
        assert(counts_of(Seq::empty()) =~= Map::<Seq<char>, nat>::empty());
        table
    }

    /// The number of distinct keys.
    pub fn len(&self) -> (n: usize)
        requires
            self.wf(),
        ensures
            n == self.keys().len(),
    {
        self.keys.len()
    }

    /// The number of additions that the table has seen: the sum of its counts.
    pub fn total(&self) -> (n: usize)
        requires
            self.wf(),
        ensures
            n == self.spec_total(),
            n == sum(self.counts()),
    {
        self.total
    }

    /// The key at position `i`, in the order of first addition.
    pub fn key(&self, i: usize) -> (key: &String)
        requires
            self.wf(),
            i < self.keys().len(),
        ensures
            key@ == self.keys()[i as int],
    {
        &self.keys[i]
    }

    /// The count of the key at position `i`.
    pub fn count_at(&self, i: usize) -> (count: usize)
        requires
            self.wf(),
            i < self.keys().len(),
        ensures
            count == self.counts()[i as int],
            count == self.count_of(self.keys()[i as int]),
    {
        proof {
            self.lemma_entry(i as int);
        }
        self.counts[i]
    }

    /// The position of `key` among the keys, if the table holds it.
    fn position(&self, key: &str) -> (found: Option<usize>)
        requires
            self.wf(),
        ensures
            match found {
                Some(i) => i < self.keys().len() && self.keys()[i as int] == key@,
                None => !self.keys().contains(key@),
            },
    {
        match self.positions.get(key) {
            Some(i) => Some(*i),
            None => None,
        }
    }

    /// How often `key` has been added: zero for a key that the table does not hold.
    pub fn count(&self, key: &str) -> (count: usize)
        requires
            self.wf(),
        ensures
            count == self.count_of(key@),
    {
        match self.position(key) {
            Some(i) => self.count_at(i),
            None => 0,
        }
    }

    /// Counts one more occurrence of `key`: a key that the table does not
    /// hold yet enters it with the count one, behind the keys it holds.
    pub fn add(&mut self, key: String)
        requires
            old(self).wf(),
            old(self).spec_total() < usize::MAX,
        ensures
            final(self).wf(),
            final(self).keys() == if old(self).keys().contains(key@) {
                old(self).keys()
            } else {
                old(self).keys().push(key@)
            },
            final(self)@ == old(self)@.insert(key@, old(self).count_of(key@) + 1),
            final(self).spec_total() == old(self).spec_total() + 1,
            forall|column: Seq<Seq<char>>| #[trigger]
                old(self).holds(column) ==> final(self).holds(column.push(key@)),
    {
        let ghost before = *self;
        proof {
            assert forall|column: Seq<Seq<char>>| #[trigger] before.holds(column) implies {
                &&& before.keys().contains(key@) <==> column.contains(key@)
                &&& before.count_of(key@) == column.to_multiset().count(key@)
                &&& distinct(column.push(key@)) == if column.contains(key@) {
                    distinct(column)
                } else {
                    distinct(column).push(key@)
                }
                &&& counts_of(column.push(key@)) == counts_of(column).insert(
                    key@,
                    column.to_multiset().count(key@) + 1,
                )
            } by {
                lemma_tally_push(column, key@);
            }
        }
        match self.position(key.as_str()) {
            Some(i) => {
                proof {
                    before.lemma_entry(i as int);
                }
                let count = self.counts[i];
                self.counts.set(i, count + 1);
                self.total = self.total + 1;
                proof {
                    assert(self.keys() == before.keys());
                    assert(self.counts() =~= before.counts().update(i as int, (count + 1) as nat));
                    lemma_sum_update(before.counts(), i as int, (count + 1) as nat);
                    assert(self@ =~= before@.insert(key@, before.count_of(key@) + 1)) by {
                        assert forall|k: Seq<char>| self.keys().contains(k) implies self@[k]
                            == before@.insert(key@, before.count_of(key@) + 1)[k] by {
                            let j = self.keys().index_of(k);
                            assert(self.keys()[j] == k);
                            if k == key@ {
                                assert(j == i);
                            }
                        }
                    }
                }
            },
            None => {
                self.positions.insert(key.clone(), self.keys.len());
                self.keys.push(key);
                self.counts.push(1);
                self.total = self.total + 1;
                proof {
                    assert(self.keys() =~= before.keys().push(key@));
                    assert(self.indexed()) by {
                        let n = before.keys().len() as int;
                        assert(self.positions@ == before.positions@.insert(key@, n as usize));
                        assert forall|k: Seq<char>|
                            self.positions@.contains_key(k) <==> self.keys().contains(k) by {
                            if k == key@ {
                                assert(self.keys()[n] == k);
                            } else {
                                if before.keys().contains(k) {
                                    let j = before.keys().index_of(k);
                                    assert(self.keys()[j] == k);
                                }
                                if self.keys().contains(k) {
                                    let j = self.keys().index_of(k);
                                    assert(before.keys()[j] == k);
                                }
                            }
                        }
                    }
                    assert(self.counts() =~= before.counts().push(1));
                    lemma_sum_push(before.counts(), 1);
                    assert(self@ =~= before@.insert(key@, before.count_of(key@) + 1)) by {
                        assert forall|k: Seq<char>| self.keys().contains(k) implies self@[k]
                            == before@.insert(key@, before.count_of(key@) + 1)[k] by {
                            let j = self.keys().index_of(k);
                            assert(self.keys()[j] == k);
                            if k != key@ {
                                assert(before.keys()[j] == k);
                                assert(before.keys().index_of(k) == j);
                            } else {
                                assert(j == before.keys().len());
                            }
                        }
                        assert forall|k: Seq<char>| self.keys().contains(k) <==> (
                        before.keys().contains(k) || k == key@) by {
                            if before.keys().contains(k) {
                                let j = before.keys().index_of(k);
                                assert(self.keys()[j] == k);
                            }
                            if k == key@ {
                                assert(self.keys()[before.keys().len() as int] == k);
                            }
                        }
                    }
                }
            },
        }
    }

    /// Counts one more record, given its key field.
    ///
    /// A record without a key field is an error, reported with the number
    /// of records counted before it, and so is a record beyond the number
    /// that a `usize` can hold; neither changes the table.
    pub fn count_record(&mut self, key_field: Option<&str>) -> (counted: Result<(), HistError>)
        requires
            old(self).wf(),
        ensures
            final(self).wf(),
            match key_field {
                None => counted == Err::<(), HistError>(
                    HistError::MissingField { record: old(self).spec_total() as usize },
                ) && *final(self) == *old(self),
                Some(key) => if old(self).spec_total() == usize::MAX {
                    counted == Err::<(), HistError>(HistError::TooManyRecords) && *final(self)
                        == *old(self)
                } else {
                    &&& counted is Ok
                    &&& final(self).keys() == if old(self).keys().contains(key@) {
                        old(self).keys()
                    } else {
                        old(self).keys().push(key@)
                    }
                    &&& final(self)@ == old(self)@.insert(key@, old(self).count_of(key@) + 1)
                    &&& final(self).spec_total() == old(self).spec_total() + 1
                    &&& forall|column: Seq<Seq<char>>| #[trigger]
                        old(self).holds(column) ==> final(self).holds(column.push(key@))
                },
            },
    {
        match key_field {
            None => Err(HistError::MissingField { record: self.total }),
            Some(key) => {
                if self.total == usize::MAX {
                    Err(HistError::TooManyRecords)
                } else {
                    self.add(String::from_str(key));
                    Ok(())
                }
            },
        }
    }
}

/// The frequency table of a column of keys: each key with the number of
/// times it occurs in the column.
pub fn tally(column: &Vec<String>) -> (table: FrequencyTable)
    ensures
        table.holds(column.deep_view()),
{
    let ghost keys = column.deep_view();
    let mut table = FrequencyTable::new();
    let mut i: usize = 0;
    assert(keys.take(0) =~= Seq::<Seq<char>>::empty());
    while i < column.len()
        invariant
            i <= column.len(),
            keys == column.deep_view(),
            table.holds(keys.take(i as int)),
        decreases column.len() - i,
    {
        table.add(column[i].clone());
        assert(keys.take(i as int).push(keys[i as int]) =~= keys.take(i + 1));
        i += 1;
    }
    assert(keys.take(i as int) =~= keys);
    table
}

} // verus!
