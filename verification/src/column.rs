//! Taking the key of each record.

use vstd::prelude::*;
use crate::error::HistError;
use crate::records::fields_of;

verus! {

/// Whether `record` has no field at position `key`, counted from one.
pub open spec fn lacks_key(record: Seq<Seq<char>>, key: usize) -> bool {
    key == 0 || record.len() < key
}

/// The index of the first of `records` that lacks the key, if one does.
pub open spec fn first_lacking(records: Seq<Seq<Seq<char>>>, key: usize) -> Option<int>
    decreases records.len(),
{
    if records.len() == 0 {
        None
    } else {
        match first_lacking(records.drop_last(), key) {
            Some(i) => Some(i),
            None => if lacks_key(records.last(), key) {
                Some(records.len() - 1)
            } else {
                None
            },
        }
    }
}

/// The keys of `records`, in the order of the records.
///
/// A record that lacks the key is an error, the first such record the one
/// that is reported. Where no record lacks the key and reading the records
/// had `failed`, the failure is the error; it is reported with the number of
/// records read before it. Records beyond the number that a `usize` can
/// hold cannot be counted: the first of them is an error unless an earlier
/// error is met.
pub open spec fn key_column(records: Seq<Seq<Seq<char>>>, failed: bool, key: usize) -> Result<
    Seq<Seq<char>>,
    HistError,
> {
    let lacking = first_lacking(records, key);
    if lacking is Some && lacking->0 <= usize::MAX {
        Err(HistError::MissingField { record: lacking->0 as usize })
    } else if records.len() > usize::MAX {
        Err(HistError::TooManyRecords)
    } else if failed {
        Err(HistError::Parse { record: records.len() as usize })
    } else {
        Ok(records.map_values(|record: Seq<Seq<char>>| record[key - 1]))
    }
}

/// The first record that lacks the key is one that lacks it, with none
/// before it that does; there is such a record unless every record has the key.
pub proof fn lemma_first_lacking(records: Seq<Seq<Seq<char>>>, key: usize)
    ensures
        match first_lacking(records, key) {
            Some(i) => 0 <= i < records.len() && lacks_key(records[i], key) && forall|j: int|
                0 <= j < i ==> !lacks_key(#[trigger] records[j], key),
            None => forall|j: int| 0 <= j < records.len() ==> !lacks_key(#[trigger] records[j], key),
        },
    decreases records.len(),
{
    if records.len() > 0 {
        let front = records.drop_last();
        lemma_first_lacking(front, key);
        match first_lacking(front, key) {
            Some(i) => {
                assert(front[i] == records[i]);
                assert forall|j: int| 0 <= j < i implies !lacks_key(#[trigger] records[j], key) by {
                    assert(front[j] == records[j]);
                }
            },
            None => {
                assert forall|j: int| 0 <= j < records.len() - 1 implies !lacks_key(
                    #[trigger] records[j],
                    key,
                ) by {
                    assert(front[j] == records[j]);
                }
            },
        }
    }
}

/// The key field of `record`: its field at position `key`, counted from
/// one, or `None` where the record lacks the key.
pub fn key_field(record: &csv::StringRecord, key: usize) -> (field: Option<&str>)
    ensures
        match field {
            Some(text) => !lacks_key(fields_of(*record), key) && text@ == fields_of(
                *record,
            )[key - 1],
            None => lacks_key(fields_of(*record), key),
        },
{
    if key == 0 {
        None
    } else {
        record.get(key - 1)
    }
}

} // verus!
