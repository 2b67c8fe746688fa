//! From the bytes of the input to the lines of the histogram.

use vstd::prelude::*;
use crate::column::{first_lacking, key_column, key_field, lacks_key, lemma_first_lacking};
use crate::config::Config;
use crate::error::{yields, HistError};
use crate::natural::{all_orderable, natural_sorted, naturally_ordered};
use crate::records::{
    has_failure, lemma_sound_reads, lemma_sound_reads_skip, next_record, open_reader, pending,
    sound_reads, sound_records, split_records,
};
use crate::render::{lines_of, plot};
use crate::table::{counts_along, counts_of, distinct, sum, FrequencyTable};

verus! {

/// The keys of the records of `input`, in the order of the records, or the
/// error that reading them meets first.
pub open spec fn column_of(input: Seq<u8>, config: Config) -> Result<Seq<Seq<char>>, HistError> {
    let reads = split_records(input, config.delimiter);
    key_column(sound_records(reads), has_failure(reads), config.key)
}

/// The lines of the histogram of `input`: one line for each distinct key,
/// with the number of records that have the key, the keys in natural
/// lexical order.
pub open spec fn histogram_of(input: Seq<u8>, config: Config) -> Result<Seq<Seq<char>>, HistError> {
    match column_of(input, config) {
        Err(e) => Err(e),
        Ok(column) => if all_orderable(distinct(column)) {
            Ok(lines_of(natural_sorted(distinct(column)), counts_of(column)))
        } else {
            Err(HistError::NumberTooLarge)
        },
    }
}

/// Whether the lines of the histogram of `input` show each distinct key
/// once, the keys in natural lexical order, with no count of zero and with
/// counts that add up to the number of records of the input.
pub open spec fn shows_every_record(input: Seq<u8>, config: Config) -> bool {
    let column = column_of(input, config)->Ok_0;
    let order = natural_sorted(distinct(column));
    &&& order.to_multiset() == distinct(column).to_multiset()
    &&& order.no_duplicates()
    &&& naturally_ordered(order)
    &&& forall|i: int| 0 <= i < order.len() ==> counts_of(column)[#[trigger] order[i]] >= 1
    &&& sum(counts_along(order, counts_of(column))) == split_records(input, config.delimiter).len()
}

/// Where every record has its key, each read of the input gave a record,
/// and the keys are the key fields of these records, one for each.
pub proof fn lemma_one_key_for_each_record(input: Seq<u8>, config: Config)
    requires
        column_of(input, config) is Ok,
    ensures
        column_of(input, config)->Ok_0.len() == split_records(input, config.delimiter).len(),
        forall|i: int|
            #![trigger split_records(input, config.delimiter)[i]]
            0 <= i < split_records(input, config.delimiter).len() ==> {
                let read = split_records(input, config.delimiter)[i];
                &&& read is Some
                &&& 1 <= config.key <= read->0.len()
                &&& column_of(input, config)->Ok_0[i] == read->0[config.key - 1]
            },
{
    let reads = split_records(input, config.delimiter);
    lemma_sound_reads(reads);
    lemma_first_lacking(sound_records(reads), config.key);
    assert forall|i: int| #![trigger reads[i]] 0 <= i < reads.len() implies {
        &&& reads[i] is Some
        &&& 1 <= config.key <= reads[i]->0.len()
        &&& column_of(input, config)->Ok_0[i] == reads[i]->0[config.key - 1]
    } by {
        assert(sound_records(reads)[i] == reads[i]->0);
    }
}

/// Running twice on the same input with the same settings gives the same
/// lines, or the same error.
pub proof fn lemma_same_input_same_lines(
    input: Seq<u8>,
    config: Config,
    first: Result<Vec<String>, HistError>,
    second: Result<Vec<String>, HistError>,
)
    requires
        yields(first, histogram_of(input, config)),
        yields(second, histogram_of(input, config)),
    ensures
        match (first, second) {
            (Ok(lines), Ok(again)) => lines.deep_view() == again.deep_view(),
            (Err(error), Err(again)) => error == again,
            _ => false,
        },
{
}

/// The keys of the first `count` reads, all of which gave a record with its key.
spec fn keys_so_far(reads: Seq<Option<Seq<Seq<char>>>>, key: usize, count: nat) -> Seq<Seq<char>> {
    Seq::new(count, |i: int| reads[i]->0[key - 1])
}

/// Whether the first `count` reads each gave a record that has its key.
spec fn sound_so_far(reads: Seq<Option<Seq<Seq<char>>>>, key: usize, count: nat) -> bool {
    &&& count <= reads.len()
    &&& forall|i: int|
        0 <= i < count ==> (#[trigger] reads[i]) is Some && !lacks_key(reads[i]->0, key)
}

/// What is known of the records once the first `count` reads each gave a
/// record that has its key: none of these records is the first that lacks
/// it, and the reads that follow decide on the rest.
proof fn lemma_sound_so_far(reads: Seq<Option<Seq<Seq<char>>>>, key: usize, count: nat)
    requires
        sound_so_far(reads, key, count),
    ensures
        sound_reads(reads) == count + sound_reads(reads.skip(count as int)),
        sound_records(reads).len() >= count,
        first_lacking(sound_records(reads), key) matches Some(i) ==> i >= count,
        sound_reads(reads) == count ==> first_lacking(sound_records(reads), key) is None
            && sound_records(reads).map_values(|record: Seq<Seq<char>>| record[key - 1])
            == keys_so_far(reads, key, count),
        sound_reads(reads) > count && lacks_key(reads[count as int]->0, key) ==> first_lacking(
            sound_records(reads),
            key,
        ) == Some(count as int),
{
    let records = sound_records(reads);
    lemma_sound_reads_skip(reads, count as int);
    lemma_first_lacking(records, key);
    assert forall|i: int| 0 <= i < count implies !lacks_key(#[trigger] records[i], key) by {
        assert(reads[i] is Some);
    }
    if sound_reads(reads) == count {
        assert(records.map_values(|record: Seq<Seq<char>>| record[key - 1]) =~= keys_so_far(
            reads,
            key,
            count,
        ));
    }
    if sound_reads(reads) > count && lacks_key(reads[count as int]->0, key) {
        assert(lacks_key(records[count as int], key));
    }
}

/// The frequency table of `input`: how many of its records have each key.
///
/// The records are read one after the other, and each is counted before
/// the next is read.
pub fn aggregate(input: &[u8], config: &Config) -> (table: Result<FrequencyTable, HistError>)
    ensures
        match column_of(input@, *config) {
            Ok(column) => {
                &&& table matches Ok(table)
                &&& table.holds(column)
                &&& column.len() == split_records(input@, config.delimiter).len()
            },
            Err(e) => table matches Err(error) && error == e,
        },
{
    let ghost reads = split_records(input@, config.delimiter);
    let key = config.key;
    let mut reader = open_reader(input, config.delimiter, false);
    let mut record = csv::StringRecord::new();
    let mut table = FrequencyTable::new();
    assert(reads.skip(0) =~= reads);
    assert(keys_so_far(reads, key, 0) =~= Seq::empty());
    loop
        invariant
            reads == split_records(input@, config.delimiter),
            key == config.key,
            table.wf(),
            pending(reader) == reads.skip(table.spec_total() as int),
            sound_so_far(reads, key, table.spec_total()),
            table.holds(keys_so_far(reads, key, table.spec_total())),
        decreases pending(reader).len(),
    {
        let ghost count = table.spec_total();
        proof {
            lemma_sound_so_far(reads, key, count);
            lemma_sound_reads(reads);
            if count < reads.len() {
                assert(reads.skip(count as int)[0] == reads[count as int]);
            }
        }
        match next_record(&mut reader, &mut record) {
            Ok(true) => {
                let field = key_field(&record, key);
                proof {
                    let records = sound_records(reads);
                    assert(sound_reads(reads.skip(count as int)) >= 1);
                    assert(records[count as int] == reads[count as int]->0);
                    lemma_first_lacking(records, key);
                }
                match table.count_record(field) {
                    Ok(()) => {
                        proof {
                            assert(reads.skip(count as int).skip(1) =~= reads.skip(count as int + 1));
                            assert(keys_so_far(reads, key, count).push(
                                reads[count as int]->0[key - 1],
                            ) =~= keys_so_far(reads, key, count + 1));
                        }
                    },
                    Err(e) => {
                        return Err(e);
                    },
                }
            },
            Ok(false) => {
                proof {
                    lemma_one_key_for_each_record(input@, *config);
                }
                return Ok(table);
            },
            Err(_) => {
                return Err(HistError::Parse { record: table.total() });
            },
        }
    }
}

/// The histogram of `input`, line by line.
pub fn histogram(input: &[u8], config: &Config) -> (lines: Result<Vec<String>, HistError>)
    ensures
        yields(lines, histogram_of(input@, *config)),
        lines is Ok ==> shows_every_record(input@, *config),
{
    match aggregate(input, config) {
        Ok(table) => plot(&table),
        Err(e) => Err(e),
    }
}

} // verus!
