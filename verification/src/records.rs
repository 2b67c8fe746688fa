//! Splitting the input into records.
//!
//! The splitting is done by the `csv` crate, with the delimiter of the run
//! and without a header row. Reading stops at the first record that the
//! crate refuses.

use vstd::prelude::*;

verus! {

/// `csv::Reader`, carried through as it is: what it will give is named by `pending`.
#[verifier::external_type_specification]
#[verifier::external_body]
#[verifier::reject_recursive_types(R)]
pub struct ExReader<R>(csv::Reader<R>);

/// `csv::StringRecord`, carried through as it is: what it holds is named by `fields_of`.
#[verifier::external_type_specification]
#[verifier::external_body]
pub struct ExStringRecord(csv::StringRecord);

/// `csv::Error`, of which nothing is read but that it came.
#[verifier::external_type_specification]
#[verifier::external_body]
pub struct ExError(csv::Error);

/// What the reads of a `csv::Reader` over `input` give, one after the
/// other, until the input is used up: the fields of a record, or `None`
/// for a read that fails. The reader is the one that `csv::ReaderBuilder`
/// builds for `delimiter`, with a header row or without one.
pub uninterp spec fn csv_reads(input: Seq<u8>, delimiter: u8, headers: bool) -> Seq<
    Option<Seq<Seq<char>>>,
>;

/// What the reads of the input give where every line is a record: with
/// `delimiter` between the fields, and without a header row.
pub open spec fn split_records(input: Seq<u8>, delimiter: u8) -> Seq<Option<Seq<Seq<char>>>> {
    csv_reads(input, delimiter, false)
}

/// What the reads of `reader` will give from now on until its input is used up.
pub uninterp spec fn pending(reader: csv::Reader<&[u8]>) -> Seq<Option<Seq<Seq<char>>>>;

/// The fields that `record` holds.
pub uninterp spec fn fields_of(record: csv::StringRecord) -> Seq<Seq<char>>;

/// `csv::StringRecord::new` makes a record for a reader to fill: nothing
/// is claimed of what it holds before that.
pub assume_specification[ csv::StringRecord::new ]() -> (record: csv::StringRecord);

/// `csv::StringRecord::get` returns the field at index `i`, and `None` where
/// the record has no such field.
pub assume_specification[ csv::StringRecord::get ](record: &csv::StringRecord, i: usize) -> (field:
    Option<&str>)
    ensures
        match field {
            Some(text) => i < fields_of(*record).len() && text@ == fields_of(*record)[i as int],
            None => i >= fields_of(*record).len(),
        },
;

/// Trusted: builds a reader with `csv::ReaderBuilder`: `new`, then
/// `has_headers` and `delimiter` with the values given, then `from_reader`
/// on the bytes. The contract only names what the reader will give.
#[verifier::external_body]
pub(crate) fn open_reader<'a>(input: &'a [u8], delimiter: u8, headers: bool) -> (reader: csv::Reader<
    &'a [u8],
>)
    ensures
        pending(reader) == csv_reads(input@, delimiter, headers),
{
    csv::ReaderBuilder::new().has_headers(headers).delimiter(delimiter).from_reader(input)
}

/// Trusted: calls `csv::Reader::read_record`, which reads one record into
/// `record`. It returns `Ok(true)` with the record filled, `Ok(false)` where
/// the input is used up, and an error for a record that it refuses: one
/// that is not UTF-8, or one whose number of fields differs from that of the
/// first record. The contract claims that the read gives the first entry of
/// what is pending, and that a record that was read is pending no longer.
#[verifier::external_body]
pub(crate) fn next_record(reader: &mut csv::Reader<&[u8]>, record: &mut csv::StringRecord) -> (read: Result<
    bool,
    csv::Error,
>)
    ensures
        match read {
            Ok(true) => pending(*old(reader)).len() > 0 && pending(*old(reader))[0] == Some(
                fields_of(*final(record)),
            ) && pending(*final(reader)) == pending(*old(reader)).skip(1),
            Ok(false) => pending(*old(reader)).len() == 0,
            Err(_) => pending(*old(reader)).len() > 0 && pending(*old(reader))[0] is None,
        },
{
    reader.read_record(record)
}

/// The number of reads that come before the first failing one: the number
/// of all reads where none fails.
pub open spec fn sound_reads(reads: Seq<Option<Seq<Seq<char>>>>) -> nat
    decreases reads.len(),
{
    if reads.len() == 0 || reads[0] is None {
        0
    } else {
        1 + sound_reads(reads.skip(1))
    }
}

/// The records that are read before the first failing read.
pub open spec fn sound_records(reads: Seq<Option<Seq<Seq<char>>>>) -> Seq<Seq<Seq<char>>> {
    Seq::new(sound_reads(reads), |i: int| reads[i]->0)
}

/// Whether one of the reads fails.
pub open spec fn has_failure(reads: Seq<Option<Seq<Seq<char>>>>) -> bool {
    sound_reads(reads) < reads.len()
}

/// The number of sound reads is the position of the first failing read.
pub proof fn lemma_sound_reads(reads: Seq<Option<Seq<Seq<char>>>>)
    ensures
        sound_reads(reads) <= reads.len(),
        forall|i: int| 0 <= i < sound_reads(reads) ==> (#[trigger] reads[i]) is Some,
        sound_reads(reads) < reads.len() ==> reads[sound_reads(reads) as int] is None,
        has_failure(reads) <==> exists|i: int| 0 <= i < reads.len() && (#[trigger] reads[i]) is None,
    decreases reads.len(),
{
    if reads.len() == 0 || reads[0] is None {
    } else {
        let rest = reads.skip(1);
        lemma_sound_reads(rest);
        assert forall|i: int| 0 <= i < sound_reads(reads) implies (#[trigger] reads[i]) is Some by {
            if i > 0 {
                assert(rest[i - 1] is Some);
            }
        }
        if sound_reads(reads) < reads.len() {
            assert(rest[sound_reads(rest) as int] is None);
        }
    }
}

/// After `done` sound reads, the rest decides how many more there are.
pub proof fn lemma_sound_reads_skip(reads: Seq<Option<Seq<Seq<char>>>>, done: int)
    requires
        0 <= done <= reads.len(),
        forall|i: int| 0 <= i < done ==> (#[trigger] reads[i]) is Some,
    ensures
        sound_reads(reads) == done + sound_reads(reads.skip(done)),
    decreases done,
{
    if done == 0 {
        assert(reads.skip(0) =~= reads);
    } else {
        let rest = reads.skip(1);
        assert forall|i: int| 0 <= i < done - 1 implies (#[trigger] rest[i]) is Some by {
            assert(reads[i + 1] is Some);
        }
        lemma_sound_reads_skip(rest, done - 1);
        assert(rest.skip(done - 1) =~= reads.skip(done));
        assert(reads[0] is Some);
    }
}

} // verus!
