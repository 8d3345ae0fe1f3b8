//! The whole aggregation: plan the chunks, read them side by side, merge
//! the tables. The result is that of reading the input in one piece, however
//! many workers there are.

use crate::parser::{lemma_records, lemma_records_split, read_chunk, records, ParseError};
use crate::planner::{aligned, is_partition, plan_chunks, ChunkRange};
use crate::record::{lemma_fits, MAX_COUNT};
use crate::report::{format_report, report, report_of, report_text};
use crate::table::Table;
use crate::tally::{lemma_tally_concat, lemma_tally_wf, tally, tally_merge, Measurement};
use rayon::iter::{IndexedParallelIterator, IntoParallelRefIterator, ParallelIterator};
use vstd::prelude::*;

verus! {

/// `r` is what reading the lines that begin in `start..end` gives: the
/// table of their measurements, or the first line that cannot be read.
pub open spec fn reads_as(data: Seq<u8>, start: int, end: int, r: Result<Table, ParseError>) -> bool {
    match records(data, start, end) {
        Ok(ms) => r matches Ok(table) && table.wf() && table@ == tally(ms),
        Err(e) => r matches Err(x) && x == e,
    }
}

/// The report text of an input: the lines of the report of all its
/// measurements, or the first line of the input that cannot be read.
pub open spec fn summary_of(data: Seq<u8>) -> Result<Seq<u8>, ParseError> {
    match records(data, 0, data.len() as int) {
        Ok(ms) => Ok(report_text(report_of(tally(ms)))),
        Err(e) => Err(e),
    }
}

/// Two results of reading the same range are the same: the same failure,
/// or tables with the same keys and accumulators at the same places.
pub proof fn lemma_same_result(
    data: Seq<u8>,
    start: int,
    end: int,
    a: Result<Table, ParseError>,
    b: Result<Table, ParseError>,
)
    requires
        reads_as(data, start, end, a),
        reads_as(data, start, end, b),
    ensures
        a is Err ==> b is Err && a->Err_0 == b->Err_0,
        a is Ok ==> b is Ok && a->Ok_0@ == b->Ok_0@ && a->Ok_0.keys() == b->Ok_0.keys()
            && a->Ok_0.stats() == b->Ok_0.stats(),
{
    if a is Ok {
        a->Ok_0.lemma_view_determines(&b->Ok_0);
    }
}

/// `rayon::current_num_threads`: the size of the current thread pool.
/// Nothing is claimed of the number.
pub assume_specification[ rayon::current_num_threads ]() -> (n: usize)
;

/// Reads every range on rayon's thread pool, through `par_iter`, `map` and
/// `collect_into_vec`, which keep the results in the order of the ranges:
/// the result at each place is what [`read_chunk`] gives for the range at
/// that place.
#[verifier::external_body]
fn read_chunks(data: &[u8], ranges: &Vec<ChunkRange>) -> (parts: Vec<Result<Table, ParseError>>)
    requires
        data@.len() <= MAX_COUNT,
    ensures
        parts@.len() == ranges@.len(),
        forall|i: int|
            0 <= i < ranges@.len() ==> reads_as(
                data@,
                ranges@[i].start as int,
                ranges@[i].end as int,
                #[trigger] parts@[i],
            ),
{
    let mut parts = Vec::new();
    ranges.par_iter().map(|r| read_chunk(data, r.start, r.end)).collect_into_vec(&mut parts);
    parts
}

/// Merges the tables of the chunks, in the order of the chunks. Where a
/// chunk could not be read, the first such chunk's failure is the result.
pub fn merge_parts(data: &[u8], ranges: &Vec<ChunkRange>, parts: &Vec<Result<Table, ParseError>>) -> (r:
    Result<Table, ParseError>)
    requires
        data@.len() <= MAX_COUNT,
        parts@.len() == ranges@.len(),
        is_partition(ranges@, data@.len() as int),
        forall|i: int| 0 <= i < ranges@.len() ==> aligned(data@, (#[trigger] ranges@[i]).end as int),
        forall|i: int|
            0 <= i < ranges@.len() ==> reads_as(
                data@,
                ranges@[i].start as int,
                ranges@[i].end as int,
                #[trigger] parts@[i],
            ),
    ensures
        reads_as(data@, 0, data@.len() as int, r),
{
    let n = parts.len();
    let mut acc = Table::new();
    let mut i: usize = 0;
    let ghost mut done: int = 0;
    let ghost mut seen: Seq<Measurement> = Seq::empty();
    while i < n
        invariant
            data@.len() <= MAX_COUNT,
            n == parts@.len(),
            n == ranges@.len(),
            is_partition(ranges@, data@.len() as int),
            forall|j: int| 0 <= j < ranges@.len() ==> aligned(data@, (#[trigger] ranges@[j]).end as int),
            forall|j: int|
                0 <= j < ranges@.len() ==> reads_as(
                    data@,
                    ranges@[j].start as int,
                    ranges@[j].end as int,
                    #[trigger] parts@[j],
                ),
            i <= n,
            i < n ==> ranges@[i as int].start == done,
            i == n ==> done == data@.len(),
            0 <= done <= data@.len(),
            aligned(data@, done),
            records(data@, 0, done) == Ok::<Seq<Measurement>, ParseError>(seen),
            acc.wf(),
            acc@ == tally(seen),
        decreases n - i,
    {
        let ghost end = ranges@[i as int].end as int;
        proof {
            assert(ranges@[i as int].start <= ranges@[i as int].end);
            assert(aligned(data@, end));
            if i + 1 < n {
                assert(ranges@[i as int].end == ranges@[i + 1].start);
            } else {
                assert(ranges@[i as int] == ranges@.last());
            }
            lemma_records_split(data@, 0, done, end);
            lemma_records_split(data@, 0, end, data@.len() as int);
            assert(reads_as(data@, done, end, parts@[i as int]));
        }
        match &parts[i] {
            Err(e) => {
                return Err(*e);
            },
            Ok(table) => {
                proof {
                    let tail = records(data@, done, end)->Ok_0;
                    let all = seen + tail;
                    lemma_tally_concat(seen, tail);
                    lemma_records(data@, 0, end);
                    lemma_tally_wf(all);
                    assert forall|k: Seq<u8>| acc@.contains_key(k) && table@.contains_key(k) implies (
                    #[trigger] acc@[k]).merge(table@[k]).fits() by {
                        assert(tally_merge(acc@, table@).contains_key(k));
                        lemma_fits(tally(all)[k]);
                    }
                    seen = all;
                    done = end;
                }
                acc.merge(table);
            },
        }
        i = i + 1;
    }
    Ok(acc)
}

/// Aggregates the input with the given number of workers.
///
/// The result is the table of all measurements of the input, or the first
/// line of the input that cannot be read. It does not depend on `workers`.
pub fn aggregate_with(data: &[u8], workers: usize) -> (r: Result<Table, ParseError>)
    requires
        workers >= 1,
        data@.len() <= MAX_COUNT,
    ensures
        reads_as(data@, 0, data@.len() as int, r),
{
    let ranges = plan_chunks(data, workers);
    let parts = read_chunks(data, &ranges);
    merge_parts(data, &ranges, &parts)
}

/// Aggregates the input with as many workers as rayon's thread pool has
/// threads.
pub fn aggregate(data: &[u8]) -> (r: Result<Table, ParseError>)
    requires
        data@.len() <= MAX_COUNT,
    ensures
        reads_as(data@, 0, data@.len() as int, r),
{
    let threads = rayon::current_num_threads();
    let workers = if threads == 0 { 1 } else { threads };
    aggregate_with(data, workers)
}

/// The report text of the input, made with the given number of workers.
/// It does not depend on `workers`.
pub fn summarize_with(data: &[u8], workers: usize) -> (r: Result<Vec<u8>, ParseError>)
    requires
        workers >= 1,
        data@.len() <= MAX_COUNT,
    ensures
        match summary_of(data@) {
            Ok(text) => r matches Ok(out) && out@ == text,
            Err(e) => r matches Err(x) && x == e,
        },
{
    match aggregate_with(data, workers) {
        Err(e) => Err(e),
        Ok(table) => {
            let rows = report(&table);
            Ok(format_report(&rows))
        },
    }
}

/// The report text of the input, made with as many workers as rayon's
/// thread pool has threads.
pub fn summarize(data: &[u8]) -> (r: Result<Vec<u8>, ParseError>)
    requires
        data@.len() <= MAX_COUNT,
    ensures
        match summary_of(data@) {
            Ok(text) => r matches Ok(out) && out@ == text,
            Err(e) => r matches Err(x) && x == e,
        },
{
    match aggregate(data) {
        Err(e) => Err(e),
        Ok(table) => {
            let rows = report(&table);
            Ok(format_report(&rows))
        },
    }
}

} // verus!
