//! The chunk planner: cuts the input into as many byte ranges as there are
//! workers, each ending where a line ends.

use crate::parser::{find_byte, lemma_find_byte, scan, NEWLINE};
use vstd::prelude::*;

verus! {

/// The bytes `start..end` of the input.
#[derive(Clone, Copy, Debug, PartialEq, Eq, Structural)]
pub struct ChunkRange {
    pub start: usize,
    pub end: usize,
}

/// The place just after the first newline at or after `from`, or the end
/// of the input if no newline follows.
pub open spec fn line_end(data: Seq<u8>, from: int) -> int {
    let at = find_byte(data, from, data.len() as int, NEWLINE);
    if at < data.len() {
        at + 1
    } else {
        data.len() as int
    }
}

/// Where the chunk that begins at `start` ends: `size` bytes on, moved
/// forward to the end of the line that stands there; the end of the input
/// if that is no further.
pub open spec fn chunk_end(data: Seq<u8>, size: int, start: int) -> int {
    if start + size >= data.len() {
        data.len() as int
    } else {
        line_end(data, start + size)
    }
}

/// The nominal size of a chunk.
pub open spec fn chunk_size(data: Seq<u8>, workers: int) -> int {
    data.len() as int / workers
}

/// The boundary after the first `i` chunks; chunk `i` runs from boundary
/// `i` to boundary `i + 1`.
pub open spec fn boundary(data: Seq<u8>, workers: int, i: nat) -> int
    decreases i,
{
    if i == 0 {
        0
    } else {
        chunk_end(data, chunk_size(data, workers), boundary(data, workers, (i - 1) as nat))
    }
}

/// A place where a line begins or the input ends.
pub open spec fn aligned(data: Seq<u8>, at: int) -> bool {
    at == 0 || at == data.len() || (0 < at < data.len() && data[at - 1] == NEWLINE)
}

/// The ranges follow one another from 0 to `size` without gap or overlap.
pub open spec fn is_partition(ranges: Seq<ChunkRange>, size: int) -> bool {
    &&& ranges.len() >= 1
    &&& ranges[0].start == 0
    &&& ranges.last().end == size
    &&& forall|i: int| 0 <= i < ranges.len() ==> (#[trigger] ranges[i]).start <= ranges[i].end
    &&& forall|i: int| 0 <= i < ranges.len() - 1 ==> (#[trigger] ranges[i]).end == ranges[i + 1].start
}

/// A chunk ends within the input, at a line's end, and not before it
/// began; it is longer than the nominal size unless it reaches the end of
/// the input.
pub proof fn lemma_chunk_end(data: Seq<u8>, size: int, start: int)
    requires
        0 <= start <= data.len(),
        0 <= size,
    ensures
        start <= chunk_end(data, size, start) <= data.len(),
        aligned(data, chunk_end(data, size, start)),
        chunk_end(data, size, start) == data.len() || chunk_end(data, size, start) > start + size,
{
    if start + size < data.len() {
        lemma_find_byte(data, start + size, data.len() as int, NEWLINE);
    }
}

/// Every boundary lies within the input, where a line begins or the input
/// ends, no earlier than the boundary before it; and it is the end of the
/// input or lies `i` times more than the nominal size into it.
pub proof fn lemma_boundary(data: Seq<u8>, workers: int, i: nat)
    requires
        workers >= 1,
    ensures
        0 <= boundary(data, workers, i) <= data.len(),
        aligned(data, boundary(data, workers, i)),
        boundary(data, workers, i) <= boundary(data, workers, i + 1),
        boundary(data, workers, i) == data.len() || boundary(data, workers, i) >= i * (chunk_size(
            data,
            workers,
        ) + 1),
    decreases i,
{
    let size = chunk_size(data, workers);
    assert(0 <= size) by (nonlinear_arith)
        requires
            size == data.len() as int / workers,
            workers >= 1,
    ;
    if i > 0 {
        let before = boundary(data, workers, (i - 1) as nat);
        lemma_boundary(data, workers, (i - 1) as nat);
        lemma_chunk_end(data, size, before);
        assert(i * (size + 1) == (i - 1) * (size + 1) + (size + 1)) by (nonlinear_arith);
    } else {
        assert(0 * (size + 1) == 0);
    }
    lemma_chunk_end(data, size, boundary(data, workers, i));
}

/// The last boundary is the end of the input: the chunks cover it all.
pub proof fn lemma_last_boundary(data: Seq<u8>, workers: int)
    requires
        workers >= 1,
    ensures
        boundary(data, workers, workers as nat) == data.len(),
{
    let size = chunk_size(data, workers);
    lemma_boundary(data, workers, workers as nat);
    assert(workers * (size + 1) > data.len()) by (nonlinear_arith)
        requires
            size == data.len() as int / workers,
            workers >= 1,
    {
        assert(data.len() as int == workers * (data.len() as int / workers) + data.len() as int
            % workers);
        assert(data.len() as int % workers < workers);
    }
}

/// Cuts the input into `workers` ranges.
///
/// Each range begins where the one before ended, the first at 0. It ends
/// one nominal size, the input's length divided by `workers`, further on,
/// moved forward past the next newline; or at the end of the input, if that
/// comes first. Ranges past the end of the input are empty.
pub fn plan_chunks(data: &[u8], workers: usize) -> (ranges: Vec<ChunkRange>)
    requires
        workers >= 1,
    ensures
        ranges@.len() == workers,
        forall|i: int|
            0 <= i < workers ==> (#[trigger] ranges@[i]).start == boundary(
                data@,
                workers as int,
                i as nat,
            ) && ranges@[i].end == boundary(data@, workers as int, (i + 1) as nat),
        is_partition(ranges@, data@.len() as int),
        forall|i: int|
            0 <= i < workers ==> aligned(data@, (#[trigger] ranges@[i]).start as int) && aligned(
                data@,
                ranges@[i].end as int,
            ),
{
    let len = data.len();
    let size = len / workers;
    let mut ranges: Vec<ChunkRange> = Vec::new();
    let mut start: usize = 0;
    let mut i: usize = 0;
    while i < workers
        invariant
            workers >= 1,
            len == data@.len(),
            size == chunk_size(data@, workers as int),
            i <= workers,
            start <= len,
            start == boundary(data@, workers as int, i as nat),
            ranges@.len() == i,
            forall|j: int|
                0 <= j < i ==> (#[trigger] ranges@[j]).start == boundary(
                    data@,
                    workers as int,
                    j as nat,
                ) && ranges@[j].end == boundary(data@, workers as int, (j + 1) as nat),
        decreases workers - i,
    {
        let end = if len - start <= size {
            len
        } else {
            let at = scan(data, start + size, len, NEWLINE);
            if at < len {
                at + 1
            } else {
                len
            }
        };
        proof {
            lemma_boundary(data@, workers as int, i as nat);
        }
        ranges.push(ChunkRange { start, end });
        start = end;
        i = i + 1;
    }
    proof {
        lemma_last_boundary(data@, workers as int);
        assert forall|j: int| 0 <= j < workers implies (#[trigger] ranges@[j]).start <= ranges@[j].end
            && aligned(data@, ranges@[j].start as int) && aligned(data@, ranges@[j].end as int) by {
            lemma_boundary(data@, workers as int, j as nat);
            lemma_boundary(data@, workers as int, (j + 1) as nat);
        }
    }
    ranges
}

} // verus!
