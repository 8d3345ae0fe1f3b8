//! The input grammar, `key;value` lines ended by a newline, and the parser
//! that folds the lines of one byte range into a table.

use crate::fixed::{fixed_point, parse_digits, strip_points, without_points};
use crate::record::{lemma_fits, MAX_COUNT};
use crate::table::Table;
use crate::tally::{lemma_tally_observe_wf, lemma_tally_wf, tally, tally_observe, values_in_range, Measurement};
use vstd::prelude::*;
use vstd::slice::slice_subrange;

verus! {

/// The byte `;`, between key and value.
pub const SEPARATOR: u8 = 59;

/// The byte that ends a line.
pub const NEWLINE: u8 = 10;

/// What is wrong with a line.
#[derive(Clone, Copy, Debug, PartialEq, Eq, Structural)]
pub enum ParseErrorKind {
    /// The input ends before the line does.
    MissingTerminator,
    /// The line has no `;`.
    MissingSeparator,
    /// What follows the `;` is no 16-bit fixed-point value.
    InvalidValue,
}

/// A line that could not be read, and the offset of its first byte.
#[derive(Clone, Copy, Debug, PartialEq, Eq, Structural)]
pub struct ParseError {
    pub kind: ParseErrorKind,
    pub offset: usize,
}

/// A line that was read: where its key ends, where the next line begins,
/// and its value in tenths. The key begins where the line does.
#[derive(Clone, Copy, Debug, PartialEq, Eq, Structural)]
pub struct Line {
    pub key_end: usize,
    pub next: usize,
    pub value: i16,
}

/// The first place in `from..to` that holds the byte `b`, or `to` if none
/// does.
pub open spec fn find_byte(data: Seq<u8>, from: int, to: int, b: u8) -> int
    decreases to - from,
{
    if from >= to {
        to
    } else if data[from] == b {
        from
    } else {
        find_byte(data, from + 1, to, b)
    }
}

/// What `find_byte` finds lies in the range, holds the byte unless it is
/// the end of the range, and no earlier place of the range holds it.
pub proof fn lemma_find_byte(data: Seq<u8>, from: int, to: int, b: u8)
    requires
        from <= to,
    ensures
        from <= find_byte(data, from, to, b) <= to,
        find_byte(data, from, to, b) < to ==> data[find_byte(data, from, to, b)] == b,
        forall|i: int| from <= i < find_byte(data, from, to, b) ==> #[trigger] data[i] != b,
    decreases to - from,
{
    if from < to && data[from] != b {
        lemma_find_byte(data, from + 1, to, b);
    }
}

/// The first place in `from..to` that holds the byte `b`, or `to`.
pub fn scan(data: &[u8], from: usize, to: usize, b: u8) -> (at: usize)
    requires
        from <= to <= data.len(),
    ensures
        at == find_byte(data@, from as int, to as int, b),
        from <= at <= to,
{
    let mut i: usize = from;
    while i < to && data[i] != b
        invariant
            from <= i <= to <= data.len(),
            find_byte(data@, from as int, to as int, b) == find_byte(data@, i as int, to as int, b),
        decreases to - i,
    {
        i = i + 1;
    }
    i
}

/// The line that begins at `pos`: its measurement and the place where the
/// next line begins. It runs to the next newline; its key runs to its
/// first `;`, and its value is what stands between the two.
pub open spec fn line_at(data: Seq<u8>, pos: int) -> Result<(Measurement, int), ParseError> {
    let end = find_byte(data, pos, data.len() as int, NEWLINE);
    let sep = find_byte(data, pos, end, SEPARATOR);
    if end >= data.len() {
        Err(ParseError { kind: ParseErrorKind::MissingTerminator, offset: pos as usize })
    } else if sep >= end {
        Err(ParseError { kind: ParseErrorKind::MissingSeparator, offset: pos as usize })
    } else {
        match fixed_point(data.subrange(sep + 1, end)) {
            None => Err(ParseError { kind: ParseErrorKind::InvalidValue, offset: pos as usize }),
            Some(value) => Ok((Measurement { key: data.subrange(pos, sep), value }, end + 1)),
        }
    }
}

/// The measurements `head`, followed by those of `rest` if there are any.
pub open spec fn prepend(
    head: Seq<Measurement>,
    rest: Result<Seq<Measurement>, ParseError>,
) -> Result<Seq<Measurement>, ParseError> {
    match rest {
        Ok(tail) => Ok(head + tail),
        Err(e) => Err(e),
    }
}

/// The measurements of the lines that begin at `pos` and after it, up to
/// the first line that begins at or after `end`; or the first line among
/// these that cannot be read.
pub open spec fn records(data: Seq<u8>, pos: int, end: int) -> Result<Seq<Measurement>, ParseError>
    decreases data.len() - pos,
    via records_decreases
{
    if pos >= end {
        Ok(Seq::empty())
    } else {
        match line_at(data, pos) {
            Err(e) => Err(e),
            Ok((m, next)) => prepend(seq![m], records(data, next, end)),
        }
    }
}

#[via_fn]
proof fn records_decreases(data: Seq<u8>, pos: int, end: int) {
    if pos <= data.len() {
        lemma_find_byte(data, pos, data.len() as int, NEWLINE);
    }
}

/// A line that can be read begins within the input, ends within it, and
/// has a 16-bit value.
pub proof fn lemma_line_at(data: Seq<u8>, pos: int)
    requires
        0 <= pos,
        line_at(data, pos) is Ok,
    ensures
        pos < data.len(),
        pos < line_at(data, pos)->Ok_0.1 <= data.len(),
        data[line_at(data, pos)->Ok_0.1 - 1] == NEWLINE,
        line_at(data, pos)->Ok_0.1 - 1 == find_byte(data, pos, data.len() as int, NEWLINE),
        i16::MIN <= line_at(data, pos)->Ok_0.0.value <= i16::MAX,
{
    if pos <= data.len() {
        lemma_find_byte(data, pos, data.len() as int, NEWLINE);
    }
}

/// The measurements of a range are 16-bit values, and fewer than the bytes
/// from its start to the end of the input.
pub proof fn lemma_records(data: Seq<u8>, pos: int, end: int)
    requires
        0 <= pos,
        records(data, pos, end) is Ok,
    ensures
        values_in_range(records(data, pos, end)->Ok_0),
        pos <= data.len() ==> records(data, pos, end)->Ok_0.len() <= data.len() - pos,
        pos > data.len() ==> records(data, pos, end)->Ok_0.len() == 0,
    decreases data.len() - pos,
{
    if pos < end {
        lemma_line_at(data, pos);
        let (m, next) = line_at(data, pos)->Ok_0;
        lemma_records(data, next, end);
        let tail = records(data, next, end)->Ok_0;
        let all = seq![m] + tail;
        assert forall|i: int| 0 <= i < all.len() implies i16::MIN <= (#[trigger] all[i]).value
            <= i16::MAX by {
            if i > 0 {
                assert(all[i] == tail[i - 1]);
            }
        }
    }
}

/// Reading a range in two parts, cut where a line begins, gives the
/// measurements of the first part followed by those of the second, or the
/// same first failure.
pub proof fn lemma_records_split(data: Seq<u8>, a: int, b: int, c: int)
    requires
        0 <= a <= b <= c,
        b == a || b == c || (b <= data.len() && data[b - 1] == NEWLINE),
    ensures
        records(data, a, c) == match records(data, a, b) {
            Ok(head) => prepend(head, records(data, b, c)),
            Err(e) => Err(e),
        },
    decreases data.len() - a,
{
    if a == b {
        match records(data, b, c) {
            Ok(tail) => {
                assert(Seq::<Measurement>::empty() + tail =~= tail);
            },
            Err(e) => {},
        }
    } else if b == c {
        match records(data, a, c) {
            Ok(head) => {
                assert(head + Seq::<Measurement>::empty() =~= head);
            },
            Err(e) => {},
        }
    } else {
        match line_at(data, a) {
            Err(e) => {},
            Ok((m, next)) => {
                lemma_line_at(data, a);
                lemma_find_byte(data, a, data.len() as int, NEWLINE);
                assert(next <= b);
                lemma_records_split(data, next, b, c);
                match records(data, next, b) {
                    Err(e) => {},
                    Ok(head) => {
                        match records(data, b, c) {
                            Err(e) => {},
                            Ok(tail) => {
                                assert(seq![m] + (head + tail) =~= (seq![m] + head) + tail);
                            },
                        }
                    },
                }
            },
        }
    }
}

/// Reads the line that begins at `pos`. `digits` is scratch space: where
/// the line has a value, it is left holding the value's text without points.
pub fn parse_line(data: &[u8], pos: usize, digits: &mut Vec<u8>) -> (r: Result<Line, ParseError>)
    ensures
        ({
            let end = find_byte(data@, pos as int, data@.len() as int, NEWLINE);
            let sep = find_byte(data@, pos as int, end, SEPARATOR);
            final(digits)@ == if end < data@.len() && sep < end {
                without_points(data@.subrange(sep + 1, end))
            } else {
                old(digits)@
            }
        }),
        match line_at(data@, pos as int) {
            Ok((m, next)) => r matches Ok(line) && {
                &&& pos <= line.key_end < line.next <= data@.len()
                &&& line.next == next
                &&& line.value == m.value
                &&& data@.subrange(pos as int, line.key_end as int) == m.key
            },
            Err(e) => r == Err::<Line, ParseError>(e),
        },
{
    let len = data.len();
    if pos >= len {
        return Err(ParseError { kind: ParseErrorKind::MissingTerminator, offset: pos });
    }
    let end = scan(data, pos, len, NEWLINE);
    if end >= len {
        return Err(ParseError { kind: ParseErrorKind::MissingTerminator, offset: pos });
    }
    let sep = scan(data, pos, end, SEPARATOR);
    if sep >= end {
        return Err(ParseError { kind: ParseErrorKind::MissingSeparator, offset: pos });
    }
    strip_points(slice_subrange(data, sep + 1, end), digits);
    match parse_digits(digits.as_slice()) {
        None => Err(ParseError { kind: ParseErrorKind::InvalidValue, offset: pos }),
        Some(value) => Ok(Line { key_end: sep, next: end + 1, value }),
    }
}

/// Reads the lines that begin in `start..end` and folds them into a table.
///
/// A line that begins before `end` is read to its newline, wherever that
/// stands. The first line that cannot be read ends the work.
pub fn read_chunk(data: &[u8], start: usize, end: usize) -> (r: Result<Table, ParseError>)
    requires
        data@.len() <= MAX_COUNT,
    ensures
        match records(data@, start as int, end as int) {
            Ok(ms) => r matches Ok(table) && table.wf() && table@ == tally(ms),
            Err(e) => r matches Err(x) && x == e,
        },
{
    let mut table = Table::new();
    let mut digits: Vec<u8> = Vec::new();
    let mut pos: usize = start;
    let ghost mut seen: Seq<Measurement> = Seq::empty();
    proof {
        match records(data@, start as int, end as int) {
            Ok(ms) => {
                assert(seen + ms =~= ms);
            },
            Err(e) => {},
        }
    }
    while pos < end
        invariant
            data@.len() <= MAX_COUNT,
            records(data@, start as int, end as int) == prepend(
                seen,
                records(data@, pos as int, end as int),
            ),
            table.wf(),
            table@ == tally(seen),
            values_in_range(seen),
            seen.len() == 0 || (seen.len() <= pos && pos <= data@.len()),
        decreases
                if pos < end { data@.len() + 1 - pos } else { 0 },
    {
        let parsed = parse_line(data, pos, &mut digits);
        match parsed {
            Err(e) => {
                return Err(e);
            },
            Ok(line) => {
                let key = slice_subrange(data, pos, line.key_end);
                proof {
                    let (m, next) = line_at(data@, pos as int)->Ok_0;
                    lemma_line_at(data@, pos as int);
                    lemma_tally_wf(seen);
                    lemma_tally_observe_wf(tally(seen), m.key, m.value, seen.len() as int);
                    let after = tally_observe(tally(seen), m.key, m.value);
                    assert(after.contains_key(m.key));
                    lemma_fits(after[m.key]);
                    let grown = seen.push(m);
                    assert(grown.drop_last() =~= seen);
                    match records(data@, next, end as int) {
                        Ok(tail) => {
                            assert(seen + (seq![m] + tail) =~= grown + tail);
                        },
                        Err(e) => {},
                    }
                    assert forall|i: int| 0 <= i < grown.len() implies i16::MIN <= (
                    #[trigger] grown[i]).value <= i16::MAX by {
                        if i < seen.len() {
                            assert(grown[i] == seen[i]);
                        }
                    }
                    seen = grown;
                }
                table.observe(key, line.value);
                pos = line.next;
            },
        }
    }
    proof {
        assert(seen + Seq::<Measurement>::empty() =~= seen);
    }
    Ok(table)
}

} // verus!
