use keystats::parser::{parse_line, read_chunk, scan, Line, ParseError, ParseErrorKind};
use keystats::record::Record;
use keystats::table::Table;

fn rows(table: &Table) -> Vec<(Vec<u8>, i16, i16, i64, u64)> {
    (0..table.len())
        .map(|i| {
            let r = table.record_at(i);
            (table.key_at(i).to_vec(), r.min(), r.max(), r.total(), r.count())
        })
        .collect()
}

fn error(kind: ParseErrorKind, offset: usize) -> ParseError {
    ParseError { kind, offset }
}

#[test]
fn scan_finds_the_first_occurrence_in_the_range() {
    let data = b"ab;cd;e\n";
    assert_eq!(scan(data, 0, data.len(), b';'), 2);
    assert_eq!(scan(data, 2, data.len(), b';'), 2);
    assert_eq!(scan(data, 3, data.len(), b';'), 5);
    assert_eq!(scan(data, 6, data.len(), b';'), 8);
    assert_eq!(scan(data, 0, 2, b';'), 2);
    assert_eq!(scan(data, 0, data.len(), b'\n'), 7);
    assert_eq!(scan(data, 4, 4, b'd'), 4);
}

#[test]
fn parse_line_reads_key_and_value() {
    let data = b"Hamburg;12.0\nBulawayo;8.9\n";
    let mut digits = Vec::new();
    assert_eq!(parse_line(data, 0, &mut digits), Ok(Line { key_end: 7, next: 13, value: 120 }));
    assert_eq!(parse_line(data, 13, &mut digits), Ok(Line { key_end: 21, next: 26, value: 89 }));
}

#[test]
fn parse_line_leaves_the_digits_of_the_value_in_the_scratch_space() {
    let mut digits = b"old".to_vec();
    assert!(parse_line(b"k;-12.3\n", 0, &mut digits).is_ok());
    assert_eq!(digits, b"-123".to_vec());
    assert!(parse_line(b"k;x.y\n", 0, &mut digits).is_err());
    assert_eq!(digits, b"xy".to_vec());
    assert!(parse_line(b"no separator\n", 0, &mut digits).is_err());
    assert_eq!(digits, b"xy".to_vec());
    assert!(parse_line(b"k;1.0", 0, &mut digits).is_err());
    assert_eq!(digits, b"xy".to_vec());
}

#[test]
fn parse_line_reads_negative_values() {
    let mut digits = Vec::new();
    assert_eq!(parse_line(b"k;-5.0\n", 0, &mut digits), Ok(Line { key_end: 1, next: 7, value: -50 }));
}

#[test]
fn parse_line_accepts_an_empty_key() {
    let mut digits = Vec::new();
    assert_eq!(parse_line(b";1.5\n", 0, &mut digits), Ok(Line { key_end: 0, next: 5, value: 15 }));
}

#[test]
fn parse_line_reports_a_missing_terminator() {
    let mut digits = Vec::new();
    assert_eq!(
        parse_line(b"a;1.0\nb;2.0", 6, &mut digits),
        Err(error(ParseErrorKind::MissingTerminator, 6))
    );
    assert_eq!(parse_line(b"abc", 0, &mut digits), Err(error(ParseErrorKind::MissingTerminator, 0)));
    assert_eq!(parse_line(b"", 0, &mut digits), Err(error(ParseErrorKind::MissingTerminator, 0)));
    assert_eq!(parse_line(b"a;1.0\n", 6, &mut digits), Err(error(ParseErrorKind::MissingTerminator, 6)));
    assert_eq!(parse_line(b"a;1.0\n", 60, &mut digits), Err(error(ParseErrorKind::MissingTerminator, 60)));
}

#[test]
fn parse_line_reports_a_missing_separator() {
    let mut digits = Vec::new();
    assert_eq!(
        parse_line(b"a;1.0\nnothing\nb;2.0\n", 6, &mut digits),
        Err(error(ParseErrorKind::MissingSeparator, 6))
    );
    assert_eq!(parse_line(b"\n", 0, &mut digits), Err(error(ParseErrorKind::MissingSeparator, 0)));
}

#[test]
fn parse_line_reports_an_invalid_value() {
    let mut digits = Vec::new();
    for line in [&b"a;\n"[..], b"a;x\n", b"a;1.0;2.0\n", b"a;1.0\r\n", b"a;99999.9\n", b"a;-\n", b"a; 1.0\n"] {
        assert_eq!(parse_line(line, 0, &mut digits), Err(error(ParseErrorKind::InvalidValue, 0)));
    }
}

#[test]
fn read_chunk_folds_every_line_of_the_range() {
    let data = b"Hamburg;12.0\nBulawayo;8.9\nHamburg;34.2\n";
    let table = read_chunk(data, 0, data.len()).unwrap();
    assert_eq!(
        rows(&table),
        vec![(b"Bulawayo".to_vec(), 89, 89, 89, 1), (b"Hamburg".to_vec(), 120, 342, 462, 2)]
    );
}

#[test]
fn read_chunk_of_an_empty_range_is_empty() {
    let data = b"Hamburg;12.0\n";
    assert_eq!(read_chunk(data, 0, 0).unwrap().len(), 0);
    assert_eq!(read_chunk(data, 13, 13).unwrap().len(), 0);
    assert_eq!(read_chunk(data, 5, 2).unwrap().len(), 0);
    assert_eq!(read_chunk(b"", 0, 0).unwrap().len(), 0);
}

#[test]
fn read_chunk_reads_only_the_lines_of_its_range() {
    let data = b"a;1.0\nb;2.0\nc;3.0\n";
    let table = read_chunk(data, 6, 12).unwrap();
    assert_eq!(rows(&table), vec![(b"b".to_vec(), 20, 20, 20, 1)]);
    let table = read_chunk(data, 6, 18).unwrap();
    assert_eq!(rows(&table), vec![(b"b".to_vec(), 20, 20, 20, 1), (b"c".to_vec(), 30, 30, 30, 1)]);
}

#[test]
fn read_chunk_finishes_a_line_that_begins_in_the_range() {
    let data = b"a;1.0\nb;2.0\nc;3.0\n";
    let table = read_chunk(data, 0, 7).unwrap();
    assert_eq!(rows(&table), vec![(b"a".to_vec(), 10, 10, 10, 1), (b"b".to_vec(), 20, 20, 20, 1)]);
}

#[test]
fn read_chunk_stops_at_the_first_bad_line() {
    let data = b"a;1.0\nb2.0\nc;x\n";
    assert_eq!(read_chunk(data, 0, data.len()).err(), Some(error(ParseErrorKind::MissingSeparator, 6)));
    assert_eq!(read_chunk(data, 11, data.len()).err(), Some(error(ParseErrorKind::InvalidValue, 11)));
    assert_eq!(read_chunk(data, 0, 6).unwrap().len(), 1);
}

#[test]
fn read_chunk_needs_the_last_line_terminated() {
    let data = b"a;1.0\nb;2.0";
    assert_eq!(read_chunk(data, 0, data.len()).err(), Some(error(ParseErrorKind::MissingTerminator, 6)));
    assert_eq!(read_chunk(data, 0, 100).err(), Some(error(ParseErrorKind::MissingTerminator, 6)));
}

#[test]
fn read_chunk_past_the_end_of_the_input_fails() {
    let data = b"a;1.0\n";
    assert_eq!(read_chunk(data, 0, 7).err(), Some(error(ParseErrorKind::MissingTerminator, 6)));
    assert_eq!(read_chunk(data, 9, 12).err(), Some(error(ParseErrorKind::MissingTerminator, 9)));
}

#[test]
fn a_key_seen_once_has_its_value_as_min_max_and_mean() {
    let data = b"x;1.0\nonce;-7.3\nx;2.0\n";
    let table = read_chunk(data, 0, data.len()).unwrap();
    let r = table.get(b"once").unwrap();
    assert_eq!(r, Record::new(-73));
    assert_eq!((r.min(), r.mean(), r.max()), (-73, -73, -73));
}

#[test]
fn keys_are_opaque_bytes() {
    let data = [0xff, 0x00, b';', b'1', b'.', b'0', b'\n', 0xff, 0x00, b';', b'3', b'.', b'0', b'\n'];
    let table = read_chunk(&data, 0, data.len()).unwrap();
    assert_eq!(rows(&table), vec![(vec![0xff, 0x00], 10, 30, 40, 2)]);
}
