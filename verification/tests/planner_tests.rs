use keystats::planner::{plan_chunks, ChunkRange};

const SAMPLE: &[u8] = b"Hamburg;12.0\nBulawayo;8.9\nHamburg;34.2\nBulawayo;22.1\nBulawayo;35.2\nPalembang;38.8\nPalembang;41.0\nPalembang;39.9\n";

fn range(start: usize, end: usize) -> ChunkRange {
    ChunkRange { start, end }
}

fn assert_partition(data: &[u8], ranges: &[ChunkRange], workers: usize) {
    assert_eq!(ranges.len(), workers);
    assert_eq!(ranges[0].start, 0);
    assert_eq!(ranges[ranges.len() - 1].end, data.len());
    for r in ranges {
        assert!(r.start <= r.end);
    }
    for pair in ranges.windows(2) {
        assert_eq!(pair[0].end, pair[1].start);
    }
}

fn assert_aligned(data: &[u8], ranges: &[ChunkRange]) {
    for r in ranges {
        for at in [r.start, r.end] {
            assert!(at == 0 || at == data.len() || data[at - 1] == b'\n');
        }
    }
}

#[test]
fn one_worker_gets_the_whole_input() {
    assert_eq!(plan_chunks(SAMPLE, 1), vec![range(0, SAMPLE.len())]);
    assert_eq!(plan_chunks(b"no newline at all", 1), vec![range(0, 17)]);
}

#[test]
fn boundaries_move_forward_past_the_next_newline() {
    let data = b"aa;1.0\nbb;2.0\ncc;3.0\ndd;4.0\n";
    assert_eq!(plan_chunks(data, 2), vec![range(0, 21), range(21, 28)]);
    assert_eq!(plan_chunks(data, 4), vec![range(0, 14), range(14, 28), range(28, 28), range(28, 28)]);
}

#[test]
fn a_boundary_on_a_line_start_still_moves_to_the_next_line() {
    let data = b"a;1.0\nb;2.0\nc;3.0\nd;4.0\n";
    assert_eq!(plan_chunks(data, 2), vec![range(0, 18), range(18, 24)]);
}

#[test]
fn a_boundary_on_a_newline_ends_just_after_it() {
    let data = b"abcd\nefgh\n";
    assert_eq!(plan_chunks(data, 2), vec![range(0, 10), range(10, 10)]);
    let data = b"abc\ndefgh\n";
    assert_eq!(plan_chunks(data, 3), vec![range(0, 4), range(4, 10), range(10, 10)]);
}

#[test]
fn empty_input_gives_empty_ranges() {
    assert_eq!(plan_chunks(b"", 1), vec![range(0, 0)]);
    assert_eq!(plan_chunks(b"", 3), vec![range(0, 0), range(0, 0), range(0, 0)]);
}

#[test]
fn a_scan_that_finds_no_newline_ends_at_the_end_of_the_input() {
    let data = b"a;1.0\nb;2.0";
    assert_eq!(plan_chunks(data, 2), vec![range(0, 6), range(6, 11)]);
    let data = b"a;1.0\nbbbbbbbbbbbb;2.0";
    assert_eq!(plan_chunks(data, 2), vec![range(0, 22), range(22, 22)]);
}

#[test]
fn more_workers_than_bytes() {
    let data = b"a;1.0\n";
    let ranges = plan_chunks(data, 16);
    assert_partition(data, &ranges, 16);
    assert_eq!(ranges[0], range(0, 6));
    for r in &ranges[1..] {
        assert_eq!(*r, range(6, 6));
    }
}

#[test]
fn ranges_partition_the_input_for_every_worker_count() {
    for workers in 1..=40 {
        let ranges = plan_chunks(SAMPLE, workers);
        assert_partition(SAMPLE, &ranges, workers);
    }
    for len in 0..SAMPLE.len() {
        for workers in [1, 2, 3, 5, 8] {
            let ranges = plan_chunks(&SAMPLE[..len], workers);
            assert_partition(&SAMPLE[..len], &ranges, workers);
        }
    }
}

#[test]
fn ranges_end_where_lines_end_for_every_worker_count() {
    for workers in 1..=40 {
        assert_aligned(SAMPLE, &plan_chunks(SAMPLE, workers));
    }
    for len in 0..SAMPLE.len() {
        for workers in [1, 2, 3, 5, 8] {
            assert_aligned(&SAMPLE[..len], &plan_chunks(&SAMPLE[..len], workers));
        }
    }
}

#[test]
fn the_sample_in_three_chunks() {
    assert_eq!(SAMPLE.len(), 112);
    assert_eq!(plan_chunks(SAMPLE, 3), vec![range(0, 39), range(39, 82), range(82, 112)]);
}
