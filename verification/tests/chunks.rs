use beecrab::chunks::chunks;
use beecrab::metrics::newl;

#[test]
fn chunk_ranges_align_records() {
    let buffer = b"alpha;1.0\nbeta;2.0\ngamma;3.0\ndelta;4.0\n";

    let ranges = chunks(buffer, 3);

    assert!(!ranges.is_empty());
    assert_eq!(ranges.first().unwrap().start, 0);
    assert_eq!(ranges.last().unwrap().end, buffer.len());

    for range in ranges {
        assert!(range.start == 0 || buffer[range.start - 1] == newl);
        assert!(range.end == buffer.len() || buffer[range.end - 1] == newl);
    }
}

#[test]
fn chunk_ranges_skip_empty_slices() {
    let buffer = b"alpha;1.0\nbeta;2.0\n";

    let ranges = chunks(buffer, 16);

    assert_eq!(ranges, vec![0..10, 10..19]);
}

#[test]
fn empty_buffer_has_no_chunk() {
    assert!(chunks(b"", 4).is_empty());
}

#[test]
fn one_chunk_covers_everything() {
    assert_eq!(chunks(b"a;1.0\nb;2.0\n", 1), vec![0..12]);
    assert_eq!(chunks(b"a;1.0\nb;2.0\n", 0), vec![0..12]);
}

#[test]
fn exact_cut_points() {
    // 40 bytes; split points 10, 20, 30 move to the record starts after them
    let buffer = b"alpha;1.0\nbeta;2.0\ngamma;3.0\ndelta;4.0\n";
    assert_eq!(buffer.len(), 39);
    assert_eq!(chunks(buffer, 3), vec![0..19, 19..29, 29..39]);
}

#[test]
fn trailing_text_without_newline_ends_the_last_chunk() {
    let buffer = b"a;1.0\nb;2.0";
    assert_eq!(chunks(buffer, 2), vec![0..6, 6..11]);
}
