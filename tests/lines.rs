use logmap::lines::LineIndex;
use logmap::range::Range;

fn text_of<'a>(content: &'a [u8], r: &Range) -> &'a [u8] {
    r.slice_of(content)
}

#[test]
fn line_index_three_lines_without_trailing_newline() {
    let content = b"a\nbb\nccc";
    let index = LineIndex::build(content);
    assert_eq!(index.line_count(), 3);
    let first = index.line_bytes(0, 2);
    assert_eq!(first.len(), 2);
    assert_eq!(text_of(content, &first[0]), b"a");
    assert_eq!(text_of(content, &first[1]), b"bb");
    let clipped = index.line_bytes(2, 5);
    assert_eq!(clipped.len(), 1);
    assert_eq!(text_of(content, &clipped[0]), b"ccc");
    assert_eq!(clipped[0], Range::new(5, 8));
}

#[test]
fn line_index_past_the_end_is_empty() {
    let index = LineIndex::build(b"a\nbb\nccc");
    assert!(index.line_bytes(3, 1).is_empty());
    assert!(index.line_bytes(100, 4).is_empty());
    assert!(index.line_bytes(0, 0).is_empty());
}

#[test]
fn line_index_trailing_newline_counts_newlines() {
    let index = LineIndex::build(b"one\ntwo\n");
    assert_eq!(index.line_count(), 2);
    assert_eq!(index.line_range(1), Range::new(4, 7));
}

#[test]
fn line_index_no_newline_is_one_line() {
    let index = LineIndex::build(b"abc");
    assert_eq!(index.line_count(), 1);
    assert_eq!(index.line_range(0), Range::new(0, 3));
}

#[test]
fn line_index_empty_lines() {
    let content = b"\n\nx";
    let index = LineIndex::build(content);
    assert_eq!(index.line_count(), 3);
    assert_eq!(index.line_range(0), Range::new(0, 0));
    assert_eq!(index.line_range(1), Range::new(1, 1));
    assert_eq!(index.line_range(2), Range::new(2, 3));
}

#[test]
fn line_index_empty_content_has_no_lines() {
    let index = LineIndex::build(b"");
    assert_eq!(index.line_count(), 0);
    assert!(index.line_bytes(0, 1).is_empty());
}

#[test]
fn line_index_keeps_carriage_return() {
    let content = b"a\r\nb";
    let index = LineIndex::build(content);
    assert_eq!(index.line_count(), 2);
    assert_eq!(text_of(content, &index.line_range(0)), b"a\r");
}

#[test]
fn line_count_matches_newline_formula() {
    let samples: Vec<&[u8]> = vec![b"a", b"a\n", b"\n", b"a\nb", b"a\nb\n\n", b"x\ny\nz\n0"];
    for s in samples {
        let newlines = s.iter().filter(|b| **b == b'\n').count();
        let expected = if !s.is_empty() && s[s.len() - 1] != b'\n' {
            newlines + 1
        } else {
            newlines
        };
        assert_eq!(LineIndex::build(s).line_count(), expected);
    }
}
