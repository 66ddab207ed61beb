use line_diff::{compare, diff, render, render_rows, Config, LineData, ReportRow, Segment};

fn cells(r: &ReportRow) -> (&str, &str, &str) {
    (r.left.as_str(), r.marker.as_str(), r.right.as_str())
}

fn seg_text(s: &Segment) -> (&'static str, &str) {
    match s {
        Segment::Same(t) => ("same", t.as_str()),
        Segment::Removed(t) => ("removed", t.as_str()),
        Segment::Added(t) => ("added", t.as_str()),
    }
}

#[test]
fn removal_then_addition_share_one_row() {
    let segs = vec![Segment::Removed("a".to_string()), Segment::Added("b".to_string())];
    let rows = render_rows(&segs);
    assert_eq!(rows.len(), 1);
    assert_eq!(cells(&rows[0]), ("a", "", "b"));
}

#[test]
fn only_the_last_of_two_removals_is_paired() {
    let segs = vec![
        Segment::Removed("a".to_string()),
        Segment::Removed("b".to_string()),
        Segment::Added("c".to_string()),
    ];
    let rows = render_rows(&segs);
    assert_eq!(rows.len(), 2);
    assert_eq!(cells(&rows[0]), ("a", "", ""));
    assert_eq!(cells(&rows[1]), ("b", "", "c"));
}

#[test]
fn common_chunk_keeps_removal_and_addition_apart() {
    let segs = vec![
        Segment::Removed("a".to_string()),
        Segment::Same("s".to_string()),
        Segment::Added("b".to_string()),
        Segment::Added("c".to_string()),
    ];
    let rows = render_rows(&segs);
    assert_eq!(rows.len(), 4);
    assert_eq!(cells(&rows[0]), ("a", "", ""));
    assert_eq!(cells(&rows[1]), ("", "s", ""));
    assert_eq!(cells(&rows[2]), ("", "", "b"));
    assert_eq!(cells(&rows[3]), ("", "", "c"));
}

#[test]
fn addition_then_removal_stay_apart() {
    let segs = vec![Segment::Added("b".to_string()), Segment::Removed("a".to_string())];
    let rows = render_rows(&segs);
    assert_eq!(rows.len(), 2);
    assert_eq!(cells(&rows[0]), ("", "", "b"));
    assert_eq!(cells(&rows[1]), ("a", "", ""));
}

#[test]
fn no_segments_no_rows() {
    assert_eq!(render_rows(&Vec::new()).len(), 0);
}

#[test]
fn render_adds_header_and_counts() {
    let mut l = LineData::new("left", "a b");
    let mut r = LineData::new("right", "a\u{e4}");
    l.preprocess_chunks(&[' '], false, false);
    r.preprocess_chunks(&[' '], false, false);
    let report = render(&l, &r, &vec![Segment::Same("x".to_string())]);
    assert_eq!(cells(&report.header), ("left", "Same", "right"));
    assert_eq!(report.rows.len(), 1);
    assert_eq!(cells(&report.rows[0]), ("", "x", ""));
    assert_eq!(report.characters.left, 3);
    assert_eq!(report.characters.marker, "Characters");
    assert_eq!(report.characters.right, 2);
    assert_eq!(report.chunks.left, 2);
    assert_eq!(report.chunks.marker, "Chunks");
    assert_eq!(report.chunks.right, 1);
}

#[test]
fn compare_hello_world() {
    let config = Config::from_lines(false, false, vec![' '], "Hello World", "hello World");
    let mut l = LineData::new("Line 1", config.line1.as_ref().unwrap());
    let mut r = LineData::new("Line 2", config.line2.as_ref().unwrap());
    let result = compare(&config, &mut l, &mut r);
    let segs: Vec<_> = result.segments.iter().map(seg_text).collect();
    assert_eq!(segs, vec![("removed", "Hello"), ("added", "hello"), ("same", "World")]);
    let report = result.report;
    assert_eq!(cells(&report.header), ("Line 1", "Same", "Line 2"));
    assert_eq!(report.rows.len(), 2);
    assert_eq!(cells(&report.rows[0]), ("Hello", "", "hello"));
    assert_eq!(cells(&report.rows[1]), ("", "World", ""));
    assert_eq!((report.characters.left, report.characters.right), (11, 11));
    assert_eq!((report.chunks.left, report.chunks.right), (2, 2));
    assert_eq!(l.preprocessed, "Hello\nWorld");
    assert_eq!(r.preprocessed, "hello\nWorld");
}

#[test]
fn compare_lowercase_makes_sides_equal() {
    let config = Config::from_lines(false, true, vec![' ', '\n'], "Hello World", "hello World");
    let mut l = LineData::new("Line 1", "Hello World");
    let mut r = LineData::new("Line 2", "hello World");
    let result = compare(&config, &mut l, &mut r);
    let segs: Vec<_> = result.segments.iter().map(seg_text).collect();
    assert_eq!(segs, vec![("same", "hello\nworld")]);
    assert_eq!(result.report.rows.len(), 1);
    assert_eq!(cells(&result.report.rows[0]), ("", "hello\nworld", ""));
}

#[test]
fn diff_segments_give_both_sides_back() {
    let config = Config::from_lines(true, false, vec![' ', ';', '\n'], "x;b a c d", "a c e;b\nf");
    let mut l = LineData::new("Line 1", "x;b a c d");
    let mut r = LineData::new("Line 2", "a c e;b\nf");
    let result = compare(&config, &mut l, &mut r);
    let mut left = Vec::new();
    let mut right = Vec::new();
    for s in &result.segments {
        match s {
            Segment::Same(t) => {
                left.push(t.clone());
                right.push(t.clone());
            }
            Segment::Removed(t) => left.push(t.clone()),
            Segment::Added(t) => right.push(t.clone()),
        }
    }
    assert_eq!(left.join("\n"), l.preprocessed);
    assert_eq!(right.join("\n"), r.preprocessed);
    assert_eq!(l.preprocessed, "a\nb\nc\nd\nx");
    assert_eq!(r.preprocessed, "a\nb\nc\ne\nf");
    let again = diff(&l, &r);
    assert_eq!(again.len(), result.segments.len());
}

#[test]
fn diff_of_identical_sides_is_all_same() {
    let mut l = LineData::new("a", "");
    let mut r = LineData::new("b", "");
    l.preprocess_chunks(&[' '], false, false);
    r.preprocess_chunks(&[' '], false, false);
    assert_eq!(diff(&l, &r).len(), 0);
    let mut l = LineData::new("a", "p q");
    let mut r = LineData::new("b", "p q");
    l.preprocess_chunks(&[' '], false, false);
    r.preprocess_chunks(&[' '], false, false);
    let segs = diff(&l, &r);
    assert_eq!(segs.iter().map(seg_text).collect::<Vec<_>>(), vec![("same", "p\nq")]);
}
