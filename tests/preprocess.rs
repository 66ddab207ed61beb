use line_diff::LineData;

#[test]
fn preprocess_no_sorting() {
    let mut data = LineData::new("Line 1", "hello world");
    data.preprocess_chunks(&vec![' '], false, false);
    assert_eq!("hello\nworld", data.preprocessed);

    let mut data = LineData::new("Line 1", "hello world");
    data.preprocess_chunks(&vec![';'], false, false);
    assert_eq!("hello world", data.preprocessed);

    let mut data = LineData::new("Line 1", "hello world");
    data.preprocess_chunks(&vec!['o'], false, false);
    assert_eq!("hell\n w\nrld", data.preprocessed);
}

#[test]
fn preprocess_lowercase() {
    let mut data = LineData::new("Line 1", "hello world");
    data.preprocess_chunks(&vec![' '], false, true);
    assert_eq!("hello\nworld", data.preprocessed);

    let mut data = LineData::new("Line 1", "Hello wOrld");
    data.preprocess_chunks(&vec![';'], false, true);
    assert_eq!("hello world", data.preprocessed);

    let mut data = LineData::new("Line 1", "HELLO WORLD");
    data.preprocess_chunks(&vec!['o'], false, true);
    assert_eq!("hell\n w\nrld", data.preprocessed);
}

#[test]
fn preprocess_sorting() {
    let mut data = LineData::new("Line 1", "a b c");
    data.preprocess_chunks(&vec![' '], true, false);
    assert_eq!("a\nb\nc", data.preprocessed);

    let mut data = LineData::new("Line 1", "c b a");
    data.preprocess_chunks(&vec![' '], true, false);
    assert_eq!("a\nb\nc", data.preprocessed);
}

#[test]
fn preprocess_multiple_separators() {
    let mut data = LineData::new("Line 1", "a b;c");
    data.preprocess_chunks(&vec![' '], true, false);
    assert_eq!("a\nb;c", data.preprocessed);

    let mut data = LineData::new("Line 1", "c b a");
    data.preprocess_chunks(&vec![' ', ';'], true, false);
    assert_eq!("a\nb\nc", data.preprocessed);
}
