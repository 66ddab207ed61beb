use line_diff::{join_chunks, split, split_text, LineData};

fn strings(v: &[&str]) -> Vec<String> {
    v.iter().map(|s| s.to_string()).collect()
}

#[test]
fn split_on_space() {
    assert_eq!(split("hello world", &[' '], false, false), strings(&["hello", "world"]));
}

#[test]
fn split_without_separator_present() {
    assert_eq!(split("hello world", &[';'], false, false), strings(&["hello world"]));
}

#[test]
fn split_after_lowercasing() {
    assert_eq!(split("HELLO WORLD", &['o'], false, true), strings(&["hell", " w", "rld"]));
}

#[test]
fn split_and_sort() {
    assert_eq!(split("c b a", &[' '], true, false), strings(&["a", "b", "c"]));
}

#[test]
fn split_empty_text_gives_one_empty_chunk() {
    assert_eq!(split("", &[' '], false, false), strings(&[""]));
    assert_eq!(split("", &[' '], true, true), strings(&[""]));
}

#[test]
fn adjacent_separators_leave_empty_chunks() {
    assert_eq!(split("a  b", &[' '], false, false), strings(&["a", "", "b"]));
    assert_eq!(split(";a;", &[';'], false, false), strings(&["", "a", ""]));
    assert_eq!(split("a; b", &[' ', ';'], false, false), strings(&["a", "", "b"]));
}

#[test]
fn split_with_no_separators_at_all() {
    assert_eq!(split("a b", &[], false, false), strings(&["a b"]));
}

#[test]
fn newline_in_separators_splits_lines() {
    assert_eq!(split("a b\nc", &[' ', '\n'], false, false), strings(&["a", "b", "c"]));
    assert_eq!(split("a b\nc", &[' '], false, false), strings(&["a", "b\nc"]));
}

#[test]
fn sort_is_ordinal() {
    assert_eq!(
        split("b a B A ab a\u{e9} aa", &[' '], true, false),
        strings(&["A", "B", "a", "aa", "ab", "a\u{e9}", "b"])
    );
    assert_eq!(split("b  a", &[' '], true, false), strings(&["", "a", "b"]));
}

#[test]
fn sort_keeps_equal_chunks() {
    assert_eq!(split("x y x", &[' '], true, false), strings(&["x", "x", "y"]));
}

#[test]
fn rejoining_with_the_separators_gives_the_text() {
    let raw = "a;b c;;d";
    let chunks = split(raw, &[';', ' '], false, false);
    assert_eq!(chunks, strings(&["a", "b", "c", "", "d"]));
    let seps: Vec<char> = raw.chars().filter(|c| *c == ';' || *c == ' ').collect();
    assert_eq!(chunks.len(), seps.len() + 1);
    let mut rebuilt = chunks[0].clone();
    for (k, c) in seps.iter().enumerate() {
        rebuilt.push(*c);
        rebuilt.push_str(&chunks[k + 1]);
    }
    assert_eq!(rebuilt, raw);
}

#[test]
fn chunk_count_is_newlines_plus_one() {
    let chunks = strings(&["a", "", "b c"]);
    let joined = join_chunks(&chunks);
    assert_eq!(joined, "a\n\nb c");
    assert_eq!(joined.matches('\n').count() + 1, chunks.len());
    let mut data = LineData::new("x", "a  b c");
    data.preprocess_chunks(&[' '], false, false);
    assert_eq!(data.number_chunks(), 4);
    let data = LineData::new("x", "");
    assert_eq!(data.number_chunks(), 1);
}

#[test]
fn sorting_twice_changes_nothing() {
    let once = split_text("d c b a c", &[' '], true);
    let joined = join_chunks(&once);
    let twice = split_text(&joined, &['\n'], true);
    assert_eq!(once, twice);
    assert_eq!(once, strings(&["a", "b", "c", "c", "d"]));
}

#[test]
fn lowercasing_twice_changes_nothing() {
    let once = split("HeLLo \u{c4}\u{d6} W\u{130}", &[';'], false, true);
    let twice = split(&once[0], &[';'], false, true);
    assert_eq!(once, twice);
    assert_eq!(once[0], "hello \u{e4}\u{f6} wi\u{307}");
}

#[test]
fn join_chunks_of_nothing_is_empty() {
    assert_eq!(join_chunks(&Vec::new()), "");
}

#[test]
fn length_counts_characters() {
    let data = LineData::new("x", "\u{e4}\u{f6}b");
    assert_eq!(data.length(), 3);
    assert_eq!(data.name, "x");
    assert_eq!(data.line, "\u{e4}\u{f6}b");
    assert_eq!(data.preprocessed, "");
}
