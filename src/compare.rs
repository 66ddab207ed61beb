use vstd::prelude::*;

use crate::chunks::{
    chunks_of, folded, join_lines, lemma_chunks_free_of, lemma_free_of_newline,
    lemma_split_join_lines, split_on,
};
use crate::config::Config;
use crate::line::LineData;
use crate::report::{is_report_on, render, segment_views, Report, Segment, SegmentView};

verus! {

/// The segments that `difference::Changeset` finds between two texts, each
/// read as a sequence of lines.
pub uninterp spec fn changeset_of(orig: Seq<char>, edit: Seq<char>) -> Seq<SegmentView>;

/// The texts of the segments that hold left-side chunks (common and
/// removed ones), in order.
pub open spec fn left_texts(segs: Seq<SegmentView>) -> Seq<Seq<char>>
    decreases segs.len(),
{
    if segs.len() == 0 {
        Seq::empty()
    } else {
        match segs.last() {
            SegmentView::Same(t) => left_texts(segs.drop_last()).push(t),
            SegmentView::Removed(t) => left_texts(segs.drop_last()).push(t),
            SegmentView::Added(_) => left_texts(segs.drop_last()),
        }
    }
}

/// The texts of the segments that hold right-side chunks (common and
/// added ones), in order.
pub open spec fn right_texts(segs: Seq<SegmentView>) -> Seq<Seq<char>>
    decreases segs.len(),
{
    if segs.len() == 0 {
        Seq::empty()
    } else {
        match segs.last() {
            SegmentView::Same(t) => right_texts(segs.drop_last()).push(t),
            SegmentView::Removed(_) => right_texts(segs.drop_last()),
            SegmentView::Added(t) => right_texts(segs.drop_last()).push(t),
        }
    }
}

/// Relies on `difference::Changeset::new` with a newline as the split: its
/// `diffs` hand out every line of `orig` and of `edit` once, in order,
/// common lines in `Same`, the other lines of `orig` in `Rem` and those of
/// `edit` in `Add`, each segment joining its lines by newlines. So the texts
/// of the `Same` and `Rem` segments, joined by newlines, give `orig` back,
/// and those of the `Same` and `Add` segments give `edit` back.
#[verifier::external_body]
fn changeset(orig: &str, edit: &str) -> (r: Vec<Segment>)
    ensures
        segment_views(r@) == changeset_of(orig@, edit@),
        join_lines(left_texts(segment_views(r@))) == orig@,
        join_lines(right_texts(segment_views(r@))) == edit@,
{
    let mut r: Vec<Segment> = Vec::new();
    for d in difference::Changeset::new(orig, edit, "\n").diffs {
        r.push(
            match d {
                difference::Difference::Same(t) => Segment::Same(t),
                difference::Difference::Rem(t) => Segment::Removed(t),
                difference::Difference::Add(t) => Segment::Added(t),
            },
        );
    }
    r
}

/// The chunks that `config` makes of a raw text.
pub open spec fn config_chunks(config: Config, raw: Seq<char>) -> Seq<Seq<char>> {
    chunks_of(folded(raw, config.lowercase), config.separators@, config.sort)
}

/// The result of one comparison: the diff segments and the report on them.
pub struct Comparison {
    pub segments: Vec<Segment>,
    pub report: Report,
}

/// The line diff between the preprocessed texts of `left` and `right`.
pub fn diff(left: &LineData, right: &LineData) -> (r: Vec<Segment>)
    ensures
        segment_views(r@) == changeset_of(left.preprocessed@, right.preprocessed@),
        join_lines(left_texts(segment_views(r@))) == left.preprocessed@,
        join_lines(right_texts(segment_views(r@))) == right.preprocessed@,
{
    changeset(left.preprocessed.as_str(), right.preprocessed.as_str())
}

/// Compares two sides under `config`: preprocesses both, aligns their
/// chunks with a line diff and reports on the alignment.
pub fn compare(config: &Config, left: &mut LineData, right: &mut LineData) -> (r: Comparison)
    ensures
        final(left).name == old(left).name,
        final(left).line == old(left).line,
        final(left).preprocessed@ == join_lines(config_chunks(*config, old(left).line@)),
        final(right).name == old(right).name,
        final(right).line == old(right).line,
        final(right).preprocessed@ == join_lines(config_chunks(*config, old(right).line@)),
        segment_views(r.segments@) == changeset_of(
            final(left).preprocessed@,
            final(right).preprocessed@,
        ),
        is_report_on(r.report, *final(left), *final(right), segment_views(r.segments@)),
        config.separators@.contains('\n') ==> split_on(
            join_lines(left_texts(segment_views(r.segments@))),
            seq!['\n'],
        ) == config_chunks(*config, old(left).line@),
        config.separators@.contains('\n') ==> split_on(
            join_lines(right_texts(segment_views(r.segments@))),
            seq!['\n'],
        ) == config_chunks(*config, old(right).line@),
{
    let ghost left_raw = left.line@;
    let ghost right_raw = right.line@;
    left.preprocess_chunks(config.separators.as_slice(), config.sort, config.lowercase);
    right.preprocess_chunks(config.separators.as_slice(), config.sort, config.lowercase);
    let segments = diff(left, right);
    let report = render(left, right, &segments);
    proof {
        if config.separators@.contains('\n') {
            let seps = config.separators@;
            let lc = config_chunks(*config, left_raw);
            let rc = config_chunks(*config, right_raw);
            lemma_chunks_free_of(folded(left_raw, config.lowercase), seps, config.sort);
            lemma_chunks_free_of(folded(right_raw, config.lowercase), seps, config.sort);
            lemma_free_of_newline(lc, seps);
            lemma_free_of_newline(rc, seps);
            lemma_split_join_lines(lc);
            lemma_split_join_lines(rc);
        }
    }
    Comparison { segments, report }
}

} // verus!
