use vstd::prelude::*;

use crate::line::{chunk_count, LineData};

verus! {

/// One aligned unit of a diff between two chunk sequences: chunks present on
/// both sides, only on the left, or only on the right. Adjacent chunks of
/// one kind may be grouped into one segment, joined by newlines.
pub enum Segment {
    Same(String),
    Removed(String),
    Added(String),
}

/// A segment as a value.
pub enum SegmentView {
    Same(Seq<char>),
    Removed(Seq<char>),
    Added(Seq<char>),
}

impl View for Segment {
    type V = SegmentView;

    open spec fn view(&self) -> SegmentView {
        match self {
            Segment::Same(t) => SegmentView::Same(t@),
            Segment::Removed(t) => SegmentView::Removed(t@),
            Segment::Added(t) => SegmentView::Added(t@),
        }
    }
}

/// The views of a sequence of segments.
pub open spec fn segment_views(s: Seq<Segment>) -> Seq<SegmentView> {
    s.map_values(|g: Segment| g@)
}

/// One three-column row of a report.
pub struct ReportRow {
    pub left: String,
    pub marker: String,
    pub right: String,
}

/// A report row as a value.
pub struct RowView {
    pub left: Seq<char>,
    pub marker: Seq<char>,
    pub right: Seq<char>,
}

impl View for ReportRow {
    type V = RowView;

    open spec fn view(&self) -> RowView {
        RowView { left: self.left@, marker: self.marker@, right: self.right@ }
    }
}

/// The views of a sequence of rows.
pub open spec fn row_views(rows: Seq<ReportRow>) -> Seq<RowView> {
    rows.map_values(|r: ReportRow| r@)
}

/// A row of counts closing a report: the left count, a label, the right count.
pub struct SummaryRow {
    pub left: usize,
    pub marker: String,
    pub right: usize,
}

/// The report on one comparison: a header naming the two sides, one row
/// per segment (a removal directly followed by an addition sharing one
/// row), and the character and chunk counts of both sides.
pub struct Report {
    pub header: ReportRow,
    pub rows: Vec<ReportRow>,
    pub characters: SummaryRow,
    pub chunks: SummaryRow,
}

/// Whether a removal waits for a following addition to pair with.
pub enum MergeState {
    Idle,
    PendingRemoval(String),
}

impl View for MergeState {
    type V = Option<Seq<char>>;

    open spec fn view(&self) -> Option<Seq<char>> {
        match self {
            MergeState::Idle => None,
            MergeState::PendingRemoval(t) => Some(t@),
        }
    }
}

/// A row with the given three cells.
pub open spec fn row(left: Seq<char>, marker: Seq<char>, right: Seq<char>) -> RowView {
    RowView { left, marker, right }
}

/// The rows and the pending removal after one more segment. A common chunk
/// goes in the middle column and a removal in the left one, where it waits
/// to be paired; an addition right after a removal replaces the removal's
/// row by one row holding both, and otherwise goes in the right column.
pub open spec fn step(acc: (Seq<RowView>, Option<Seq<char>>), seg: SegmentView) -> (
    Seq<RowView>,
    Option<Seq<char>>,
) {
    let e = Seq::<char>::empty();
    match seg {
        SegmentView::Same(t) => (acc.0.push(row(e, t, e)), None),
        SegmentView::Removed(t) => (acc.0.push(row(t, e, e)), Some(t)),
        SegmentView::Added(t) => match acc.1 {
            Some(p) => (acc.0.drop_last().push(row(p, e, t)), None),
            None => (acc.0.push(row(e, e, t)), None),
        },
    }
}

/// The rows and the pending removal after all of `segs`.
pub open spec fn walk(segs: Seq<SegmentView>) -> (Seq<RowView>, Option<Seq<char>>)
    decreases segs.len(),
{
    if segs.len() == 0 {
        (Seq::empty(), None)
    } else {
        step(walk(segs.drop_last()), segs.last())
    }
}

/// The rows of a report on `segs`, between its header and its counts.
pub open spec fn report_rows(segs: Seq<SegmentView>) -> Seq<RowView> {
    walk(segs).0
}

/// A removed segment directly followed by an added one yields exactly one
/// row, holding the removed text on the left and the added text on the right.
pub proof fn lemma_removal_then_addition_share_a_row(
    before: Seq<SegmentView>,
    removed: Seq<char>,
    added: Seq<char>,
)
    ensures
        report_rows(before.push(SegmentView::Removed(removed)).push(SegmentView::Added(added)))
            == report_rows(before).push(row(removed, Seq::empty(), added)),
{
    let mid = before.push(SegmentView::Removed(removed));
    let segs = mid.push(SegmentView::Added(added));
    assert(segs.drop_last() == mid);
    assert(mid.drop_last() == before);
    assert(walk(mid) == step(walk(before), SegmentView::Removed(removed)));
    assert(walk(segs) == step(walk(mid), SegmentView::Added(added)));
    let rows = walk(before).0;
    let e = Seq::<char>::empty();
    assert(rows.push(row(removed, e, e)).drop_last() == rows);
}

fn cells(left: String, marker: String, right: String) -> (r: ReportRow)
    ensures
        r@ == row(left@, marker@, right@),
{
    ReportRow { left, marker, right }
}

/// The rows of a report on `segments`.
pub fn render_rows(segments: &Vec<Segment>) -> (r: Vec<ReportRow>)
    ensures
        row_views(r@) == report_rows(segment_views(segments@)),
{
    let ghost segs = segment_views(segments@);
    let mut rows: Vec<ReportRow> = Vec::new();
    let mut state = MergeState::Idle;
    let mut i: usize = 0;
    while i < segments.len()
        invariant
            i <= segments@.len(),
            segs == segment_views(segments@),
            (row_views(rows@), state@) == walk(segs.take(i as int)),
            state@ is Some ==> rows@.len() > 0,
        decreases segments@.len() - i,
    {
        assert(segs.take(i as int + 1).drop_last() == segs.take(i as int));
        let ghost acc = (row_views(rows@), state@);
        let prev = state;
        state = MergeState::Idle;
        match &segments[i] {
            Segment::Same(t) => {
                rows.push(cells(String::new(), t.clone(), String::new()));
            },
            Segment::Removed(t) => {
                state = MergeState::PendingRemoval(t.clone());
                rows.push(cells(t.clone(), String::new(), String::new()));
            },
            Segment::Added(t) => match prev {
                MergeState::PendingRemoval(p) => {
                    rows.pop();
                    rows.push(cells(p, String::new(), t.clone()));
                },
                MergeState::Idle => {
                    rows.push(cells(String::new(), String::new(), t.clone()));
                },
            },
        }
        assert((row_views(rows@), state@) == step(acc, segs[i as int]));
        i = i + 1;
    }
    assert(segs.take(segs.len() as int) == segs);
    rows
}

/// Whether `r` is the report on `segs`, the diff between the preprocessed
/// texts of `left` and `right`: a header naming the sides, the rows of
/// `segs`, and the character and chunk counts of each side.
pub open spec fn is_report_on(r: Report, left: LineData, right: LineData, segs: Seq<SegmentView>) -> bool {
    &&& r.header@ == row(left.name@, "Same"@, right.name@)
    &&& row_views(r.rows@) == report_rows(segs)
    &&& r.characters.left == left.line@.len()
    &&& r.characters.marker@ == "Characters"@
    &&& r.characters.right == right.line@.len()
    &&& r.chunks.left == chunk_count(left.preprocessed@)
    &&& r.chunks.marker@ == "Chunks"@
    &&& r.chunks.right == chunk_count(right.preprocessed@)
}

/// The report on `segments`, the diff between the preprocessed texts of
/// `left` and `right`.
pub fn render(left: &LineData, right: &LineData, segments: &Vec<Segment>) -> (r: Report)
    ensures
        is_report_on(r, *left, *right, segment_views(segments@)),
{
    let header = cells(left.name.clone(), "Same".to_owned(), right.name.clone());
    let rows = render_rows(segments);
    let characters = SummaryRow {
        left: left.length(),
        marker: "Characters".to_owned(),
        right: right.length(),
    };
    let chunks = SummaryRow {
        left: left.number_chunks(),
        marker: "Chunks".to_owned(),
        right: right.number_chunks(),
    };
    Report { header, rows, characters, chunks }
}

} // verus!
