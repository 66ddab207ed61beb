use vstd::prelude::*;

use crate::chunks::{
    char_views, chars_of, chunks_of, folded, free_of, join_chunks, join_lines, lemma_split_on_len,
    split, split_on, split_pieces, string_of,
};

verus! {

/// The chunk count of a preprocessed text: one more than its newlines,
/// saturating at `usize::MAX`.
pub open spec fn chunk_count(preprocessed: Seq<char>) -> int {
    if count_newlines(preprocessed) < usize::MAX {
        count_newlines(preprocessed) as int + 1
    } else {
        usize::MAX as int
    }
}

/// How many newline characters `s` holds.
pub open spec fn count_newlines(s: Seq<char>) -> nat
    decreases s.len(),
{
    if s.len() == 0 {
        0
    } else {
        count_newlines(s.drop_last()) + if s.last() == '\n' {
            1nat
        } else {
            0nat
        }
    }
}

proof fn lemma_count_newlines_append(a: Seq<char>, b: Seq<char>)
    ensures
        count_newlines(a + b) == count_newlines(a) + count_newlines(b),
    decreases b.len(),
{
    if b.len() == 0 {
        assert(a + b == a);
    } else {
        lemma_count_newlines_append(a, b.drop_last());
        assert((a + b).drop_last() == a + b.drop_last());
    }
}

proof fn lemma_count_newlines_none(s: Seq<char>)
    requires
        forall|j: int| 0 <= j < s.len() ==> #[trigger] s[j] != '\n',
    ensures
        count_newlines(s) == 0,
    decreases s.len(),
{
    if s.len() > 0 {
        assert(s.last() == s[s.len() - 1]);
        lemma_count_newlines_none(s.drop_last());
    }
}

/// The chunks joined by newlines hold one newline less than there are
/// chunks, when there is at least one chunk and none holds a newline.
pub proof fn lemma_newlines_count_chunks(chunks: Seq<Seq<char>>)
    requires
        chunks.len() >= 1,
        free_of(chunks, seq!['\n']),
    ensures
        count_newlines(join_lines(chunks)) + 1 == chunks.len(),
    decreases chunks.len(),
{
    let last = chunks.last();
    assert forall|j: int| 0 <= j < last.len() implies #[trigger] last[j] != '\n' by {
        assert(last[j] == chunks[chunks.len() - 1][j]);
        assert(seq!['\n'][0] == '\n');
    }
    lemma_count_newlines_none(last);
    if chunks.len() > 1 {
        let rest = chunks.drop_last();
        assert forall|i: int, j: int|
            0 <= i < rest.len() && 0 <= j < rest[i].len() implies !seq!['\n'].contains(
            #[trigger] rest[i][j],
        ) by {
            assert(rest[i][j] == chunks[i][j]);
        }
        lemma_newlines_count_chunks(rest);
        lemma_count_newlines_append(join_lines(rest) + seq!['\n'], last);
        lemma_count_newlines_append(join_lines(rest), seq!['\n']);
        assert(seq!['\n'].drop_last() == Seq::<char>::empty());
        assert(count_newlines(Seq::<char>::empty()) == 0);
        assert(seq!['\n'].last() == '\n');
        assert(count_newlines(seq!['\n']) == 1);
        assert(join_lines(chunks) == join_lines(rest) + seq!['\n'] + last);
    }
}

/// One side of a comparison: its display name, its raw text and, once
/// `preprocess_chunks` has run, its chunks joined by newlines.
pub struct LineData {
    pub name: String,
    pub line: String,
    pub preprocessed: String,
}

impl LineData {
    /// A side named `name` holding `line`, not yet preprocessed.
    pub fn new(name: &str, line: &str) -> (r: LineData)
        ensures
            r.name@ == name@,
            r.line@ == line@,
            r.preprocessed@ == Seq::<char>::empty(),
    {
        LineData { name: name.to_owned(), line: line.to_owned(), preprocessed: String::new() }
    }

    /// The number of characters of the raw text.
    pub fn length(&self) -> (r: usize)
        ensures
            r == self.line@.len(),
    {
        self.line.as_str().unicode_len()
    }

    /// The number of chunks: one more than the newlines of the preprocessed
    /// text (saturating at `usize::MAX`, a count no text in memory reaches).
    pub fn number_chunks(&self) -> (r: usize)
        ensures
            r == chunk_count(self.preprocessed@),
    {
        let cs = chars_of(self.preprocessed.as_str());
        let mut count: usize = 0;
        let mut i: usize = 0;
        while i < cs.len()
            invariant
                i <= cs@.len(),
                cs@ == self.preprocessed@,
                count == count_newlines(cs@.take(i as int)),
                count <= i,
            decreases cs@.len() - i,
        {
            assert(cs@.take(i as int + 1).drop_last() == cs@.take(i as int));
            if cs[i] == '\n' {
                count = count + 1;
            }
            i = i + 1;
        }
        assert(cs@.take(cs@.len() as int) == cs@);
        if count < usize::MAX {
            count + 1
        } else {
            usize::MAX
        }
    }

    /// Replaces the preprocessed text by the chunks of the raw text: folded
    /// to lowercase when `lowercase` holds, split on every character of
    /// `separator`, sorted in ordinal order when `sort` holds, and joined by
    /// newlines.
    pub fn preprocess_chunks(&mut self, separator: &[char], sort: bool, lowercase: bool)
        ensures
            final(self).name == old(self).name,
            final(self).line == old(self).line,
            final(self).preprocessed@ == join_lines(
                chunks_of(folded(old(self).line@, lowercase), separator@, sort),
            ),
    {
        let chunks = split(self.line.as_str(), separator, sort, lowercase);
        self.preprocessed = join_chunks(&chunks);
    }
}

/// A line terminated by a newline loses a carriage return that ends it.
pub open spec fn strip_cr(l: Seq<char>) -> Seq<char> {
    if l.len() > 0 && l.last() == '\r' {
        l.drop_last()
    } else {
        l
    }
}

/// The lines of a text as a buffered reader yields them: the text is cut
/// at each newline, a carriage return before a newline is dropped, and the
/// empty rest after a final newline is no line.
pub open spec fn lines_of(s: Seq<char>) -> Seq<Seq<char>> {
    let parts = split_on(s, seq!['\n']);
    let ended = parts.drop_last().map_values(|l: Seq<char>| strip_cr(l));
    if parts.last().len() == 0 {
        ended
    } else {
        ended.push(parts.last())
    }
}

/// Line `i` of `lines`, or the empty text when there are fewer lines.
pub open spec fn line_or_empty(lines: Seq<Seq<char>>, i: int) -> Seq<char> {
    if i < lines.len() {
        lines[i]
    } else {
        Seq::empty()
    }
}

/// The two sides held by one text: its first two lines.
pub struct TwoLines {
    pub first: LineData,
    pub second: LineData,
    /// Whether the text holds more than two lines; the others are ignored.
    pub extra: bool,
}

/// Line `i` of the text cut into `parts` at its newlines, as `lines_of`
/// gives it, or the empty text when there is no such line.
fn line_from_parts(parts: &Vec<Vec<char>>, i: usize) -> (r: String)
    requires
        parts@.len() >= 1,
    ensures
        r@ == ({
            let all = char_views(parts@);
            let ended = all.drop_last().map_values(|l: Seq<char>| strip_cr(l));
            let lines = if all.last().len() == 0 {
                ended
            } else {
                ended.push(all.last())
            };
            line_or_empty(lines, i as int)
        }),
{
    let n = parts.len();
    let part = &parts[n - 1];
    let n_lines = if part.len() == 0 {
        n - 1
    } else {
        n
    };
    if i >= n_lines {
        return String::new();
    }
    let part = &parts[i];
    let len = part.len();
    if i + 1 < n && len > 0 && part[len - 1] == '\r' {
        string_of(part, len - 1)
    } else {
        string_of(part, len)
    }
}

/// The first two lines of `text`, named "Line 1" and "Line 2"; a missing
/// line is empty.
pub fn two_lines(text: &str) -> (r: TwoLines)
    ensures
        r.first.name@ == "Line 1"@,
        r.second.name@ == "Line 2"@,
        r.first.line@ == line_or_empty(lines_of(text@), 0),
        r.second.line@ == line_or_empty(lines_of(text@), 1),
        r.first.preprocessed@ == Seq::<char>::empty(),
        r.second.preprocessed@ == Seq::<char>::empty(),
        r.extra == (lines_of(text@).len() > 2),
{
    let seps: Vec<char> = vec!['\n'];
    let parts = split_pieces(text, seps.as_slice());
    proof {
        lemma_split_on_len(text@, seps@);
        assert(seps@ == seq!['\n']);
    }
    let n = parts.len();
    let n_lines = if parts[n - 1].len() == 0 {
        n - 1
    } else {
        n
    };
    let first = line_from_parts(&parts, 0);
    let second = line_from_parts(&parts, 1);
    TwoLines {
        first: LineData { name: "Line 1".to_owned(), line: first, preprocessed: String::new() },
        second: LineData { name: "Line 2".to_owned(), line: second, preprocessed: String::new() },
        extra: n_lines > 2,
    }
}

} // verus!
