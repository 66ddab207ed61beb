use vstd::prelude::*;
use vstd::multiset::Multiset;
use vstd::relations::{sorted_by, total_ordering};

verus! {

/// The chunks of `s` when each character listed in `seps` ends one chunk and
/// starts the next: `s` read up to its last character, with that character
/// either opening a new empty chunk (a separator) or extending the last one.
/// Two adjacent separators leave an empty chunk between them, and a text
/// without separators is a single chunk.
pub open spec fn split_on(s: Seq<char>, seps: Seq<char>) -> Seq<Seq<char>>
    decreases s.len(),
{
    if s.len() == 0 {
        seq![Seq::empty()]
    } else {
        let before = split_on(s.drop_last(), seps);
        if seps.contains(s.last()) {
            before.push(Seq::empty())
        } else {
            before.update(before.len() - 1, before.last().push(s.last()))
        }
    }
}

/// The chunks joined into one text, a newline between each two.
pub open spec fn join_lines(chunks: Seq<Seq<char>>) -> Seq<char>
    decreases chunks.len(),
{
    if chunks.len() == 0 {
        Seq::empty()
    } else if chunks.len() == 1 {
        chunks[0]
    } else {
        join_lines(chunks.drop_last()) + seq!['\n'] + chunks.last()
    }
}

/// Ordinal order on chunks: lexicographic by character code, a chunk
/// coming before every longer chunk that starts with it.
pub open spec fn chunk_le(a: Seq<char>, b: Seq<char>) -> bool
    decreases a.len(),
{
    if a.len() == 0 {
        true
    } else if b.len() == 0 {
        false
    } else if a[0] != b[0] {
        a[0] < b[0]
    } else {
        chunk_le(a.drop_first(), b.drop_first())
    }
}

/// `chunk_le` as a relation.
pub open spec fn chunk_order() -> spec_fn(Seq<char>, Seq<char>) -> bool {
    |a: Seq<char>, b: Seq<char>| chunk_le(a, b)
}

/// The chunks in ordinal order.
pub open spec fn sorted_chunks(chunks: Seq<Seq<char>>) -> Seq<Seq<char>> {
    chunks.sort_by(chunk_order())
}

/// The chunks of `text` split on `seps`, in ordinal order when `sort` holds.
pub open spec fn chunks_of(text: Seq<char>, seps: Seq<char>, sort: bool) -> Seq<Seq<char>> {
    if sort {
        sorted_chunks(split_on(text, seps))
    } else {
        split_on(text, seps)
    }
}

/// What `str::to_lowercase` makes of a text.
pub uninterp spec fn lowercase_of(s: Seq<char>) -> Seq<char>;

/// The text that is split: `raw` itself, or its lowercase form.
pub open spec fn folded(raw: Seq<char>, lowercase: bool) -> Seq<char> {
    if lowercase {
        lowercase_of(raw)
    } else {
        raw
    }
}

/// The views of a sequence of strings.
pub open spec fn string_views(v: Seq<String>) -> Seq<Seq<char>> {
    v.map_values(|c: String| c@)
}

/// The views of a sequence of character vectors.
pub open spec fn char_views(v: Seq<Vec<char>>) -> Seq<Seq<char>> {
    v.map_values(|c: Vec<char>| c@)
}

/// Splitting never yields zero chunks.
pub proof fn lemma_split_on_len(s: Seq<char>, seps: Seq<char>)
    ensures
        split_on(s, seps).len() >= 1,
    decreases s.len(),
{
    if s.len() > 0 {
        lemma_split_on_len(s.drop_last(), seps);
    }
}

proof fn lemma_chunk_le_reflexive(a: Seq<char>)
    ensures
        chunk_le(a, a),
    decreases a.len(),
{
    if a.len() > 0 {
        lemma_chunk_le_reflexive(a.drop_first());
    }
}

proof fn lemma_chunk_le_antisymmetric(a: Seq<char>, b: Seq<char>)
    requires
        chunk_le(a, b),
        chunk_le(b, a),
    ensures
        a == b,
    decreases a.len(),
{
    if a.len() > 0 && b.len() > 0 {
        if a[0] == b[0] {
            lemma_chunk_le_antisymmetric(a.drop_first(), b.drop_first());
            assert(a =~= seq![a[0]] + a.drop_first());
            assert(b =~= seq![b[0]] + b.drop_first());
        }
    }
}

proof fn lemma_chunk_le_transitive(a: Seq<char>, b: Seq<char>, c: Seq<char>)
    requires
        chunk_le(a, b),
        chunk_le(b, c),
    ensures
        chunk_le(a, c),
    decreases a.len(),
{
    if a.len() > 0 && b.len() > 0 && c.len() > 0 {
        if a[0] == b[0] && b[0] == c[0] {
            lemma_chunk_le_transitive(a.drop_first(), b.drop_first(), c.drop_first());
        }
    }
}

proof fn lemma_chunk_le_connected(a: Seq<char>, b: Seq<char>)
    ensures
        chunk_le(a, b) || chunk_le(b, a),
    decreases a.len(),
{
    if a.len() > 0 && b.len() > 0 {
        if a[0] == b[0] {
            lemma_chunk_le_connected(a.drop_first(), b.drop_first());
        }
    }
}

/// The ordinal order on chunks is a total order.
pub proof fn lemma_chunk_order_total()
    ensures
        total_ordering(chunk_order()),
{
    let r = chunk_order();
    assert forall|a: Seq<char>| #[trigger] r(a, a) by {
        lemma_chunk_le_reflexive(a);
    }
    assert forall|a: Seq<char>, b: Seq<char>| #[trigger] r(a, b) && #[trigger] r(b, a) implies a
        == b by {
        lemma_chunk_le_antisymmetric(a, b);
    }
    assert forall|a: Seq<char>, b: Seq<char>, c: Seq<char>| #[trigger] r(a, b) && #[trigger] r(
        b,
        c,
    ) implies r(a, c) by {
        lemma_chunk_le_transitive(a, b, c);
    }
    assert forall|a: Seq<char>, b: Seq<char>| #[trigger] r(a, b) || #[trigger] r(b, a) by {
        lemma_chunk_le_connected(a, b);
    }
}

/// The characters of `s`, in order.
pub fn chars_of(s: &str) -> (r: Vec<char>)
    ensures
        r@ == s@,
{
    let mut r: Vec<char> = Vec::new();
    for c in it: s.chars()
        invariant
            it.seq() == s@,
            r@ == s@.take(it.index() as int),
    {
        r.push(c);
    }
    r
}

/// Relies on `String::push`: appends one character at the end.
#[verifier::external_body]
pub(crate) fn push_char(s: &mut String, c: char)
    ensures
        final(s)@ == old(s)@.push(c),
{
    s.push(c);
}

/// Relies on `str::to_lowercase`: its result depends on the characters alone.
#[verifier::external_body]
fn to_lowercase(s: &str) -> (r: String)
    ensures
        r@ == lowercase_of(s@),
{
    s.to_lowercase()
}

/// Whether no chunk holds a character of `seps`.
pub open spec fn free_of(chunks: Seq<Seq<char>>, seps: Seq<char>) -> bool {
    forall|i: int, j: int|
        0 <= i < chunks.len() && 0 <= j < chunks[i].len() ==> !seps.contains(#[trigger] chunks[i][j])
}

/// The separators of `s`, in order.
pub open spec fn separators_in(s: Seq<char>, seps: Seq<char>) -> Seq<char> {
    s.filter(|c: char| seps.contains(c))
}

/// The chunks with `delims[k]` put back between chunk `k` and chunk `k + 1`.
pub open spec fn interleave(chunks: Seq<Seq<char>>, delims: Seq<char>) -> Seq<char>
    decreases chunks.len(),
{
    if chunks.len() == 0 {
        Seq::empty()
    } else if chunks.len() == 1 {
        chunks[0]
    } else {
        interleave(chunks.drop_last(), delims.drop_last()) + seq![delims.last()] + chunks.last()
    }
}

proof fn lemma_interleave_extend_last(chunks: Seq<Seq<char>>, delims: Seq<char>, c: char)
    requires
        chunks.len() >= 1,
    ensures
        interleave(chunks.update(chunks.len() - 1, chunks.last().push(c)), delims) == interleave(
            chunks,
            delims,
        ).push(c),
{
    let ext = chunks.update(chunks.len() - 1, chunks.last().push(c));
    if chunks.len() > 1 {
        assert(ext.drop_last() == chunks.drop_last());
    }
}

/// Splitting loses nothing: the chunks of `s`, with the separators of `s`
/// put back between them in the order they occur, give `s` again; there is
/// one chunk more than separators, and no chunk holds a separator.
pub proof fn lemma_split_rejoin(s: Seq<char>, seps: Seq<char>)
    ensures
        interleave(split_on(s, seps), separators_in(s, seps)) == s,
        split_on(s, seps).len() == separators_in(s, seps).len() + 1,
        free_of(split_on(s, seps), seps),
    decreases s.len(),
{
    broadcast use Seq::lemma_filter_push;

    if s.len() == 0 {
        assert(separators_in(s, seps) =~= Seq::<char>::empty()) by {
            reveal_with_fuel(Seq::filter, 1);
        }
    } else {
        let prev = s.drop_last();
        let c = s.last();
        lemma_split_rejoin(prev, seps);
        lemma_split_on_len(prev, seps);
        assert(s == prev.push(c));
        let before = split_on(prev, seps);
        let pred = |x: char| seps.contains(x);
        assert(s.filter(pred) == if pred(c) {
            prev.filter(pred).push(c)
        } else {
            prev.filter(pred)
        });
        if seps.contains(c) {
            let d = separators_in(s, seps);
            assert(before.push(Seq::empty()).drop_last() == before);
            assert(d.drop_last() == separators_in(prev, seps));
            assert(interleave(split_on(s, seps), d) == interleave(before, separators_in(prev, seps))
                + seq![c] + Seq::<char>::empty());
            assert(interleave(split_on(s, seps), d) =~= s);
        } else {
            lemma_interleave_extend_last(before, separators_in(prev, seps), c);
            let after = split_on(s, seps);
            assert forall|i: int, j: int|
                0 <= i < after.len() && 0 <= j < after[i].len() implies !seps.contains(
                #[trigger] after[i][j],
            ) by {
                if i == after.len() - 1 && j == after[i].len() - 1 {
                } else if i == after.len() - 1 {
                    assert(after[i][j] == before[i][j]);
                } else {
                    assert(after[i] == before[i]);
                }
            }
        }
    }
}

/// Sorting chunks a second time leaves them as they are.
pub proof fn lemma_sort_idempotent(chunks: Seq<Seq<char>>)
    ensures
        sorted_chunks(sorted_chunks(chunks)) == sorted_chunks(chunks),
{
    lemma_chunk_order_total();
    let once = sorted_chunks(chunks);
    chunks.lemma_sort_by_ensures(chunk_order());
    once.lemma_sort_by_ensures(chunk_order());
    vstd::seq_lib::lemma_sorted_unique(sorted_chunks(once), once, chunk_order());
}

/// Sorting chunks keeps every chunk it is given, and brings in no other.
proof fn lemma_sorted_chunks_free_of(chunks: Seq<Seq<char>>, seps: Seq<char>)
    requires
        free_of(chunks, seps),
    ensures
        free_of(sorted_chunks(chunks), seps),
        sorted_chunks(chunks).len() == chunks.len(),
{
    broadcast use vstd::seq_lib::group_to_multiset_ensures;

    lemma_chunk_order_total();
    chunks.lemma_sort_by_ensures(chunk_order());
    let sorted = sorted_chunks(chunks);
    assert(chunks.to_multiset().len() == chunks.len());
    assert(sorted.to_multiset().len() == sorted.len());
    assert forall|i: int, j: int|
        0 <= i < sorted.len() && 0 <= j < sorted[i].len() implies !seps.contains(
        #[trigger] sorted[i][j],
    ) by {
        assert(sorted.contains(sorted[i]));
        assert(chunks.contains(sorted[i]));
        let k = choose|k: int| 0 <= k < chunks.len() && chunks[k] == sorted[i];
        assert(chunks[k][j] == sorted[i][j]);
    }
}

/// The chunks of a text hold no separator, sorted or not.
pub proof fn lemma_chunks_free_of(text: Seq<char>, seps: Seq<char>, sort: bool)
    ensures
        free_of(chunks_of(text, seps, sort), seps),
        chunks_of(text, seps, sort).len() >= 1,
{
    lemma_split_rejoin(text, seps);
    lemma_sorted_chunks_free_of(split_on(text, seps), seps);
}

/// Chunks free of a set of separators that includes the newline hold no
/// newline.
pub proof fn lemma_free_of_newline(chunks: Seq<Seq<char>>, seps: Seq<char>)
    requires
        free_of(chunks, seps),
        seps.contains('\n'),
    ensures
        free_of(chunks, seq!['\n']),
{
    assert forall|i: int, j: int|
        0 <= i < chunks.len() && 0 <= j < chunks[i].len() implies !seq!['\n'].contains(
        #[trigger] chunks[i][j],
    ) by {
        if chunks[i][j] == '\n' {
            assert(seps.contains(chunks[i][j]));
        }
        assert(!seq!['\n'].contains(chunks[i][j])) by {
            if seq!['\n'].contains(chunks[i][j]) {
                let k = choose|k: int| 0 <= k < 1 && seq!['\n'][k] == chunks[i][j];
            }
        }
    }
}

/// A text without separators after `s` only lengthens the last chunk of `s`.
proof fn lemma_split_on_append(s: Seq<char>, t: Seq<char>, seps: Seq<char>)
    requires
        forall|j: int| 0 <= j < t.len() ==> !seps.contains(#[trigger] t[j]),
    ensures
        split_on(s + t, seps) == split_on(s, seps).update(
            split_on(s, seps).len() - 1,
            split_on(s, seps).last() + t,
        ),
    decreases t.len(),
{
    lemma_split_on_len(s, seps);
    if t.len() == 0 {
        assert(s + t == s);
        assert(split_on(s, seps).last() + t == split_on(s, seps).last());
        assert(split_on(s, seps).update(split_on(s, seps).len() - 1, split_on(s, seps).last())
            == split_on(s, seps));
    } else {
        let t0 = t.drop_last();
        assert forall|j: int| 0 <= j < t0.len() implies !seps.contains(#[trigger] t0[j]) by {
            assert(t0[j] == t[j]);
        }
        assert(!seps.contains(t[t.len() - 1]));
        lemma_split_on_append(s, t0, seps);
        lemma_split_on_len(s + t0, seps);
        assert((s + t).drop_last() == s + t0);
        assert((s + t).last() == t.last());
        let whole = split_on(s, seps);
        let before = split_on(s + t0, seps);
        assert(before.last() == whole.last() + t0);
        assert(split_on(s + t, seps) == before.update(before.len() - 1, before.last().push(t.last())));
        assert((whole.last() + t0).push(t.last()) =~= whole.last() + t);
        assert(before.update(before.len() - 1, before.last().push(t.last())) =~= whole.update(
            whole.len() - 1,
            whole.last() + t,
        ));
    }
}

/// Splitting the newline-joined chunks at newlines gives the chunks back,
/// when there is at least one chunk and none holds a newline.
pub proof fn lemma_split_join_lines(chunks: Seq<Seq<char>>)
    requires
        chunks.len() >= 1,
        free_of(chunks, seq!['\n']),
    ensures
        split_on(join_lines(chunks), seq!['\n']) == chunks,
    decreases chunks.len(),
{
    let nl = seq!['\n'];
    let last = chunks.last();
    assert forall|j: int| 0 <= j < last.len() implies !nl.contains(#[trigger] last[j]) by {
        assert(last[j] == chunks[chunks.len() - 1][j]);
    }
    if chunks.len() == 1 {
        lemma_split_on_append(Seq::empty(), last, nl);
        assert(Seq::<char>::empty() + last == last);
        assert(split_on(Seq::<char>::empty(), nl).update(0, Seq::<char>::empty() + last) == chunks);
    } else {
        let rest = chunks.drop_last();
        assert forall|i: int, j: int|
            0 <= i < rest.len() && 0 <= j < rest[i].len() implies !nl.contains(
            #[trigger] rest[i][j],
        ) by {
            assert(rest[i][j] == chunks[i][j]);
        }
        lemma_split_join_lines(rest);
        let head = join_lines(rest) + nl;
        assert(head.drop_last() == join_lines(rest));
        assert(nl.contains(head.last()));
        assert(split_on(head, nl) == rest.push(Seq::empty()));
        lemma_split_on_append(head, last, nl);
        assert(Seq::<char>::empty() + last == last);
        assert(rest.push(Seq::empty()).update(rest.len() as int, last) == chunks);
    }
}

/// Whether `c` is one of `seps`.
fn is_separator(seps: &[char], c: char) -> (r: bool)
    ensures
        r == seps@.contains(c),
{
    let mut i: usize = 0;
    while i < seps.len()
        invariant
            i <= seps@.len(),
            forall|j: int| 0 <= j < i ==> seps@[j] != c,
        decreases seps@.len() - i,
    {
        if seps[i] == c {
            return true;
        }
        i = i + 1;
    }
    false
}

/// The chunks of `text`, as character vectors, in the order they appear.
pub(crate) fn split_pieces(text: &str, seps: &[char]) -> (r: Vec<Vec<char>>)
    ensures
        char_views(r@) == split_on(text@, seps@),
{
    let cs = chars_of(text);
    let mut pieces: Vec<Vec<char>> = Vec::new();
    let mut current: Vec<char> = Vec::new();
    let mut i: usize = 0;
    while i < cs.len()
        invariant
            i <= cs@.len(),
            cs@ == text@,
            char_views(pieces@).push(current@) == split_on(cs@.take(i as int), seps@),
        decreases cs@.len() - i,
    {
        let c = cs[i];
        proof {
            lemma_split_on_len(cs@.take(i as int), seps@);
            assert(cs@.take(i as int + 1).drop_last() == cs@.take(i as int));
        }
        if is_separator(seps, c) {
            pieces.push(current);
            current = Vec::new();
            assert(char_views(pieces@).push(current@) == split_on(cs@.take(i as int + 1), seps@));
        } else {
            current.push(c);
            assert(char_views(pieces@).push(current@) == split_on(cs@.take(i as int + 1), seps@));
        }
        i = i + 1;
    }
    pieces.push(current);
    assert(cs@.take(cs@.len() as int) == cs@);
    pieces
}

/// Whether chunk `a` comes before or equals chunk `b` in ordinal order.
fn chunk_le_exec(a: &Vec<char>, b: &Vec<char>) -> (r: bool)
    ensures
        r == chunk_le(a@, b@),
{
    let mut i: usize = 0;
    assert(a@.skip(0) == a@);
    assert(b@.skip(0) == b@);
    while i < a.len() && i < b.len()
        invariant
            i <= a@.len(),
            i <= b@.len(),
            chunk_le(a@, b@) == chunk_le(a@.skip(i as int), b@.skip(i as int)),
        decreases a@.len() - i,
    {
        if a[i] != b[i] {
            return a[i] < b[i];
        }
        assert(a@.skip(i as int).drop_first() == a@.skip(i as int + 1));
        assert(b@.skip(i as int).drop_first() == b@.skip(i as int + 1));
        i = i + 1;
    }
    i == a.len()
}

/// The first position in `sorted` whose chunk comes after `x`, or its length.
fn insertion_point(sorted: &Vec<Vec<char>>, x: &Vec<char>) -> (j: usize)
    ensures
        j <= sorted@.len(),
        forall|k: int| 0 <= k < j ==> chunk_le(#[trigger] sorted@[k]@, x@),
        j < sorted@.len() ==> !chunk_le(sorted@[j as int]@, x@),
{
    let mut j: usize = 0;
    while j < sorted.len() && chunk_le_exec(&sorted[j], x)
        invariant
            j <= sorted@.len(),
            forall|k: int| 0 <= k < j ==> chunk_le(#[trigger] sorted@[k]@, x@),
        decreases sorted@.len() - j,
    {
        j = j + 1;
    }
    j
}

/// The chunks in ordinal order, by insertion.
fn sort_pieces(v: Vec<Vec<char>>) -> (r: Vec<Vec<char>>)
    ensures
        char_views(r@) == sorted_chunks(char_views(v@)),
{
    broadcast use vstd::seq_lib::to_multiset_build, vstd::seq_lib::to_multiset_insert;
    broadcast use vstd::multiset::group_multiset_axioms;
    broadcast use vstd::seq_lib::group_to_multiset_ensures;

    let ghost order = chunk_order();
    proof {
        lemma_chunk_order_total();
    }
    let ghost all = char_views(v@);
    let mut rest = v;
    let mut sorted: Vec<Vec<char>> = Vec::new();
    assert(char_views(sorted@) == Seq::<Seq<char>>::empty());
    assert(Seq::<Seq<char>>::empty().to_multiset().add(all.to_multiset()) =~= all.to_multiset());
    while rest.len() > 0
        invariant
            order == chunk_order(),
            total_ordering(order),
            sorted_by(char_views(sorted@), order),
            char_views(sorted@).to_multiset().add(char_views(rest@).to_multiset())
                == all.to_multiset(),
        decreases rest@.len(),
    {
        let ghost before = char_views(rest@);
        let x = rest.pop().unwrap();
        assert(before == char_views(rest@).push(x@));
        let j = insertion_point(&sorted, &x);
        let ghost old_views = char_views(sorted@);
        proof {
            if j < sorted@.len() {
                assert(!order(old_views[j as int], x@));
                assert(order(x@, old_views[j as int]));
                assert forall|k: int| j <= k < old_views.len() implies order(
                    x@,
                    #[trigger] old_views[k],
                ) by {
                    if k > j {
                        assert(order(old_views[j as int], old_views[k]));
                    }
                }
            }
        }
        let ghost xv = x@;
        sorted.insert(j, x);
        assert(char_views(sorted@) == old_views.insert(j as int, xv));
        proof {
            vstd::seq_lib::to_multiset_insert(old_views, j as int, xv);
            vstd::seq_lib::to_multiset_build(char_views(rest@), xv);
        }
        assert(char_views(sorted@).to_multiset().add(char_views(rest@).to_multiset())
            =~= old_views.to_multiset().add(before.to_multiset()));
        assert(sorted_by(char_views(sorted@), order)) by {
            let nv = char_views(sorted@);
            assert forall|a: int, b: int| 0 <= a < b < nv.len() implies order(
                #[trigger] nv[a],
                #[trigger] nv[b],
            ) by {
                if b < j {
                } else if a < j && b == j {
                } else if a < j {
                    assert(order(old_views[a], xv));
                    assert(order(xv, old_views[b - 1]));
                } else if a == j {
                } else {
                }
            }
        }
    }
    proof {
        assert(char_views(rest@) == Seq::<Seq<char>>::empty());
        assert(char_views(rest@).to_multiset() =~= Multiset::empty());
        assert(char_views(sorted@).to_multiset() =~= all.to_multiset());
        all.lemma_sort_by_ensures(order);
        vstd::seq_lib::lemma_sorted_unique(char_views(sorted@), all.sort_by(order), order);
    }
    sorted
}

/// A string holding the first `n` characters of `cs`.
pub(crate) fn string_of(cs: &Vec<char>, n: usize) -> (r: String)
    requires
        n <= cs@.len(),
    ensures
        r@ == cs@.take(n as int),
{
    let mut r = String::new();
    let mut i: usize = 0;
    while i < n
        invariant
            i <= n <= cs@.len(),
            r@ == cs@.take(i as int),
        decreases cs@.len() - i,
    {
        push_char(&mut r, cs[i]);
        assert(cs@.take(i as int + 1) == cs@.take(i as int).push(cs@[i as int]));
        i = i + 1;
    }
    r
}

/// Splits `text` into chunks on every character of `separators`, and sorts
/// the chunks in ordinal order when `sort` holds.
pub fn split_text(text: &str, separators: &[char], sort: bool) -> (r: Vec<String>)
    ensures
        string_views(r@) == chunks_of(text@, separators@, sort),
{
    let pieces = split_pieces(text, separators);
    let pieces = if sort {
        sort_pieces(pieces)
    } else {
        pieces
    };
    let mut r: Vec<String> = Vec::new();
    let mut i: usize = 0;
    while i < pieces.len()
        invariant
            i <= pieces@.len(),
            char_views(pieces@) == chunks_of(text@, separators@, sort),
            string_views(r@) == char_views(pieces@).take(i as int),
        decreases pieces@.len() - i,
    {
        let chunk = string_of(&pieces[i], pieces[i].len());
        assert(pieces@[i as int]@.take(pieces@[i as int]@.len() as int) == pieces@[i as int]@);
        r.push(chunk);
        assert(char_views(pieces@).take(i as int + 1) == char_views(pieces@).take(i as int).push(
            pieces@[i as int]@,
        ));
        i = i + 1;
    }
    assert(char_views(pieces@).take(pieces@.len() as int) == char_views(pieces@));
    r
}

/// Splits `raw` into chunks on every character of `separators`, after
/// folding it to lowercase when `lowercase` holds, and sorts the chunks in
/// ordinal order when `sort` holds.
pub fn split(raw: &str, separators: &[char], sort: bool, lowercase: bool) -> (r: Vec<String>)
    ensures
        string_views(r@) == chunks_of(folded(raw@, lowercase), separators@, sort),
{
    if lowercase {
        let low = to_lowercase(raw);
        split_text(low.as_str(), separators, sort)
    } else {
        split_text(raw, separators, sort)
    }
}

/// The chunks joined into one string, a newline between each two.
pub fn join_chunks(chunks: &Vec<String>) -> (r: String)
    ensures
        r@ == join_lines(string_views(chunks@)),
{
    let mut r = String::new();
    let mut i: usize = 0;
    while i < chunks.len()
        invariant
            i <= chunks@.len(),
            r@ == join_lines(string_views(chunks@).take(i as int)),
        decreases chunks@.len() - i,
    {
        let ghost before = string_views(chunks@).take(i as int);
        if i > 0 {
            push_char(&mut r, '\n');
        }
        r.append(chunks[i].as_str());
        let ghost after = string_views(chunks@).take(i as int + 1);
        assert(after.drop_last() == before);
        i = i + 1;
    }
    assert(string_views(chunks@).take(chunks@.len() as int) == string_views(chunks@));
    r
}

} // verus!
