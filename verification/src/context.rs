//! Blocks of lines that a command opens: title information in the preamble, and definitions
//! between frames.
use crate::lines::{
    are_chunks, chunks, chunks_of, concat, law_chunks_of_concat, lemma_chunks, lemma_concat_append, lemma_concat_one,
    lemma_offset_bound, lemma_offset_step, logical_line_count, offset,
};
use crate::sync_map::{segments_wf, SyncTexLineSegment};
use crate::tex::{context_line, is_context_line, is_title_line, line_delta, title_line};
use crate::text::{
    byte_len, char_index, chars_of, is_boundary, lemma_byte_len_grows, lemma_byte_len_step,
    lemma_char_index_order, lemma_newlines_bound, line_at, line_of_position, position_of, push_all, views, width_of,
};
use vstd::prelude::*;

verus! {

// ---------------------------------------------------------------------------
// Blocks
// ---------------------------------------------------------------------------

/// The line behind a block, where `balance` braces are open in front of line `i`: the block ends
/// with the line that closes them all, or with the last line.
pub open spec fn block_end(parts: Seq<Seq<char>>, i: int, balance: int) -> int
    decreases parts.len() - i,
{
    if i < 0 || i >= parts.len() {
        parts.len() as int
    } else if balance + line_delta(parts[i]) <= 0 {
        i + 1
    } else {
        block_end(parts, i + 1, balance + line_delta(parts[i]))
    }
}

proof fn lemma_block_end(parts: Seq<Seq<char>>, i: int, balance: int)
    requires
        0 <= i < parts.len(),
    ensures
        i < block_end(parts, i, balance) <= parts.len(),
    decreases parts.len() - i,
{
    if balance + line_delta(parts[i]) > 0 && i + 1 < parts.len() {
        lemma_block_end(parts, i + 1, balance + line_delta(parts[i]));
    }
    assert(block_end(parts, parts.len() as int, balance + line_delta(parts[i])) == parts.len());
}

/// The line behind the block that line `i` opens.
fn end_of_block(parts: &Vec<Vec<char>>, i: usize) -> (r: usize)
    requires
        i < parts@.len(),
        concat(views(parts@)).len() <= usize::MAX,
    ensures
        r == block_end(views(parts@), i as int, 0),
        i < r <= parts@.len(),
{
    let ghost all = views(parts@);
    let mut j: usize = i;
    let mut balance: i128 = 0;
    proof {
        lemma_offset_bound(all, i as int);
        lemma_block_end(all, i as int, 0);
    }
    while j < parts.len()
        invariant
            i <= j <= parts.len(),
            all == views(parts@),
            concat(all).len() <= usize::MAX,
            block_end(all, j as int, balance as int) == block_end(all, i as int, 0),
            0 <= balance <= offset(all, j as int) <= usize::MAX,
            i < block_end(all, i as int, 0) <= parts.len(),
        decreases parts.len() - j,
    {
        proof {
            lemma_offset_step(all, j as int);
            lemma_offset_bound(all, j + 1);
            assert(all[j as int] == parts@[j as int]@);
        }
        balance += crate::tex::delta_of_line(&parts[j]);
        j += 1;
        if balance <= 0 {
            return j;
        }
    }
    j
}

/// Appends the lines from `from` up to `to`.
fn push_block(out: &mut String, parts: &Vec<Vec<char>>, from: usize, to: usize)
    requires
        from <= to <= parts@.len(),
    ensures
        final(out)@ == old(out)@ + concat(views(parts@).subrange(from as int, to as int)),
{
    let ghost all = views(parts@);
    let ghost start = out@;
    let mut i: usize = from;
    assert(all.subrange(from as int, from as int) =~= Seq::<Seq<char>>::empty());
    assert(out@ =~= start + concat(all.subrange(from as int, from as int)));
    while i < to
        invariant
            from <= i <= to <= parts.len(),
            all == views(parts@),
            out@ == start + concat(all.subrange(from as int, i as int)),
        decreases to - i,
    {
        push_all(out, &parts[i]);
        i += 1;
        let ghost done = all.subrange(from as int, i as int);
        assert(done.drop_last() =~= all.subrange(from as int, i - 1));
        assert(done.last() == parts@[i - 1]@);
        assert(out@ =~= start + concat(done));
    }
}

// ---------------------------------------------------------------------------
// Title information
// ---------------------------------------------------------------------------

/// The blocks, from line `i` on, that set what the title page shows.
pub open spec fn title_part(parts: Seq<Seq<char>>, i: int) -> Seq<char>
    decreases parts.len() - i,
{
    if i < 0 || i >= parts.len() {
        Seq::empty()
    } else if title_line(parts[i]) && i < block_end(parts, i, 0) <= parts.len() {
        concat(parts.subrange(i, block_end(parts, i, 0))) + title_part(
            parts,
            block_end(parts, i, 0),
        )
    } else {
        title_part(parts, i + 1)
    }
}

/// The lines, from line `i` on, outside of the blocks that set what the title page shows.
pub open spec fn untitled_lines(parts: Seq<Seq<char>>, i: int) -> Seq<Seq<char>>
    decreases parts.len() - i,
{
    if i < 0 || i >= parts.len() {
        Seq::empty()
    } else if title_line(parts[i]) && i < block_end(parts, i, 0) <= parts.len() {
        untitled_lines(parts, block_end(parts, i, 0))
    } else {
        seq![parts[i]] + untitled_lines(parts, i + 1)
    }
}

/// The commands of a preamble that set what the title page shows.
pub open spec fn title_info(preamble: Seq<char>) -> Seq<char> {
    title_part(chunks(preamble), 0)
}

/// A preamble without the commands that set what the title page shows.
pub open spec fn untitled(preamble: Seq<char>) -> Seq<char> {
    concat(untitled_lines(chunks(preamble), 0))
}

/// Takes the commands that set what the title page shows out of a preamble.
pub fn extract_title_commands(preamble: &mut String) -> (r: String)
    ensures
        r@ == title_info(old(preamble)@),
        final(preamble)@ == untitled(old(preamble)@),
{
    let chars = chars_of(preamble.as_str());
    let parts = chunks_of(&chars);
    let ghost all = views(parts@);
    proof {
        lemma_chunks(chars@);
        assert(chars@.len() == chars.len());
    }
    let mut cleaned = String::new();
    let mut title = String::new();
    let mut i: usize = 0;
    assert(cleaned@ + concat(untitled_lines(all, 0)) =~= concat(untitled_lines(all, 0)));
    assert(title@ + title_part(all, 0) =~= title_part(all, 0));
    while i < parts.len()
        invariant
            i <= parts.len(),
            all == views(parts@),
            concat(all).len() <= usize::MAX,
            title@ + title_part(all, i as int) == title_part(all, 0),
            cleaned@ + concat(untitled_lines(all, i as int)) == concat(untitled_lines(all, 0)),
        decreases parts.len() - i,
    {
        let ghost at = i as int;
        let ghost title_before = title@;
        let ghost cleaned_before = cleaned@;
        assert(all[at] == parts@[at]@);
        if is_title_line(&parts[i]) {
            let end = end_of_block(&parts, i);
            push_block(&mut title, &parts, i, end);
            i = end;
            assert(title@ + title_part(all, i as int) =~= title_before + title_part(all, at));
        } else {
            push_all(&mut cleaned, &parts[i]);
            i += 1;
            proof {
                let rest = untitled_lines(all, i as int);
                lemma_concat_append(seq![all[at]], rest);
                lemma_concat_one(all[at]);
                assert(cleaned@ + concat(rest) =~= cleaned_before + concat(
                    untitled_lines(all, at),
                ));
            }
        }
    }
    assert(title@ + title_part(all, i as int) =~= title@);
    assert(untitled_lines(all, i as int) =~= Seq::<Seq<char>>::empty());
    assert(cleaned@ + concat(untitled_lines(all, i as int)) =~= cleaned@);
    *preamble = cleaned;
    title
}

/// For each line, from line `i` on, whether it stands in a block that sets what the title page
/// shows.
pub open spec fn title_marks(parts: Seq<Seq<char>>, i: int) -> Seq<bool>
    decreases parts.len() - i,
{
    if i < 0 || i >= parts.len() {
        Seq::empty()
    } else if title_line(parts[i]) && i < block_end(parts, i, 0) <= parts.len() {
        Seq::new((block_end(parts, i, 0) - i) as nat, |k: int| true) + title_marks(
            parts,
            block_end(parts, i, 0),
        )
    } else {
        seq![false] + title_marks(parts, i + 1)
    }
}

/// The lines whose mark is `mark`, in their order.
pub open spec fn lines_marked(parts: Seq<Seq<char>>, marks: Seq<bool>, mark: bool) -> Seq<Seq<char>>
    decreases parts.len(),
{
    if parts.len() == 0 || marks.len() == 0 {
        Seq::empty()
    } else if marks.last() == mark {
        lines_marked(parts.drop_last(), marks.drop_last(), mark).push(parts.last())
    } else {
        lines_marked(parts.drop_last(), marks.drop_last(), mark)
    }
}

proof fn lemma_lines_marked_append(
    a: Seq<Seq<char>>,
    b: Seq<Seq<char>>,
    marks_a: Seq<bool>,
    marks_b: Seq<bool>,
    mark: bool,
)
    requires
        a.len() == marks_a.len(),
        b.len() == marks_b.len(),
    ensures
        lines_marked(a + b, marks_a + marks_b, mark) == lines_marked(a, marks_a, mark)
            + lines_marked(b, marks_b, mark),
    decreases b.len(),
{
    if b.len() == 0 {
        assert(a + b =~= a);
        assert(marks_a + marks_b =~= marks_a);
    } else {
        lemma_lines_marked_append(a, b.drop_last(), marks_a, marks_b.drop_last(), mark);
        assert((a + b).drop_last() =~= a + b.drop_last());
        assert((marks_a + marks_b).drop_last() =~= marks_a + marks_b.drop_last());
        assert((a + b).last() == b.last());
        assert((marks_a + marks_b).last() == marks_b.last());
    }
}

proof fn lemma_lines_marked_alike(parts: Seq<Seq<char>>, marks: Seq<bool>, mark: bool)
    requires
        parts.len() == marks.len(),
        forall|k: int| 0 <= k < marks.len() ==> #[trigger] marks[k] == mark,
    ensures
        lines_marked(parts, marks, mark) == parts,
        lines_marked(parts, marks, !mark) == Seq::<Seq<char>>::empty(),
    decreases parts.len(),
{
    if parts.len() > 0 {
        assert(marks.last() == mark);
        lemma_lines_marked_alike(parts.drop_last(), marks.drop_last(), mark);
        assert(parts.drop_last().push(parts.last()) =~= parts);
    } else {
        assert(parts =~= Seq::<Seq<char>>::empty());
    }
}

proof fn lemma_title_marks(parts: Seq<Seq<char>>, i: int)
    requires
        0 <= i <= parts.len(),
    ensures
        title_marks(parts, i).len() == parts.len() - i,
        title_part(parts, i) == concat(lines_marked(parts.skip(i), title_marks(parts, i), true)),
        untitled_lines(parts, i) == lines_marked(parts.skip(i), title_marks(parts, i), false),
    decreases parts.len() - i,
{
    if i == parts.len() {
        assert(parts.skip(i) =~= Seq::<Seq<char>>::empty());
    } else {
        let e = if title_line(parts[i]) {
            lemma_block_end(parts, i, 0);
            block_end(parts, i, 0)
        } else {
            i + 1
        };
        lemma_title_marks(parts, e);
        let block = parts.subrange(i, e);
        let marks = Seq::new((e - i) as nat, |k: int| title_line(parts[i]));
        lemma_lines_marked_alike(block, marks, title_line(parts[i]));
        assert(parts.skip(i) =~= block + parts.skip(e));
        assert(title_marks(parts, i) =~= marks + title_marks(parts, e));
        lemma_lines_marked_append(block, parts.skip(e), marks, title_marks(parts, e), true);
        lemma_lines_marked_append(block, parts.skip(e), marks, title_marks(parts, e), false);
        let rest = lines_marked(parts.skip(e), title_marks(parts, e), true);
        if title_line(parts[i]) {
            lemma_concat_append(block, rest);
        } else {
            assert(block =~= seq![parts[i]]);
            assert(Seq::<Seq<char>>::empty() + rest =~= rest);
        }
    }
}

/// Taking the title commands out loses nothing: each line of the preamble goes to one of the two
/// texts, and in each text the lines keep their order.
pub proof fn law_title_extraction_keeps_text(preamble: Seq<char>)
    ensures
        concat(chunks(preamble)) == preamble,
        title_marks(chunks(preamble), 0).len() == chunks(preamble).len(),
        title_info(preamble) == concat(
            lines_marked(chunks(preamble), title_marks(chunks(preamble), 0), true),
        ),
        untitled(preamble) == concat(
            lines_marked(chunks(preamble), title_marks(chunks(preamble), 0), false),
        ),
{
    lemma_chunks(preamble);
    lemma_title_marks(chunks(preamble), 0);
    assert(chunks(preamble).skip(0) =~= chunks(preamble));
}

proof fn lemma_untitled_lines(parts: Seq<Seq<char>>, i: int)
    requires
        0 <= i <= parts.len(),
        are_chunks(parts),
    ensures
        are_chunks(untitled_lines(parts, i)),
        forall|k: int|
            0 <= k < untitled_lines(parts, i).len() ==> !title_line(
                #[trigger] untitled_lines(parts, i)[k],
            ),
    decreases parts.len() - i,
{
    if i < parts.len() {
        if title_line(parts[i]) {
            lemma_block_end(parts, i, 0);
            lemma_untitled_lines(parts, block_end(parts, i, 0));
        } else {
            lemma_untitled_lines(parts, i + 1);
            let rest = untitled_lines(parts, i + 1);
            let all = untitled_lines(parts, i);
            assert(all =~= seq![parts[i]] + rest);
            assert(parts[i].len() > 0);
            assert(i + 1 == parts.len() ==> rest.len() == 0);
            assert forall|k: int| 0 <= k < all.len() implies !title_line(#[trigger] all[k])
                && all[k].len() > 0 by {
                if k > 0 {
                    assert(all[k] == rest[k - 1]);
                }
            }
            assert forall|k: int, j: int|
                0 <= k < all.len() && 0 <= j < all[k].len() - 1 implies #[trigger] all[k][j]
                != '\n' by {
                if k > 0 {
                    assert(all[k] == rest[k - 1]);
                    assert(rest[k - 1][j] != '\n');
                } else {
                    assert(parts[i][j] != '\n');
                }
            }
            assert forall|k: int| 0 <= k < all.len() - 1 implies (#[trigger] all[k]).last()
                == '\n' by {
                if k > 0 {
                    assert(all[k] == rest[k - 1]);
                } else {
                    assert(all[0] == parts[i]);
                }
            }
        }
    }
}

proof fn lemma_no_title_lines(parts: Seq<Seq<char>>, i: int)
    requires
        0 <= i <= parts.len(),
        forall|k: int| 0 <= k < parts.len() ==> !title_line(#[trigger] parts[k]),
    ensures
        title_part(parts, i) == Seq::<char>::empty(),
        untitled_lines(parts, i) == parts.skip(i),
    decreases parts.len() - i,
{
    if i < parts.len() {
        assert(!title_line(parts[i]));
        lemma_no_title_lines(parts, i + 1);
        assert(parts.skip(i) =~= seq![parts[i]] + parts.skip(i + 1));
    } else {
        assert(parts.skip(i) =~= Seq::<Seq<char>>::empty());
    }
}

/// A preamble from which the title commands were taken holds none: taking them out again finds
/// nothing and changes nothing.
pub proof fn law_title_extraction_is_complete(preamble: Seq<char>)
    ensures
        title_info(untitled(preamble)) == Seq::<char>::empty(),
        untitled(untitled(preamble)) == untitled(preamble),
{
    lemma_chunks(preamble);
    let parts = chunks(preamble);
    lemma_untitled_lines(parts, 0);
    let kept = untitled_lines(parts, 0);
    law_chunks_of_concat(kept);
    lemma_no_title_lines(kept, 0);
    assert(kept.skip(0) =~= kept);
}

// ---------------------------------------------------------------------------
// Definitions between frames
// ---------------------------------------------------------------------------

/// A definition of the document, with the line that it starts on.
#[derive(Clone, Debug)]
pub struct DocumentContextSnippet {
    pub content: String,
    pub source_start_line: u128,
}

/// What a snippet holds.
pub struct SnippetView {
    pub content: Seq<char>,
    pub source_start_line: nat,
}

impl View for DocumentContextSnippet {
    type V = SnippetView;

    open spec fn view(&self) -> SnippetView {
        SnippetView { content: self.content@, source_start_line: self.source_start_line as nat }
    }
}

/// What the snippets of a sequence hold.
pub open spec fn snippet_views(v: Seq<DocumentContextSnippet>) -> Seq<SnippetView> {
    v.map_values(|s: DocumentContextSnippet| s@)
}

/// What the contexts of a sequence hold.
pub open spec fn context_views(v: Seq<Vec<DocumentContextSnippet>>) -> Seq<Seq<SnippetView>> {
    v.map_values(|c: Vec<DocumentContextSnippet>| snippet_views(c@))
}

/// The definitions among the lines `parts` from line `i` on. The lines stand in `source` behind
/// `base` characters.
pub open spec fn snippets_from(
    source: Seq<char>,
    base: int,
    parts: Seq<Seq<char>>,
    i: int,
) -> Seq<SnippetView>
    decreases parts.len() - i,
{
    if i < 0 || i >= parts.len() {
        Seq::empty()
    } else if context_line(parts[i]) && i < block_end(parts, i, 0) <= parts.len() {
        seq![
            SnippetView {
                content: concat(parts.subrange(i, block_end(parts, i, 0))),
                source_start_line: line_at(source, base + offset(parts, i)),
            },
        ] + snippets_from(source, base, parts, block_end(parts, i, 0))
    } else {
        snippets_from(source, base, parts, i + 1)
    }
}

/// The definitions in `source` between two character positions.
pub open spec fn snippets_between(source: Seq<char>, from: int, to: int) -> Seq<SnippetView> {
    snippets_from(source, from, chunks(source.subrange(from, to)), 0)
}

/// Every definition starts on a line that a text in memory can have.
pub open spec fn context_fits(context: Seq<SnippetView>) -> bool {
    forall|i: int|
        0 <= i < context.len() ==> (#[trigger] context[i]).source_start_line <= usize::MAX + 1
}

proof fn lemma_snippets_fit(source: Seq<char>, base: int, parts: Seq<Seq<char>>, i: int)
    requires
        0 <= i <= parts.len(),
        0 <= base,
        base + concat(parts).len() <= source.len() <= usize::MAX,
    ensures
        context_fits(snippets_from(source, base, parts, i)),
    decreases parts.len() - i,
{
    if i < parts.len() {
        let all = snippets_from(source, base, parts, i);
        if context_line(parts[i]) {
            lemma_block_end(parts, i, 0);
            let e = block_end(parts, i, 0);
            lemma_snippets_fit(source, base, parts, e);
            lemma_offset_bound(parts, i);
            let k = base + offset(parts, i);
            lemma_newlines_bound(source.take(k));
            let rest = snippets_from(source, base, parts, e);
            assert forall|n: int| 0 <= n < all.len() implies (
            #[trigger] all[n]).source_start_line <= usize::MAX + 1 by {
                if n > 0 {
                    assert(all[n] == rest[n - 1]);
                }
            }
        } else {
            lemma_snippets_fit(source, base, parts, i + 1);
        }
    }
}

/// Appends the definitions between two character positions.
fn push_snippets(
    out: &mut Vec<DocumentContextSnippet>,
    source: &[char],
    from: usize,
    to: usize,
)
    requires
        from <= to <= source@.len(),
    ensures
        snippet_views(final(out)@) == snippet_views(old(out)@) + snippets_between(
            source@,
            from as int,
            to as int,
        ),
{
    let segment = &source[from..to];
    let parts = chunks_of(segment);
    let ghost all = views(parts@);
    let ghost base = from as int;
    let ghost start = snippet_views(out@);
    proof {
        lemma_chunks(segment@);
        assert(segment@ =~= source@.subrange(from as int, to as int));
        assert(segment@.len() == segment.len());
        lemma_offset_bound(all, 0);
        assert(all.take(0) =~= Seq::<Seq<char>>::empty());
    }
    let mut i: usize = 0;
    let mut at: usize = from;
    while i < parts.len()
        invariant
            i <= parts.len(),
            all == views(parts@),
            from <= to <= source@.len(),
            concat(all).len() == to - from,
            concat(all).len() <= usize::MAX,
            base == from,
            at == base + offset(all, i as int),
            at <= to,
            snippet_views(out@) + snippets_from(source@, base, all, i as int) == start
                + snippets_from(source@, base, all, 0),
        decreases parts.len() - i,
    {
        let ghost here = i as int;
        let ghost before = snippet_views(out@);
        assert(all[here] == parts@[here]@);
        if is_context_line(&parts[i]) {
            let end = end_of_block(&parts, i);
            let mut content = String::new();
            push_block(&mut content, &parts, i, end);
            assert(content@ =~= concat(all.subrange(here, end as int)));
            let line = line_of_position(source, at);
            let snippet = DocumentContextSnippet { content, source_start_line: line };
            let ghost view = snippet@;
            let ghost items = out@;
            out.push(snippet);
            assert(snippet_views(out@) =~= snippet_views(items).push(view));
            while i < end
                invariant
                    here <= i <= end <= parts.len(),
                    all == views(parts@),
                    from <= to,
                    concat(all).len() == to - from,
                    base == from,
                    at == base + offset(all, i as int),
                    at <= to,
                decreases end - i,
            {
                proof {
                    lemma_offset_step(all, i as int);
                    lemma_offset_bound(all, i + 1);
                    assert(all[i as int] == parts@[i as int]@);
                }
                at += parts[i].len();
                i += 1;
            }
            assert(snippet_views(out@) + snippets_from(source@, base, all, i as int) =~= before
                + snippets_from(source@, base, all, here));
        } else {
            proof {
                lemma_offset_step(all, i as int);
                lemma_offset_bound(all, i + 1);
            }
            at += parts[i].len();
            i += 1;
        }
    }
    assert(snippet_views(out@) + snippets_from(source@, base, all, i as int) =~= snippet_views(
        out@,
    ));
}

/// The definitions in the part of the source between two byte offsets.
pub fn extract_document_context_snippets(
    source_content: &str,
    segment_start: usize,
    segment_end: usize,
) -> (r: Vec<DocumentContextSnippet>)
    requires
        is_boundary(source_content@, segment_start as int),
        is_boundary(source_content@, segment_end as int),
        segment_start <= segment_end,
    ensures
        snippet_views(r@) == snippets_between(
            source_content@,
            char_index(source_content@, segment_start as int),
            char_index(source_content@, segment_end as int),
        ),
{
    let chars = chars_of(source_content);
    let from = position_of(&chars, segment_start);
    let to = position_of(&chars, segment_end);
    proof {
        lemma_char_index_order(chars@, segment_start as int, segment_end as int);
    }
    let mut out: Vec<DocumentContextSnippet> = Vec::new();
    push_snippets(&mut out, &chars, from, to);
    assert(snippet_views(out@) =~= snippets_between(source_content@, from as int, to as int));
    out
}

/// The byte offset behind `\begin{document}`, or the start of the source where there is none.
pub open spec fn document_start(begin: Option<usize>) -> int {
    match begin {
        Some(idx) => idx + byte_len("\\begin{document}"@),
        None => 0,
    }
}

/// The byte offset from which on definitions were not looked at yet, behind the first `n` frames.
pub open spec fn context_cursor(ranges: Seq<(usize, usize)>, start: int, n: int) -> int
    decreases n,
{
    if n <= 0 {
        start
    } else if ranges[n - 1].0 >= start {
        ranges[n - 1].1 as int
    } else {
        context_cursor(ranges, start, n - 1)
    }
}

/// The definitions in front of frame `n`, which itself counts among the first `n` frames.
pub open spec fn accumulated(
    source: Seq<char>,
    ranges: Seq<(usize, usize)>,
    start: int,
    n: int,
) -> Seq<SnippetView>
    decreases n,
{
    if n <= 0 {
        Seq::empty()
    } else {
        let cursor = context_cursor(ranges, start, n - 1);
        let frame_start = ranges[n - 1].0 as int;
        accumulated(source, ranges, start, n - 1) + if start <= frame_start && cursor
            < frame_start {
            snippets_between(source, char_index(source, cursor), char_index(source, frame_start))
        } else {
            Seq::empty()
        }
    }
}

/// The definitions that each frame of a document sees: all those between `\begin{document}` and
/// the frame, but for the text of earlier frames. A frame of the preamble sees none.
pub open spec fn contexts(source: Seq<char>, ranges: Seq<(usize, usize)>, start: int) -> Seq<
    Seq<SnippetView>,
> {
    Seq::new(
        ranges.len(),
        |i: int|
            if ranges[i].0 >= start {
                accumulated(source, ranges, start, i + 1)
            } else {
                Seq::empty()
            },
    )
}

/// Frames behind the start of the document lie between characters, as that start does.
pub open spec fn ranges_fit(source: Seq<char>, ranges: Seq<(usize, usize)>, start: int) -> bool {
    forall|i: int|
        0 <= i < ranges.len() && (#[trigger] ranges[i]).0 >= start ==> is_boundary(source, start)
            && is_boundary(source, ranges[i].0 as int) && is_boundary(source, ranges[i].1 as int)
}

proof fn lemma_cursor_boundary(source: Seq<char>, ranges: Seq<(usize, usize)>, start: int, n: int)
    requires
        0 <= n <= ranges.len(),
        ranges_fit(source, ranges, start),
        is_boundary(source, start),
    ensures
        is_boundary(source, context_cursor(ranges, start, n)),
    decreases n,
{
    if n > 0 {
        if ranges[n - 1].0 < start {
            lemma_cursor_boundary(source, ranges, start, n - 1);
        }
    }
}

proof fn lemma_accumulated_fits(
    source: Seq<char>,
    ranges: Seq<(usize, usize)>,
    start: int,
    n: int,
)
    requires
        0 <= n <= ranges.len(),
        ranges_fit(source, ranges, start),
        source.len() <= usize::MAX,
    ensures
        context_fits(accumulated(source, ranges, start, n)),
    decreases n,
{
    if n > 0 {
        lemma_accumulated_fits(source, ranges, start, n - 1);
        let cursor = context_cursor(ranges, start, n - 1);
        let frame_start = ranges[n - 1].0 as int;
        if start <= frame_start && cursor < frame_start {
            lemma_cursor_boundary(source, ranges, start, n - 1);
            lemma_char_index_order(source, cursor, frame_start);
            let from = char_index(source, cursor);
            let to = char_index(source, frame_start);
            lemma_chunks(source.subrange(from, to));
            lemma_snippets_fit(source, from, chunks(source.subrange(from, to)), 0);
            let front = accumulated(source, ranges, start, n - 1);
            let more = snippets_between(source, from, to);
            let all = accumulated(source, ranges, start, n);
            assert forall|k: int| 0 <= k < all.len() implies (
            #[trigger] all[k]).source_start_line <= usize::MAX + 1 by {
                if k < front.len() {
                    assert(all[k] == front[k]);
                } else {
                    assert(all[k] == more[k - front.len()]);
                }
            }
        } else {
            assert(accumulated(source, ranges, start, n) =~= accumulated(
                source,
                ranges,
                start,
                n - 1,
            ));
        }
    }
}

fn copy_snippets(snippets: &Vec<DocumentContextSnippet>) -> (r: Vec<DocumentContextSnippet>)
    ensures
        snippet_views(r@) == snippet_views(snippets@),
{
    let mut out: Vec<DocumentContextSnippet> = Vec::new();
    let mut i: usize = 0;
    while i < snippets.len()
        invariant
            i <= snippets.len(),
            snippet_views(out@) == snippet_views(snippets@).take(i as int),
        decreases snippets.len() - i,
    {
        let copy = DocumentContextSnippet {
            content: crate::text::owned(snippets[i].content.as_str()),
            source_start_line: snippets[i].source_start_line,
        };
        let ghost before = out@;
        let ghost view = copy@;
        out.push(copy);
        i += 1;
        assert(snippet_views(out@) =~= snippet_views(before).push(view));
        assert(view == snippets@[i - 1]@);
        assert(snippet_views(snippets@).take(i as int) =~= snippet_views(snippets@).take(
            i - 1,
        ).push(view));
    }
    assert(snippet_views(snippets@).take(i as int) =~= snippet_views(snippets@));
    out
}

/// The definitions that each frame of a document sees. Offsets are in bytes.
pub fn document_contexts_before_frames(
    source_content: &str,
    frame_ranges: &[(usize, usize)],
    document_begin_idx: Option<usize>,
) -> (r: Vec<Vec<DocumentContextSnippet>>)
    requires
        document_start(document_begin_idx) <= usize::MAX,
        ranges_fit(source_content@, frame_ranges@, document_start(document_begin_idx)),
    ensures
        context_views(r@) == contexts(
            source_content@,
            frame_ranges@,
            document_start(document_begin_idx),
        ),
        forall|i: int|
            0 <= i < r@.len() ==> context_fits(snippet_views((#[trigger] r@[i])@)),
{
    let ghost source = source_content@;
    let ghost ranges = frame_ranges@;
    let start: usize = match document_begin_idx {
        Some(idx) => idx + bytes_of("\\begin{document}"),
        None => 0,
    };
    let chars = chars_of(source_content);
    let mut contexts_out: Vec<Vec<DocumentContextSnippet>> = Vec::new();
    let mut accumulated_out: Vec<DocumentContextSnippet> = Vec::new();
    let mut cursor: usize = start;
    let mut i: usize = 0;
    assert(snippet_views(accumulated_out@) =~= Seq::<SnippetView>::empty());
    while i < frame_ranges.len()
        invariant
            i <= frame_ranges.len(),
            chars@ == source,
            ranges == frame_ranges@,
            start == document_start(document_begin_idx),
            ranges_fit(source, ranges, start as int),
            cursor == context_cursor(ranges, start as int, i as int),
            snippet_views(accumulated_out@) == accumulated(source, ranges, start as int, i as int),
            context_views(contexts_out@) == contexts(source, ranges, start as int).take(i as int),
        decreases frame_ranges.len() - i,
    {
        let (frame_start, frame_end) = frame_ranges[i];
        let ghost before = contexts_out@;
        let ghost gathered = snippet_views(accumulated_out@);
        if frame_start >= start {
            assert(ranges[i as int].0 >= start);
            if cursor < frame_start {
                proof {
                    lemma_cursor_boundary(source, ranges, start as int, i as int);
                    lemma_char_index_order(source, cursor as int, frame_start as int);
                }
                let from = position_of(&chars, cursor);
                let to = position_of(&chars, frame_start);
                push_snippets(&mut accumulated_out, &chars, from, to);
            }
            assert(snippet_views(accumulated_out@) =~= accumulated(
                source,
                ranges,
                start as int,
                i + 1,
            ));
            let context = copy_snippets(&accumulated_out);
            let ghost view = snippet_views(context@);
            contexts_out.push(context);
            assert(context_views(contexts_out@) =~= context_views(before).push(view));
            cursor = frame_end;
        } else {
            let none: Vec<DocumentContextSnippet> = Vec::new();
            assert(snippet_views(none@) =~= Seq::<SnippetView>::empty());
            contexts_out.push(none);
            assert(context_views(contexts_out@) =~= context_views(before).push(
                Seq::<SnippetView>::empty(),
            ));
            assert(gathered =~= accumulated(source, ranges, start as int, i + 1));
        }
        i += 1;
        let ghost all = contexts(source, ranges, start as int);
        assert(all.take(i as int) =~= all.take(i - 1).push(all[i - 1]));
    }
    assert(contexts(source, ranges, start as int).take(i as int) =~= contexts(
        source,
        ranges,
        start as int,
    ));
    proof {
        assert(chars@.len() == chars.len());
        assert forall|k: int| 0 <= k < contexts_out@.len() implies context_fits(
            snippet_views((#[trigger] contexts_out@[k])@),
        ) by {
            assert(context_views(contexts_out@)[k] == snippet_views(contexts_out@[k]@));
            lemma_accumulated_fits(source, ranges, start as int, k + 1);
        }
    }
    contexts_out
}

/// The number of bytes of a short text.
fn bytes_of(s: &str) -> (r: usize)
    requires
        byte_len(s@) <= usize::MAX,
    ensures
        r == byte_len(s@),
{
    let chars = chars_of(s);
    let mut i: usize = 0;
    let mut total: usize = 0;
    assert(chars@.take(0) =~= Seq::<char>::empty());
    while i < chars.len()
        invariant
            i <= chars.len(),
            byte_len(chars@) <= usize::MAX,
            total == byte_len(chars@.take(i as int)),
        decreases chars.len() - i,
    {
        proof {
            lemma_byte_len_step(chars@, i as int);
            lemma_byte_len_grows(chars@, i + 1, chars@.len() as int);
            assert(chars@.take(chars@.len() as int) =~= chars@);
        }
        total += width_of(chars[i]);
        i += 1;
    }
    assert(chars@.take(i as int) =~= chars@);
    total
}

proof fn lemma_accumulated_prefix(
    source: Seq<char>,
    ranges: Seq<(usize, usize)>,
    start: int,
    i: int,
    j: int,
)
    requires
        0 <= i <= j,
    ensures
        accumulated(source, ranges, start, i).is_prefix_of(accumulated(source, ranges, start, j)),
    decreases j - i,
{
    if i < j {
        lemma_accumulated_prefix(source, ranges, start, i, j - 1);
    }
}

/// Definitions accumulate: what one frame of the document sees, every later frame sees first.
pub proof fn law_contexts_accumulate(
    source: Seq<char>,
    ranges: Seq<(usize, usize)>,
    start: int,
    i: int,
    j: int,
)
    requires
        0 <= i <= j < ranges.len(),
        ranges[i].0 >= start,
        ranges[j].0 >= start,
    ensures
        contexts(source, ranges, start)[i].is_prefix_of(contexts(source, ranges, start)[j]),
{
    lemma_accumulated_prefix(source, ranges, start, i + 1, j + 1);
}

// ---------------------------------------------------------------------------
// Definitions in front of a frame
// ---------------------------------------------------------------------------

/// `text`, with a newline where it does not end in one.
pub open spec fn with_newline(text: Seq<char>) -> Seq<char> {
    if text.len() > 0 && text.last() == '\n' {
        text
    } else {
        text.push('\n')
    }
}

/// `prefix` with the first `n` definitions of a context, each on lines of its own.
pub open spec fn with_context(prefix: Seq<char>, context: Seq<SnippetView>, n: int) -> Seq<char>
    decreases n,
{
    if n <= 0 {
        prefix
    } else {
        with_context(prefix, context, n - 1) + with_newline(context[n - 1].content)
    }
}

/// The lines that the first `n` definitions of a context take behind `prefix`.
pub open spec fn context_segments(
    prefix: Seq<char>,
    context: Seq<SnippetView>,
    n: int,
) -> Seq<SyncTexLineSegment>
    decreases n,
{
    if n <= 0 {
        Seq::empty()
    } else {
        let front = context_segments(prefix, context, n - 1);
        let count = chunks(context[n - 1].content).len();
        if count > 0 {
            front.push(
                SyncTexLineSegment {
                    temp_start_line: (chunks(with_context(prefix, context, n - 1)).len()
                        + 1) as u128,
                    line_count: count as u128,
                    source_start_line: context[n - 1].source_start_line as u128,
                },
            )
        } else {
            front
        }
    }
}


/// Appends the definitions of a context to `compile_prefix`, and the lines they take to
/// `segments`.
pub fn append_document_context(
    compile_prefix: &mut String,
    segments: &mut Vec<SyncTexLineSegment>,
    context: &[DocumentContextSnippet],
)
    requires
        context_fits(snippet_views(context@)),
        segments_wf(old(segments)@),
    ensures
        final(compile_prefix)@ == with_context(
            old(compile_prefix)@,
            snippet_views(context@),
            context@.len() as int,
        ),
        final(segments)@ == old(segments)@ + context_segments(
            old(compile_prefix)@,
            snippet_views(context@),
            context@.len() as int,
        ),
        segments_wf(final(segments)@),
{
    let ghost prefix = compile_prefix@;
    let ghost start = segments@;
    let ghost snippets = snippet_views(context@);
    let mut i: usize = 0;
    assert(segments@ =~= start + context_segments(prefix, snippets, 0));
    while i < context.len()
        invariant
            i <= context.len(),
            snippets == snippet_views(context@),
            context_fits(snippets),
            segments_wf(segments@),
            compile_prefix@ == with_context(prefix, snippets, i as int),
            segments@ == start + context_segments(prefix, snippets, i as int),
        decreases context.len() - i,
    {
        let ghost before = compile_prefix@;
        let ghost segments_before = segments@;
        let snippet = &context[i];
        assert(snippets[i as int] == snippet@);
        let lines_before = logical_line_count(compile_prefix.as_str());
        let content = chars_of(snippet.content.as_str());
        push_all(compile_prefix, &content);
        if content.len() == 0 || content[content.len() - 1] != '\n' {
            compile_prefix.push('\n');
        }
        assert(compile_prefix@ =~= before + with_newline(content@));
        let line_count = logical_line_count(snippet.content.as_str());
        proof {
            lemma_chunks(content@);
        }
        if line_count > 0 {
            segments.push(
                SyncTexLineSegment {
                    temp_start_line: lines_before as u128 + 1,
                    line_count: line_count as u128,
                    source_start_line: snippet.source_start_line,
                },
            );
            assert(segments@.last().wf());
        }
        i += 1;
        assert(segments@ =~= start + context_segments(prefix, snippets, i as int));
        assert(segments_wf(segments@)) by {
            assert forall|k: int| 0 <= k < segments@.len() implies (#[trigger] segments@[k]).wf() by {
                if k < segments_before.len() {
                    assert(segments@[k] == segments_before[k]);
                }
            }
        }
    }
}

// ---------------------------------------------------------------------------
// What blocks and contexts hold
// ---------------------------------------------------------------------------

/// The opening braces less the closing ones of the lines from `from` up to `to`.
pub open spec fn open_braces(parts: Seq<Seq<char>>, from: int, to: int) -> int
    decreases to - from,
{
    if from >= to {
        0
    } else {
        open_braces(parts, from, to - 1) + line_delta(parts[to - 1])
    }
}

proof fn lemma_open_braces(parts: Seq<Seq<char>>, from: int, mid: int, to: int)
    requires
        from <= mid <= to,
    ensures
        open_braces(parts, from, to) == open_braces(parts, from, mid) + open_braces(parts, mid, to),
    decreases to - mid,
{
    if mid < to {
        lemma_open_braces(parts, from, mid, to - 1);
    }
}

proof fn lemma_block(parts: Seq<Seq<char>>, i: int, balance: int)
    requires
        0 <= i < parts.len(),
    ensures
        ({
            let end = block_end(parts, i, balance);
            &&& i < end <= parts.len()
            &&& forall|m: int|
                i < m < end ==> balance + #[trigger] open_braces(parts, i, m) > 0
            &&& end == parts.len() || balance + open_braces(parts, i, end) <= 0
        }),
    decreases parts.len() - i,
{
    let next = balance + line_delta(parts[i]);
    lemma_open_braces(parts, i, i, i + 1);
    assert(open_braces(parts, i, i + 1) == open_braces(parts, i, i) + line_delta(parts[i]));
    if next > 0 {
        if i + 1 < parts.len() {
            lemma_block(parts, i + 1, next);
            let end = block_end(parts, i, balance);
            assert forall|m: int| i < m < end implies balance + #[trigger] open_braces(
                parts,
                i,
                m,
            ) > 0 by {
                lemma_open_braces(parts, i, i + 1, m);
                if m > i + 1 {
                    assert(next + open_braces(parts, i + 1, m) > 0);
                }
            }
            lemma_open_braces(parts, i, i + 1, end);
        } else {
            assert(block_end(parts, i + 1, next) == parts.len());
        }
    }
}

/// A block ends with the line that closes the braces which are open since it started: before that
/// line some are open, and behind it none is, unless the text ends first.
pub proof fn law_blocks_end_with_their_braces(parts: Seq<Seq<char>>, i: int, m: int)
    requires
        0 <= i < parts.len(),
    ensures
        i < block_end(parts, i, 0) <= parts.len(),
        i < m < block_end(parts, i, 0) ==> open_braces(parts, i, m) > 0,
        block_end(parts, i, 0) < parts.len() ==> open_braces(parts, i, block_end(parts, i, 0)) <= 0,
        line_delta(parts[i]) <= 0 ==> block_end(parts, i, 0) == i + 1,
{
    lemma_block(parts, i, 0);
}

/// Which lines of a preamble set what the title page shows: each line that starts with such a
/// command, and the lines behind one as long as it leaves braces open. Gives the line that opens
/// the block which line `k`, one of those from line `i` on, is part of.
pub proof fn law_title_blocks_are_taken_whole(parts: Seq<Seq<char>>, i: int, k: int) -> (from: int)
    requires
        0 <= i <= k < parts.len(),
    ensures
        title_marks(parts, i).len() == parts.len() - i,
        title_line(parts[k]) ==> title_marks(parts, i)[k - i],
        title_marks(parts, i)[k - i] ==> {
            &&& i <= from <= k
            &&& title_line(parts[from])
            &&& forall|m: int| from < m <= k ==> #[trigger] open_braces(parts, from, m) > 0
            &&& k + 1 < parts.len() && open_braces(parts, from, k + 1) > 0 ==> title_marks(
                parts,
                i,
            )[k + 1 - i]
        },
    decreases parts.len() - i,
{
    lemma_title_marks(parts, i);
    let marks = title_marks(parts, i);
    if title_line(parts[i]) {
        lemma_block(parts, i, 0);
        let end = block_end(parts, i, 0);
        lemma_title_marks(parts, end);
        if k < end {
            assert(marks[k - i]);
            i
        } else {
            let from = law_title_blocks_are_taken_whole(parts, end, k);
            assert(marks[k - i] == title_marks(parts, end)[k - end]);
            assert(k + 1 < parts.len() ==> marks[k + 1 - i] == title_marks(parts, end)[k + 1 - end]);
            from
        }
    } else {
        lemma_title_marks(parts, i + 1);
        if k == i {
            i
        } else {
            let from = law_title_blocks_are_taken_whole(parts, i + 1, k);
            assert(marks[k - i] == title_marks(parts, i + 1)[k - i - 1]);
            assert(k + 1 < parts.len() ==> marks[k + 1 - i] == title_marks(parts, i + 1)[k - i]);
            from
        }
    }
}

/// Whether the lines from `from` up to `to` are a block that a context command opens, and `snippet`
/// is it, with the line of `source` that it starts on. The lines stand behind `base` characters.
pub open spec fn is_definition(
    snippet: SnippetView,
    source: Seq<char>,
    base: int,
    parts: Seq<Seq<char>>,
    from: int,
    to: int,
) -> bool {
    &&& 0 <= from < to <= parts.len()
    &&& context_line(parts[from])
    &&& forall|m: int| from < m < to ==> #[trigger] open_braces(parts, from, m) > 0
    &&& to == parts.len() || open_braces(parts, from, to) <= 0
    &&& snippet.content == concat(parts.subrange(from, to))
    &&& snippet.source_start_line == line_at(source, base + offset(parts, from))
}

/// No definition is lost: every line, from line `i` on, that starts with a context command is part
/// of one of the definitions, and each definition is a whole block. Gives the number of the
/// definition that line `k` is part of, and where its block starts and ends.
pub proof fn law_every_definition_is_kept(
    source: Seq<char>,
    base: int,
    parts: Seq<Seq<char>>,
    i: int,
    k: int,
) -> (r: (int, int, int))
    requires
        0 <= i <= k < parts.len(),
        context_line(parts[k]),
    ensures
        ({
            let all = snippets_from(source, base, parts, i);
            let (n, from, to) = r;
            &&& 0 <= n < all.len()
            &&& i <= from <= k < to
            &&& is_definition(all[n], source, base, parts, from, to)
        }),
    decreases parts.len() - i,
{
    let all = snippets_from(source, base, parts, i);
    if context_line(parts[i]) {
        lemma_block(parts, i, 0);
        let end = block_end(parts, i, 0);
        if k < end {
            (0, i, end)
        } else {
            let (n, from, to) = law_every_definition_is_kept(source, base, parts, end, k);
            assert(all[n + 1] == snippets_from(source, base, parts, end)[n]);
            (n + 1, from, to)
        }
    } else {
        law_every_definition_is_kept(source, base, parts, i + 1, k)
    }
}

/// Nothing but definitions is kept, in their order: definition `n` is a block that a context command
/// opens, and it starts behind the end of the one in front of it. Gives where the block starts and
/// ends.
pub proof fn law_only_definitions_are_kept(
    source: Seq<char>,
    base: int,
    parts: Seq<Seq<char>>,
    i: int,
    n: int,
) -> (r: (int, int))
    requires
        0 <= i <= parts.len(),
        0 <= n < snippets_from(source, base, parts, i).len(),
    ensures
        i <= r.0,
        is_definition(snippets_from(source, base, parts, i)[n], source, base, parts, r.0, r.1),
    decreases parts.len() - i,
{
    let all = snippets_from(source, base, parts, i);
    if context_line(parts[i]) {
        lemma_block(parts, i, 0);
        let end = block_end(parts, i, 0);
        if n == 0 {
            (i, end)
        } else {
            assert(all[n] == snippets_from(source, base, parts, end)[n - 1]);
            law_only_definitions_are_kept(source, base, parts, end, n - 1)
        }
    } else {
        law_only_definitions_are_kept(source, base, parts, i + 1, n)
    }
}

/// From one frame of the document to the next, `j`, the context grows by the definitions between
/// them: those behind the end of the frame in front of it, which is frame `i`, or behind the start
/// of the document, where `i` is negative. Frames of the preamble see nothing.
pub proof fn law_contexts_grow_from_frame_to_frame(
    source: Seq<char>,
    ranges: Seq<(usize, usize)>,
    start: int,
    i: int,
    j: int,
)
    requires
        -1 <= i < j < ranges.len(),
        i >= 0 ==> ranges[i].0 >= start,
        forall|m: int| i < m < j ==> (#[trigger] ranges[m]).0 < start,
    ensures
        ranges[j].0 < start ==> contexts(source, ranges, start)[j] == Seq::<SnippetView>::empty(),
        ranges[j].0 >= start ==> contexts(source, ranges, start)[j] == (if i >= 0 {
            contexts(source, ranges, start)[i]
        } else {
            Seq::empty()
        }) + ({
            let from = if i >= 0 {
                ranges[i].1 as int
            } else {
                start
            };
            if from < ranges[j].0 {
                snippets_between(
                    source,
                    char_index(source, from),
                    char_index(source, ranges[j].0 as int),
                )
            } else {
                Seq::empty()
            }
        }),
{
    lemma_frames_before_the_document(source, ranges, start, i + 1, j);
}

proof fn lemma_frames_before_the_document(
    source: Seq<char>,
    ranges: Seq<(usize, usize)>,
    start: int,
    i: int,
    j: int,
)
    requires
        0 <= i <= j <= ranges.len(),
        forall|m: int| i <= m < j ==> (#[trigger] ranges[m]).0 < start,
    ensures
        accumulated(source, ranges, start, j) == accumulated(source, ranges, start, i),
        context_cursor(ranges, start, j) == context_cursor(ranges, start, i),
    decreases j - i,
{
    if i < j {
        assert(ranges[j - 1].0 < start);
        lemma_frames_before_the_document(source, ranges, start, i, j - 1);
        assert(accumulated(source, ranges, start, j) =~= accumulated(source, ranges, start, j - 1));
    }
}

/// A definition between two frames reaches the second one: where line `k` of what stands between
/// them starts with a context command, the block that it is part of is in the context of frame `j`,
/// and so in that of every later one. Gives the place of the block in the context, and the lines
/// it starts and ends at.
pub proof fn law_definitions_reach_the_frames_behind_them(
    source: Seq<char>,
    ranges: Seq<(usize, usize)>,
    start: int,
    i: int,
    j: int,
    k: int,
) -> (r: (int, int, int))
    requires
        -1 <= i < j < ranges.len(),
        i >= 0 ==> ranges[i].0 >= start,
        forall|m: int| i < m < j ==> (#[trigger] ranges[m]).0 < start,
        ranges[j].0 >= start,
        ({
            let from = if i >= 0 {
                ranges[i].1 as int
            } else {
                start
            };
            let gap = chunks(
                source.subrange(
                    char_index(source, from),
                    char_index(source, ranges[j].0 as int),
                ),
            );
            from < ranges[j].0 && 0 <= k < gap.len() && context_line(gap[k])
        }),
    ensures
        ({
            let from = if i >= 0 {
                ranges[i].1 as int
            } else {
                start
            };
            let base = char_index(source, from);
            let gap = chunks(source.subrange(base, char_index(source, ranges[j].0 as int)));
            let (n, first, last) = r;
            &&& 0 <= n < contexts(source, ranges, start)[j].len()
            &&& first <= k < last
            &&& is_definition(
                contexts(source, ranges, start)[j][n],
                source,
                base,
                gap,
                first,
                last,
            )
        }),
{
    law_contexts_grow_from_frame_to_frame(source, ranges, start, i, j);
    let from = if i >= 0 {
        ranges[i].1 as int
    } else {
        start
    };
    let base = char_index(source, from);
    let gap = chunks(source.subrange(base, char_index(source, ranges[j].0 as int)));
    let (n, first, last) = law_every_definition_is_kept(source, base, gap, 0, k);
    let before = if i >= 0 {
        contexts(source, ranges, start)[i].len() as int
    } else {
        0
    };
    assert(contexts(source, ranges, start)[j][before + n] == snippets_from(
        source,
        base,
        gap,
        0,
    )[n]);
    (before + n, first, last)
}

/// The document starts behind `\begin{document}`, and at the start of the source where that is
/// missing.
pub proof fn law_documents_start_behind_their_beginning(begin: usize)
    ensures
        document_start(Some(begin)) == begin + 16,
        document_start(None) == 0,
{
    reveal_strlit("\\begin{document}");
    let s = "\\begin{document}"@;
    lemma_ascii_bytes(s);
}

proof fn lemma_ascii_bytes(s: Seq<char>)
    requires
        forall|i: int| 0 <= i < s.len() ==> (#[trigger] s[i]) as u32 <= 0x7f,
    ensures
        byte_len(s) == s.len(),
    decreases s.len(),
{
    if s.len() > 0 {
        assert((s[s.len() - 1]) as u32 <= 0x7f);
        assert forall|i: int| 0 <= i < s.drop_last().len() implies (
        #[trigger] s.drop_last()[i]) as u32 <= 0x7f by {
            assert(s[i] as u32 <= 0x7f);
        }
        lemma_ascii_bytes(s.drop_last());
    }
}

/// In front of a frame the definitions of its context stand one behind the other, each as it is in
/// the source, with the next one on a line of its own.
pub proof fn law_context_is_written_in_order(
    prefix: Seq<char>,
    context: Seq<SnippetView>,
    n: int,
    i: int,
)
    requires
        0 <= i < n <= context.len(),
    ensures
        ({
            let text = with_context(prefix, context, n);
            let at = with_context(prefix, context, i).len() as int;
            let content = context[i].content;
            &&& at >= prefix.len()
            &&& text.take(prefix.len() as int) == prefix
            &&& at + content.len() <= text.len()
            &&& text.subrange(at, at + content.len()) == content
            &&& with_context(prefix, context, i + 1).len() == at + content.len() + if content.len()
                > 0 && content.last() == '\n' {
                0int
            } else {
                1
            }
            &&& with_context(prefix, context, i + 1).last() == '\n'
        }),
    decreases n,
{
    lemma_context_grows(prefix, context, 0, i);
    lemma_context_grows(prefix, context, 0, n);
    lemma_context_grows(prefix, context, i + 1, n);
    let text = with_context(prefix, context, n);
    let at = with_context(prefix, context, i).len() as int;
    let content = context[i].content;
    let upto = with_context(prefix, context, i + 1);
    assert(upto.subrange(at, at + content.len()) =~= content);
    assert(text.subrange(at, at + content.len()) =~= text.take(upto.len() as int).subrange(
        at,
        at + content.len(),
    ));
    assert(text.take(prefix.len() as int) =~= prefix);
}

proof fn lemma_context_grows(prefix: Seq<char>, context: Seq<SnippetView>, i: int, n: int)
    requires
        0 <= i <= n,
    ensures
        with_context(prefix, context, i).len() <= with_context(prefix, context, n).len(),
        with_context(prefix, context, n).take(with_context(prefix, context, i).len() as int)
            == with_context(prefix, context, i),
    decreases n - i,
{
    let short = with_context(prefix, context, i);
    if i < n {
        lemma_context_grows(prefix, context, i, n - 1);
        let before = with_context(prefix, context, n - 1);
        assert(with_context(prefix, context, n).take(short.len() as int) =~= before.take(
            short.len() as int,
        ));
    } else {
        assert(short.take(short.len() as int) =~= short);
    }
}

}
