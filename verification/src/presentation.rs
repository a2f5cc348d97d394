//! Reading a presentation: its frames, its preamble, and what the frames see of the rest.
use crate::context::{
    context_fits, context_views, contexts, document_contexts_before_frames, document_start,
    extract_title_commands, ranges_fit, snippet_views, title_info, untitled, DocumentContextSnippet,
};
use crate::lines::{chunks, logical_line_count};
use crate::patterns::{
    capture_views, captures_fit, find_captures, piece, read_piece, regex_captures, span_fits,
    FRAME_PATTERN,
};
use crate::search::{find_from, find_last, first_match, last_match, lemma_first_match, matches_at};
use crate::text::{
    byte_len, byte_offset_of, char_index, chars_of, is_boundary, lemma_byte_len_concat,
    lemma_byte_len_grows, lemma_char_index, lemma_char_index_order, lemma_newlines_bound, line_at,
    line_number_at, line_of_position, newlines, owned, push_text, string_of, texts,
};
use vstd::prelude::*;

verus! {

// ---------------------------------------------------------------------------
// Frames
// ---------------------------------------------------------------------------

/// The frames of a source: their texts, the lines they start at and how many lines they take, and
/// the bytes they take.
#[derive(Clone, Debug)]
pub struct SourceFrames {
    pub frames: Vec<String>,
    pub lines: Vec<(u128, u128)>,
    pub ranges: Vec<(usize, usize)>,
}

/// Whether ranges of bytes are pieces of a source.
pub open spec fn ranges_valid(content: Seq<char>, ranges: Seq<(usize, usize)>) -> bool {
    forall|i: int|
        0 <= i < ranges.len() ==> (#[trigger] ranges[i]).0 <= ranges[i].1 && is_boundary(
            content,
            ranges[i].0 as int,
        ) && is_boundary(content, ranges[i].1 as int)
}

/// The texts of ranges of bytes.
pub open spec fn range_texts(content: Seq<char>, ranges: Seq<(usize, usize)>) -> Seq<Seq<char>> {
    ranges.map_values(|r: (usize, usize)| piece(content, r.0 as int, r.1 as int))
}

/// The lines of ranges of bytes: where they start, and how many they are.
pub open spec fn range_lines(content: Seq<char>, ranges: Seq<(usize, usize)>) -> Seq<(nat, nat)> {
    ranges.map_values(
        |r: (usize, usize)|
            (
                line_at(content, char_index(content, r.0 as int)),
                chunks(piece(content, r.0 as int, r.1 as int)).len(),
            ),
    )
}

/// Lines as mathematical numbers.
pub open spec fn line_views(v: Seq<(u128, u128)>) -> Seq<(nat, nat)> {
    v.map_values(|l: (u128, u128)| (l.0 as nat, l.1 as nat))
}

/// A number that a line of a text in memory can have, with room for a few lines more.
pub open spec fn line_fits(n: int) -> bool {
    n <= usize::MAX + 2
}

impl SourceFrames {
    /// Whether the texts and lines are those of the ranges.
    pub open spec fn taken_from(&self, content: Seq<char>) -> bool {
        &&& ranges_valid(content, self.ranges@)
        &&& self.frames@.len() == self.ranges@.len()
        &&& self.lines@.len() == self.ranges@.len()
        &&& texts(self.frames@) == range_texts(content, self.ranges@)
        &&& line_views(self.lines@) == range_lines(content, self.ranges@)
        &&& forall|i: int|
            0 <= i < self.lines@.len() ==> line_fits((#[trigger] self.lines@[i]).0 as int)
                && self.lines@[i].1 <= usize::MAX
    }
}

/// The frames at ranges of bytes.
pub fn frames_at(content: &str, ranges: Vec<(usize, usize)>) -> (r: SourceFrames)
    requires
        ranges_valid(content@, ranges@),
    ensures
        r.taken_from(content@),
        r.ranges@ == ranges@,
{
    let chars = chars_of(content);
    let ghost all_texts = range_texts(content@, ranges@);
    let ghost all_lines = range_lines(content@, ranges@);
    let mut frames: Vec<String> = Vec::new();
    let mut lines: Vec<(u128, u128)> = Vec::new();
    let mut i: usize = 0;
    assert(texts(frames@) =~= all_texts.take(0));
    assert(line_views(lines@) =~= all_lines.take(0));
    while i < ranges.len()
        invariant
            i <= ranges.len(),
            chars@ == content@,
            ranges_valid(content@, ranges@),
            all_texts == range_texts(content@, ranges@),
            all_lines == range_lines(content@, ranges@),
            texts(frames@) == all_texts.take(i as int),
            line_views(lines@) == all_lines.take(i as int),
            forall|k: int|
                0 <= k < lines@.len() ==> line_fits((#[trigger] lines@[k]).0 as int)
                    && lines@[k].1 <= usize::MAX,
        decreases ranges.len() - i,
    {
        let (start, end) = ranges[i];
        assert(ranges@[i as int] == (start, end));
        let frame = read_piece(&chars, start, end);
        let line = line_number_at(content, start);
        let count = logical_line_count(frame.as_str());
        proof {
            lemma_char_index_order(content@, start as int, start as int);
            lemma_newlines_bound(content@.take(char_index(content@, start as int)));
            assert(chars@.len() == chars.len());
        }
        let ghost before = lines@;
        push_text(&mut frames, frame);
        lines.push((line, count as u128));
        i += 1;
        assert(line_views(lines@) =~= line_views(before).push((line as nat, count as nat)));
        assert(all_texts.take(i as int) =~= all_texts.take(i - 1).push(all_texts[i - 1]));
        assert(all_lines.take(i as int) =~= all_lines.take(i - 1).push(all_lines[i - 1]));
    }
    assert(all_texts.take(i as int) =~= all_texts);
    assert(all_lines.take(i as int) =~= all_lines);
    assert(texts(frames@).len() == frames@.len());
    assert(line_views(lines@).len() == lines@.len());
    SourceFrames { frames, lines, ranges }
}

/// The ranges of bytes that the frames of a source take.
pub open spec fn frame_ranges(content: Seq<char>) -> Seq<(usize, usize)> {
    regex_captures(FRAME_PATTERN@, content).map_values(
        |groups: Seq<Option<(usize, usize)>>| groups[0]->0,
    )
}

/// Whether ranges of bytes come one behind the other.
pub open spec fn ranges_ordered(ranges: Seq<(usize, usize)>) -> bool {
    forall|i: int, j: int|
        0 <= i < j < ranges.len() ==> (#[trigger] ranges[i]).1 <= (#[trigger] ranges[j]).0
}

/// The frames of a source. They do not overlap, and come in their order.
pub fn find_frames(content: &str) -> (r: SourceFrames)
    ensures
        r.taken_from(content@),
        r.ranges@ == frame_ranges(content@),
        ranges_ordered(r.ranges@),
{
    let found = find_captures(FRAME_PATTERN, content);
    let ghost all = capture_views(found@);
    let ghost target = frame_ranges(content@);
    let mut ranges: Vec<(usize, usize)> = Vec::new();
    let mut i: usize = 0;
    assert(ranges@ =~= target.take(0));
    while i < found.len()
        invariant
            i <= found.len(),
            all == capture_views(found@),
            all == regex_captures(FRAME_PATTERN@, content@),
            captures_fit(all, content@),
            target == frame_ranges(content@),
            ranges@ == target.take(i as int),
            ranges_valid(content@, ranges@),
        decreases found.len() - i,
    {
        let groups = &found[i];
        assert(all[i as int] == groups@);
        assert(all[i as int].len() > 0 && all[i as int][0] is Some);
        assert(span_fits(all[i as int][0], content@));
        if let Some(range) = groups[0] {
            let ghost before = ranges@;
            ranges.push(range);
            assert forall|k: int| 0 <= k < ranges@.len() implies (#[trigger] ranges@[k]).0
                <= ranges@[k].1 && is_boundary(content@, ranges@[k].0 as int) && is_boundary(
                content@,
                ranges@[k].1 as int,
            ) by {
                if k < before.len() {
                    assert(before[k] == ranges@[k]);
                }
            }
        }
        i += 1;
        assert(target.take(i as int) =~= target.take(i - 1).push(target[i - 1]));
    }
    assert(target.take(i as int) =~= target);
    assert forall|i: int, j: int| 0 <= i < j < ranges@.len() implies (#[trigger] ranges@[i]).1 <= (
    #[trigger] ranges@[j]).0 by {
        assert((all[i][0]->0).1 <= (all[j][0]->0).0);
    }
    frames_at(content, ranges)
}

// ---------------------------------------------------------------------------
// Preamble
// ---------------------------------------------------------------------------

/// What stands in front of `\begin{document}`, and where the document starts and ends.
#[derive(Clone, Debug)]
pub struct Preamble {
    pub text: String,
    pub title_info: String,
    /// The byte offset of `\begin{document}`.
    pub begin_idx: Option<usize>,
    pub begin_line: u128,
    pub end_line: u128,
}

/// Where the document starts.
pub open spec fn begin_at(content: Seq<char>) -> Option<int> {
    first_match(content, "\\begin{document}"@, 0)
}

/// What stands in front of the document. A source that is no whole document gets a preamble.
pub open spec fn raw_preamble(content: Seq<char>) -> Seq<char> {
    match begin_at(content) {
        Some(k) => content.take(k),
        None => "\\documentclass[aspectratio=43,c,xcolor=dvipsnames]{beamer}"@,
    }
}

/// The preamble that all frames share: without what concerns the title only, unless that is to
/// stay.
pub open spec fn preamble_text(content: Seq<char>, keep_title: bool) -> Seq<char> {
    if keep_title {
        raw_preamble(content)
    } else {
        untitled(raw_preamble(content))
    }
}

/// What the preamble says of the title, where that was taken out.
pub open spec fn preamble_title(content: Seq<char>, keep_title: bool) -> Seq<char> {
    if keep_title {
        ""@
    } else {
        title_info(raw_preamble(content))
    }
}

/// The line that the document starts at.
pub open spec fn begin_line(content: Seq<char>, keep_title: bool) -> nat {
    match begin_at(content) {
        Some(k) => line_at(content, k),
        None => chunks(preamble_text(content, keep_title)).len() + 1,
    }
}

/// The line that the document ends at.
pub open spec fn end_line(content: Seq<char>, keep_title: bool) -> nat {
    match last_match(content, "\\end{document}"@, content.len() as int) {
        Some(k) => line_at(content, k),
        None => begin_line(content, keep_title),
    }
}

impl Preamble {
    /// Whether this is the preamble of a source.
    pub open spec fn taken_from(&self, content: Seq<char>, keep_title: bool) -> bool {
        &&& self.text@ == preamble_text(content, keep_title)
        &&& self.title_info@ == preamble_title(content, keep_title)
        &&& match begin_at(content) {
            Some(k) => self.begin_idx == Some(byte_len(content.take(k)) as usize) && byte_len(
                content.take(k),
            ) <= usize::MAX,
            None => self.begin_idx is None,
        }
        &&& self.begin_line == begin_line(content, keep_title)
        &&& self.end_line == end_line(content, keep_title)
        &&& line_fits(self.begin_line as int)
        &&& line_fits(self.end_line as int)
    }
}

/// The preamble of a source. `keep_title` says whether it keeps what concerns the title.
pub fn read_preamble(content: &str, keep_title: bool) -> (r: Preamble)
    requires
        byte_len(content@) <= usize::MAX,
    ensures
        r.taken_from(content@, keep_title),
{
    let chars = chars_of(content);
    assert(chars@.len() == chars.len());
    let mark = chars_of("\\begin{document}");
    let begin = find_from(&chars, &mark, 0);
    let mut text = match begin {
        Some(k) => {
            let head = &chars[0..k];
            assert(head@ =~= content@.take(k as int));
            string_of(head)
        },
        None => owned("\\documentclass[aspectratio=43,c,xcolor=dvipsnames]{beamer}"),
    };
    let title = if keep_title {
        owned("")
    } else {
        extract_title_commands(&mut text)
    };
    let count = logical_line_count(text.as_str());
    let begin_line: u128 = match begin {
        Some(k) => {
            proof {
                lemma_newlines_bound(content@.take(k as int));
            }
            line_of_position(&chars, k)
        },
        None => count as u128 + 1,
    };
    let begin_idx = match begin {
        Some(k) => Some(byte_offset_of(&chars, k)),
        None => None,
    };
    let end_mark = chars_of("\\end{document}");
    let end_line: u128 = match find_last(&chars, &end_mark) {
        Some(k) => {
            proof {
                lemma_newlines_bound(content@.take(k as int));
            }
            line_of_position(&chars, k)
        },
        None => begin_line,
    };
    Preamble { text, title_info: title, begin_idx, begin_line, end_line }
}

proof fn lemma_document_start(content: Seq<char>, begin: Option<usize>)
    requires
        byte_len(content) <= usize::MAX,
        match begin_at(content) {
            Some(k) => begin == Some(byte_len(content.take(k)) as usize) && byte_len(
                content.take(k),
            ) <= usize::MAX,
            None => begin is None,
        },
    ensures
        document_start(begin) <= usize::MAX,
        is_boundary(content, document_start(begin)),
{
    match begin_at(content) {
        Some(k) => {
            let mark = "\\begin{document}"@;
            lemma_first_match(content, mark, 0);
            let n = k + mark.len();
            assert(content.take(n) =~= content.take(k) + mark);
            lemma_byte_len_concat(content.take(k), mark);
            lemma_byte_len_grows(content, n, content.len() as int);
            assert(content.take(content.len() as int) =~= content);
            lemma_char_index(content, n);
        },
        None => {
            lemma_char_index(content, 0);
            assert(content.take(0) =~= Seq::<char>::empty());
        },
    }
}

/// The definitions that the frames of a source see.
pub fn frame_contexts(content: &str, frames: &SourceFrames, preamble: &Preamble, keep_title: bool) -> (r:
    Vec<Vec<DocumentContextSnippet>>)
    requires
        byte_len(content@) <= usize::MAX,
        frames.taken_from(content@),
        preamble.taken_from(content@, keep_title),
    ensures
        context_views(r@) == contexts(
            content@,
            frames.ranges@,
            document_start(preamble.begin_idx),
        ),
        r@.len() == frames.frames@.len(),
        forall|i: int|
            0 <= i < r@.len() ==> context_fits(snippet_views((#[trigger] r@[i])@)),
{
    proof {
        lemma_document_start(content@, preamble.begin_idx);
        assert(ranges_fit(content@, frames.ranges@, document_start(preamble.begin_idx)));
    }
    let found = document_contexts_before_frames(content, &frames.ranges, preamble.begin_idx);
    assert(context_views(found@).len() == found@.len());
    found
}

/// A frame is a piece of the source: its text stands where its range says, and its lines are
/// counted from the newlines in front of it.
pub proof fn law_frames_are_pieces_of_the_source(
    content: Seq<char>,
    ranges: Seq<(usize, usize)>,
    i: int,
)
    requires
        ranges_valid(content, ranges),
        0 <= i < ranges.len(),
    ensures
        ({
            let at = char_index(content, ranges[i].0 as int);
            let end = char_index(content, ranges[i].1 as int);
            let text = range_texts(content, ranges)[i];
            &&& range_texts(content, ranges).len() == ranges.len()
            &&& 0 <= at <= end <= content.len()
            &&& byte_len(content.take(at)) == ranges[i].0
            &&& byte_len(content.take(end)) == ranges[i].1
            &&& content.take(at) + text + content.skip(end) == content
            &&& range_lines(content, ranges)[i].0 == newlines(content.take(at)) + 1
            &&& range_lines(content, ranges)[i].1 == newlines(text) + if text.len() > 0
                && text.last() != '\n' {
                1nat
            } else {
                0nat
            }
        }),
{
    let (from, to) = ranges[i];
    lemma_char_index_order(content, from as int, to as int);
    let at = char_index(content, from as int);
    let end = char_index(content, to as int);
    let text = range_texts(content, ranges)[i];
    assert(content.take(at) + text + content.skip(end) =~= content);
    crate::lines::lemma_line_count(text);
    let k = choose|k: int| 0 <= k <= content.len() && #[trigger] byte_len(content.take(k)) == from;
    lemma_char_index(content, k);
    let m = choose|m: int| 0 <= m <= content.len() && #[trigger] byte_len(content.take(m)) == to;
    lemma_char_index(content, m);
}

/// The preamble is what stands in front of the first `\begin{document}`, and the document starts on
/// the line of that. It ends on the line of the last `\end{document}`.
pub proof fn law_documents_are_found_by_their_marks(content: Seq<char>, keep_title: bool, k: int)
    ensures
        matches_at(content, "\\begin{document}"@, k) && (forall|j: int|
            0 <= j < k ==> !#[trigger] matches_at(content, "\\begin{document}"@, j)) ==> {
            &&& raw_preamble(content) == content.take(k)
            &&& begin_line(content, keep_title) == newlines(content.take(k)) + 1
            &&& begin_at(content) == Some(k)
        },
        matches_at(content, "\\end{document}"@, k) && (forall|j: int|
            k < j <= content.len() ==> !#[trigger] matches_at(content, "\\end{document}"@, j))
            ==> end_line(content, keep_title) == newlines(content.take(k)) + 1,
        (forall|j: int| 0 <= j ==> !#[trigger] matches_at(content, "\\end{document}"@, j))
            ==> end_line(content, keep_title) == begin_line(content, keep_title),
{
    let begin = "\\begin{document}"@;
    let end = "\\end{document}"@;
    lemma_first_match(content, begin, 0);
    if matches_at(content, begin, k) && (forall|j: int|
        0 <= j < k ==> !#[trigger] matches_at(content, begin, j)) {
        match begin_at(content) {
            Some(i) => {
                assert(matches_at(content, begin, i));
            },
            None => {},
        }
    }
    lemma_last_match(content, end, content.len() as int);
    if matches_at(content, end, k) && (forall|j: int|
        k < j <= content.len() ==> !#[trigger] matches_at(content, end, j)) {
        match last_match(content, end, content.len() as int) {
            Some(i) => {
                assert(matches_at(content, end, i));
            },
            None => {
                assert(!matches_at(content, end, k));
            },
        }
    }
}

proof fn lemma_last_match(s: Seq<char>, p: Seq<char>, to: int)
    ensures
        match last_match(s, p, to) {
            Some(i) => 0 <= i <= to && matches_at(s, p, i) && forall|j: int|
                i < j <= to ==> !#[trigger] matches_at(s, p, j),
            None => forall|j: int| 0 <= j <= to ==> !#[trigger] matches_at(s, p, j),
        },
    decreases to + 1,
{
    if to >= 0 && !matches_at(s, p, to) {
        lemma_last_match(s, p, to - 1);
    }
}

/// The preamble and what it says of the title are those of the source as it stands: where the title
/// is kept there, nothing is taken out, and otherwise what is taken out of the one is all of the
/// other. A source that is no whole document gets the class of a presentation.
pub proof fn law_titles_are_kept_or_taken_out(content: Seq<char>)
    ensures
        preamble_text(content, true) == raw_preamble(content),
        preamble_title(content, true).len() == 0,
        preamble_text(content, false) == untitled(raw_preamble(content)),
        preamble_title(content, false) == title_info(raw_preamble(content)),
        begin_at(content) is None ==> raw_preamble(content)
            == "\\documentclass[aspectratio=43,c,xcolor=dvipsnames]{beamer}"@,
        begin_at(content) is None ==> begin_line(content, true) == 2,
{
    reveal_strlit("");
    reveal_strlit("\\documentclass[aspectratio=43,c,xcolor=dvipsnames]{beamer}");
    crate::lines::lemma_chunks_single(
        "\\documentclass[aspectratio=43,c,xcolor=dvipsnames]{beamer}"@,
    );
}

}
