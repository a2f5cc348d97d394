//! Frames: what they are called, and which of them are asked for.
use crate::lines::{join, join_texts, lines, lines_of};
use crate::numbers::{
    decimal, decimal_string, law_decimal_round_trip, lemma_decimal, parse_number, push_decimal,
    read_usize,
};
use crate::patterns::{
    matches_pattern, regex_is_match, DYNAMIC_TOC_OPTION_PATTERN, TITLE_PAGE_PATTERN, TOC_PATTERN,
};
use crate::search::{
    contains, has_text, is_text_ignoring_case, same_ignoring_case, trim, trimmed,
};
use crate::tex::{strip_tex_comments, without_comments};
use crate::text::{chars_of, owned, push_all, push_text, texts, views};
use vstd::prelude::*;

verus! {

/// What a frame is called: the title, the table of contents, or a number.
#[derive(Clone, Copy, Debug, PartialEq, Eq, Structural)]
pub enum FrameLabel {
    Title,
    Toc,
    Number(usize),
}

/// A label in a word.
pub open spec fn label_text(label: FrameLabel) -> Seq<char> {
    match label {
        FrameLabel::Title => "title"@,
        FrameLabel::Toc => "toc"@,
        FrameLabel::Number(n) => decimal(n as nat),
    }
}

/// A label in words: a number with how many numbers there are, where there are any.
pub open spec fn label_status(label: FrameLabel, count: nat) -> Seq<char> {
    if label is Number && count > 0 {
        label_text(label) + "/"@ + decimal(count)
    } else {
        label_text(label)
    }
}

impl FrameLabel {
    /// The label in a word.
    pub fn progress_label(&self) -> (r: String)
        ensures
            r@ == label_text(*self),
    {
        match self {
            FrameLabel::Title => owned("title"),
            FrameLabel::Toc => owned("toc"),
            FrameLabel::Number(number) => decimal_string(*number as u128),
        }
    }

    /// The label in words.
    pub fn status_label(&self, numbered_frame_count: usize) -> (r: String)
        ensures
            r@ == label_status(*self, numbered_frame_count as nat),
    {
        let mut out = self.progress_label();
        match self {
            FrameLabel::Number(_) => {
                if numbered_frame_count > 0 {
                    out.push_str("/");
                    push_decimal(&mut out, numbered_frame_count as u128);
                }
            },
            _ => {},
        }
        out
    }

    /// What the frame counter of LaTeX is set to in front of the frame.
    pub fn counter_value(&self) -> (r: usize)
        ensures
            r == counter(*self),
    {
        match self {
            FrameLabel::Number(number) => if *number > 0 {
                *number - 1
            } else {
                0
            },
            _ => 0,
        }
    }
}

/// What the frame counter is set to in front of a frame.
pub open spec fn counter(label: FrameLabel) -> nat {
    match label {
        FrameLabel::Number(n) => if n > 0 {
            (n - 1) as nat
        } else {
            0
        },
        _ => 0,
    }
}

/// The LaTeX code that sets the frame counter, where frames are to have their right numbers.
pub open spec fn counter_setup(label: FrameLabel, correct_frame_numbers: bool) -> Seq<char> {
    if correct_frame_numbers {
        "\\setcounter{framenumber}{"@ + decimal(counter(label)) + "}\n"@
    } else {
        ""@
    }
}

/// The LaTeX code that sets the frame counter, where frames are to have their right numbers.
pub fn frame_counter_setup(frame_label: &FrameLabel, correct_frame_numbers: bool) -> (r: String)
    ensures
        r@ == counter_setup(*frame_label, correct_frame_numbers),
{
    if correct_frame_numbers {
        let mut out = owned("\\setcounter{framenumber}{");
        push_decimal(&mut out, frame_label.counter_value() as u128);
        out.push_str("}\n");
        out
    } else {
        owned("")
    }
}

/// The LaTeX code that hides the frame number.
pub const HIDE_FRAME_NUMBER: &'static str = "\\makeatletter\n\\def\\insertframenumber{}\n\\setbeamertemplate{page number in head/foot}{}\n\\setbeamertemplate{frame numbering}{}\n\\makeatother\n";

/// The LaTeX code that settles how a frame shows its number: a table of contents shows none.
pub open spec fn display_setup(label: FrameLabel) -> Seq<char> {
    if label is Toc {
        HIDE_FRAME_NUMBER@
    } else {
        ""@
    }
}

/// The LaTeX code that settles how a frame shows its number: a table of contents shows none.
pub fn frame_number_display_setup(frame_label: &FrameLabel) -> (r: &'static str)
    ensures
        r@ == display_setup(*frame_label),
{
    match frame_label {
        FrameLabel::Toc => HIDE_FRAME_NUMBER,
        _ => "",
    }
}

/// How many of the labels are numbers.
pub open spec fn numbered(labels: Seq<FrameLabel>) -> nat
    decreases labels.len(),
{
    if labels.len() == 0 {
        0
    } else if labels.last() is Number {
        numbered(labels.drop_last()) + 1
    } else {
        numbered(labels.drop_last())
    }
}

/// How many of the labels are numbers.
pub fn numbered_frame_count(frame_labels: &[FrameLabel]) -> (r: usize)
    ensures
        r == numbered(frame_labels@),
{
    let mut count: usize = 0;
    let mut i: usize = 0;
    assert(frame_labels@.take(0) =~= Seq::<FrameLabel>::empty());
    while i < frame_labels.len()
        invariant
            i <= frame_labels.len(),
            count <= i,
            count == numbered(frame_labels@.take(i as int)),
        decreases frame_labels.len() - i,
    {
        if let FrameLabel::Number(_) = frame_labels[i] {
            count += 1;
        }
        i += 1;
        assert(frame_labels@.take(i as int).drop_last() =~= frame_labels@.take(i - 1));
    }
    assert(frame_labels@.take(i as int) =~= frame_labels@);
    count
}

/// What the frame at an index is called.
pub open spec fn index_label(labels: Seq<FrameLabel>, index: int, count: nat) -> Seq<char> {
    if 0 <= index < labels.len() {
        label_status(labels[index], count)
    } else {
        "raw frame "@ + decimal((index + 1) as nat)
    }
}

/// What the frame at an index is called.
pub fn frame_label_for_index(
    frame_labels: &[FrameLabel],
    frame_idx: usize,
    numbered_frame_count: usize,
) -> (r: String)
    ensures
        r@ == index_label(frame_labels@, frame_idx as int, numbered_frame_count as nat),
{
    if frame_idx < frame_labels.len() {
        frame_labels[frame_idx].status_label(numbered_frame_count)
    } else {
        let mut out = owned("raw frame ");
        push_decimal(&mut out, frame_idx as u128 + 1);
        out
    }
}

/// The first of the lines, from `from` on, that is not empty once the space around it is gone.
pub open spec fn first_words(all: Seq<Seq<char>>, from: int) -> Seq<char>
    decreases all.len() - from,
{
    if from < 0 || from >= all.len() {
        ""@
    } else if trim(all[from]).len() > 0 {
        trim(all[from])
    } else {
        first_words(all, from + 1)
    }
}

/// A frame in one line: its first line with text, cut off where it is long.
pub open spec fn preview(frame: Seq<char>) -> Seq<char> {
    let line = first_words(lines(frame), 0);
    if line.len() <= 160 {
        line
    } else {
        line.take(160) + "..."@
    }
}

/// A frame in one line: its first line with text, cut off where it is long.
pub fn frame_preview(frame_text: &str) -> (r: String)
    ensures
        r@ == preview(frame_text@),
{
    let chars = chars_of(frame_text);
    let all = lines_of(&chars);
    let ghost lines = views(all@);
    let mut found: Vec<char> = Vec::new();
    let mut i: usize = 0;
    while i < all.len() && found.len() == 0
        invariant
            i <= all.len(),
            lines == views(all@),
            found@.len() == 0 ==> first_words(lines, i as int) == first_words(lines, 0),
            found@.len() > 0 ==> found@ == first_words(lines, 0),
        decreases all.len() - i,
    {
        assert(lines[i as int] == all@[i as int]@);
        found = trimmed(&all[i]);
        i += 1;
    }
    assert(found@ =~= first_words(lines, 0)) by {
        reveal_strlit("");
    }
    let mut out = String::new();
    if found.len() <= 160 {
        push_all(&mut out, &found);
        assert(out@ =~= preview(frame_text@));
    } else {
        push_all(&mut out, &found[0..160]);
        out.push_str("...");
        assert(out@ =~= preview(frame_text@));
    }
    out
}

// ---------------------------------------------------------------------------
// Labels
// ---------------------------------------------------------------------------

/// Whether a frame typesets a table of contents.
pub open spec fn shows_toc(frame: Seq<char>) -> bool {
    contains(without_comments(frame), "\\tableofcontents"@)
}

/// Whether a frame typesets the title page.
pub open spec fn shows_title(frame: Seq<char>) -> bool {
    regex_is_match(TITLE_PAGE_PATTERN@, without_comments(frame))
}

/// Whether a frame typesets a table of contents that depends on the section it stands in.
pub open spec fn shows_dynamic_toc(frame: Seq<char>) -> bool {
    regex_is_match(DYNAMIC_TOC_OPTION_PATTERN@, without_comments(frame))
}

/// Whether `frame` typesets a table of contents.
pub fn frame_contains_table_of_contents(frame: &str) -> (r: bool)
    ensures
        r == shows_toc(frame@),
{
    let stripped = strip_tex_comments(frame);
    matches_pattern(TOC_PATTERN, stripped.as_str())
}

/// Whether `frame` typesets the title page.
pub fn frame_contains_title_page(frame: &str) -> (r: bool)
    ensures
        r == shows_title(frame@),
{
    let stripped = strip_tex_comments(frame);
    matches_pattern(TITLE_PAGE_PATTERN, stripped.as_str())
}

/// Whether `frame` typesets a table of contents that depends on the section it stands in.
pub fn table_of_contents_uses_dynamic_section_context(frame: &str) -> (r: bool)
    ensures
        r == shows_dynamic_toc(frame@),
{
    let stripped = strip_tex_comments(frame);
    matches_pattern(DYNAMIC_TOC_OPTION_PATTERN, stripped.as_str())
}

/// Where the title frames at the front end.
pub open spec fn titles_end(title: Seq<bool>, from: int) -> int
    decreases title.len() - from,
{
    if 0 <= from < title.len() && title[from] {
        titles_end(title, from + 1)
    } else {
        from
    }
}

/// Whether a table of contents follows the title frames at the front.
pub open spec fn front_toc(title: Seq<bool>, toc: Seq<bool>) -> bool {
    titles_end(title, 0) < toc.len() && toc[titles_end(title, 0)]
}

/// How many frames at the front have no number.
pub open spec fn front_len(title: Seq<bool>, toc: Seq<bool>) -> int {
    titles_end(title, 0) + if front_toc(title, toc) {
        1int
    } else {
        0int
    }
}

/// The labels of frames, where it is known which of them typeset the title page and which a table
/// of contents. Title frames at the front come first, and perhaps one table of contents behind
/// them. All the others are numbered.
pub open spec fn labels(title: Seq<bool>, toc: Seq<bool>) -> Seq<FrameLabel> {
    Seq::new(
        title.len(),
        |i: int|
            if i < titles_end(title, 0) {
                FrameLabel::Title
            } else if i < front_len(title, toc) {
                FrameLabel::Toc
            } else {
                FrameLabel::Number((i - front_len(title, toc) + 1) as usize)
            },
    )
}

proof fn lemma_titles_end(title: Seq<bool>, from: int)
    requires
        0 <= from <= title.len(),
    ensures
        from <= titles_end(title, from) <= title.len(),
        titles_end(title, from) < title.len() ==> !title[titles_end(title, from)],
        forall|i: int| from <= i < titles_end(title, from) ==> title[i],
    decreases title.len() - from,
{
    if from < title.len() && title[from] {
        lemma_titles_end(title, from + 1);
    }
}

/// The labels of frames, where it is known which of them typeset the title page and which a table
/// of contents.
pub fn label_frames(title: &[bool], toc: &[bool]) -> (r: Vec<FrameLabel>)
    requires
        title@.len() == toc@.len(),
    ensures
        r@ == labels(title@, toc@),
{
    let mut out: Vec<FrameLabel> = Vec::new();
    let mut front_matter_open = true;
    let mut count: usize = 0;
    let mut i: usize = 0;
    proof {
        lemma_titles_end(title@, 0);
    }
    let ghost end = titles_end(title@, 0);
    let ghost front = front_len(title@, toc@);
    while i < title.len()
        invariant
            i <= title.len(),
            title@.len() == toc@.len(),
            end == titles_end(title@, 0),
            front == front_len(title@, toc@),
            0 <= end <= title@.len(),
            end < title@.len() ==> !title@[end],
            forall|j: int| 0 <= j < end ==> title@[j],
            front_matter_open == (i <= end),
            count == if i <= front {
                0
            } else {
                i - front
            },
            out@ == labels(title@, toc@).take(i as int),
        decreases title.len() - i,
    {
        let label = if front_matter_open && title[i] {
            FrameLabel::Title
        } else if front_matter_open && toc[i] {
            front_matter_open = false;
            FrameLabel::Toc
        } else {
            front_matter_open = false;
            count += 1;
            FrameLabel::Number(count)
        };
        out.push(label);
        i += 1;
        assert(labels(title@, toc@).take(i as int) =~= labels(title@, toc@).take(i - 1).push(label));
    }
    assert(labels(title@, toc@).take(i as int) =~= labels(title@, toc@));
    out
}

/// Which of the frames typeset the title page.
pub open spec fn title_flags(frames: Seq<Seq<char>>) -> Seq<bool> {
    frames.map_values(|f: Seq<char>| shows_title(f))
}

/// Which of the frames typeset a table of contents.
pub open spec fn toc_flags(frames: Seq<Seq<char>>) -> Seq<bool> {
    frames.map_values(|f: Seq<char>| shows_toc(f))
}

/// The labels of frames.
pub fn frame_labels(frames: &[String]) -> (r: Vec<FrameLabel>)
    ensures
        r@ == labels(title_flags(texts(frames@)), toc_flags(texts(frames@))),
{
    let ghost all = texts(frames@);
    let mut title: Vec<bool> = Vec::new();
    let mut toc: Vec<bool> = Vec::new();
    let mut i: usize = 0;
    while i < frames.len()
        invariant
            i <= frames.len(),
            all == texts(frames@),
            title@ == title_flags(all).take(i as int),
            toc@ == toc_flags(all).take(i as int),
        decreases frames.len() - i,
    {
        let frame = frames[i].as_str();
        title.push(frame_contains_title_page(frame));
        toc.push(frame_contains_table_of_contents(frame));
        i += 1;
        assert(title_flags(all).take(i as int) =~= title_flags(all).take(i - 1).push(
            shows_title(frame@),
        ));
        assert(toc_flags(all).take(i as int) =~= toc_flags(all).take(i - 1).push(
            shows_toc(frame@),
        ));
    }
    assert(title_flags(all).take(i as int) =~= title_flags(all));
    assert(toc_flags(all).take(i as int) =~= toc_flags(all));
    label_frames(&title, &toc)
}

/// Numbered frames are numbered from one on without a gap, and no frame behind a numbered one is
/// without a number.
pub proof fn law_frames_are_numbered_in_order(title: Seq<bool>, toc: Seq<bool>, i: int)
    requires
        title.len() == toc.len(),
        title.len() <= usize::MAX,
        0 <= i < title.len(),
    ensures
        labels(title, toc)[i] matches FrameLabel::Number(n) ==> {
            &&& n >= 1
            &&& i + 1 < title.len() ==> labels(title, toc)[i + 1] == FrameLabel::Number(
                (n + 1) as usize,
            )
            &&& i > 0 ==> (labels(title, toc)[i - 1] == FrameLabel::Number((n - 1) as usize)
                <==> n > 1)
        },
{
    lemma_titles_end(title, 0);
}

/// At most one frame is called the table of contents, and it follows the title frames at the
/// front directly. A title frame is never called that behind any other frame.
pub proof fn law_front_matter_comes_first(title: Seq<bool>, toc: Seq<bool>, i: int, j: int)
    requires
        title.len() == toc.len(),
        0 <= i < title.len(),
        0 <= j < i,
    ensures
        labels(title, toc)[i] is Title ==> labels(title, toc)[j] is Title,
        labels(title, toc)[i] is Toc ==> labels(title, toc)[j] is Title,
{
}

/// How many frames are numbered: all but those at the front.
pub proof fn law_numbered_frames_are_counted(title: Seq<bool>, toc: Seq<bool>)
    requires
        title.len() == toc.len(),
    ensures
        numbered(labels(title, toc)) == title.len() - front_len(title, toc),
{
    lemma_titles_end(title, 0);
    let all = labels(title, toc);
    lemma_numbered(all, front_len(title, toc), title.len() as int);
    assert(all.take(title.len() as int) =~= all);
}

proof fn lemma_numbered(all: Seq<FrameLabel>, front: int, n: int)
    requires
        0 <= front <= all.len(),
        0 <= n <= all.len(),
        forall|i: int| 0 <= i < all.len() ==> ((#[trigger] all[i]) is Number <==> i >= front),
    ensures
        numbered(all.take(n)) == if n <= front {
            0
        } else {
            n - front
        },
    decreases n,
{
    if n > 0 {
        lemma_numbered(all, front, n - 1);
        assert(all.take(n).drop_last() =~= all.take(n - 1));
        assert(all.take(n).last() == all[n - 1]);
    }
}

// ---------------------------------------------------------------------------
// Filters
// ---------------------------------------------------------------------------

/// Whether a filter picks a frame: by the words for the front matter, by a number, or by a text
/// that stands in the frame.
pub open spec fn filter_picks(label: FrameLabel, content: Seq<char>, filter: Seq<char>) -> bool {
    if same_ignoring_case(filter, "title"@) {
        label is Title
    } else if same_ignoring_case(filter, "toc"@) {
        label is Toc
    } else {
        match parse_number(filter, usize::MAX as nat) {
            Some(n) => label == FrameLabel::Number(n as usize),
            None => contains(content, filter),
        }
    }
}

/// Whether one of the filters picks a frame.
pub open spec fn filters_pick(label: FrameLabel, content: Seq<char>, filters: Seq<Seq<char>>) -> bool {
    exists|i: int| 0 <= i < filters.len() && filter_picks(label, content, #[trigger] filters[i])
}

/// Whether one of `filters` picks the frame.
pub fn frame_matches_filter(
    frame_label: &FrameLabel,
    frame_content: &str,
    filters: &[String],
) -> (r: bool)
    ensures
        r == filters_pick(*frame_label, frame_content@, texts(filters@)),
{
    let content = chars_of(frame_content);
    let ghost all = texts(filters@);
    let mut i: usize = 0;
    while i < filters.len()
        invariant
            i <= filters.len(),
            all == texts(filters@),
            content@ == frame_content@,
            forall|j: int|
                0 <= j < i ==> !filter_picks(*frame_label, frame_content@, #[trigger] all[j]),
        decreases filters.len() - i,
    {
        let filter = chars_of(filters[i].as_str());
        assert(all[i as int] == filter@);
        let picked = if is_text_ignoring_case(&filter, "title") {
            match frame_label {
                FrameLabel::Title => true,
                _ => false,
            }
        } else if is_text_ignoring_case(&filter, "toc") {
            match frame_label {
                FrameLabel::Toc => true,
                _ => false,
            }
        } else {
            match read_usize(&filter) {
                Some(number) => match frame_label {
                    FrameLabel::Number(n) => *n == number,
                    _ => false,
                },
                None => has_text(&content, filters[i].as_str()),
            }
        };
        assert(picked == filter_picks(*frame_label, frame_content@, all[i as int]));
        if picked {
            return true;
        }
        i += 1;
    }
    false
}

// ---------------------------------------------------------------------------
// Progress
// ---------------------------------------------------------------------------

/// The states of frames.
pub open spec fn map_parts(map: Seq<(char, FrameLabel)>) -> Seq<Seq<char>> {
    map.map_values(|e: (char, FrameLabel)| label_text(e.1).push(e.0))
}

/// The states of frames in one line: each frame with the character for its state.
pub fn render_frame_map(map: &[(char, FrameLabel)]) -> (r: String)
    ensures
        r@ == join(map_parts(map@), " "@),
{
    let ghost all = map_parts(map@);
    let mut parts: Vec<String> = Vec::new();
    let mut i: usize = 0;
    assert(texts(parts@) =~= all.take(0));
    while i < map.len()
        invariant
            i <= map.len(),
            all == map_parts(map@),
            texts(parts@) == all.take(i as int),
        decreases map.len() - i,
    {
        let mut text = map[i].1.progress_label();
        text.push(map[i].0);
        push_text(&mut parts, text);
        i += 1;
        assert(all.take(i as int) =~= all.take(i - 1).push(all[i - 1]));
    }
    assert(all.take(i as int) =~= all);
    join_texts(&parts, " ")
}

// ---------------------------------------------------------------------------
// What labels and filters mean
// ---------------------------------------------------------------------------

/// A frame is called a title frame where it and all frames in front of it typeset the title page.
/// It is called the table of contents where all frames in front of it are title frames and it
/// typesets a table. Any other frame has a number, and the first one that has one has number one.
pub proof fn law_labels_follow_the_front_matter(title: Seq<bool>, toc: Seq<bool>, i: int)
    requires
        title.len() == toc.len(),
        title.len() <= usize::MAX,
        0 <= i < title.len(),
    ensures
        labels(title, toc).len() == title.len(),
        labels(title, toc)[i] is Title <==> forall|j: int| 0 <= j <= i ==> #[trigger] title[j],
        labels(title, toc)[i] is Toc <==> toc[i] && !title[i] && forall|j: int|
            0 <= j < i ==> #[trigger] title[j],
        labels(title, toc)[i] is Number && (i == 0 || !(labels(title, toc)[i - 1] is Number))
            ==> labels(title, toc)[i] == FrameLabel::Number(1),
{
    lemma_titles_end(title, 0);
    let end = titles_end(title, 0);
    if end < title.len() {
        assert(!title[end]);
    }
    if forall|j: int| 0 <= j <= i ==> #[trigger] title[j] {
        if end <= i {
            assert(title[end]);
        }
    }
    if !title[i] && (forall|j: int| 0 <= j < i ==> #[trigger] title[j]) {
        if end < i {
            assert(title[end]);
        }
    }
}

/// The frame counter is set so that LaTeX, which counts a frame before it is shown, arrives at the
/// number of the frame. Frames without a number start from zero, and without correct numbers the
/// counter is left alone.
pub proof fn law_counters_arrive_at_the_frame_number(n: usize, label: FrameLabel)
    ensures
        n > 0 ==> counter_setup(FrameLabel::Number(n), true) == "\\setcounter{framenumber}{"@
            + decimal((n - 1) as nat) + "}\n"@,
        counter_setup(FrameLabel::Title, true) == "\\setcounter{framenumber}{"@ + decimal(0)
            + "}\n"@,
        counter_setup(FrameLabel::Toc, true) == counter_setup(FrameLabel::Title, true),
        counter_setup(label, false).len() == 0,
{
    reveal_strlit("");
}

/// Only a table of contents at the front hides its frame number.
pub proof fn law_only_tables_of_contents_hide_their_number(label: FrameLabel)
    ensures
        display_setup(label).len() > 0 <==> label is Toc,
        contains(display_setup(FrameLabel::Toc), "\\def\\insertframenumber{}"@),
{
    reveal_strlit("");
    reveal_strlit("\\makeatletter\n\\def\\insertframenumber{}\n\\setbeamertemplate{page number in head/foot}{}\n\\setbeamertemplate{frame numbering}{}\n\\makeatother\n");
    reveal_strlit("\\def\\insertframenumber{}");
    let text = HIDE_FRAME_NUMBER@;
    let part = "\\def\\insertframenumber{}"@;
    assert(text.subrange(14, 14int + part.len()) =~= part);
    crate::search::lemma_first_match_exists(text, part, 0, 14);
}

/// No two frames of different labels are called the same.
pub proof fn law_labels_are_told_apart(a: FrameLabel, b: FrameLabel)
    requires
        label_text(a) == label_text(b),
    ensures
        a == b,
{
    reveal_strlit("title");
    reveal_strlit("toc");
    assert("title"@[1] == 'i' && "toc"@[1] == 'o');
    match a {
        FrameLabel::Number(n) => {
            law_decimal_round_trip(n as nat, usize::MAX as nat);
            lemma_decimal(n as nat);
            assert(crate::search::ascii_digit(decimal(n as nat)[0]));
            match b {
                FrameLabel::Number(m) => {
                    law_decimal_round_trip(m as nat, usize::MAX as nat);
                },
                _ => {},
            }
        },
        _ => {
            match b {
                FrameLabel::Number(m) => {
                    lemma_decimal(m as nat);
                    assert(crate::search::ascii_digit(decimal(m as nat)[0]));
                },
                _ => {},
            }
        },
    }
}

/// A frame is named by its label, a number with the count of numbers behind it.
pub proof fn law_numbers_are_told_with_their_count(
    labels: Seq<FrameLabel>,
    i: int,
    n: usize,
    count: nat,
)
    ensures
        count > 0 ==> label_status(FrameLabel::Number(n), count) == decimal(n as nat) + "/"@
            + decimal(count),
        label_status(FrameLabel::Number(n), 0) == decimal(n as nat),
        label_status(FrameLabel::Title, count) == "title"@,
        label_status(FrameLabel::Toc, count) == "toc"@,
        0 <= i < labels.len() ==> index_label(labels, i, count) == label_status(labels[i], count),
        i >= labels.len() ==> index_label(labels, i, count) == "raw frame "@ + decimal(
            (i + 1) as nat,
        ),
{
}

proof fn lemma_digits_are_no_word(filter: Seq<char>, word: Seq<char>)
    requires
        filter.len() > 0,
        crate::search::ascii_digit(filter[0]),
        word.len() > 0,
        'a' <= word[0] && word[0] <= 'z',
    ensures
        !same_ignoring_case(filter, word),
{
    if same_ignoring_case(filter, word) {
        assert(crate::search::ascii_lower(filter[0]) == crate::search::ascii_lower(word[0]));
    }
}

/// A number picks the frame that has it and no other one. The words for the front matter, in
/// whatever case, pick the frames of that label.
pub proof fn law_filters_pick_by_label(
    label: FrameLabel,
    content: Seq<char>,
    n: usize,
    filter: Seq<char>,
)
    ensures
        filter_picks(label, content, decimal(n as nat)) <==> label == FrameLabel::Number(n),
        same_ignoring_case(filter, "title"@) ==> (filter_picks(label, content, filter) <==> label
            == FrameLabel::Title),
        same_ignoring_case(filter, "toc"@) ==> (filter_picks(label, content, filter) <==> label
            == FrameLabel::Toc),
        filter_picks(label, content, "title"@) <==> label == FrameLabel::Title,
        filter_picks(label, content, "TOC"@) <==> label == FrameLabel::Toc,
{
    reveal_strlit("title");
    reveal_strlit("toc");
    reveal_strlit("TOC");
    law_decimal_round_trip(n as nat, usize::MAX as nat);
    lemma_decimal(n as nat);
    assert(crate::search::ascii_digit(decimal(n as nat)[0]));
    lemma_digits_are_no_word(decimal(n as nat), "title"@);
    lemma_digits_are_no_word(decimal(n as nat), "toc"@);
    if same_ignoring_case(filter, "toc"@) && same_ignoring_case(filter, "title"@) {
        assert(filter.len() == 3 && filter.len() == 5);
    }
    assert(same_ignoring_case("title"@, "title"@));
    assert(crate::search::ascii_lower('T') == 't');
    assert(crate::search::ascii_lower('O') == 'o');
    assert(crate::search::ascii_lower('C') == 'c');
    assert(same_ignoring_case("TOC"@, "toc"@));
}

/// Any other filter picks the frames in whose text it stands, whatever they are called.
pub proof fn law_other_filters_pick_by_text(
    label: FrameLabel,
    filter: Seq<char>,
    before: Seq<char>,
    behind: Seq<char>,
    content: Seq<char>,
)
    requires
        !same_ignoring_case(filter, "title"@),
        !same_ignoring_case(filter, "toc"@),
        parse_number(filter, usize::MAX as nat) is None,
    ensures
        filter_picks(label, before + filter + behind, filter),
        filter_picks(label, content, filter) <==> exists|at: int|
            0 <= at && at + filter.len() <= content.len() && #[trigger] content.subrange(
                at,
                at + filter.len(),
            ) == filter,
{
    let all = before + filter + behind;
    let n = before.len() as int;
    assert(all.subrange(n, n + filter.len()) =~= filter);
    crate::search::lemma_first_match_exists(all, filter, 0, n);
    crate::search::lemma_first_match(content, filter, 0);
    if exists|at: int|
        0 <= at && at + filter.len() <= content.len() && #[trigger] content.subrange(
            at,
            at + filter.len(),
        ) == filter {
        let at = choose|at: int|
            0 <= at && at + filter.len() <= content.len() && #[trigger] content.subrange(
                at,
                at + filter.len(),
            ) == filter;
        crate::search::lemma_first_match_exists(content, filter, 0, at);
    }
    if filter_picks(label, content, filter) {
        let at = crate::search::first_match(content, filter, 0)->0;
        assert(content.subrange(at, at + filter.len()) == filter);
    }
}

/// One filter is enough: a frame is picked by a list of filters where one of them picks it, and
/// without filters none is.
pub proof fn law_filters_add_up(
    label: FrameLabel,
    content: Seq<char>,
    a: Seq<Seq<char>>,
    b: Seq<Seq<char>>,
    filter: Seq<char>,
)
    ensures
        filters_pick(label, content, a + b) <==> filters_pick(label, content, a) || filters_pick(
            label,
            content,
            b,
        ),
        filters_pick(label, content, seq![filter]) <==> filter_picks(label, content, filter),
        !filters_pick(label, content, Seq::empty()),
{
    let all = a + b;
    if filters_pick(label, content, a) {
        let i = choose|i: int| 0 <= i < a.len() && filter_picks(label, content, #[trigger] a[i]);
        assert(all[i] == a[i]);
    }
    if filters_pick(label, content, b) {
        let i = choose|i: int| 0 <= i < b.len() && filter_picks(label, content, #[trigger] b[i]);
        assert(all[a.len() + i] == b[i]);
    }
    if filters_pick(label, content, all) {
        let i = choose|i: int| 0 <= i < all.len() && filter_picks(label, content, #[trigger] all[i]);
        if i < a.len() {
            assert(all[i] == a[i]);
        } else {
            assert(all[i] == b[i - a.len()]);
        }
    }
    assert(seq![filter][0] == filter);
}

/// What is commented out does not decide what a frame is called, nor whether its table of contents
/// depends on the section. A table of contents that is not commented out does.
pub proof fn law_comments_do_not_label_frames(frame: Seq<char>, at: int)
    ensures
        shows_toc(without_comments(frame)) == shows_toc(frame),
        shows_title(without_comments(frame)) == shows_title(frame),
        shows_dynamic_toc(without_comments(frame)) == shows_dynamic_toc(frame),
        crate::search::matches_at(without_comments(frame), "\\tableofcontents"@, at) ==> shows_toc(
            frame,
        ),
{
    crate::tex::law_comments_are_gone(frame);
    if crate::search::matches_at(without_comments(frame), "\\tableofcontents"@, at) {
        crate::search::lemma_first_match_exists(
            without_comments(frame),
            "\\tableofcontents"@,
            0,
            at,
        );
    }
}

/// A frame is shown in one line by its first line that is not blank, without the space around it,
/// and no more than 160 characters of it.
pub proof fn law_previews_show_the_first_words(frame: Seq<char>, i: int)
    requires
        0 <= i < lines(frame).len(),
        trim(lines(frame)[i]).len() > 0,
        forall|j: int| 0 <= j < i ==> trim(#[trigger] lines(frame)[j]).len() == 0,
    ensures
        trim(lines(frame)[i]).len() <= 160 ==> preview(frame) == trim(lines(frame)[i]),
        trim(lines(frame)[i]).len() > 160 ==> preview(frame).len() == 163 && preview(frame).take(160)
            == trim(lines(frame)[i]).take(160) && preview(frame).skip(160) == "..."@,
{
    lemma_first_words(lines(frame), 0, i);
    reveal_strlit("...");
    let line = trim(lines(frame)[i]);
    if line.len() > 160 {
        assert(preview(frame).take(160) =~= line.take(160));
        assert(preview(frame).skip(160) =~= "..."@);
    }
}

proof fn lemma_first_words(all: Seq<Seq<char>>, from: int, i: int)
    requires
        0 <= from <= i < all.len(),
        trim(all[i]).len() > 0,
        forall|j: int| from <= j < i ==> trim(#[trigger] all[j]).len() == 0,
    ensures
        first_words(all, from) == trim(all[i]),
    decreases i - from,
{
    if from < i {
        assert(trim(all[from]).len() == 0);
        lemma_first_words(all, from + 1, i);
    }
}

/// The counter is one behind the number of a frame, and zero for a frame that has none.
pub proof fn law_counters_are_one_behind(n: usize)
    ensures
        n > 0 ==> counter(FrameLabel::Number(n)) + 1 == n,
        counter(FrameLabel::Title) == 0,
        counter(FrameLabel::Toc) == 0,
{
}

}
