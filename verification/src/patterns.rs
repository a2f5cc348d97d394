//! The regular expressions that LaTeX sources and logs are searched with.
use crate::search::contains;
use crate::text::{char_index, is_boundary, lemma_char_index_order, position_of, string_of};
use vstd::prelude::*;

verus! {

/// A frame: a `frame` environment, or a command that typesets a page of its own.
pub const FRAME_PATTERN: &'static str = r"(?ms)^[ \t]*\\begin\{frame\}.*?^[ \t]*\\end\{frame\}|^[ \t]*\\sectiontitlepage\{[^{}]*(?:\{[^{}]*\}[^{}]*)*\}\{[^{}]*(?:\{[^{}]*\}[^{}]*)*\}|^[ \t]*\\titlepage\b|^[ \t]*\\includepdf\b(?:[ \t]*\[[^\]]*\])?[ \t]*\{[^{}]*\}";

/// A line that starts a section. The first group is its title.
pub const SECTION_LINE_PATTERN: &'static str = r"(?x)
        ^[ \t]*
        \\section
        (?:\s*\[[^\]]*\])?
        \s*\{(?P<title>[^}]*)\}
    ";

/// A line that starts the appendix.
pub const APPENDIX_LINE_PATTERN: &'static str = r"^[ \t]*\\appendix\b";

/// A table of contents.
pub const TOC_PATTERN: &'static str = r"\\tableofcontents(?:\s*\[[^\]]*\])?";

/// A title page.
pub const TITLE_PAGE_PATTERN: &'static str = r"\\(?:titlepage|maketitle)\b";

/// A table of contents that depends on the section it stands in.
pub const DYNAMIC_TOC_OPTION_PATTERN: &'static str = r"\\tableofcontents\s*\[[^\]]*(?:currentsection|currentsubsection)[^\]]*\]";

/// A command that names a file. The first group is the command, the second one the path.
pub const RELATED_FILE_PATTERN: &'static str = r"(?sx)
        \\(?P<command>includegraphics|includepdf|input|include)
        (?:\s*\[[^\]]*\])?
        \s*\{
            (?P<path>[^}]*)
        \}
    ";

/// A command that sets where graphics are looked for. The first group is the list of places.
pub const GRAPHICSPATH_PATTERN: &'static str = r"(?sx)
        \\graphicspath
        \s*\{
            (?P<paths>(?:\s*\{[^}]*\}\s*)+)
        \}
    ";

/// One of the places where graphics are looked for. The first group is the path.
pub const GRAPHICSPATH_ENTRY_PATTERN: &'static str = r"\{(?P<path>[^}]*)\}";

/// A line number in a log. The first group is the number.
pub const TEX_LOG_LINE_PATTERN: &'static str = r"\bl\.(?P<line>\d+)\b";

/// Whether a pattern is one of those above.
pub open spec fn known_pattern(pattern: Seq<char>) -> bool {
    ||| pattern == FRAME_PATTERN@
    ||| pattern == SECTION_LINE_PATTERN@
    ||| pattern == APPENDIX_LINE_PATTERN@
    ||| pattern == TOC_PATTERN@
    ||| pattern == TITLE_PAGE_PATTERN@
    ||| pattern == DYNAMIC_TOC_OPTION_PATTERN@
    ||| pattern == RELATED_FILE_PATTERN@
    ||| pattern == GRAPHICSPATH_PATTERN@
    ||| pattern == GRAPHICSPATH_ENTRY_PATTERN@
    ||| pattern == TEX_LOG_LINE_PATTERN@
}

/// Whether a pattern is one of those with a group.
pub open spec fn grouped_pattern(pattern: Seq<char>) -> bool {
    ||| pattern == SECTION_LINE_PATTERN@
    ||| pattern == RELATED_FILE_PATTERN@
    ||| pattern == GRAPHICSPATH_PATTERN@
    ||| pattern == GRAPHICSPATH_ENTRY_PATTERN@
    ||| pattern == TEX_LOG_LINE_PATTERN@
}

/// Where the groups of one match are, as byte offsets. The first one is the whole match.
pub type Groups = Seq<Option<(usize, usize)>>;

/// What `regex::Regex::is_match` says of a pattern and a text.
pub uninterp spec fn regex_is_match(pattern: Seq<char>, text: Seq<char>) -> bool;

/// The matches that `regex::Regex::captures_iter` finds, each with its groups.
pub uninterp spec fn regex_captures(pattern: Seq<char>, text: Seq<char>) -> Seq<Seq<Option<(usize, usize)>>>;

/// What matches hold.
pub open spec fn capture_views(v: Seq<Vec<Option<(usize, usize)>>>) -> Seq<Groups> {
    v.map_values(|groups: Vec<Option<(usize, usize)>>| groups@)
}

/// Whether a group is a piece of a text.
pub open spec fn span_fits(span: Option<(usize, usize)>, text: Seq<char>) -> bool {
    match span {
        Some((start, end)) => {
            &&& start <= end
            &&& is_boundary(text, start as int)
            &&& is_boundary(text, end as int)
        },
        None => true,
    }
}

/// Whether matches are pieces of a text, one behind the other.
pub open spec fn captures_fit(found: Seq<Groups>, text: Seq<char>) -> bool {
    &&& forall|i: int| 0 <= i < found.len() ==> (#[trigger] found[i]).len() > 0 && found[i][0] is Some
    &&& forall|i: int, g: int|
        0 <= i < found.len() && 0 <= g < found[i].len() ==> span_fits(#[trigger] found[i][g], text)
    &&& forall|i: int, j: int|
        0 <= i < j < found.len() ==> ((#[trigger] found[i])[0]->0).1 <= ((#[trigger] found[j])[0]->0).0
}

/// Calls `regex::Regex::is_match` with one of the patterns above, all of which can be compiled. The
/// pattern for a table of contents matches wherever its command stands: what may follow the
/// command is optional.
#[verifier::external_body]
fn call_is_match(pattern: &str, text: &str) -> (r: bool)
    requires
        known_pattern(pattern@),
    ensures
        r == regex_is_match(pattern@, text@),
        pattern@ == TOC_PATTERN@ ==> r == contains(text@, "\\tableofcontents"@),
{
    regex::Regex::new(pattern).unwrap().is_match(text)
}

/// Calls `regex::Regex::captures_iter` with one of the patterns above, all of which can be
/// compiled, and hands out where the groups of each match are. The matches do not overlap and
/// come in their order, the whole of a match is always among its groups, and groups start and
/// end between characters of the text. A pattern with a named group has at least one group
/// besides the whole, and the one that names files has two.
#[verifier::external_body]
fn call_captures_iter(pattern: &str, text: &str) -> (r: Vec<Vec<Option<(usize, usize)>>>)
    requires
        known_pattern(pattern@),
    ensures
        capture_views(r@) == regex_captures(pattern@, text@),
        captures_fit(capture_views(r@), text@),
        grouped_pattern(pattern@) ==> forall|i: int|
            0 <= i < r@.len() ==> (#[trigger] r@[i])@.len() > 1,
        pattern@ == RELATED_FILE_PATTERN@ ==> forall|i: int|
            0 <= i < r@.len() ==> (#[trigger] r@[i])@.len() > 2,
{
    let regex = regex::Regex::new(pattern).unwrap();
    regex
        .captures_iter(text)
        .map(|found| found.iter().map(|group| group.map(|m| (m.start(), m.end()))).collect())
        .collect()
}

/// Whether `text` holds a match of `pattern`.
pub fn matches_pattern(pattern: &str, text: &str) -> (r: bool)
    requires
        known_pattern(pattern@),
    ensures
        r == regex_is_match(pattern@, text@),
        pattern@ == TOC_PATTERN@ ==> r == contains(text@, "\\tableofcontents"@),
{
    call_is_match(pattern, text)
}

/// The matches of `pattern` in `text`.
pub fn find_captures(pattern: &str, text: &str) -> (r: Vec<Vec<Option<(usize, usize)>>>)
    requires
        known_pattern(pattern@),
    ensures
        capture_views(r@) == regex_captures(pattern@, text@),
        captures_fit(capture_views(r@), text@),
        grouped_pattern(pattern@) ==> forall|i: int|
            0 <= i < r@.len() ==> (#[trigger] r@[i])@.len() > 1,
        pattern@ == RELATED_FILE_PATTERN@ ==> forall|i: int|
            0 <= i < r@.len() ==> (#[trigger] r@[i])@.len() > 2,
{
    call_captures_iter(pattern, text)
}

/// The piece of a text between two byte offsets.
pub open spec fn piece(text: Seq<char>, start: int, end: int) -> Seq<char> {
    text.subrange(char_index(text, start), char_index(text, end))
}

/// The text of a group. A group that takes no part in the match has none.
pub open spec fn group_text(text: Seq<char>, span: Option<(usize, usize)>) -> Seq<char> {
    match span {
        Some((start, end)) => piece(text, start as int, end as int),
        None => ""@,
    }
}

/// The text of a group.
pub fn read_group(text: &[char], span: Option<(usize, usize)>) -> (r: String)
    requires
        span_fits(span, text@),
    ensures
        r@ == group_text(text@, span),
{
    match span {
        Some((start, end)) => read_piece(text, start, end),
        None => crate::text::owned(""),
    }
}

/// The piece of a text between two byte offsets.
pub fn read_piece(text: &[char], start: usize, end: usize) -> (r: String)
    requires
        start <= end,
        is_boundary(text@, start as int),
        is_boundary(text@, end as int),
    ensures
        r@ == piece(text@, start as int, end as int),
{
    let from = position_of(text, start);
    let to = position_of(text, end);
    proof {
        lemma_char_index_order(text@, start as int, end as int);
    }
    let part = &text[from..to];
    string_of(part)
}

/// What the patterns look for, letter by letter. What a frame, a section, a title page, a table of
/// contents or a command that names a file is, is said by these texts alone.
pub proof fn law_patterns_are_fixed()
    ensures
        FRAME_PATTERN@ == r"(?ms)^[ \t]*\\begin\{frame\}.*?^[ \t]*\\end\{frame\}|^[ \t]*\\sectiontitlepage\{[^{}]*(?:\{[^{}]*\}[^{}]*)*\}\{[^{}]*(?:\{[^{}]*\}[^{}]*)*\}|^[ \t]*\\titlepage\b|^[ \t]*\\includepdf\b(?:[ \t]*\[[^\]]*\])?[ \t]*\{[^{}]*\}"@,
        SECTION_LINE_PATTERN@ == r"(?x)
        ^[ \t]*
        \\section
        (?:\s*\[[^\]]*\])?
        \s*\{(?P<title>[^}]*)\}
    "@,
        APPENDIX_LINE_PATTERN@ == r"^[ \t]*\\appendix\b"@,
        TOC_PATTERN@ == r"\\tableofcontents(?:\s*\[[^\]]*\])?"@,
        TITLE_PAGE_PATTERN@ == r"\\(?:titlepage|maketitle)\b"@,
        DYNAMIC_TOC_OPTION_PATTERN@ == r"\\tableofcontents\s*\[[^\]]*(?:currentsection|currentsubsection)[^\]]*\]"@,
        RELATED_FILE_PATTERN@ == r"(?sx)
        \\(?P<command>includegraphics|includepdf|input|include)
        (?:\s*\[[^\]]*\])?
        \s*\{
            (?P<path>[^}]*)
        \}
    "@,
        GRAPHICSPATH_PATTERN@ == r"(?sx)
        \\graphicspath
        \s*\{
            (?P<paths>(?:\s*\{[^}]*\}\s*)+)
        \}
    "@,
        GRAPHICSPATH_ENTRY_PATTERN@ == r"\{(?P<path>[^}]*)\}"@,
        TEX_LOG_LINE_PATTERN@ == r"\bl\.(?P<line>\d+)\b"@,
{
}

}
