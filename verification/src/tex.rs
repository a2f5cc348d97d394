//! Reading TeX source: comments, braces, and commands at line starts.
use crate::lines::{are_chunks, chunks, chunks_of, concat, law_chunks_of_concat, lemma_chunks};
use crate::search::{ascii_letter, has_prefix, is_letter, starts_with, trim_start, trim_start_index};
use crate::text::{chars_of, is_text, lemma_newlines_concat, newlines, push_all, string_of, views};
use vstd::prelude::*;

verus! {

// ---------------------------------------------------------------------------
// Comments and braces
// ---------------------------------------------------------------------------

/// Whether the character at position `i` is escaped: an odd run of backslashes is in front of it.
pub open spec fn escaped(s: Seq<char>, i: int) -> bool
    decreases i,
{
    0 < i <= s.len() && s[i - 1] == '\\' && !escaped(s, i - 1)
}

/// The position, from `from` on, of the first percent sign that is not escaped, or the end.
pub open spec fn comment_start(s: Seq<char>, from: int) -> int
    decreases s.len() - from,
{
    if 0 <= from < s.len() && !(s[from] == '%' && !escaped(s, from)) {
        comment_start(s, from + 1)
    } else {
        from
    }
}

/// A line up to its comment.
pub open spec fn without_comment(line: Seq<char>) -> Seq<char> {
    line.take(comment_start(line, 0))
}

/// A line up to its comment, with the newline that ends it.
pub open spec fn chunk_without_comment(chunk: Seq<char>) -> Seq<char> {
    if chunk.len() > 0 && chunk.last() == '\n' {
        without_comment(chunk.drop_last()).push('\n')
    } else {
        without_comment(chunk)
    }
}

/// The lines of a text, each without its comment.
pub open spec fn chunks_without_comments(parts: Seq<Seq<char>>) -> Seq<Seq<char>> {
    parts.map_values(|c: Seq<char>| chunk_without_comment(c))
}

/// A text without its comments. The newlines stay.
pub open spec fn without_comments(tex: Seq<char>) -> Seq<char> {
    concat(chunks_without_comments(chunks(tex)))
}

proof fn lemma_comment_start(s: Seq<char>, from: int)
    requires
        0 <= from <= s.len(),
    ensures
        from <= comment_start(s, from) <= s.len(),
        forall|i: int|
            from <= i < comment_start(s, from) ==> !(#[trigger] s[i] == '%' && !escaped(s, i)),
    decreases s.len() - from,
{
    if from < s.len() && !(s[from] == '%' && !escaped(s, from)) {
        lemma_comment_start(s, from + 1);
    }
}

proof fn lemma_escaped_take(s: Seq<char>, n: int, i: int)
    requires
        0 <= i <= n <= s.len(),
    ensures
        escaped(s.take(n), i) == escaped(s, i),
    decreases i,
{
    if i > 0 {
        lemma_escaped_take(s, n, i - 1);
    }
}

proof fn lemma_no_comment(s: Seq<char>, from: int)
    requires
        0 <= from <= s.len(),
        forall|i: int| from <= i < s.len() ==> !(#[trigger] s[i] == '%' && !escaped(s, i)),
    ensures
        comment_start(s, from) == s.len(),
    decreases s.len() - from,
{
    if from < s.len() {
        assert(!(s[from] == '%' && !escaped(s, from)));
        lemma_no_comment(s, from + 1);
    }
}

/// Taking the comment off a line leaves no comment.
pub proof fn law_comment_is_gone(line: Seq<char>)
    ensures
        without_comment(without_comment(line)) == without_comment(line),
{
    lemma_comment_start(line, 0);
    let n = comment_start(line, 0);
    let t = line.take(n);
    assert forall|i: int| 0 <= i < t.len() implies !(#[trigger] t[i] == '%' && !escaped(t, i)) by {
        lemma_escaped_take(line, n, i);
        assert(!(line[i] == '%' && !escaped(line, i)));
    }
    lemma_no_comment(t, 0);
    assert(t.take(t.len() as int) =~= t);
}

/// A chunk without its comment ends as the chunk does and holds no other newline.
proof fn lemma_chunk_without_comment(chunk: Seq<char>)
    requires
        chunk.len() > 0,
        forall|j: int| 0 <= j < chunk.len() - 1 ==> chunk[j] != '\n',
    ensures
        forall|j: int|
            0 <= j < chunk_without_comment(chunk).len() - 1 ==> chunk_without_comment(chunk)[j]
                != '\n',
        chunk.last() == '\n' ==> chunk_without_comment(chunk).len() > 0
            && chunk_without_comment(chunk).last() == '\n',
        chunk.last() != '\n' ==> forall|j: int|
            0 <= j < chunk_without_comment(chunk).len() ==> chunk_without_comment(chunk)[j]
                != '\n',
        chunk_without_comment(chunk_without_comment(chunk)) == chunk_without_comment(chunk),
{
    if chunk.last() == '\n' {
        lemma_comment_start(chunk.drop_last(), 0);
        law_comment_is_gone(chunk.drop_last());
        let body = without_comment(chunk.drop_last());
        assert(body.push('\n').drop_last() =~= body);
    } else {
        lemma_comment_start(chunk, 0);
        law_comment_is_gone(chunk);
        let body = without_comment(chunk);
        assert forall|j: int| 0 <= j < body.len() implies body[j] != '\n' by {
            assert(body[j] == chunk[j]);
        }
        assert(body.len() > 0 ==> body.last() != '\n');
    }
}

proof fn lemma_newlines_none(s: Seq<char>)
    requires
        forall|j: int| 0 <= j < s.len() ==> s[j] != '\n',
    ensures
        newlines(s) == 0,
    decreases s.len(),
{
    if s.len() > 0 {
        lemma_newlines_none(s.drop_last());
    }
}

proof fn lemma_newlines_of_chunk(chunk: Seq<char>)
    requires
        forall|j: int| 0 <= j < chunk.len() - 1 ==> chunk[j] != '\n',
    ensures
        newlines(chunk) == if chunk.len() > 0 && chunk.last() == '\n' {
            1nat
        } else {
            0nat
        },
{
    if chunk.len() > 0 {
        lemma_newlines_none(chunk.drop_last());
    }
}

proof fn lemma_comments_keep_newlines(parts: Seq<Seq<char>>)
    requires
        are_chunks(parts),
    ensures
        newlines(concat(chunks_without_comments(parts))) == newlines(concat(parts)),
    decreases parts.len(),
{
    if parts.len() > 0 {
        let front = parts.drop_last();
        assert(are_chunks(front)) by {
            assert forall|i: int, j: int|
                0 <= i < front.len() && 0 <= j < front[i].len() - 1 implies #[trigger] front[i][j]
                != '\n' by {
                assert(front[i][j] == parts[i][j]);
            }
        }
        lemma_comments_keep_newlines(front);
        let stripped = chunks_without_comments(parts);
        assert(stripped.drop_last() =~= chunks_without_comments(front));
        let last = parts.last();
        assert(parts[parts.len() - 1].len() > 0);
        assert forall|j: int| 0 <= j < last.len() - 1 implies last[j] != '\n' by {
            assert(parts[parts.len() - 1][j] == last[j]);
        }
        lemma_newlines_concat(concat(front), last);
        lemma_newlines_concat(concat(chunks_without_comments(front)), chunk_without_comment(last));
        lemma_chunk_without_comment(last);
        lemma_newlines_of_chunk(last);
        lemma_newlines_of_chunk(chunk_without_comment(last));
    }
}

/// Taking the comments off a text keeps its line structure: what is left of a line stands on the
/// line with the same number.
pub proof fn law_comments_keep_newlines(tex: Seq<char>)
    ensures
        newlines(without_comments(tex)) == newlines(tex),
{
    lemma_chunks(tex);
    lemma_comments_keep_newlines(chunks(tex));
}

/// A text without comments has none to take off.
pub proof fn law_comments_are_gone(tex: Seq<char>)
    ensures
        without_comments(without_comments(tex)) == without_comments(tex),
{
    lemma_chunks(tex);
    let parts = chunks(tex);
    let stripped = chunks_without_comments(parts);
    assert forall|i: int| 0 <= i < parts.len() implies {
        &&& chunk_without_comment(#[trigger] stripped[i]) == stripped[i]
        &&& forall|j: int| 0 <= j < stripped[i].len() - 1 ==> stripped[i][j] != '\n'
        &&& i < parts.len() - 1 ==> stripped[i].len() > 0 && stripped[i].last() == '\n'
    } by {
        assert(parts[i].len() > 0);
        assert forall|j: int| 0 <= j < parts[i].len() - 1 implies parts[i][j] != '\n' by {}
        assert(i < parts.len() - 1 ==> parts[i].last() == '\n');
        lemma_chunk_without_comment(parts[i]);
        assert(stripped[i] == chunk_without_comment(parts[i]));
    }
    let kept = if stripped.len() > 0 && stripped.last().len() == 0 {
        stripped.drop_last()
    } else {
        stripped
    };
    assert(concat(kept) =~= concat(stripped));
    assert(are_chunks(kept)) by {
        assert forall|i: int| 0 <= i < kept.len() implies (#[trigger] kept[i]).len() > 0 by {
            assert(kept[i] == stripped[i]);
        }
        assert forall|i: int, j: int|
            0 <= i < kept.len() && 0 <= j < kept[i].len() - 1 implies #[trigger] kept[i][j]
            != '\n' by {
            assert(kept[i] == stripped[i]);
        }
        assert forall|i: int| 0 <= i < kept.len() - 1 implies (#[trigger] kept[i]).last()
            == '\n' by {
            assert(kept[i] == stripped[i]);
        }
    }
    law_chunks_of_concat(kept);
    assert(chunks_without_comments(kept) =~= kept) by {
        assert forall|i: int| 0 <= i < kept.len() implies chunk_without_comment(
            #[trigger] kept[i],
        ) == kept[i] by {
            assert(kept[i] == stripped[i]);
        }
    }
}

/// Where the comment of a line starts.
fn comment_index(line: &[char]) -> (r: usize)
    ensures
        r <= line@.len(),
        r == comment_start(line@, 0),
{
    let mut is_escaped = false;
    let mut i: usize = 0;
    while i < line.len()
        invariant
            i <= line.len(),
            is_escaped == escaped(line@, i as int),
            comment_start(line@, i as int) == comment_start(line@, 0),
        decreases line.len() - i,
    {
        let c = line[i];
        if c == '%' && !is_escaped {
            return i;
        }
        if c == '\\' {
            is_escaped = !is_escaped;
        } else {
            is_escaped = false;
        }
        i += 1;
    }
    i
}

/// `tex` without its comments.
pub fn strip_tex_comments(tex: &str) -> (r: String)
    ensures
        r@ == without_comments(tex@),
{
    let chars = chars_of(tex);
    let parts = chunks_of(&chars);
    let mut out = String::new();
    let mut i: usize = 0;
    assert(chunks_without_comments(views(parts@)).take(0) =~= Seq::<Seq<char>>::empty());
    while i < parts.len()
        invariant
            i <= parts.len(),
            out@ == concat(chunks_without_comments(views(parts@)).take(i as int)),
        decreases parts.len() - i,
    {
        let part = &parts[i];
        let n = part.len();
        let ghost before = out@;
        if n > 0 && part[n - 1] == '\n' {
            let line = &part[0..n - 1];
            assert(line@ =~= part@.drop_last());
            let end = comment_index(line);
            push_all(&mut out, &line[0..end]);
            out.push('\n');
            assert(line@.subrange(0, end as int) =~= line@.take(end as int));
            assert(out@ =~= before + chunk_without_comment(part@));
        } else {
            let end = comment_index(part);
            push_all(&mut out, &part[0..end]);
            assert(part@.subrange(0, end as int) =~= part@.take(end as int));
            assert(out@ =~= before + chunk_without_comment(part@));
        }
        i += 1;
        let ghost done = chunks_without_comments(views(parts@)).take(i as int);
        assert(done.drop_last() =~= chunks_without_comments(views(parts@)).take(i - 1));
        assert(views(parts@)[i - 1] == part@);
    }
    assert(chunks_without_comments(views(parts@)).take(i as int) =~= chunks_without_comments(
        views(parts@),
    ));
    out
}

/// `line` up to its comment.
pub fn strip_tex_comment_from_line(line: &str) -> (r: String)
    ensures
        r@ == without_comment(line@),
{
    let chars = chars_of(line);
    let end = comment_index(&chars);
    assert(chars@.subrange(0, end as int) =~= line@.take(end as int));
    string_of(&chars[0..end])
}

/// What the character at position `i` adds to the brace balance.
pub open spec fn brace_at(s: Seq<char>, i: int) -> int {
    if escaped(s, i) {
        0
    } else if s[i] == '{' {
        1
    } else if s[i] == '}' {
        -1
    } else {
        0
    }
}

/// The opening braces less the closing ones among the first `n` characters, escaped ones left out.
pub open spec fn brace_balance(s: Seq<char>, n: int) -> int
    decreases n,
{
    if n <= 0 {
        0
    } else {
        brace_balance(s, n - 1) + brace_at(s, n - 1)
    }
}

/// The opening braces less the closing ones of a line.
pub open spec fn delta(line: Seq<char>) -> int {
    brace_balance(line, line.len() as int)
}

/// The opening braces less the closing ones among the characters of a slice.
fn delta_of(line: &[char]) -> (r: i128)
    ensures
        r == delta(line@),
        -(line@.len() as int) <= r <= line@.len(),
{
    let mut is_escaped = false;
    let mut balance: i128 = 0;
    let mut i: usize = 0;
    while i < line.len()
        invariant
            i <= line.len(),
            is_escaped == escaped(line@, i as int),
            balance == brace_balance(line@, i as int),
            -(i as int) <= balance <= i,
        decreases line.len() - i,
    {
        let c = line[i];
        if c == '\\' {
            is_escaped = !is_escaped;
        } else {
            if c == '{' && !is_escaped {
                balance += 1;
            } else if c == '}' && !is_escaped {
                balance -= 1;
            }
            is_escaped = false;
        }
        i += 1;
    }
    balance
}

/// The brace balance of a line up to its comment.
pub open spec fn line_delta(line: Seq<char>) -> int {
    delta(without_comment(line))
}

/// The brace balance of a line up to its comment.
pub(crate) fn delta_of_line(line: &[char]) -> (r: i128)
    ensures
        r == line_delta(line@),
        -(line@.len() as int) <= r <= line@.len(),
{
    let end = comment_index(line);
    let body = &line[0..end];
    assert(body@ =~= without_comment(line@));
    delta_of(body)
}

/// The opening braces less the closing ones of `line`. An escaped brace does not count.
pub fn brace_delta(line: &str) -> (r: i128)
    ensures
        r == delta(line@),
{
    let chars = chars_of(line);
    delta_of(&chars)
}

// ---------------------------------------------------------------------------
// Commands
// ---------------------------------------------------------------------------

/// The end of the run of ASCII letters that starts at `from`.
pub open spec fn letters_end(s: Seq<char>, from: int) -> int
    decreases s.len() - from,
{
    if 0 <= from < s.len() && ascii_letter(s[from]) {
        letters_end(s, from + 1)
    } else {
        from
    }
}

/// The name of the command that a line starts with, behind white space: a backslash and then
/// ASCII letters.
pub open spec fn command_name(line: Seq<char>) -> Option<Seq<char>> {
    let t = trim_start(line);
    if t.len() > 0 && t[0] == '\\' && letters_end(t, 1) > 1 {
        Some(t.subrange(1, letters_end(t, 1)))
    } else {
        None
    }
}

/// The range of the command name at the start of a line.
fn command_range(line: &[char]) -> (r: Option<(usize, usize)>)
    ensures
        match r {
            Some((from, to)) => from <= to <= line@.len() && command_name(line@) == Some(
                line@.subrange(from as int, to as int),
            ),
            None => command_name(line@) is None,
        },
{
    let start = trim_start_index(line);
    let ghost t = trim_start(line@);
    if start >= line.len() || line[start] != '\\' {
        return None;
    }
    assert(t[0] == '\\');
    let from = start + 1;
    let mut to: usize = from;
    while to < line.len() && is_letter(line[to])
        invariant
            from <= to <= line.len(),
            from == start + 1,
            t == line@.skip(start as int),
            letters_end(t, to - start) == letters_end(t, 1),
        decreases line.len() - to,
    {
        assert(t[to - start] == line@[to as int]);
        to += 1;
    }
    assert(to < line.len() ==> t[to - start] == line@[to as int]);
    if to == from {
        None
    } else {
        assert(t.subrange(1, to - start) =~= line@.subrange(from as int, to as int));
        Some((from, to))
    }
}

/// The name of the command that `line` starts with.
pub fn command_name_at_line_start(line: &str) -> (r: Option<String>)
    ensures
        match r {
            Some(name) => command_name(line@) == Some(name@),
            None => command_name(line@) is None,
        },
{
    let chars = chars_of(line);
    match command_range(&chars) {
        Some((from, to)) => Some(string_of(&chars[from..to])),
        None => None,
    }
}

/// Whether the definition or setting of a command is kept as context for later frames.
pub open spec fn context_command(command: Seq<char>) -> bool {
    ||| command == "def"@
    ||| command == "gdef"@
    ||| command == "edef"@
    ||| command == "xdef"@
    ||| command == "let"@
    ||| command == "newcommand"@
    ||| command == "renewcommand"@
    ||| command == "providecommand"@
    ||| command == "newenvironment"@
    ||| command == "renewenvironment"@
    ||| command == "newtheorem"@
    ||| command == "theoremstyle"@
    ||| command == "newlength"@
    ||| command == "setlength"@
    ||| command == "addtolength"@
    ||| command == "settowidth"@
    ||| command == "settoheight"@
    ||| command == "settodepth"@
    ||| command == "newcounter"@
    ||| command == "setcounter"@
    ||| command == "addtocounter"@
    ||| command == "counterwithin"@
    ||| command == "counterwithout"@
    ||| command == "definecolor"@
    ||| command == "colorlet"@
    ||| command == "tikzset"@
    ||| command == "pgfplotsset"@
    ||| command == "hypersetup"@
    ||| command == "lstset"@
    ||| command == "setminted"@
    ||| command == "setbeamertemplate"@
    ||| command == "setbeamercolor"@
    ||| command == "setbeamerfont"@
    ||| command == "makeatletter"@
    ||| command == "makeatother"@
    ||| command == "ExplSyntaxOn"@
    ||| command == "ExplSyntaxOff"@
    ||| starts_with(command, "Declare"@)
    ||| starts_with(command, "New"@)
    ||| starts_with(command, "Renew"@)
    ||| starts_with(command, "Provide"@)
}

/// Whether a command sets what the title page shows.
pub open spec fn title_command(command: Seq<char>) -> bool {
    ||| command == "title"@
    ||| command == "subtitle"@
    ||| command == "author"@
    ||| command == "date"@
    ||| command == "institute"@
}

fn is_context_command(c: &[char]) -> (r: bool)
    ensures
        r == context_command(c@),
{
    is_text(c, "def") || is_text(c, "gdef") || is_text(c, "edef") || is_text(c, "xdef") || is_text(
        c,
        "let",
    ) || is_text(c, "newcommand") || is_text(c, "renewcommand") || is_text(c, "providecommand")
        || is_text(c, "newenvironment") || is_text(c, "renewenvironment") || is_text(
        c,
        "newtheorem",
    ) || is_text(c, "theoremstyle") || is_text(c, "newlength") || is_text(c, "setlength")
        || is_text(c, "addtolength") || is_text(c, "settowidth") || is_text(c, "settoheight")
        || is_text(c, "settodepth") || is_text(c, "newcounter") || is_text(c, "setcounter")
        || is_text(c, "addtocounter") || is_text(c, "counterwithin") || is_text(
        c,
        "counterwithout",
    ) || is_text(c, "definecolor") || is_text(c, "colorlet") || is_text(c, "tikzset") || is_text(
        c,
        "pgfplotsset",
    ) || is_text(c, "hypersetup") || is_text(c, "lstset") || is_text(c, "setminted") || is_text(
        c,
        "setbeamertemplate",
    ) || is_text(c, "setbeamercolor") || is_text(c, "setbeamerfont") || is_text(c, "makeatletter")
        || is_text(c, "makeatother") || is_text(c, "ExplSyntaxOn") || is_text(c, "ExplSyntaxOff")
        || has_prefix(c, "Declare") || has_prefix(c, "New") || has_prefix(c, "Renew")
        || has_prefix(c, "Provide")
}

fn is_title_command(c: &[char]) -> (r: bool)
    ensures
        r == title_command(c@),
{
    is_text(c, "title") || is_text(c, "subtitle") || is_text(c, "author") || is_text(c, "date")
        || is_text(c, "institute")
}

/// Whether the definition or setting of `command` is kept as context for later frames.
pub fn is_document_context_command(command: &str) -> (r: bool)
    ensures
        r == context_command(command@),
{
    let chars = chars_of(command);
    is_context_command(&chars)
}

/// Whether `command` sets what the title page shows.
pub fn is_title_info_command(command: &str) -> (r: bool)
    ensures
        r == title_command(command@),
{
    let chars = chars_of(command);
    is_title_command(&chars)
}

/// Whether a line starts with a command whose definition is kept as context.
pub open spec fn context_line(line: Seq<char>) -> bool {
    command_name(without_comment(line)) matches Some(c) && context_command(c)
}

/// Whether a line starts with a command that sets what the title page shows.
pub open spec fn title_line(line: Seq<char>) -> bool {
    command_name(without_comment(line)) matches Some(c) && title_command(c)
}

pub(crate) fn is_context_line(line: &[char]) -> (r: bool)
    ensures
        r == context_line(line@),
{
    let end = comment_index(line);
    let body = &line[0..end];
    assert(body@ =~= without_comment(line@));
    match command_range(body) {
        Some((from, to)) => is_context_command(&body[from..to]),
        None => false,
    }
}

pub(crate) fn is_title_line(line: &[char]) -> (r: bool)
    ensures
        r == title_line(line@),
{
    let end = comment_index(line);
    let body = &line[0..end];
    assert(body@ =~= without_comment(line@));
    match command_range(body) {
        Some((from, to)) => is_title_command(&body[from..to]),
        None => false,
    }
}

/// The commands that define or set something for later frames: those that define macros,
/// environments, theorems, lengths, counters and colours, those that set up packages and Beamer,
/// and all whose names start as those of the newer interfaces do. No other command is kept.
pub proof fn law_definitions_and_settings_are_context(command: Seq<char>, name: Seq<char>)
    ensures
        context_command("def"@),
        context_command("gdef"@),
        context_command("edef"@),
        context_command("xdef"@),
        context_command("let"@),
        context_command("newcommand"@),
        context_command("renewcommand"@),
        context_command("providecommand"@),
        context_command("newenvironment"@),
        context_command("renewenvironment"@),
        context_command("newtheorem"@),
        context_command("theoremstyle"@),
        context_command("newlength"@),
        context_command("setlength"@),
        context_command("addtolength"@),
        context_command("settowidth"@),
        context_command("settoheight"@),
        context_command("settodepth"@),
        context_command("newcounter"@),
        context_command("setcounter"@),
        context_command("addtocounter"@),
        context_command("counterwithin"@),
        context_command("counterwithout"@),
        context_command("definecolor"@),
        context_command("colorlet"@),
        context_command("tikzset"@),
        context_command("pgfplotsset"@),
        context_command("hypersetup"@),
        context_command("lstset"@),
        context_command("setminted"@),
        context_command("setbeamertemplate"@),
        context_command("setbeamercolor"@),
        context_command("setbeamerfont"@),
        context_command("makeatletter"@),
        context_command("makeatother"@),
        context_command("ExplSyntaxOn"@),
        context_command("ExplSyntaxOff"@),
        context_command("Declare"@ + name),
        context_command("New"@ + name),
        context_command("Renew"@ + name),
        context_command("Provide"@ + name),
        context_command(command) && !starts_with(command, "Declare"@) && !starts_with(
            command,
            "New"@,
        ) && !starts_with(command, "Renew"@) && !starts_with(command, "Provide"@) ==> command == "def"@
            || command == "gdef"@
            || command == "edef"@
            || command == "xdef"@
            || command == "let"@
            || command == "newcommand"@
            || command == "renewcommand"@
            || command == "providecommand"@
            || command == "newenvironment"@
            || command == "renewenvironment"@
            || command == "newtheorem"@
            || command == "theoremstyle"@
            || command == "newlength"@
            || command == "setlength"@
            || command == "addtolength"@
            || command == "settowidth"@
            || command == "settoheight"@
            || command == "settodepth"@
            || command == "newcounter"@
            || command == "setcounter"@
            || command == "addtocounter"@
            || command == "counterwithin"@
            || command == "counterwithout"@
            || command == "definecolor"@
            || command == "colorlet"@
            || command == "tikzset"@
            || command == "pgfplotsset"@
            || command == "hypersetup"@
            || command == "lstset"@
            || command == "setminted"@
            || command == "setbeamertemplate"@
            || command == "setbeamercolor"@
            || command == "setbeamerfont"@
            || command == "makeatletter"@
            || command == "makeatother"@
            || command == "ExplSyntaxOn"@
            || command == "ExplSyntaxOff"@,
{
    assert(("Declare"@ + name).subrange(0, "Declare"@.len() as int) =~= "Declare"@);
    assert(("New"@ + name).subrange(0, "New"@.len() as int) =~= "New"@);
    assert(("Renew"@ + name).subrange(0, "Renew"@.len() as int) =~= "Renew"@);
    assert(("Provide"@ + name).subrange(0, "Provide"@.len() as int) =~= "Provide"@);
}

/// What the title page shows is set by these commands, and by no other.
pub proof fn law_title_page_commands(command: Seq<char>)
    ensures
        title_command("title"@),
        title_command("subtitle"@),
        title_command("author"@),
        title_command("date"@),
        title_command("institute"@),
        title_command(command) ==> command == "title"@ || command == "subtitle"@ || command
            == "author"@ || command == "date"@ || command == "institute"@,
{
}

/// A character is escaped where an odd number of backslashes stands directly in front of it.
pub proof fn law_odd_runs_of_backslashes_escape(s: Seq<char>, i: int, n: int)
    requires
        0 <= n <= i <= s.len(),
        forall|j: int| i - n <= j < i ==> #[trigger] s[j] == '\\',
        n < i ==> s[i - n - 1] != '\\',
    ensures
        escaped(s, i) <==> n % 2 == 1,
    decreases n,
{
    if n > 0 {
        assert(s[i - 1] == '\\');
        law_odd_runs_of_backslashes_escape(s, i - 1, n - 1);
    }
}

/// A comment starts at the first percent sign that is not escaped: what is left of the line is all
/// that stands in front of it, and the whole line where there is none.
pub proof fn law_comments_start_at_the_first_percent_sign(line: Seq<char>, i: int)
    ensures
        0 <= i < line.len() && line[i] == '%' && !escaped(line, i) && (forall|j: int|
            0 <= j < i ==> !(#[trigger] line[j] == '%' && !escaped(line, j))) ==> without_comment(
            line,
        ) == line.take(i),
        (forall|j: int| 0 <= j < line.len() ==> !(#[trigger] line[j] == '%' && !escaped(line, j)))
            ==> without_comment(line) == line,
{
    lemma_comment_start(line, 0);
    let n = comment_start(line, 0);
    if n < line.len() {
        lemma_comment_found(line, 0);
    } else {
        assert(line.take(n) =~= line);
    }
    if 0 <= i < line.len() && line[i] == '%' && !escaped(line, i) {
        if n > i {
            assert(!(line[i] == '%' && !escaped(line, i)));
        }
    }
}

proof fn lemma_comment_found(s: Seq<char>, from: int)
    requires
        0 <= from <= s.len(),
        comment_start(s, from) < s.len(),
    ensures
        s[comment_start(s, from)] == '%',
        !escaped(s, comment_start(s, from)),
    decreases s.len() - from,
{
    if from < s.len() && !(s[from] == '%' && !escaped(s, from)) {
        lemma_comment_found(s, from + 1);
    }
}

/// Braces are counted one by one: an opening brace adds one and a closing brace takes one away
/// unless it is escaped, and any other character changes nothing.
pub proof fn law_braces_are_counted(line: Seq<char>, c: char)
    ensures
        delta(Seq::empty()) == 0,
        delta(line.push(c)) == delta(line) + if escaped(line, line.len() as int) {
            0int
        } else if c == '{' {
            1
        } else if c == '}' {
            -1
        } else {
            0
        },
{
    let n = line.len() as int;
    assert(line.push(c).take(n) =~= line);
    lemma_balance_of_prefix(line.push(c), line, n);
    lemma_escaped_take(line.push(c), n, n);
}

proof fn lemma_balance_of_prefix(s: Seq<char>, t: Seq<char>, n: int)
    requires
        0 <= n <= t.len() <= s.len(),
        s.take(t.len() as int) == t,
    ensures
        brace_balance(s, n) == brace_balance(t, n),
    decreases n,
{
    if n > 0 {
        lemma_balance_of_prefix(s, t, n - 1);
        lemma_escaped_take(s, t.len() as int, n - 1);
        assert(s.take(t.len() as int)[n - 1] == s[n - 1]);
    }
}

/// The command at the start of a line is the run of letters behind a backslash, with nothing but
/// white space in front of it.
pub proof fn law_commands_are_read_at_line_starts(
    space: Seq<char>,
    name: Seq<char>,
    rest: Seq<char>,
)
    requires
        forall|i: int| 0 <= i < space.len() ==> crate::search::whitespace(#[trigger] space[i]),
        forall|i: int| 0 <= i < name.len() ==> ascii_letter(#[trigger] name[i]),
        rest.len() > 0 ==> !ascii_letter(rest[0]),
    ensures
        command_name(space.push('\\') + name + rest) == (if name.len() > 0 {
            Some(name)
        } else {
            None
        }),
{
    let line = space.push('\\') + name + rest;
    lemma_space_skipped(line, 0, space.len() as int);
    let t = trim_start(line);
    assert(t =~= seq!['\\'] + name + rest);
    assert(t[0] == '\\');
    lemma_letters_end(t, 1, 1 + name.len() as int);
    assert(t.subrange(1, 1 + name.len() as int) =~= name);
}

proof fn lemma_space_skipped(s: Seq<char>, from: int, to: int)
    requires
        0 <= from <= to < s.len(),
        forall|i: int| from <= i < to ==> crate::search::whitespace(#[trigger] s[i]),
        !crate::search::whitespace(s[to]),
    ensures
        crate::search::skip_space(s, from) == to,
    decreases to - from,
{
    if from < to {
        assert(crate::search::whitespace(s[from]));
        lemma_space_skipped(s, from + 1, to);
    }
}

proof fn lemma_letters_end(s: Seq<char>, from: int, to: int)
    requires
        0 <= from <= to <= s.len(),
        forall|i: int| from <= i < to ==> ascii_letter(#[trigger] s[i]),
        to < s.len() ==> !ascii_letter(s[to]),
    ensures
        letters_end(s, from) == to,
    decreases to - from,
{
    if from < to {
        assert(ascii_letter(s[from]));
        lemma_letters_end(s, from + 1, to);
    }
}

/// A line that does not start with a backslash behind its white space starts with no command.
pub proof fn law_other_lines_start_with_no_command(space: Seq<char>, rest: Seq<char>)
    requires
        forall|i: int| 0 <= i < space.len() ==> crate::search::whitespace(#[trigger] space[i]),
        rest.len() > 0 ==> rest[0] != '\\' && !crate::search::whitespace(rest[0]),
    ensures
        command_name(space + rest) is None,
{
    let line = space + rest;
    if rest.len() > 0 {
        lemma_space_skipped(line, 0, space.len() as int);
        assert(trim_start(line) =~= rest);
    } else {
        lemma_all_space_skipped(line, 0);
        assert(trim_start(line) =~= Seq::<char>::empty());
    }
}

proof fn lemma_all_space_skipped(s: Seq<char>, from: int)
    requires
        0 <= from <= s.len(),
        forall|i: int| from <= i < s.len() ==> crate::search::whitespace(#[trigger] s[i]),
    ensures
        crate::search::skip_space(s, from) == s.len(),
    decreases s.len() - from,
{
    if from < s.len() {
        assert(crate::search::whitespace(s[from]));
        lemma_all_space_skipped(s, from + 1);
    }
}

/// A line opens a block of context, or of what the title page shows, by the command that it starts
/// with. What is commented out opens none.
pub proof fn law_lines_open_blocks_by_their_command(
    space: Seq<char>,
    name: Seq<char>,
    rest: Seq<char>,
    comment: Seq<char>,
)
    requires
        forall|i: int| 0 <= i < space.len() ==> crate::search::whitespace(#[trigger] space[i]),
        forall|i: int| 0 <= i < name.len() ==> ascii_letter(#[trigger] name[i]),
        name.len() > 0,
        rest.len() > 0 ==> !ascii_letter(rest[0]),
        without_comment(space.push('\\') + name + rest + comment) == space.push('\\') + name + rest,
    ensures
        context_line(space.push('\\') + name + rest + comment) == context_command(name),
        title_line(space.push('\\') + name + rest + comment) == title_command(name),
        !context_line(space + seq!['%'] + name + rest),
        !title_line(space + seq!['%'] + name + rest),
{
    law_commands_are_read_at_line_starts(space, name, rest);
    let hidden = space + seq!['%'] + name + rest;
    let n = space.len() as int;
    assert(hidden[n] == '%');
    if n > 0 {
        assert(hidden[n - 1] == space[n - 1]);
        assert(crate::search::whitespace(space[n - 1]));
    }
    assert(!escaped(hidden, n));
    assert forall|j: int| 0 <= j < n implies !(#[trigger] hidden[j] == '%' && !escaped(hidden, j)) by {
        assert(hidden[j] == space[j]);
        assert(crate::search::whitespace(space[j]));
    }
    law_comments_start_at_the_first_percent_sign(hidden, n);
    assert(hidden.take(n) =~= space + Seq::<char>::empty());
    law_other_lines_start_with_no_command(space, Seq::empty());
}

}
