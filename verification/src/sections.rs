//! Sections of a document, and tables of contents for frames that are typeset alone.
use crate::frames::{
    frame_contains_table_of_contents, shows_dynamic_toc, shows_toc,
    table_of_contents_uses_dynamic_section_context,
};
use crate::lines::{concat, line_strings, lines};
use crate::numbers::{decimal, push_decimal};
use crate::paths::{file_name, joined, parsed, path_views, with_extension, FilePath, PathView};
use crate::patterns::{
    capture_views, find_captures, group_text, matches_pattern, read_group, regex_captures,
    regex_is_match, span_fits, APPENDIX_LINE_PATTERN, SECTION_LINE_PATTERN,
};
use crate::search::{trim, trimmed};
use crate::tex::{strip_tex_comments, without_comments};
use crate::text::{chars_of, owned, string_of, texts};
use vstd::prelude::*;

verus! {

/// A section of the source.
#[derive(Clone, Debug, PartialEq, Eq)]
pub struct SourceSection {
    pub line_number: u128,
    pub number: u128,
    pub title: String,
    pub is_appendix: bool,
}

/// What a section holds.
#[verifier::ext_equal]
pub struct SectionView {
    pub line_number: nat,
    pub number: nat,
    pub title: Seq<char>,
    pub is_appendix: bool,
}

impl View for SourceSection {
    type V = SectionView;

    open spec fn view(&self) -> SectionView {
        SectionView {
            line_number: self.line_number as nat,
            number: self.number as nat,
            title: self.title@,
            is_appendix: self.is_appendix,
        }
    }
}

/// What sections hold.
pub open spec fn section_views(v: Seq<SourceSection>) -> Seq<SectionView> {
    v.map_values(|s: SourceSection| s@)
}

/// Whether the line at `i` is in the appendix: one of the lines up to it starts it.
pub open spec fn in_appendix(appendix: Seq<bool>, i: int) -> bool {
    exists|j: int| 0 <= j <= i && j < appendix.len() && #[trigger] appendix[j]
}

/// The sections of the first lines, where it is known which lines start the appendix, and which
/// start a section of what title.
pub open spec fn sections_of(
    appendix: Seq<bool>,
    titles: Seq<Option<Seq<char>>>,
    n: int,
) -> Seq<SectionView>
    decreases n,
{
    if n <= 0 {
        Seq::empty()
    } else {
        let before = sections_of(appendix, titles, n - 1);
        match titles[n - 1] {
            Some(title) => before.push(
                SectionView {
                    line_number: n as nat,
                    number: before.len() + 1,
                    title,
                    is_appendix: in_appendix(appendix, n - 1),
                },
            ),
            None => before,
        }
    }
}

/// What titles hold.
pub open spec fn title_views(v: Seq<Option<String>>) -> Seq<Option<Seq<char>>> {
    v.map_values(
        |t: Option<String>|
            match t {
                Some(s) => Some(s@),
                None => None,
            },
    )
}

/// The sections, where it is known for each line whether it starts the appendix, and whether it
/// starts a section of what title.
pub fn number_sections(appendix: &[bool], titles: Vec<Option<String>>) -> (r: Vec<SourceSection>)
    requires
        appendix@.len() == titles@.len(),
    ensures
        section_views(r@) == sections_of(appendix@, title_views(titles@), titles@.len() as int),
{
    let ghost all = title_views(titles@);
    let mut out: Vec<SourceSection> = Vec::new();
    let mut is_appendix = false;
    let mut i: usize = 0;
    assert(section_views(out@) =~= Seq::<SectionView>::empty());
    while i < titles.len()
        invariant
            i <= titles.len(),
            appendix@.len() == titles@.len(),
            all == title_views(titles@),
            is_appendix == in_appendix(appendix@, i - 1),
            section_views(out@) == sections_of(appendix@, all, i as int),
        decreases titles.len() - i,
    {
        let ghost before = is_appendix;
        if appendix[i] {
            is_appendix = true;
            assert(appendix@[i as int]);
        }
        assert(is_appendix == in_appendix(appendix@, i as int)) by {
            if before {
                let j = choose|j: int| 0 <= j <= i - 1 && j < appendix@.len() && #[trigger] appendix@[j];
                assert(appendix@[j]);
            }
        }
        assert(all[i as int] == match titles@[i as int] {
            Some(s) => Some(s@),
            None => None,
        });
        if let Some(title) = &titles[i] {
            let ghost items = out@;
            let section = SourceSection {
                line_number: i as u128 + 1,
                number: out.len() as u128 + 1,
                title: owned(title.as_str()),
                is_appendix,
            };
            let ghost view = section@;
            out.push(section);
            assert(section_views(out@) =~= section_views(items).push(view));
        }
        i += 1;
    }
    out
}

/// The title of the section that a line starts.
pub open spec fn section_title(line: Seq<char>) -> Option<Seq<char>> {
    let found = regex_captures(SECTION_LINE_PATTERN@, line);
    if found.len() > 0 {
        Some(trim(group_text(line, found[0][1])))
    } else {
        None
    }
}

/// The title of the section that `line` starts.
pub fn read_section_title(line: &str) -> (r: Option<String>)
    ensures
        match r {
            Some(title) => section_title(line@) == Some(title@),
            None => section_title(line@) is None,
        },
{
    let found = find_captures(SECTION_LINE_PATTERN, line);
    let ghost all = capture_views(found@);
    if found.len() == 0 {
        return None;
    }
    assert(all[0] == found@[0]@);
    assert(span_fits(all[0][1], line@));
    let chars = chars_of(line);
    let text = read_group(&chars, found[0][1]);
    let title = trimmed(&chars_of(text.as_str()));
    Some(string_of(&title))
}

/// Which lines start the appendix.
pub open spec fn appendix_flags(all: Seq<Seq<char>>) -> Seq<bool> {
    all.map_values(|line: Seq<char>| regex_is_match(APPENDIX_LINE_PATTERN@, line))
}

/// Which lines start a section, and of what title.
pub open spec fn section_titles(all: Seq<Seq<char>>) -> Seq<Option<Seq<char>>> {
    all.map_values(|line: Seq<char>| section_title(line))
}

/// The sections of a source. What is commented out does not count.
pub open spec fn sections(source: Seq<char>) -> Seq<SectionView> {
    let all = lines(without_comments(source));
    sections_of(appendix_flags(all), section_titles(all), all.len() as int)
}

/// The sections of a source.
pub fn document_sections(source_content: &str) -> (r: Vec<SourceSection>)
    ensures
        section_views(r@) == sections(source_content@),
{
    let stripped = strip_tex_comments(source_content);
    let all = line_strings(stripped.as_str());
    let ghost lines = texts(all@);
    let ghost flags = appendix_flags(lines);
    let ghost names = section_titles(lines);
    let mut appendix: Vec<bool> = Vec::new();
    let mut titles: Vec<Option<String>> = Vec::new();
    let mut i: usize = 0;
    assert(title_views(titles@) =~= names.take(0));
    while i < all.len()
        invariant
            i <= all.len(),
            lines == texts(all@),
            flags == appendix_flags(lines),
            names == section_titles(lines),
            appendix@ == flags.take(i as int),
            titles@.len() == i,
            title_views(titles@) == names.take(i as int),
        decreases all.len() - i,
    {
        let line = all[i].as_str();
        assert(lines[i as int] == line@);
        let ghost before = titles@;
        appendix.push(matches_pattern(APPENDIX_LINE_PATTERN, line));
        let title = read_section_title(line);
        titles.push(title);
        i += 1;
        assert(flags.take(i as int) =~= flags.take(i - 1).push(flags[i - 1]));
        assert(title_views(titles@) =~= title_views(before).push(names[i - 1]));
        assert(names.take(i as int) =~= names.take(i - 1).push(names[i - 1]));
    }
    assert(flags.take(i as int) =~= flags);
    assert(names.take(i as int) =~= names);
    number_sections(&appendix, titles)
}

/// Sections are numbered from one on in the order of their lines.
pub proof fn law_sections_are_numbered_in_order(
    appendix: Seq<bool>,
    titles: Seq<Option<Seq<char>>>,
    n: int,
    i: int,
)
    requires
        0 <= n <= titles.len(),
        0 <= i < sections_of(appendix, titles, n).len(),
    ensures
        sections_of(appendix, titles, n)[i].number == i + 1,
        1 <= sections_of(appendix, titles, n)[i].line_number <= n,
        i > 0 ==> sections_of(appendix, titles, n)[i - 1].line_number < sections_of(
            appendix,
            titles,
            n,
        )[i].line_number,
        i > 0 && sections_of(appendix, titles, n)[i - 1].is_appendix ==> sections_of(
            appendix,
            titles,
            n,
        )[i].is_appendix,
    decreases n,
{
    let before = sections_of(appendix, titles, n - 1);
    if i < before.len() {
        law_sections_are_numbered_in_order(appendix, titles, n - 1, i);
    } else if i > 0 {
        law_sections_are_numbered_in_order(appendix, titles, n - 1, i - 1);
        lemma_appendix_flag(appendix, titles, n - 1, i - 1);
        if before[i - 1].is_appendix {
            let line = before[i - 1].line_number - 1;
            let j = choose|j: int| 0 <= j <= line && j < appendix.len() && #[trigger] appendix[j];
            assert(appendix[j]);
        }
    }
}

proof fn lemma_appendix_flag(
    appendix: Seq<bool>,
    titles: Seq<Option<Seq<char>>>,
    n: int,
    i: int,
)
    requires
        0 <= n <= titles.len(),
        0 <= i < sections_of(appendix, titles, n).len(),
    ensures
        ({
            let section = sections_of(appendix, titles, n)[i];
            section.is_appendix == in_appendix(appendix, section.line_number - 1)
        }),
    decreases n,
{
    if i < sections_of(appendix, titles, n - 1).len() {
        lemma_appendix_flag(appendix, titles, n - 1, i);
    }
}

/// The number of the last section that starts in front of a line, or zero.
pub open spec fn section_before(all: Seq<SectionView>, line: nat) -> nat
    decreases all.len(),
{
    if all.len() == 0 {
        0
    } else if all.last().line_number < line {
        all.last().number
    } else {
        section_before(all.drop_last(), line)
    }
}

/// The number of the last section that starts in front of a line, or zero.
pub fn current_section_number(sections: &[SourceSection], frame_start_line: u128) -> (r: u128)
    ensures
        r == section_before(section_views(sections@), frame_start_line as nat),
{
    let ghost all = section_views(sections@);
    let mut i: usize = sections.len();
    assert(all.take(i as int) =~= all);
    while i > 0
        invariant
            i <= sections.len(),
            all == section_views(sections@),
            section_before(all.take(i as int), frame_start_line as nat) == section_before(
                all,
                frame_start_line as nat,
            ),
        decreases i,
    {
        assert(all.take(i as int).last() == sections@[i - 1]@);
        assert(all.take(i as int).drop_last() =~= all.take(i - 1));
        if sections[i - 1].line_number < frame_start_line {
            return sections[i - 1].number;
        }
        i -= 1;
    }
    0
}

/// The entry for a section in a table of contents.
pub open spec fn toc_entry(s: SectionView) -> Seq<char> {
    "\\beamer@sectionintoc {"@ + decimal(s.number) + "}{"@ + s.title + "}{"@ + decimal(s.number)
        + "}{"@ + (if s.is_appendix {
        "1"@
    } else {
        "0"@
    }) + "}{"@ + decimal(s.number) + "}\n"@
}

/// A table of contents for sections.
pub open spec fn toc_content(all: Seq<SectionView>) -> Seq<char> {
    concat(all.map_values(|s: SectionView| toc_entry(s)))
}

/// A table of contents for `sections`.
pub fn synthetic_toc_content(sections: &[SourceSection]) -> (r: String)
    ensures
        r@ == toc_content(section_views(sections@)),
{
    let ghost all = section_views(sections@).map_values(|s: SectionView| toc_entry(s));
    let mut out = String::new();
    let mut i: usize = 0;
    assert(all.take(0) =~= Seq::<Seq<char>>::empty());
    while i < sections.len()
        invariant
            i <= sections.len(),
            all == section_views(sections@).map_values(|s: SectionView| toc_entry(s)),
            out@ == concat(all.take(i as int)),
        decreases sections.len() - i,
    {
        let section = &sections[i];
        let ghost before = out@;
        out.push_str("\\beamer@sectionintoc {");
        push_decimal(&mut out, section.number);
        out.push_str("}{");
        out.push_str(section.title.as_str());
        out.push_str("}{");
        push_decimal(&mut out, section.number);
        out.push_str("}{");
        if section.is_appendix {
            out.push_str("1");
        } else {
            out.push_str("0");
        }
        out.push_str("}{");
        push_decimal(&mut out, section.number);
        out.push_str("}\n");
        assert(out@ =~= before + toc_entry(section@));
        i += 1;
        assert(all.take(i as int).drop_last() =~= all.take(i - 1));
        assert(all.take(i as int).last() == toc_entry(section@));
    }
    assert(all.take(i as int) =~= all);
    out
}

// ---------------------------------------------------------------------------
// Tables of contents for single frames
// ---------------------------------------------------------------------------

/// A file that is written next to a generated document.
#[derive(Clone, Debug)]
pub struct GeneratedSupportFile {
    pub extension: &'static str,
    pub content: String,
}

/// What a file next to a generated document holds.
pub open spec fn support_views(v: Seq<GeneratedSupportFile>) -> Seq<(Seq<char>, Seq<char>)> {
    v.map_values(|f: GeneratedSupportFile| (f.extension@, f.content@))
}

/// What a frame with a table of contents needs to be typeset alone.
#[derive(Clone, Debug)]
pub struct TocFramePatch {
    pub runtime_setup: String,
    pub support_files: Vec<GeneratedSupportFile>,
    pub additional_dependencies: Vec<FilePath>,
}

/// How a frame with a table of contents can be typeset alone.
#[derive(Clone, Debug)]
pub enum TocFrameSupport {
    NotNeeded,
    Supported(TocFramePatch),
    UnsupportedDynamic,
}

/// What a patch holds.
#[verifier::ext_equal]
pub struct TocPatchView {
    pub runtime_setup: Seq<char>,
    pub support_files: Seq<(Seq<char>, Seq<char>)>,
    pub additional_dependencies: Seq<PathView>,
}

/// How a frame with a table of contents can be typeset alone.
pub enum TocSupportView {
    NotNeeded,
    Supported(TocPatchView),
    UnsupportedDynamic,
}

impl View for TocFrameSupport {
    type V = TocSupportView;

    open spec fn view(&self) -> TocSupportView {
        match self {
            TocFrameSupport::NotNeeded => TocSupportView::NotNeeded,
            TocFrameSupport::Supported(p) => TocSupportView::Supported(
                TocPatchView {
                    runtime_setup: p.runtime_setup@,
                    support_files: support_views(p.support_files@),
                    additional_dependencies: path_views(p.additional_dependencies@),
                },
            ),
            TocFrameSupport::UnsupportedDynamic => TocSupportView::UnsupportedDynamic,
        }
    }
}

/// Where the table of contents of a full build of the document would be.
pub open spec fn source_toc(input_dir: PathView, name: Seq<char>) -> PathView {
    joined(input_dir, with_extension(parsed(input_dir.style, name), "toc"@))
}

/// Where the table of contents of a full build of the document would be.
pub fn source_toc_path(input_dir: &FilePath, input_path: &FilePath) -> (r: FilePath)
    requires
        file_name(input_path@) is Some,
    ensures
        r@ == source_toc(input_dir@, file_name(input_path@)->0),
{
    match input_path.file_name() {
        Some(name) => {
            let toc = FilePath::parse_as(name, input_dir.style).with_extension("toc");
            input_dir.join(&toc)
        },
        None => input_dir.copy(),
    }
}

/// How a frame is typeset alone. `has_toc` and `dynamic` say whether it shows a table of contents
/// and whether that depends on the section. The table is taken from a full build where there is
/// one, and made up from the sections where not.
pub open spec fn toc_support(
    has_toc: bool,
    dynamic: bool,
    start_line: nat,
    begin_line: nat,
    toc_path: PathView,
    toc_file: Option<Seq<char>>,
    all: Seq<SectionView>,
) -> TocSupportView {
    if !has_toc {
        TocSupportView::NotNeeded
    } else if start_line < begin_line && dynamic {
        TocSupportView::UnsupportedDynamic
    } else {
        TocSupportView::Supported(
            TocPatchView {
                runtime_setup: "\\setcounter{section}{"@ + decimal(
                    if dynamic {
                        section_before(all, start_line)
                    } else {
                        0
                    },
                ) + "}\n\\setcounter{subsection}{0}\n"@,
                support_files: seq![
                    (
                        "toc"@,
                        match toc_file {
                            Some(text) => text,
                            None => toc_content(all),
                        },
                    ),
                ],
                additional_dependencies: match toc_file {
                    Some(_) => seq![toc_path],
                    None => Seq::empty(),
                },
            },
        )
    }
}

/// How a frame is typeset alone, where it is known whether it shows a table of contents and
/// whether that depends on the section. `toc_file` is the content of the file at `toc_path`, where
/// it can be read.
pub fn patch_toc_frame(
    has_toc: bool,
    dynamic: bool,
    source_frame_start_line: u128,
    document_begin_line: u128,
    toc_path: &FilePath,
    toc_file: Option<&str>,
    sections: &[SourceSection],
) -> (r: TocFrameSupport)
    ensures
        r@ == toc_support(
            has_toc,
            dynamic,
            source_frame_start_line as nat,
            document_begin_line as nat,
            toc_path@,
            crate::text::optional_text(toc_file),
            section_views(sections@),
        ),
{
    if !has_toc {
        return TocFrameSupport::NotNeeded;
    }
    if source_frame_start_line < document_begin_line && dynamic {
        return TocFrameSupport::UnsupportedDynamic;
    }
    let mut dependencies: Vec<FilePath> = Vec::new();
    let content = match toc_file {
        Some(text) => {
            dependencies.push(toc_path.copy());
            owned(text)
        },
        None => synthetic_toc_content(sections),
    };
    let current_section: u128 = if dynamic {
        current_section_number(sections, source_frame_start_line)
    } else {
        0
    };
    let mut setup = owned("\\setcounter{section}{");
    push_decimal(&mut setup, current_section);
    setup.push_str("}\n\\setcounter{subsection}{0}\n");
    let support_files: Vec<GeneratedSupportFile> = vec![
        GeneratedSupportFile { extension: "toc", content },
    ];
    let ghost view = match toc_file {
        Some(text) => seq![toc_path@],
        None => Seq::<PathView>::empty(),
    };
    assert(path_views(dependencies@) =~= view);
    assert(support_views(support_files@) =~= seq![("toc"@, content@)]);
    TocFrameSupport::Supported(
        TocFramePatch {
            runtime_setup: setup,
            support_files,
            additional_dependencies: dependencies,
        },
    )
}

/// How `frame` is typeset alone. `toc_file` is what a full build of the document left at
/// `source_toc_path`, where it can be read. The path of the document matters only where a table of
/// contents is made.
pub fn toc_frame_patch(
    frame: &str,
    source_frame_start_line: u128,
    document_begin_line: u128,
    input_dir: &FilePath,
    input_path: &FilePath,
    toc_file: Option<&str>,
    sections: &[SourceSection],
) -> (r: TocFrameSupport)
    requires
        shows_toc(frame@) && !(source_frame_start_line < document_begin_line && shows_dynamic_toc(
            frame@,
        )) ==> file_name(input_path@) is Some,
    ensures
        r@ == toc_support(
            shows_toc(frame@),
            shows_dynamic_toc(frame@),
            source_frame_start_line as nat,
            document_begin_line as nat,
            source_toc(input_dir@, file_name(input_path@)->0),
            crate::text::optional_text(toc_file),
            section_views(sections@),
        ),
{
    let has_toc = frame_contains_table_of_contents(frame);
    let dynamic = table_of_contents_uses_dynamic_section_context(frame);
    if !has_toc {
        return TocFrameSupport::NotNeeded;
    }
    if source_frame_start_line < document_begin_line && dynamic {
        return TocFrameSupport::UnsupportedDynamic;
    }
    let toc_path = source_toc_path(input_dir, input_path);
    patch_toc_frame(
        has_toc,
        dynamic,
        source_frame_start_line,
        document_begin_line,
        &toc_path,
        toc_file,
        sections,
    )
}

/// The current section of a line is the last one that starts in front of it, whichever others
/// there are, and none where no section starts in front of it.
pub proof fn law_current_section_is_the_last_before(all: Seq<SectionView>, line: nat, i: int)
    ensures
        0 <= i < all.len() && all[i].line_number < line && (forall|j: int|
            i < j < all.len() ==> (#[trigger] all[j]).line_number >= line) ==> section_before(
            all,
            line,
        ) == all[i].number,
        (forall|j: int| 0 <= j < all.len() ==> (#[trigger] all[j]).line_number >= line)
            ==> section_before(all, line) == 0,
    decreases all.len(),
{
    if all.len() > 0 {
        let front = all.drop_last();
        let last = all[all.len() - 1];
        law_current_section_is_the_last_before(front, line, i);
        if last.line_number >= line {
            assert forall|j: int| 0 <= j < front.len() implies front[j] == all[j] by {}
            if 0 <= i < front.len() && (forall|j: int|
                i < j < all.len() ==> (#[trigger] all[j]).line_number >= line) {
                assert forall|j: int| i < j < front.len() implies (
                #[trigger] front[j]).line_number >= line by {
                    assert(all[j].line_number >= line);
                }
            }
            if forall|j: int| 0 <= j < all.len() ==> (#[trigger] all[j]).line_number >= line {
                assert forall|j: int| 0 <= j < front.len() implies (
                #[trigger] front[j]).line_number >= line by {
                    assert(all[j].line_number >= line);
                }
            }
        }
    }
}

/// A frame whose table of contents depends on the section sets the number of the last section in
/// front of it, and any other frame with a table sets none. Whether there is a table of a full
/// build makes no difference to that.
pub proof fn law_toc_frames_know_their_section(
    dynamic: bool,
    start_line: nat,
    begin_line: nat,
    toc_path: PathView,
    toc_file: Option<Seq<char>>,
    all: Seq<SectionView>,
    i: int,
)
    requires
        begin_line <= start_line || !dynamic,
    ensures
        ({
            let support = toc_support(
                true,
                dynamic,
                start_line,
                begin_line,
                toc_path,
                toc_file,
                all,
            );
            let setup = |number: nat|
                "\\setcounter{section}{"@ + decimal(number) + "}\n\\setcounter{subsection}{0}\n"@;
            &&& support is Supported
            &&& !dynamic ==> support->Supported_0.runtime_setup == setup(0)
            &&& dynamic && 0 <= i < all.len() && all[i].line_number < start_line && (forall|j: int|
                i < j < all.len() ==> (#[trigger] all[j]).line_number >= start_line)
                ==> support->Supported_0.runtime_setup == setup(all[i].number)
            &&& dynamic && (forall|j: int|
                0 <= j < all.len() ==> (#[trigger] all[j]).line_number >= start_line)
                ==> support->Supported_0.runtime_setup == setup(0)
        }),
{
    law_current_section_is_the_last_before(all, start_line, i);
}

/// What a frame with a table of contents is typeset with: the table of a full build, which it then
/// depends on, and without one a table with an entry for every section.
pub proof fn law_toc_frames_take_the_table_of_a_full_build(
    dynamic: bool,
    start_line: nat,
    begin_line: nat,
    toc_path: PathView,
    table: Seq<char>,
    all: Seq<SectionView>,
)
    requires
        begin_line <= start_line || !dynamic,
    ensures
        ({
            let with_file = toc_support(
                true,
                dynamic,
                start_line,
                begin_line,
                toc_path,
                Some(table),
                all,
            )->Supported_0;
            let without = toc_support(
                true,
                dynamic,
                start_line,
                begin_line,
                toc_path,
                None,
                all,
            )->Supported_0;
            &&& with_file.runtime_setup == without.runtime_setup
            &&& with_file.support_files == seq![("toc"@, table)]
            &&& with_file.additional_dependencies == seq![toc_path]
            &&& without.support_files == seq![("toc"@, toc_content(all))]
            &&& without.additional_dependencies == Seq::<PathView>::empty()
        }),
{
}

/// Only frames that show a table of contents are changed for it, and only one that stands in front
/// of the document and depends on the section cannot be typeset alone.
pub proof fn law_unsupported_tocs_stand_before_the_document(
    has_toc: bool,
    dynamic: bool,
    start_line: nat,
    begin_line: nat,
    toc_path: PathView,
    toc_file: Option<Seq<char>>,
    all: Seq<SectionView>,
)
    ensures
        ({
            let support = toc_support(
                has_toc,
                dynamic,
                start_line,
                begin_line,
                toc_path,
                toc_file,
                all,
            );
            &&& support is NotNeeded <==> !has_toc
            &&& support is UnsupportedDynamic <==> has_toc && dynamic && start_line < begin_line
        }),
{
}

/// A table of contents that is made up lists the sections in their order: it grows by one line for
/// each of them, which gives its number three times, its title, and whether it is in the appendix.
pub proof fn law_made_up_tables_list_every_section(all: Seq<SectionView>, section: SectionView)
    ensures
        toc_content(Seq::empty()) == Seq::<char>::empty(),
        toc_content(all.push(section)) == toc_content(all) + "\\beamer@sectionintoc {"@ + decimal(
            section.number,
        ) + "}{"@ + section.title + "}{"@ + decimal(section.number) + (if section.is_appendix {
            "}{1}{"@
        } else {
            "}{0}{"@
        }) + decimal(section.number) + "}\n"@,
{
    let entry = |s: SectionView| toc_entry(s);
    let longer = all.push(section).map_values(entry);
    assert(longer.drop_last() =~= all.map_values(entry));
    assert(longer.last() == toc_entry(section));
    reveal_strlit("}{");
    reveal_strlit("1");
    reveal_strlit("0");
    reveal_strlit("}{1}{");
    reveal_strlit("}{0}{");
    assert(Seq::<SectionView>::empty().map_values(entry) =~= Seq::<Seq<char>>::empty());
    assert(toc_content(all.push(section)) =~= toc_content(all) + "\\beamer@sectionintoc {"@ + decimal(
        section.number,
    ) + "}{"@ + section.title + "}{"@ + decimal(section.number) + (if section.is_appendix {
        "}{1}{"@
    } else {
        "}{0}{"@
    }) + decimal(section.number) + "}\n"@);
}

/// The sections of a source are the lines that start one: each of these lines gives a section, with
/// its title and its line, and no other line does. A section is in the appendix where a line up to
/// its own starts it.
pub proof fn law_every_section_line_is_listed(
    appendix: Seq<bool>,
    titles: Seq<Option<Seq<char>>>,
    n: int,
    line: int,
)
    requires
        0 <= line < n <= titles.len(),
        appendix.len() == titles.len(),
    ensures
        titles[line] is Some ==> exists|i: int|
            0 <= i < sections_of(appendix, titles, n).len() && (#[trigger] sections_of(
                appendix,
                titles,
                n,
            )[i]).line_number == line + 1 && sections_of(appendix, titles, n)[i].title
                == titles[line]->0 && (sections_of(appendix, titles, n)[i].is_appendix
                <==> exists|j: int| 0 <= j <= line && #[trigger] appendix[j]),
        titles[line] is None ==> forall|i: int|
            0 <= i < sections_of(appendix, titles, n).len() ==> (#[trigger] sections_of(
                appendix,
                titles,
                n,
            )[i]).line_number != line + 1,
    decreases n,
{
    let all = sections_of(appendix, titles, n);
    let before = sections_of(appendix, titles, n - 1);
    if line < n - 1 {
        law_every_section_line_is_listed(appendix, titles, n - 1, line);
        if titles[line] is Some {
            let i = choose|i: int|
                0 <= i < before.len() && (#[trigger] before[i]).line_number == line + 1
                    && before[i].title == titles[line]->0 && (before[i].is_appendix
                    <==> exists|j: int| 0 <= j <= line && #[trigger] appendix[j]);
            assert(all[i] == before[i]);
        } else {
            assert forall|i: int| 0 <= i < all.len() implies (#[trigger] all[i]).line_number != line
                + 1 by {
                if i < before.len() {
                    assert(all[i] == before[i]);
                }
            }
        }
    } else {
        if titles[line] is Some {
            let i = before.len() as int;
            assert(all[i].line_number == line + 1);
        } else {
            assert forall|i: int| 0 <= i < all.len() implies (#[trigger] all[i]).line_number != line
                + 1 by {
                law_sections_are_numbered_in_order(appendix, titles, n - 1, i);
            }
        }
    }
}

/// The table of contents of a full build is next to the source, under its name.
pub proof fn law_tables_are_called_like_their_source(input_dir: PathView, base: Seq<char>)
    requires
        base.len() > 0,
        crate::paths::plain_part(
            input_dir.style,
            crate::path_parts::PartView::Normal(base.push('.') + "tex"@),
        ),
    ensures
        source_toc(input_dir, base.push('.') + "tex"@).parts == input_dir.parts.push(
            crate::path_parts::PartView::Normal(base.push('.') + "toc"@),
        ),
{
    reveal_strlit("tex");
    reveal_strlit("toc");
    crate::paths::law_renamed_files_are_in_the_directory(input_dir, base, "tex"@, "toc"@);
}

/// A line starts a section exactly where the pattern for sections is found on it, and its title is
/// what the braces of the first match hold, without the space around it.
pub proof fn law_section_titles_have_no_space_around(
    line: Seq<char>,
    before: Seq<char>,
    title: Seq<char>,
    behind: Seq<char>,
)
    requires
        forall|i: int| 0 <= i < before.len() ==> crate::search::whitespace(#[trigger] before[i]),
        forall|i: int| 0 <= i < behind.len() ==> crate::search::whitespace(#[trigger] behind[i]),
        title.len() > 0 ==> !crate::search::whitespace(title[0]) && !crate::search::whitespace(
            title.last(),
        ),
    ensures
        regex_captures(SECTION_LINE_PATTERN@, line).len() > 0 && group_text(
            line,
            regex_captures(SECTION_LINE_PATTERN@, line)[0][1],
        ) == before + title + behind ==> section_title(line) == Some(title),
        regex_captures(SECTION_LINE_PATTERN@, line).len() == 0 ==> section_title(line) is None,
{
    crate::search::law_trimming_takes_white_space_off(before, title, behind);
}

/// What is commented out starts no section: sources that are the same but for their comments have
/// the same sections.
pub proof fn law_comments_start_no_sections(a: Seq<char>, b: Seq<char>)
    requires
        without_comments(a) == without_comments(b),
    ensures
        sections(a) == sections(b),
{
}

}
