//! From the source of a presentation to the documents of its frames.
use crate::context::{contexts, document_start, SnippetView};
use crate::document::{
    format_line, frame_document_view, frame_prefix, law_frame_lines_lead_back_to_the_source,
    preamble_job, preamble_job_for, titled_head, toc_setup, BuildSettings, FrameDocument,
    FrameDocumentView, SharedParts, SharedView,
};
use crate::frames::{frame_labels, labels, title_flags, toc_flags, FrameLabel};
use crate::latexcompile::LatexEngine;
use crate::lines::{chunks, law_lines_of_a_piece};
use crate::paths::{file_name, FilePath, PathView};
use crate::patterns::piece;
use crate::plan::{frame_toc, generate_documents, unsupported_tocs, PlaceView};
use crate::presentation::{
    begin_at, begin_line, end_line, find_frames, frame_contexts, frame_ranges, preamble_text,
    preamble_title, range_lines, range_texts, ranges_ordered, read_preamble, Preamble,
    SourceFrames,
};
use crate::search::{contains, starts_with};
use crate::sections::{document_sections, sections, TocSupportView};
use crate::sync_map::mapped_line;
use crate::text::{
    byte_len, char_index, copied_texts, is_boundary, lemma_char_index_order, lemma_newlines_bound,
    line_at, newlines, optional_text, owned, texts,
};
use vstd::prelude::*;

verus! {

/// What a build was asked for.
#[verifier::ext_equal]
pub struct SettingsView {
    pub engine: LatexEngine,
    pub precompile: bool,
    pub options: Seq<Seq<char>>,
    pub correct_frame_numbers: bool,
    pub keep_title: bool,
}

/// What settings ask for.
pub open spec fn settings_view(settings: &BuildSettings, keep_title: bool) -> SettingsView {
    SettingsView {
        engine: settings.latex_engine,
        precompile: settings.precompile_preamble,
        options: texts(settings.compiler_options@),
        correct_frame_numbers: settings.correct_frame_numbers,
        keep_title,
    }
}

/// The labels of the frames at ranges of bytes.
pub open spec fn source_labels(content: Seq<char>, ranges: Seq<(usize, usize)>) -> Seq<FrameLabel> {
    let frames = range_texts(content, ranges);
    labels(title_flags(frames), toc_flags(frames))
}

/// The name of the job that dumps the preamble of a source.
pub open spec fn source_job(content: Seq<char>, settings: SettingsView) -> Seq<char> {
    preamble_job(
        preamble_text(content, settings.keep_title),
        settings.engine,
        settings.precompile,
        settings.options,
    )
}

/// What the documents of all frames of a source share.
pub open spec fn source_parts(
    content: Seq<char>,
    settings: SettingsView,
    source_file: PathView,
) -> SharedView {
    SharedView {
        preamble: preamble_text(content, settings.keep_title),
        title: preamble_title(content, settings.keep_title),
        preamble_name: source_job(content, settings),
        begin_line: begin_line(content, settings.keep_title),
        end_line: end_line(content, settings.keep_title),
        engine: settings.engine,
        precompile: settings.precompile,
        options: settings.options,
        correct_frame_numbers: settings.correct_frame_numbers,
        source_file,
    }
}

/// Where the text behind `\begin{document}` starts, in bytes.
pub open spec fn body_start(content: Seq<char>) -> int {
    document_start(
        match begin_at(content) {
            Some(k) => Some(byte_len(content.take(k)) as usize),
            None => None,
        },
    )
}

/// The definitions that the frames at ranges of bytes see.
pub open spec fn source_contexts(content: Seq<char>, ranges: Seq<(usize, usize)>) -> Seq<
    Seq<SnippetView>,
> {
    contexts(content, ranges, body_start(content))
}

/// The document of the frame at range `i` of a source.
pub open spec fn source_document(
    content: Seq<char>,
    ranges: Seq<(usize, usize)>,
    settings: SettingsView,
    source_file: PathView,
    place: PlaceView,
    i: int,
) -> FrameDocumentView {
    let parts = source_parts(content, settings, source_file);
    let frame = range_texts(content, ranges)[i];
    let lines = range_lines(content, ranges)[i];
    frame_document_view(
        parts,
        frame,
        lines,
        source_contexts(content, ranges)[i],
        source_labels(content, ranges)[i],
        frame_toc(
            place,
            frame,
            lines.0,
            parts.begin_line,
            sections(content),
        ),
    )
}

/// What was read of a source.
#[derive(Clone, Debug)]
pub struct PreparedSource {
    pub frames: SourceFrames,
    pub labels: Vec<FrameLabel>,
    pub preamble: Preamble,
    /// The name of the job that dumps the preamble.
    pub preamble_job: String,
}

impl PreparedSource {
    /// Whether this was read of a source with these settings: the frames stand in the source one
    /// behind the other, and the rest is what the source holds of them and of its preamble.
    pub open spec fn taken_from(&self, content: Seq<char>, settings: SettingsView) -> bool {
        &&& self.frames.taken_from(content)
        &&& ranges_ordered(self.frames.ranges@)
        &&& self.labels@ == source_labels(content, self.frames.ranges@)
        &&& self.preamble.taken_from(content, settings.keep_title)
        &&& self.preamble_job@ == source_job(content, settings)
    }
}

/// Reads a source: its frames, their labels, and its preamble.
pub fn read_source(content: &str, settings: &BuildSettings, keep_title: bool) -> (r: PreparedSource)
    requires
        byte_len(content@) <= usize::MAX,
    ensures
        r.taken_from(content@, settings_view(settings, keep_title)),
        r.frames.ranges@ == frame_ranges(content@),
{
    let frames = find_frames(content);
    let labels = frame_labels(&frames.frames);
    let preamble = read_preamble(content, keep_title);
    let preamble_job = preamble_job_for(preamble.text.as_str(), settings);
    PreparedSource { frames, labels, preamble, preamble_job }
}

/// The documents for all frames of a source, and how many of them show a table of contents that
/// cannot be made for a single frame. `toc_file` is what a full build of the source left as its
/// table of contents.
pub fn prepare_documents(
    content: &str,
    source: &PreparedSource,
    settings: &BuildSettings,
    keep_title: bool,
    source_file: &FilePath,
    input_dir: &FilePath,
    input_path: &FilePath,
    toc_file: Option<&str>,
) -> (r: (Vec<FrameDocument>, usize))
    requires
        byte_len(content@) <= usize::MAX,
        source.taken_from(content@, settings_view(settings, keep_title)),
        file_name(input_path@) is Some,
    ensures
        ({
            let asked = settings_view(settings, keep_title);
            let place = PlaceView {
                input_dir: input_dir@,
                input_name: file_name(input_path@)->0,
                toc_file: optional_text(toc_file),
            };
            let ranges = source.frames.ranges@;
            let count = ranges.len();
            &&& r.0@.len() == count
            &&& forall|i: int|
                0 <= i < count ==> (#[trigger] r.0@[i])@ == source_document(
                    content@,
                    ranges,
                    asked,
                    source_file@,
                    place,
                    i,
                ) && r.0@[i].sync_map.wf()
            &&& r.1 == unsupported_tocs(
                place,
                range_texts(content@, ranges),
                range_lines(content@, ranges),
                begin_line(content@, keep_title),
                sections(content@),
                count as int,
            )
        }),
{
    let contexts = frame_contexts(content, &source.frames, &source.preamble, keep_title);
    let sections = document_sections(content);
    let shared = SharedParts {
        preamble: owned(source.preamble.text.as_str()),
        title_info: owned(source.preamble.title_info.as_str()),
        preamble_name: owned(source.preamble_job.as_str()),
        begin_line: source.preamble.begin_line,
        end_line: source.preamble.end_line,
        settings: BuildSettings {
            latex_engine: settings.latex_engine,
            precompile_preamble: settings.precompile_preamble,
            compiler_options: copied_texts(&settings.compiler_options),
            correct_frame_numbers: settings.correct_frame_numbers,
        },
        source_file: source_file.copy(),
    };
    assert(shared@ =~= source_parts(content@, settings_view(settings, keep_title), source_file@));
    assert(source_labels(content@, source.frames.ranges@).len() == source.frames.frames@.len());
    let made = generate_documents(
        &shared,
        &source.frames,
        &contexts,
        &source.labels,
        input_dir,
        input_path,
        toc_file,
        &sections,
    );
    made
}

/// What points at a line of a frame in its document is led back to a line of the source that
/// holds the same text. `range` are the bytes that the frame takes in the source.
pub proof fn law_lines_lead_back_to_their_text(
    content: Seq<char>,
    range: (usize, usize),
    shared: SharedView,
    context: Seq<SnippetView>,
    label: FrameLabel,
    toc: TocSupportView,
    k: int,
)
    requires
        content.len() <= usize::MAX,
        range.0 <= range.1,
        is_boundary(content, range.0 as int),
        is_boundary(content, range.1 as int),
        toc_setup(toc).len() > 0 ==> toc_setup(toc).last() == '\n',
        ({
            let frame = piece(content, range.0 as int, range.1 as int);
            let lines = range_lines(content, seq![range])[0];
            &&& 0 <= k < chunks(frame).len()
            &&& frame_document_view(shared, frame, lines, context, label, toc).tex_content.len()
                <= usize::MAX
        }),
    ensures
        ({
            let frame = piece(content, range.0 as int, range.1 as int);
            let lines = range_lines(content, seq![range])[0];
            let doc = frame_document_view(shared, frame, lines, context, label, toc);
            exists|line: nat|
                {
                    let source_line = #[trigger] mapped_line(doc.sync_map.segments, line);
                    &&& 0 < line <= chunks(doc.tex_content).len()
                    &&& starts_with(chunks(doc.tex_content)[line - 1], chunks(frame)[k])
                    &&& 0 < source_line <= chunks(content).len()
                    &&& contains(chunks(content)[source_line - 1], chunks(frame)[k])
                }
        }),
{
    let from = char_index(content, range.0 as int);
    let to = char_index(content, range.1 as int);
    lemma_char_index_order(content, range.0 as int, range.1 as int);
    let frame = piece(content, range.0 as int, range.1 as int);
    let lines = range_lines(content, seq![range])[0];
    let doc = frame_document_view(shared, frame, lines, context, label, toc);
    assert(lines == (line_at(content, from), chunks(frame).len()));
    lemma_newlines_bound(content.take(from));
    law_frame_lines_lead_back_to_the_source(shared, frame, lines.0, context, label, toc, k);
    let head = titled_head(
        format_line(shared.precompile, shared.preamble_name),
        shared.preamble,
        shared.title,
        frame,
    );
    let before = chunks(
        frame_prefix(head, context, label, shared.correct_frame_numbers, toc),
    ).len();
    let line = (before + k + 1) as nat;
    law_lines_of_a_piece(content.take(from), frame, content.skip(to), k);
    assert(content.take(from) + frame + content.skip(to) =~= content);
    assert(mapped_line(doc.sync_map.segments, line) == newlines(content.take(from)) + k + 1);
}

/// The documents of a source belong to its frames, one by one: the document of frame `i` starts with
/// the preamble of the source, and ends with the text of frame `i`. In front of that it sets the
/// counter for the label of frame `i`, and it holds the context of frame `i`.
pub proof fn law_documents_belong_to_their_frames(
    content: Seq<char>,
    ranges: Seq<(usize, usize)>,
    settings: SettingsView,
    source_file: PathView,
    place: PlaceView,
    i: int,
)
    requires
        0 <= i < ranges.len(),
    ensures
        ({
            let tex = source_document(content, ranges, settings, source_file, place, i).tex_content;
            let frame = piece(content, ranges[i].0 as int, ranges[i].1 as int);
            let frames = range_texts(content, ranges);
            let toc = frame_toc(
                place,
                frame,
                line_at(content, char_index(content, ranges[i].0 as int)),
                begin_line(content, settings.keep_title),
                sections(content),
            );
            let tail = crate::frames::counter_setup(
                labels(title_flags(frames), toc_flags(frames))[i],
                settings.correct_frame_numbers,
            ) + crate::frames::display_setup(labels(title_flags(frames), toc_flags(frames))[i])
                + toc_setup(toc) + frame + "\n\\end{document}\n"@;
            let head = (if settings.precompile {
                "%&"@ + preamble_job(
                    preamble_text(content, settings.keep_title),
                    settings.engine,
                    settings.precompile,
                    settings.options,
                ) + "\n"@
            } else {
                Seq::empty()
            }) + preamble_text(content, settings.keep_title) + "\n\\begin{document}\n"@;
            &&& starts_with(tex, head)
            &&& crate::search::ends_with(tex, tail)
            &&& forall|n: int|
                0 <= n < source_contexts(content, ranges)[i].len() ==> contains(
                    tex,
                    (#[trigger] source_contexts(content, ranges)[i][n]).content,
                )
        }),
{
    let parts = source_parts(content, settings, source_file);
    let frame = piece(content, ranges[i].0 as int, ranges[i].1 as int);
    let frames = range_texts(content, ranges);
    let lines = range_lines(content, ranges)[i];
    let context = source_contexts(content, ranges)[i];
    let label = source_labels(content, ranges)[i];
    let toc = frame_toc(place, frame, lines.0, parts.begin_line, sections(content));
    let tex = source_document(content, ranges, settings, source_file, place, i).tex_content;
    assert(frames[i] == frame);
    reveal_strlit("");
    let format = format_line(parts.precompile, parts.preamble_name);
    let start = titled_head(format, parts.preamble, parts.title, frame);
    let tail = crate::frames::counter_setup(label, parts.correct_frame_numbers)
        + crate::frames::display_setup(label) + toc_setup(toc) + frame + "\n\\end{document}\n"@;
    assert(tex =~= crate::context::with_context(start, context, context.len() as int) + tail);
    let head = format + parts.preamble + "\n\\begin{document}\n"@;
    assert(start.take(head.len() as int) =~= head);
    assert(""@ =~= Seq::<char>::empty());
    lemma_document_parts(start, head, context, tail);
}

proof fn lemma_document_parts(
    start: Seq<char>,
    head: Seq<char>,
    context: Seq<SnippetView>,
    tail: Seq<char>,
)
    requires
        head.len() <= start.len(),
        start.take(head.len() as int) == head,
    ensures
        ({
            let tex = crate::context::with_context(start, context, context.len() as int) + tail;
            &&& starts_with(tex, head)
            &&& crate::search::ends_with(tex, tail)
            &&& forall|n: int|
                0 <= n < context.len() ==> contains(tex, (#[trigger] context[n]).content)
        }),
{
    let n = context.len() as int;
    let whole = crate::context::with_context(start, context, n);
    let tex = whole + tail;
    assert(tex.skip(tex.len() - tail.len()) =~= tail);
    lemma_context_behind(start, context, n);
    assert(tex.subrange(0, head.len() as int) =~= head) by {
        assert forall|j: int| 0 <= j < head.len() implies tex[j] == head[j] by {
            assert(whole.take(start.len() as int)[j] == whole[j]);
            assert(start.take(head.len() as int)[j] == start[j]);
        }
    }
    assert forall|m: int| 0 <= m < context.len() implies contains(
        tex,
        (#[trigger] context[m]).content,
    ) by {
        crate::context::law_context_is_written_in_order(start, context, n, m);
        let at = crate::context::with_context(start, context, m).len() as int;
        let part = context[m].content;
        assert(tex.subrange(at, at + part.len()) =~= whole.subrange(at, at + part.len()));
        crate::search::lemma_first_match_exists(tex, part, 0, at);
    }
}

proof fn lemma_context_behind(start: Seq<char>, context: Seq<SnippetView>, n: int)
    requires
        0 <= n,
    ensures
        start.len() <= crate::context::with_context(start, context, n).len(),
        crate::context::with_context(start, context, n).take(start.len() as int) == start,
    decreases n,
{
    if n > 0 {
        lemma_context_behind(start, context, n - 1);
        assert(crate::context::with_context(start, context, n).take(start.len() as int)
            =~= crate::context::with_context(start, context, n - 1).take(start.len() as int));
    } else {
        assert(start.take(start.len() as int) =~= start);
    }
}

}
