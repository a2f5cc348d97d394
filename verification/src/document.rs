//! The documents that are generated from a presentation.
use crate::artifacts::{FRAME_TEMP_PREFIX, PREAMBLE_TEMP_PREFIX};
use crate::context::{
    append_document_context, context_fits, context_segments, snippet_views, with_context,
    with_newline, DocumentContextSnippet, SnippetView,
};
use crate::digest::{digest_of, text_digest};
use crate::frames::{
    counter_setup, display_setup, frame_counter_setup, frame_number_display_setup, FrameLabel,
    HIDE_FRAME_NUMBER,
};
use crate::latexcompile::{engine_name, LatexEngine};
use crate::lines::{
    chunks, concat, lemma_chunks, lemma_chunks_concat, lemma_chunks_longer, logical_line_count,
};
use crate::path_order::{is_sorted_set, sorted_set};
use crate::paths::{joined, parsed, path_views, with_extension, FilePath, PathView};
use crate::presentation::line_fits;
use crate::related::{copied_paths, push_path};
use crate::search::{contains, has_text};
use crate::sections::{support_views, GeneratedSupportFile, TocFrameSupport, TocSupportView};
use crate::sync_map::{
    law_last_covering_segment_decides, mapped_line, segments_wf, FrameSyncTexMap, SyncMapView,
    SyncTexLineSegment,
};
use crate::text::{chars_of, owned, texts};
use vstd::prelude::*;

verus! {

/// Why a presentation could not be built.
#[derive(Clone, Copy, Debug, PartialEq, Eq, Structural)]
pub enum FasterBeamerError {
    InputFileNotExistent,
    IoError,
    CompileError,
    PdfUniteError,
}

/// A document with one frame.
#[derive(Clone, Debug)]
pub struct GeneratedDocument {
    pub tex_content: String,
    pub sync_map: FrameSyncTexMap,
    pub dependencies: Vec<FilePath>,
    pub support_files: Vec<GeneratedSupportFile>,
}

/// What a document with one frame holds.
#[verifier::ext_equal]
pub struct DocumentView {
    pub tex_content: Seq<char>,
    pub sync_map: SyncMapView,
    pub dependencies: Seq<PathView>,
    pub support_files: Seq<(Seq<char>, Seq<char>)>,
}

impl View for GeneratedDocument {
    type V = DocumentView;

    open spec fn view(&self) -> DocumentView {
        DocumentView {
            tex_content: self.tex_content@,
            sync_map: self.sync_map@,
            dependencies: path_views(self.dependencies@),
            support_files: support_views(self.support_files@),
        }
    }
}

/// The names of the files that documents are written to.
pub open spec fn document_names(documents: Seq<GeneratedDocument>) -> Seq<Seq<char>> {
    documents.map_values(|d: GeneratedDocument| d.sync_map.temp_file_name@)
}

/// Where the PDF of a generated file is.
pub open spec fn pdf_path(cache_subdir: PathView, name: Seq<char>) -> PathView {
    joined(cache_subdir, with_extension(parsed(cache_subdir.style, name), "pdf"@))
}

/// Where the PDF of a generated file is.
pub fn compiled_pdf_path(cache_subdir: &FilePath, temp_file_name: &str) -> (r: FilePath)
    ensures
        r@ == pdf_path(cache_subdir@, temp_file_name@),
{
    let pdf = FilePath::parse_as(temp_file_name, cache_subdir.style).with_extension("pdf");
    cache_subdir.join(&pdf)
}

// ---------------------------------------------------------------------------
// Settings
// ---------------------------------------------------------------------------

/// What a build of frames depends on besides the source.
#[derive(Clone, Debug)]
pub struct BuildSettings {
    pub latex_engine: LatexEngine,
    pub precompile_preamble: bool,
    pub compiler_options: Vec<String>,
    pub correct_frame_numbers: bool,
}

/// Options, each on a line of its own.
pub open spec fn option_lines(options: Seq<Seq<char>>) -> Seq<char> {
    concat(options.map_values(|o: Seq<char>| o.push('\n')))
}

/// What the settings add to the text that a generated file is named after.
pub open spec fn cache_key(engine: LatexEngine, precompile: bool, options: Seq<Seq<char>>) -> Seq<
    char,
> {
    "\n% faster-beamer latex engine\n"@ + engine_name(engine) + "\n"@ + (if precompile {
        "% faster-beamer precompile preamble: true\n"@
    } else {
        "% faster-beamer precompile preamble: false\n"@
    }) + (if options.len() == 0 {
        ""@
    } else {
        "% faster-beamer compiler options\n"@ + option_lines(options)
    })
}

/// Adds the settings to the text that a generated file is named after.
pub fn append_latex_cache_key(
    input: &mut String,
    latex_engine: LatexEngine,
    precompile_preamble: bool,
    compiler_options: &[String],
)
    ensures
        final(input)@ == old(input)@ + cache_key(
            latex_engine,
            precompile_preamble,
            texts(compiler_options@),
        ),
{
    let ghost before = input@;
    let ghost options = texts(compiler_options@);
    input.push_str("\n% faster-beamer latex engine\n");
    input.push_str(latex_engine.command_name());
    input.push_str("\n");
    if precompile_preamble {
        input.push_str("% faster-beamer precompile preamble: true\n");
    } else {
        input.push_str("% faster-beamer precompile preamble: false\n");
    }
    if compiler_options.len() == 0 {
        proof {
            reveal_strlit("");
            assert(input@ =~= before + cache_key(latex_engine, precompile_preamble, options));
        }
        return;
    }
    input.push_str("% faster-beamer compiler options\n");
    let ghost head = input@;
    let ghost all = options.map_values(|o: Seq<char>| o.push('\n'));
    let mut i: usize = 0;
    assert(all.take(0) =~= Seq::<Seq<char>>::empty());
    assert(head + concat(all.take(0)) =~= head);
    while i < compiler_options.len()
        invariant
            i <= compiler_options.len(),
            options == texts(compiler_options@),
            all == options.map_values(|o: Seq<char>| o.push('\n')),
            input@ == head + concat(all.take(i as int)),
        decreases compiler_options.len() - i,
    {
        let ghost so_far = input@;
        input.push_str(compiler_options[i].as_str());
        input.push('\n');
        i += 1;
        assert(all.take(i as int).drop_last() =~= all.take(i - 1));
        assert(all.take(i as int).last() == all[i - 1]);
        assert(input@ =~= so_far + all[i - 1]);
        assert(input@ =~= head + concat(all.take(i as int)));
    }
    assert(all.take(i as int) =~= all);
    assert(input@ =~= before + cache_key(latex_engine, precompile_preamble, options));
}

/// A generated file is not taken for one that another program made, or that was made with the
/// preamble treated otherwise: the names are made from different texts.
pub proof fn law_cache_key_tells_settings_apart(
    a: LatexEngine,
    b: LatexEngine,
    p: bool,
    q: bool,
    x: Seq<Seq<char>>,
    y: Seq<Seq<char>>,
)
    requires
        cache_key(a, p, x) == cache_key(b, q, y),
    ensures
        a == b,
        p == q,
{
    let head = "\n% faster-beamer latex engine\n"@;
    let n = head.len() as int;
    reveal_strlit("pdflatex");
    reveal_strlit("lualatex");
    reveal_strlit("xelatex");
    reveal_strlit("\n");
    reveal_strlit("% faster-beamer precompile preamble: true\n");
    reveal_strlit("% faster-beamer precompile preamble: false\n");
    let s = cache_key(a, p, x);
    let t = cache_key(b, q, y);
    assert(s[n] == engine_name(a)[0]);
    assert(t[n] == engine_name(b)[0]);
    assert(a == b);
    let k = n + engine_name(a).len() + 1 + 37;
    assert("% faster-beamer precompile preamble: true\n"@[37] == 't');
    assert("% faster-beamer precompile preamble: false\n"@[37] == 'f');
    assert(s[k] == if p { 't' } else { 'f' });
    assert(t[k] == if q { 't' } else { 'f' });
}

// ---------------------------------------------------------------------------
// Names
// ---------------------------------------------------------------------------

/// The name of a generated frame source whose content has the digest `digest`.
pub fn frame_temp_file_name(digest: &str) -> (r: String)
    ensures
        r@ == FRAME_TEMP_PREFIX@ + digest@ + ".tex"@,
{
    let mut out = owned(FRAME_TEMP_PREFIX);
    out.push_str(digest);
    out.push_str(".tex");
    out
}

/// The name of the job that dumps a preamble whose content has the digest `digest`.
pub fn preamble_job_name(digest: &str) -> (r: String)
    ensures
        r@ == PREAMBLE_TEMP_PREFIX@ + digest@,
{
    let mut out = owned(PREAMBLE_TEMP_PREFIX);
    out.push_str(digest);
    out
}

/// The name of the job that dumps a preamble.
pub open spec fn preamble_job(
    preamble: Seq<char>,
    engine: LatexEngine,
    precompile: bool,
    options: Seq<Seq<char>>,
) -> Seq<char> {
    PREAMBLE_TEMP_PREFIX@ + text_digest(preamble + cache_key(engine, precompile, options))
}

/// The name of the job that dumps `preamble`.
pub fn preamble_job_for(preamble: &str, settings: &BuildSettings) -> (r: String)
    ensures
        r@ == preamble_job(
            preamble@,
            settings.latex_engine,
            settings.precompile_preamble,
            texts(settings.compiler_options@),
        ),
{
    let mut input = owned(preamble);
    append_latex_cache_key(
        &mut input,
        settings.latex_engine,
        settings.precompile_preamble,
        &settings.compiler_options,
    );
    let digest = digest_of(input.as_str());
    preamble_job_name(digest.as_str())
}

// ---------------------------------------------------------------------------
// One frame
// ---------------------------------------------------------------------------

/// Whether a frame shows something of the title.
pub open spec fn needs_title(frame: Seq<char>) -> bool {
    contains(frame, "\\titlepage"@) || contains(frame, "\\maketitle"@) || contains(
        frame,
        "\\inserttitle"@,
    ) || contains(frame, "\\insertauthor"@) || contains(frame, "\\insertdate"@) || contains(
        frame,
        "\\insertinstitute"@,
    ) || contains(frame, "\\insertsubtitle"@)
}

/// Whether a frame shows something of the title.
pub fn needs_title_info(frame: &str) -> (r: bool)
    ensures
        r == needs_title(frame@),
{
    let chars = chars_of(frame);
    has_text(&chars, "\\titlepage") || has_text(&chars, "\\maketitle") || has_text(
        &chars,
        "\\inserttitle",
    ) || has_text(&chars, "\\insertauthor") || has_text(&chars, "\\insertdate") || has_text(
        &chars,
        "\\insertinstitute",
    ) || has_text(&chars, "\\insertsubtitle")
}

/// The line that loads a dumped preamble.
pub open spec fn format_line(precompile: bool, preamble_name: Seq<char>) -> Seq<char> {
    if precompile {
        "%&"@ + preamble_name + "\n"@
    } else {
        ""@
    }
}

/// What all frames start with, up to the start of the document.
pub open spec fn document_head(format: Seq<char>, preamble: Seq<char>) -> Seq<char> {
    format + preamble + "\n\\begin{document}\n"@
}

/// What a frame starts with: what is said of the title is added where the frame shows it.
pub open spec fn titled_head(
    format: Seq<char>,
    preamble: Seq<char>,
    title: Seq<char>,
    frame: Seq<char>,
) -> Seq<char> {
    if needs_title(frame) && title.len() > 0 {
        document_head(format, preamble) + title + "\n"@
    } else {
        document_head(format, preamble)
    }
}

/// The code that a frame with a table of contents needs in front of it.
pub open spec fn toc_setup(toc: TocSupportView) -> Seq<char> {
    match toc {
        TocSupportView::Supported(p) => p.runtime_setup,
        _ => ""@,
    }
}

/// The files that a frame with a table of contents needs next to it.
pub open spec fn toc_files(toc: TocSupportView) -> Seq<(Seq<char>, Seq<char>)> {
    match toc {
        TocSupportView::Supported(p) => p.support_files,
        _ => Seq::empty(),
    }
}

/// The files that a frame with a table of contents depends on.
pub open spec fn toc_dependencies(toc: TocSupportView) -> Seq<PathView> {
    match toc {
        TocSupportView::Supported(p) => p.additional_dependencies,
        _ => Seq::empty(),
    }
}

/// All that stands in front of a frame in its document.
pub open spec fn frame_prefix(
    head: Seq<char>,
    context: Seq<SnippetView>,
    label: FrameLabel,
    correct_frame_numbers: bool,
    toc: TocSupportView,
) -> Seq<char> {
    with_context(head, context, context.len() as int) + counter_setup(label, correct_frame_numbers)
        + display_setup(label) + toc_setup(toc)
}

/// The document for a frame.
pub open spec fn frame_tex(prefix: Seq<char>, frame: Seq<char>) -> Seq<char> {
    prefix + frame + "\n\\end{document}\n"@
}

/// Files next to a document, as part of the text that it is named after.
pub open spec fn support_text(files: Seq<(Seq<char>, Seq<char>)>) -> Seq<char>
    decreases files.len(),
{
    if files.len() == 0 {
        Seq::empty()
    } else {
        support_text(files.drop_last()) + files.last().0 + "\n"@ + files.last().1 + "\n"@
    }
}

/// The name of the document for a frame: it follows from all that the frame is typeset from.
pub open spec fn frame_name(
    tex: Seq<char>,
    files: Seq<(Seq<char>, Seq<char>)>,
    key: Seq<char>,
) -> Seq<char> {
    FRAME_TEMP_PREFIX@ + text_digest(tex + support_text(files) + key) + ".tex"@
}

/// A run of lines.
pub open spec fn run_of_lines(temp: nat, count: nat, source: nat) -> SyncTexLineSegment {
    SyncTexLineSegment {
        temp_start_line: temp as u128,
        line_count: count as u128,
        source_start_line: source as u128,
    }
}

/// The lines of the document for a frame, up to the context.
pub open spec fn head_segments(format: Seq<char>, preamble: Seq<char>, begin_line: nat) -> Seq<
    SyncTexLineSegment,
> {
    let begin = run_of_lines(chunks(format + preamble + "\n"@).len() + 1, 1, begin_line);
    if chunks(preamble).len() > 0 {
        seq![run_of_lines(chunks(format).len() + 1, chunks(preamble).len(), 1), begin]
    } else {
        seq![begin]
    }
}

/// The lines of the document for a frame: those of the preamble, the start of the document, the
/// context, the frame and the end of the document.
pub open spec fn frame_segments(
    format: Seq<char>,
    preamble: Seq<char>,
    head: Seq<char>,
    context: Seq<SnippetView>,
    prefix: Seq<char>,
    frame: Seq<char>,
    frame_lines: (nat, nat),
    begin_line: nat,
    end_line: nat,
) -> Seq<SyncTexLineSegment> {
    (head_segments(format, preamble, begin_line) + context_segments(
        head,
        context,
        context.len() as int,
    )).push(run_of_lines(chunks(prefix).len() + 1, frame_lines.1, frame_lines.0)).push(
        run_of_lines(chunks(prefix + frame + "\n"@).len() + 1, 1, end_line),
    )
}

/// The document for a frame, but for the files it depends on.
#[derive(Clone, Debug)]
pub struct FrameDocument {
    pub tex_content: String,
    pub sync_map: FrameSyncTexMap,
    pub support_files: Vec<GeneratedSupportFile>,
    pub additional_dependencies: Vec<FilePath>,
}

/// What the document for a frame holds.
#[verifier::ext_equal]
pub struct FrameDocumentView {
    pub tex_content: Seq<char>,
    pub sync_map: SyncMapView,
    pub support_files: Seq<(Seq<char>, Seq<char>)>,
    pub additional_dependencies: Seq<PathView>,
}

impl View for FrameDocument {
    type V = FrameDocumentView;

    open spec fn view(&self) -> FrameDocumentView {
        FrameDocumentView {
            tex_content: self.tex_content@,
            sync_map: self.sync_map@,
            support_files: support_views(self.support_files@),
            additional_dependencies: path_views(self.additional_dependencies@),
        }
    }
}

/// What is shared by the documents for all frames of a source.
#[verifier::ext_equal]
pub struct SharedView {
    pub preamble: Seq<char>,
    pub title: Seq<char>,
    pub preamble_name: Seq<char>,
    pub begin_line: nat,
    pub end_line: nat,
    pub engine: LatexEngine,
    pub precompile: bool,
    pub options: Seq<Seq<char>>,
    pub correct_frame_numbers: bool,
    pub source_file: PathView,
}

/// The document for a frame.
pub open spec fn frame_document_view(
    shared: SharedView,
    frame: Seq<char>,
    frame_lines: (nat, nat),
    context: Seq<SnippetView>,
    label: FrameLabel,
    toc: TocSupportView,
) -> FrameDocumentView {
    let format = format_line(shared.precompile, shared.preamble_name);
    let head = titled_head(format, shared.preamble, shared.title, frame);
    let prefix = frame_prefix(head, context, label, shared.correct_frame_numbers, toc);
    let tex = frame_tex(prefix, frame);
    FrameDocumentView {
        tex_content: tex,
        sync_map: SyncMapView {
            source_file: shared.source_file,
            temp_file_name: frame_name(
                tex,
                toc_files(toc),
                cache_key(shared.engine, shared.precompile, shared.options),
            ),
            segments: frame_segments(
                format,
                shared.preamble,
                head,
                context,
                prefix,
                frame,
                frame_lines,
                shared.begin_line,
                shared.end_line,
            ),
        },
        support_files: toc_files(toc),
        additional_dependencies: toc_dependencies(toc),
    }
}

/// What is shared by the documents for all frames of a source.
#[derive(Clone, Debug)]
pub struct SharedParts {
    pub preamble: String,
    pub title_info: String,
    pub preamble_name: String,
    pub begin_line: u128,
    pub end_line: u128,
    pub settings: BuildSettings,
    pub source_file: FilePath,
}

impl View for SharedParts {
    type V = SharedView;

    open spec fn view(&self) -> SharedView {
        SharedView {
            preamble: self.preamble@,
            title: self.title_info@,
            preamble_name: self.preamble_name@,
            begin_line: self.begin_line as nat,
            end_line: self.end_line as nat,
            engine: self.settings.latex_engine,
            precompile: self.settings.precompile_preamble,
            options: texts(self.settings.compiler_options@),
            correct_frame_numbers: self.settings.correct_frame_numbers,
            source_file: self.source_file@,
        }
    }
}

impl SharedParts {
    /// The lines are those of a text in memory.
    pub open spec fn wf(&self) -> bool {
        line_fits(self.begin_line as int) && line_fits(self.end_line as int)
    }
}

fn push_segment(segments: &mut Vec<SyncTexLineSegment>, temp: usize, count: u128, source: u128)
    requires
        segments_wf(old(segments)@),
        count <= usize::MAX,
        line_fits(source as int),
    ensures
        final(segments)@ == old(segments)@.push(
            run_of_lines((temp + 1) as nat, count as nat, source as nat),
        ),
        segments_wf(final(segments)@),
{
    let ghost before = segments@;
    let segment = SyncTexLineSegment {
        temp_start_line: temp as u128 + 1,
        line_count: count,
        source_start_line: source,
    };
    assert(segment.wf());
    segments.push(segment);
    assert forall|i: int| 0 <= i < segments@.len() implies (#[trigger] segments@[i]).wf() by {
        if i < before.len() {
            assert(before[i].wf());
        }
    }
}

fn push_support(out: &mut String, files: &[GeneratedSupportFile])
    ensures
        final(out)@ == old(out)@ + support_text(support_views(files@)),
{
    let ghost before = out@;
    let ghost all = support_views(files@);
    let mut i: usize = 0;
    assert(all.take(0) =~= Seq::<(Seq<char>, Seq<char>)>::empty());
    assert(before + support_text(all.take(0)) =~= before);
    while i < files.len()
        invariant
            i <= files.len(),
            all == support_views(files@),
            out@ == before + support_text(all.take(i as int)),
        decreases files.len() - i,
    {
        out.push_str(files[i].extension);
        out.push_str("\n");
        out.push_str(files[i].content.as_str());
        out.push_str("\n");
        i += 1;
        assert(all.take(i as int).drop_last() =~= all.take(i - 1));
        assert(all.take(i as int).last() == (files@[i - 1].extension@, files@[i - 1].content@));
        assert(out@ =~= before + support_text(all.take(i as int)));
    }
    assert(all.take(i as int) =~= all);
}

/// How many lines two texts take together.
fn joint_line_count(a: &str, b: &str, c: &str) -> (r: usize)
    ensures
        r == chunks(a@ + b@ + c@).len(),
{
    let mut text = owned(a);
    text.push_str(b);
    text.push_str(c);
    logical_line_count(text.as_str())
}

/// The document for a frame.
pub fn frame_document(
    shared: &SharedParts,
    frame: &str,
    frame_lines: (u128, u128),
    context: &[DocumentContextSnippet],
    label: FrameLabel,
    toc: TocFrameSupport,
) -> (r: FrameDocument)
    requires
        shared.wf(),
        line_fits(frame_lines.0 as int),
        frame_lines.1 <= usize::MAX,
        context_fits(snippet_views(context@)),
    ensures
        r@ == frame_document_view(
            shared@,
            frame@,
            (frame_lines.0 as nat, frame_lines.1 as nat),
            snippet_views(context@),
            label,
            toc@,
        ),
        r.sync_map.wf(),
{
    let ghost toc_view = toc@;
    let (setup, support_files, additional_dependencies) = match toc {
        TocFrameSupport::Supported(patch) => (
            patch.runtime_setup,
            patch.support_files,
            patch.additional_dependencies,
        ),
        _ => (owned(""), Vec::new(), Vec::new()),
    };
    proof {
        assert(setup@ == toc_setup(toc_view));
        assert(support_views(support_files@) =~= toc_files(toc_view));
        assert(path_views(additional_dependencies@) =~= toc_dependencies(toc_view));
    }
    let mut format = String::new();
    if shared.settings.precompile_preamble {
        format.push_str("%&");
        format.push_str(shared.preamble_name.as_str());
        format.push_str("\n");
    }
    proof {
        reveal_strlit("");
        assert(format@ =~= format_line(shared@.precompile, shared@.preamble_name));
    }
    let mut prefix = owned(format.as_str());
    prefix.push_str(shared.preamble.as_str());
    prefix.push_str("\n\\begin{document}\n");
    if needs_title_info(frame) && !shared.title_info.as_str().is_empty() {
        prefix.push_str(shared.title_info.as_str());
        prefix.push_str("\n");
    }
    let ghost head = titled_head(format@, shared@.preamble, shared@.title, frame@);
    assert(prefix@ == head);
    let mut segments: Vec<SyncTexLineSegment> = Vec::new();
    let preamble_lines = logical_line_count(shared.preamble.as_str());
    if preamble_lines > 0 {
        let format_lines = logical_line_count(format.as_str());
        push_segment(&mut segments, format_lines, preamble_lines as u128, 1);
    }
    let begin_at = joint_line_count(format.as_str(), shared.preamble.as_str(), "\n");
    push_segment(&mut segments, begin_at, 1, shared.begin_line);
    assert(segments@ =~= head_segments(format@, shared@.preamble, shared@.begin_line));
    append_document_context(&mut prefix, &mut segments, context);
    let counter = frame_counter_setup(&label, shared.settings.correct_frame_numbers);
    prefix.push_str(counter.as_str());
    prefix.push_str(frame_number_display_setup(&label));
    prefix.push_str(setup.as_str());
    assert(prefix@ == frame_prefix(
        head,
        snippet_views(context@),
        label,
        shared@.correct_frame_numbers,
        toc_view,
    ));
    let frame_at = logical_line_count(prefix.as_str());
    push_segment(&mut segments, frame_at, frame_lines.1, frame_lines.0);
    let end_at = joint_line_count(prefix.as_str(), frame, "\n");
    push_segment(&mut segments, end_at, 1, shared.end_line);
    let mut tex = prefix;
    tex.push_str(frame);
    tex.push_str("\n\\end{document}\n");
    let mut hash_input = owned(tex.as_str());
    push_support(&mut hash_input, &support_files);
    append_latex_cache_key(
        &mut hash_input,
        shared.settings.latex_engine,
        shared.settings.precompile_preamble,
        &shared.settings.compiler_options,
    );
    let digest = digest_of(hash_input.as_str());
    let temp_file_name = frame_temp_file_name(digest.as_str());
    FrameDocument {
        tex_content: tex,
        sync_map: FrameSyncTexMap {
            source_file: shared.source_file.copy(),
            temp_file_name,
            segments,
        },
        support_files,
        additional_dependencies,
    }
}

/// A document with the files it depends on: those that it names, and those that its table of
/// contents comes from.
pub fn with_dependencies(document: FrameDocument, related: &[FilePath]) -> (r: GeneratedDocument)
    ensures
        r.tex_content@ == document.tex_content@,
        r.sync_map@ == document.sync_map@,
        document.sync_map.wf() ==> r.sync_map.wf(),
        support_views(r.support_files@) == support_views(document.support_files@),
        is_sorted_set(
            path_views(r.dependencies@),
            path_views(related@) + path_views(document.additional_dependencies@),
        ),
{
    let ghost more = path_views(document.additional_dependencies@);
    let ghost start = path_views(related@);
    let mut all = copied_paths(related);
    let mut i: usize = 0;
    assert(start + more.take(0) =~= start);
    while i < document.additional_dependencies.len()
        invariant
            i <= document.additional_dependencies.len(),
            more == path_views(document.additional_dependencies@),
            path_views(all@) == start + more.take(i as int),
        decreases document.additional_dependencies.len() - i,
    {
        push_path(&mut all, document.additional_dependencies[i].copy());
        i += 1;
        assert(start + more.take(i as int) =~= (start + more.take(i - 1)).push(more[i - 1]));
    }
    assert(more.take(i as int) =~= more);
    let dependencies = sorted_set(&all);
    GeneratedDocument {
        tex_content: document.tex_content,
        sync_map: document.sync_map,
        dependencies,
        support_files: document.support_files,
    }
}

// ---------------------------------------------------------------------------
// What the lines of a document come from
// ---------------------------------------------------------------------------

/// Whether a text ends a line.
spec fn ends_line(text: Seq<char>) -> bool {
    text.len() > 0 && text.last() == '\n'
}

proof fn lemma_context_ends_line(prefix: Seq<char>, context: Seq<SnippetView>, n: int)
    requires
        ends_line(prefix),
    ensures
        ends_line(with_context(prefix, context, n)),
    decreases n,
{
    if n > 0 {
        lemma_context_ends_line(prefix, context, n - 1);
        let last = with_newline(context[n - 1].content);
        assert(with_context(prefix, context, n).last() == last.last());
    }
}

proof fn lemma_prefix_ends_line(
    shared: SharedView,
    frame: Seq<char>,
    context: Seq<SnippetView>,
    label: FrameLabel,
    toc: TocSupportView,
)
    requires
        toc_setup(toc).len() > 0 ==> toc_setup(toc).last() == '\n',
    ensures
        ends_line(
            frame_prefix(
                titled_head(
                    format_line(shared.precompile, shared.preamble_name),
                    shared.preamble,
                    shared.title,
                    frame,
                ),
                context,
                label,
                shared.correct_frame_numbers,
                toc,
            ),
        ),
{
    reveal_strlit("\n");
    reveal_strlit("");
    reveal_strlit("\n\\begin{document}\n");
    reveal_strlit("}\n");
    let format = format_line(shared.precompile, shared.preamble_name);
    let head = titled_head(format, shared.preamble, shared.title, frame);
    assert(ends_line(head));
    lemma_context_ends_line(head, context, context.len() as int);
    let a = with_context(head, context, context.len() as int);
    let counter = counter_setup(label, shared.correct_frame_numbers);
    let b = a + counter;
    assert(ends_line(b)) by {
        if counter.len() > 0 {
            assert(b.last() == counter.last());
        } else {
            assert(b =~= a);
        }
    }
    let c = b + display_setup(label);
    assert(ends_line(c)) by {
        if label is Toc {
            lemma_hidden_number_ends_line();
            assert(c.last() == HIDE_FRAME_NUMBER@.last());
        } else {
            assert(c =~= b);
        }
    }
    let d = c + toc_setup(toc);
    assert(ends_line(d)) by {
        if toc_setup(toc).len() > 0 {
            assert(d.last() == toc_setup(toc).last());
        } else {
            assert(d =~= c);
        }
    }
}

proof fn lemma_hidden_number_ends_line()
    ensures
        ends_line(HIDE_FRAME_NUMBER@),
{
    reveal_strlit("\\makeatletter\n\\def\\insertframenumber{}\n\\setbeamertemplate{page number in head/foot}{}\n\\setbeamertemplate{frame numbering}{}\n\\makeatother\n");
}

/// The lines of a frame are found in its document, and what points at them is led back to the
/// lines of the source they come from.
pub proof fn law_frame_lines_lead_back_to_the_source(
    shared: SharedView,
    frame: Seq<char>,
    start_line: nat,
    context: Seq<SnippetView>,
    label: FrameLabel,
    toc: TocSupportView,
    k: int,
)
    requires
        line_fits(start_line as int),
        toc_setup(toc).len() > 0 ==> toc_setup(toc).last() == '\n',
        0 <= k < chunks(frame).len(),
        frame_document_view(
            shared,
            frame,
            (start_line, chunks(frame).len()),
            context,
            label,
            toc,
        ).tex_content.len() <= usize::MAX,
    ensures
        ({
            let doc = frame_document_view(
                shared,
                frame,
                (start_line, chunks(frame).len()),
                context,
                label,
                toc,
            );
            let head = titled_head(
                format_line(shared.precompile, shared.preamble_name),
                shared.preamble,
                shared.title,
                frame,
            );
            let before = chunks(
                frame_prefix(head, context, label, shared.correct_frame_numbers, toc),
            ).len();
            &&& before + k < chunks(doc.tex_content).len()
            &&& crate::search::starts_with(chunks(doc.tex_content)[before + k], chunks(frame)[k])
            &&& mapped_line(doc.sync_map.segments, (before + k + 1) as nat) == start_line + k
        }),
{
    let count = chunks(frame).len();
    let doc = frame_document_view(shared, frame, (start_line, count), context, label, toc);
    let format = format_line(shared.precompile, shared.preamble_name);
    let head = titled_head(format, shared.preamble, shared.title, frame);
    let prefix = frame_prefix(head, context, label, shared.correct_frame_numbers, toc);
    let before = chunks(prefix).len();
    lemma_prefix_ends_line(shared, frame, context, label, toc);
    let tail = "\n\\end{document}\n"@;
    reveal_strlit("\n");
    assert(doc.tex_content =~= prefix + (frame + tail));
    lemma_chunks_concat(prefix, frame + tail);
    lemma_chunks_longer(frame, tail, k);
    assert(prefix + frame + "\n"@ =~= prefix + (frame + "\n"@));
    lemma_chunks_concat(prefix, frame + "\n"@);
    assert((frame + "\n"@).drop_last() =~= frame);
    assert(chunks(frame + "\n"@).len() >= count);
    lemma_chunks(prefix);
    lemma_chunks(frame);
    lemma_chunks(prefix + frame + "\n"@);
    assert(doc.tex_content.len() == prefix.len() + frame.len() + tail.len());
    reveal_strlit("\n\\end{document}\n");
    let segments = doc.sync_map.segments;
    let at = segments.len() - 2;
    let line = (before + k + 1) as nat;
    assert(segments[at] == run_of_lines(before + 1, count, start_line));
    assert(segments[at + 1] == run_of_lines(
        chunks(prefix + frame + "\n"@).len() + 1,
        1,
        shared.end_line,
    ));
    assert(segments[at].covers(line as int));
    assert forall|i: int| at < i < segments.len() implies !(#[trigger] segments[i]).covers(
        line as int,
    ) by {
        assert(i == at + 1);
    }
    law_last_covering_segment_decides(segments, line, at);
}

// ---------------------------------------------------------------------------
// What documents are made of
// ---------------------------------------------------------------------------

/// The document for a frame holds, in this order, the line that loads a format where one is used,
/// the preamble, the start of the document, what is said of the title where the frame shows it, the
/// context, the frame counter, how the number is shown, what a table of contents needs, the frame
/// itself, and the end of the document.
pub proof fn law_documents_hold_all_parts_in_order(
    shared: SharedView,
    frame: Seq<char>,
    frame_lines: (nat, nat),
    context: Seq<SnippetView>,
    label: FrameLabel,
    toc: TocSupportView,
)
    ensures
        ({
            let tex = frame_document_view(shared, frame, frame_lines, context, label, toc)
                .tex_content;
            let start = (if shared.precompile {
                "%&"@ + shared.preamble_name + "\n"@
            } else {
                Seq::empty()
            }) + shared.preamble + "\n\\begin{document}\n"@ + (if needs_title(frame)
                && shared.title.len() > 0 {
                shared.title + "\n"@
            } else {
                Seq::empty()
            });
            tex == with_context(start, context, context.len() as int) + counter_setup(
                label,
                shared.correct_frame_numbers,
            ) + display_setup(label) + (match toc {
                TocSupportView::Supported(p) => p.runtime_setup,
                _ => Seq::empty(),
            }) + frame + "\n\\end{document}\n"@
        }),
{
    reveal_strlit("");
    let start = (if shared.precompile {
        "%&"@ + shared.preamble_name + "\n"@
    } else {
        Seq::empty()
    }) + shared.preamble + "\n\\begin{document}\n"@ + (if needs_title(frame) && shared.title.len()
        > 0 {
        shared.title + "\n"@
    } else {
        Seq::empty()
    });
    let format = format_line(shared.precompile, shared.preamble_name);
    assert(""@ =~= Seq::<char>::empty());
    assert(titled_head(format, shared.preamble, shared.title, frame) =~= start);
}

/// A frame that shows the title page or a part of the title gets what is said of the title, wherever
/// in the frame that stands.
pub proof fn law_frames_that_show_the_title_get_it(before: Seq<char>, behind: Seq<char>)
    ensures
        needs_title(before + "\\titlepage"@ + behind),
        needs_title(before + "\\maketitle"@ + behind),
        needs_title(before + "\\inserttitle"@ + behind),
        needs_title(before + "\\insertauthor"@ + behind),
        needs_title(before + "\\insertdate"@ + behind),
        needs_title(before + "\\insertinstitute"@ + behind),
        needs_title(before + "\\insertsubtitle"@ + behind),
{
    lemma_contains(before, "\\titlepage"@, behind);
    lemma_contains(before, "\\maketitle"@, behind);
    lemma_contains(before, "\\inserttitle"@, behind);
    lemma_contains(before, "\\insertauthor"@, behind);
    lemma_contains(before, "\\insertdate"@, behind);
    lemma_contains(before, "\\insertinstitute"@, behind);
    lemma_contains(before, "\\insertsubtitle"@, behind);
}

proof fn lemma_contains(before: Seq<char>, part: Seq<char>, behind: Seq<char>)
    ensures
        contains(before + part + behind, part),
{
    let all = before + part + behind;
    let n = before.len() as int;
    assert(all.subrange(n, n + part.len()) =~= part);
    crate::search::lemma_first_match_exists(all, part, 0, n);
}

/// The name of a document follows from the document itself, from the files next to it, and from the
/// settings: from the digest of these texts, one behind the other.
pub proof fn law_documents_are_named_after_all_they_depend_on(
    shared: SharedView,
    frame: Seq<char>,
    frame_lines: (nat, nat),
    context: Seq<SnippetView>,
    label: FrameLabel,
    toc: TocSupportView,
)
    ensures
        ({
            let doc = frame_document_view(shared, frame, frame_lines, context, label, toc);
            let key = cache_key(shared.engine, shared.precompile, shared.options);
            let name = |text: Seq<char>| "faster-beamer-temp-"@ + text_digest(text) + ".tex"@;
            &&& doc.support_files.len() == 0 ==> doc.sync_map.temp_file_name == name(
                doc.tex_content + key,
            )
            &&& doc.support_files.len() == 1 ==> doc.sync_map.temp_file_name == name(
                doc.tex_content + doc.support_files[0].0 + "\n"@ + doc.support_files[0].1 + "\n"@
                    + key,
            )
            &&& toc is Supported ==> doc.support_files == toc->Supported_0.support_files
                && doc.additional_dependencies == toc->Supported_0.additional_dependencies
            &&& !(toc is Supported) ==> doc.support_files.len() == 0
                && doc.additional_dependencies.len() == 0
            &&& doc.sync_map.source_file == shared.source_file
        }),
{
    let doc = frame_document_view(shared, frame, frame_lines, context, label, toc);
    let key = cache_key(shared.engine, shared.precompile, shared.options);
    let files = doc.support_files;
    let tex = doc.tex_content;
    if files.len() == 0 {
        assert(tex + support_text(files) + key =~= tex + key);
    } else if files.len() == 1 {
        assert(support_text(files.drop_last()) =~= Seq::<char>::empty());
        assert(support_text(files) =~= files[0].0 + "\n"@ + files[0].1 + "\n"@);
        assert(tex + support_text(files) + key =~= tex + files[0].0 + "\n"@ + files[0].1 + "\n"@
            + key);
    }
}

/// A preamble is dumped under a name that follows from its text and from the settings.
pub proof fn law_preambles_are_named_after_all_they_depend_on(
    preamble: Seq<char>,
    engine: LatexEngine,
    precompile: bool,
    options: Seq<Seq<char>>,
)
    ensures
        preamble_job(preamble, engine, precompile, options) == "faster-beamer-preamble-"@
            + text_digest(preamble + cache_key(engine, precompile, options)),
{
}

/// Generated files are named after different texts where they are made with different options, as
/// long as no option holds a newline.
pub proof fn law_cache_key_tells_options_apart(
    engine: LatexEngine,
    precompile: bool,
    x: Seq<Seq<char>>,
    y: Seq<Seq<char>>,
)
    requires
        forall|i: int| 0 <= i < x.len() ==> !(#[trigger] x[i]).contains('\n'),
        forall|i: int| 0 <= i < y.len() ==> !(#[trigger] y[i]).contains('\n'),
        cache_key(engine, precompile, x) == cache_key(engine, precompile, y),
    ensures
        x == y,
{
    reveal_strlit("");
    reveal_strlit("% faster-beamer compiler options\n");
    let s = cache_key(engine, precompile, x);
    let t = cache_key(engine, precompile, y);
    let title = "% faster-beamer compiler options\n"@;
    let head = "\n% faster-beamer latex engine\n"@ + engine_name(engine) + "\n"@ + (if precompile {
        "% faster-beamer precompile preamble: true\n"@
    } else {
        "% faster-beamer precompile preamble: false\n"@
    });
    let n = head.len() as int;
    if x.len() == 0 {
        assert(s.len() == n);
        assert(y.len() == 0 || t.len() >= n + title.len());
        assert(x =~= y);
    } else {
        assert(s.len() >= n + title.len());
        assert(y.len() > 0) by {
            if y.len() == 0 {
                assert(t.len() == n);
            }
        }
        let from = n + title.len();
        assert(s.skip(from) =~= option_lines(x));
        assert(t.skip(from) =~= option_lines(y));
        lemma_option_lines(x);
        lemma_option_lines(y);
        let a = x.map_values(|o: Seq<char>| o.push('\n'));
        let b = y.map_values(|o: Seq<char>| o.push('\n'));
        assert(a == b);
        assert forall|i: int| 0 <= i < x.len() implies x[i] == y[i] by {
            assert(a[i] == b[i]);
            assert(x[i].push('\n').drop_last() =~= x[i]);
            assert(y[i].push('\n').drop_last() =~= y[i]);
        }
        assert(x =~= y);
    }
}

proof fn lemma_option_lines(options: Seq<Seq<char>>)
    requires
        forall|i: int| 0 <= i < options.len() ==> !(#[trigger] options[i]).contains('\n'),
    ensures
        chunks(option_lines(options)) == options.map_values(|o: Seq<char>| o.push('\n')),
{
    let parts = options.map_values(|o: Seq<char>| o.push('\n'));
    assert(crate::lines::are_chunks(parts)) by {
        assert forall|i: int, j: int|
            0 <= i < parts.len() && 0 <= j < parts[i].len() - 1 implies #[trigger] parts[i][j]
            != '\n' by {
            assert(parts[i][j] == options[i][j]);
            assert(options[i].contains(options[i][j]));
        }
    }
    crate::lines::law_chunks_of_concat(parts);
}

// ---------------------------------------------------------------------------
// Where the other lines of a document lead
// ---------------------------------------------------------------------------

proof fn lemma_context_lines(
    head: Seq<char>,
    context: Seq<SnippetView>,
    n: int,
    i: int,
) -> (at: int)
    requires
        ends_line(head),
        0 <= i < n <= context.len(),
        chunks(context[i].content).len() > 0,
        with_context(head, context, n).len() <= usize::MAX,
    ensures
        ({
            let segments = context_segments(head, context, n);
            let start = chunks(with_context(head, context, i)).len() + 1;
            let count = chunks(context[i].content).len();
            &&& 0 <= at < segments.len()
            &&& segments[at] == run_of_lines(start, count, context[i].source_start_line)
            &&& forall|j: int|
                at < j < segments.len() ==> (#[trigger] segments[j]).temp_start_line >= start
                    + count
            &&& start + count <= chunks(with_context(head, context, n)).len() + 1
            &&& chunks(with_context(head, context, n)).len() <= usize::MAX
        }),
    decreases n,
{
    let before = with_context(head, context, n - 1);
    let last = with_newline(context[n - 1].content);
    let all = with_context(head, context, n);
    lemma_context_ends_line(head, context, n - 1);
    lemma_chunks_concat(before, last);
    lemma_chunks(before);
    lemma_chunks(all);
    lemma_lines_with_newline(context[n - 1].content);
    let front = context_segments(head, context, n - 1);
    let segments = context_segments(head, context, n);
    if i == n - 1 {
        front.len() as int
    } else {
        let at = lemma_context_lines(head, context, n - 1, i);
        assert(segments[at] == front[at]);
        assert forall|j: int| at < j < segments.len() implies (
        #[trigger] segments[j]).temp_start_line >= chunks(with_context(head, context, i)).len() + 1
            + chunks(context[i].content).len() by {
            if j < front.len() {
                assert(segments[j] == front[j]);
            }
        }
        at
    }
}

proof fn lemma_lines_with_newline(text: Seq<char>)
    ensures
        chunks(with_newline(text)).len() >= chunks(text).len(),
{
    if !(text.len() > 0 && text.last() == '\n') {
        assert(text.push('\n').drop_last() =~= text);
        lemma_chunks(text);
    }
}

/// The lines of a definition are found in the document of every frame that sees it, and what points
/// at them is led back to the lines of the source they come from.
pub proof fn law_context_lines_lead_back_to_the_source(
    shared: SharedView,
    frame: Seq<char>,
    frame_lines: (nat, nat),
    context: Seq<SnippetView>,
    label: FrameLabel,
    toc: TocSupportView,
    i: int,
    k: int,
)
    requires
        context_fits(context),
        toc_setup(toc).len() > 0 ==> toc_setup(toc).last() == '\n',
        0 <= i < context.len(),
        0 <= k < chunks(context[i].content).len(),
        frame_document_view(shared, frame, frame_lines, context, label, toc).tex_content.len()
            <= usize::MAX,
    ensures
        ({
            let doc = frame_document_view(shared, frame, frame_lines, context, label, toc);
            let head = titled_head(
                format_line(shared.precompile, shared.preamble_name),
                shared.preamble,
                shared.title,
                frame,
            );
            let before = chunks(with_context(head, context, i)).len();
            &&& before + k < chunks(doc.tex_content).len()
            &&& crate::search::starts_with(
                chunks(doc.tex_content)[before + k],
                chunks(context[i].content)[k],
            )
            &&& mapped_line(doc.sync_map.segments, (before + k + 1) as nat)
                == context[i].source_start_line + k
        }),
{
    let doc = frame_document_view(shared, frame, frame_lines, context, label, toc);
    let format = format_line(shared.precompile, shared.preamble_name);
    let head = titled_head(format, shared.preamble, shared.title, frame);
    let prefix = frame_prefix(head, context, label, shared.correct_frame_numbers, toc);
    let n = context.len() as int;
    let whole = with_context(head, context, n);
    lemma_head_ends_line(shared, frame);
    let more = doc.tex_content.skip(whole.len() as int);
    assert(doc.tex_content =~= whole + more);
    lemma_text_of_definition(head, context, more, i, k);
    lemma_prefix_ends_line(shared, frame, context, label, toc);
    assert(prefix.take(whole.len() as int) =~= whole);
    reveal_strlit("\n\\end{document}\n");
    assert(doc.tex_content.len() == prefix.len() + frame.len() + "\n\\end{document}\n"@.len());
    lemma_map_of_definition(
        head_segments(format, shared.preamble, shared.begin_line),
        head,
        context,
        prefix,
        frame,
        frame_lines,
        shared.end_line,
        i,
        k,
    );
}

proof fn lemma_text_of_definition(
    head: Seq<char>,
    context: Seq<SnippetView>,
    more: Seq<char>,
    i: int,
    k: int,
)
    requires
        ends_line(head),
        0 <= i < context.len(),
        0 <= k < chunks(context[i].content).len(),
    ensures
        ({
            let text = with_context(head, context, context.len() as int) + more;
            let before = chunks(with_context(head, context, i)).len();
            &&& before + k < chunks(text).len()
            &&& crate::search::starts_with(chunks(text)[before + k], chunks(context[i].content)[k])
        }),
{
    let n = context.len() as int;
    let whole = with_context(head, context, n);
    let text = whole + more;
    let upto = with_context(head, context, i);
    let content = context[i].content;
    lemma_context_ends_line(head, context, i);
    lemma_context_prefix(head, context, i, n);
    crate::context::law_context_is_written_in_order(head, context, n, i);
    let a = upto.len() as int;
    let b = a + content.len();
    let tail = text.skip(b);
    assert(text.take(a) =~= upto) by {
        assert(text.take(a) =~= whole.take(a));
    }
    assert(text.subrange(a, b) =~= content) by {
        assert(text.subrange(a, b) =~= whole.subrange(a, b));
    }
    assert(text =~= upto + (content + tail)) by {
        assert(text =~= text.take(a) + (text.subrange(a, b) + tail));
    }
    lemma_chunks_concat(upto, content + tail);
    lemma_chunks_longer(content, tail, k);
}

proof fn lemma_map_of_definition(
    first: Seq<SyncTexLineSegment>,
    head: Seq<char>,
    context: Seq<SnippetView>,
    prefix: Seq<char>,
    frame: Seq<char>,
    frame_lines: (nat, nat),
    end_line: nat,
    i: int,
    k: int,
)
    requires
        ends_line(head),
        ends_line(prefix),
        context_fits(context),
        0 <= i < context.len(),
        0 <= k < chunks(context[i].content).len(),
        prefix.len() + frame.len() + 1 <= usize::MAX,
        with_context(head, context, context.len() as int).len() <= prefix.len(),
        prefix.take(with_context(head, context, context.len() as int).len() as int) == with_context(
            head,
            context,
            context.len() as int,
        ),
    ensures
        mapped_line(
            (first + context_segments(head, context, context.len() as int)).push(
                run_of_lines(chunks(prefix).len() + 1, frame_lines.1, frame_lines.0),
            ).push(run_of_lines(chunks(prefix + frame + "\n"@).len() + 1, 1, end_line)),
            (chunks(with_context(head, context, i)).len() + k + 1) as nat,
        ) == context[i].source_start_line + k,
{
    reveal_strlit("\n");
    let n = context.len() as int;
    let whole = with_context(head, context, n);
    let more = prefix.skip(whole.len() as int);
    let middle = context_segments(head, context, n);
    let frame_run = run_of_lines(chunks(prefix).len() + 1, frame_lines.1, frame_lines.0);
    let all = prefix + frame + "\n"@;
    let end_run = run_of_lines(chunks(all).len() + 1, 1, end_line);
    let segments = (first + middle).push(frame_run).push(end_run);
    let at = lemma_context_lines(head, context, n, i);
    lemma_context_ends_line(head, context, n);
    assert(prefix =~= whole + more);
    lemma_chunks_concat(whole, more);
    assert(all =~= prefix + (frame + "\n"@));
    lemma_chunks_concat(prefix, frame + "\n"@);
    lemma_chunks(prefix);
    lemma_chunks(all);
    let line = (chunks(with_context(head, context, i)).len() + k + 1) as nat;
    let place = first.len() + at;
    assert(segments[place] == middle[at]);
    assert(segments[place].covers(line as int));
    assert forall|j: int| place < j < segments.len() implies !(#[trigger] segments[j]).covers(
        line as int,
    ) by {
        if j < first.len() + middle.len() {
            assert(segments[j] == middle[j - first.len()]);
        } else if j == first.len() + middle.len() {
            assert(segments[j] == frame_run);
        } else {
            assert(segments[j] == end_run);
        }
    }
    law_last_covering_segment_decides(segments, line, place);
}

proof fn lemma_context_prefix(head: Seq<char>, context: Seq<SnippetView>, i: int, n: int)
    requires
        0 <= i <= n,
    ensures
        with_context(head, context, i).len() <= with_context(head, context, n).len(),
        with_context(head, context, n).take(with_context(head, context, i).len() as int)
            == with_context(head, context, i),
    decreases n - i,
{
    let short = with_context(head, context, i);
    if i < n {
        lemma_context_prefix(head, context, i, n - 1);
        assert(with_context(head, context, n).take(short.len() as int) =~= with_context(
            head,
            context,
            n - 1,
        ).take(short.len() as int));
    } else {
        assert(short.take(short.len() as int) =~= short);
    }
}

proof fn lemma_head_ends_line(shared: SharedView, frame: Seq<char>)
    ensures
        ends_line(
            titled_head(
                format_line(shared.precompile, shared.preamble_name),
                shared.preamble,
                shared.title,
                frame,
            ),
        ),
{
    reveal_strlit("\n");
    reveal_strlit("\n\\begin{document}\n");
}

proof fn lemma_context_starts(head: Seq<char>, context: Seq<SnippetView>, n: int)
    requires
        ends_line(head),
        0 <= n <= context.len(),
        with_context(head, context, n).len() <= usize::MAX,
    ensures
        chunks(head).len() <= chunks(with_context(head, context, n)).len() <= usize::MAX,
        forall|j: int|
            0 <= j < context_segments(head, context, n).len() ==> (#[trigger] context_segments(
                head,
                context,
                n,
            )[j]).temp_start_line >= chunks(head).len() + 1,
    decreases n,
{
    lemma_chunks(with_context(head, context, n));
    if n > 0 {
        let before = with_context(head, context, n - 1);
        lemma_context_ends_line(head, context, n - 1);
        lemma_chunks_concat(before, with_newline(context[n - 1].content));
        lemma_context_starts(head, context, n - 1);
        let front = context_segments(head, context, n - 1);
        let all = context_segments(head, context, n);
        assert forall|j: int| 0 <= j < all.len() implies (#[trigger] all[j]).temp_start_line
            >= chunks(head).len() + 1 by {
            if j < front.len() {
                assert(all[j] == front[j]);
            }
        }
    }
}

/// The lines of the preamble are found in the document of every frame, and what points at them is
/// led back to the lines with the same numbers that the preamble has for itself. The start of the
/// document leads back to the start of the document.
pub proof fn law_preamble_lines_lead_back_to_the_source(
    shared: SharedView,
    frame: Seq<char>,
    frame_lines: (nat, nat),
    context: Seq<SnippetView>,
    label: FrameLabel,
    toc: TocSupportView,
    k: int,
)
    requires
        line_fits(shared.begin_line as int),
        toc_setup(toc).len() > 0 ==> toc_setup(toc).last() == '\n',
        0 <= k < chunks(shared.preamble).len(),
        frame_document_view(shared, frame, frame_lines, context, label, toc).tex_content.len()
            <= usize::MAX,
    ensures
        ({
            let doc = frame_document_view(shared, frame, frame_lines, context, label, toc);
            let format = format_line(shared.precompile, shared.preamble_name);
            let before = chunks(format).len();
            let begin = chunks(format + shared.preamble + "\n"@).len();
            &&& before + k < chunks(doc.tex_content).len()
            &&& crate::search::starts_with(
                chunks(doc.tex_content)[before + k],
                chunks(shared.preamble)[k],
            )
            &&& mapped_line(doc.sync_map.segments, (before + k + 1) as nat) == k + 1
            &&& mapped_line(doc.sync_map.segments, begin + 1) == shared.begin_line
        }),
{
    reveal_strlit("\n\\end{document}\n");
    let doc = frame_document_view(shared, frame, frame_lines, context, label, toc);
    let format = format_line(shared.precompile, shared.preamble_name);
    let head = titled_head(format, shared.preamble, shared.title, frame);
    let prefix = frame_prefix(head, context, label, shared.correct_frame_numbers, toc);
    let whole = with_context(head, context, context.len() as int);
    let tex = doc.tex_content;
    let n = (format.len() + shared.preamble.len()) as int;
    lemma_head_ends_line(shared, frame);
    lemma_context_prefix(head, context, 0, context.len() as int);
    assert(head.take(n) =~= format + shared.preamble);
    assert(tex.take(n) =~= format + shared.preamble) by {
        assert(tex.take(n) =~= whole.take(n));
        assert(whole.take(head.len() as int).take(n) =~= whole.take(n));
    }
    lemma_text_of_preamble(format, shared.preamble, tex, k);
    lemma_prefix_ends_line(shared, frame, context, label, toc);
    assert(prefix.take(whole.len() as int) =~= whole);
    assert(tex.len() == prefix.len() + frame.len() + "\n\\end{document}\n"@.len());
    lemma_base_of_head(format, shared.preamble, shared.title, frame);
    lemma_map_of_preamble(
        format,
        shared.preamble,
        head,
        context,
        prefix,
        frame,
        frame_lines,
        shared.begin_line,
        shared.end_line,
        k,
    );
}

proof fn lemma_text_of_preamble(format: Seq<char>, preamble: Seq<char>, tex: Seq<char>, k: int)
    requires
        exists|p: bool, name: Seq<char>| format == #[trigger] format_line(p, name),
        format.len() + preamble.len() <= tex.len(),
        tex.take((format.len() + preamble.len()) as int) == format + preamble,
        0 <= k < chunks(preamble).len(),
    ensures
        chunks(format).len() + k < chunks(tex).len(),
        crate::search::starts_with(chunks(tex)[chunks(format).len() + k], chunks(preamble)[k]),
{
    reveal_strlit("");
    reveal_strlit("\n");
    let n = (format.len() + preamble.len()) as int;
    let rest = tex.skip(n);
    assert(tex =~= tex.take(n) + rest);
    assert(tex =~= format + (preamble + rest));
    lemma_chunks_concat(format, preamble + rest);
    lemma_chunks_longer(preamble, rest, k);
}

proof fn lemma_base_of_head(
    format: Seq<char>,
    preamble: Seq<char>,
    title: Seq<char>,
    frame: Seq<char>,
)
    requires
        exists|p: bool, name: Seq<char>| format == #[trigger] format_line(p, name),
    ensures
        ({
            let head = titled_head(format, preamble, title, frame);
            let base = format + preamble + "\n"@;
            &&& chunks(format).len() + chunks(preamble).len() <= chunks(base).len()
            &&& chunks(base).len() < chunks(head).len()
        }),
{
    reveal_strlit("");
    reveal_strlit("\n");
    reveal_strlit("\n\\begin{document}\n");
    let head = titled_head(format, preamble, title, frame);
    let base = format + preamble + "\n"@;
    assert(base =~= format + (preamble + "\n"@));
    lemma_chunks_concat(format, preamble + "\n"@);
    assert((preamble + "\n"@).drop_last() =~= preamble);
    lemma_chunks(preamble);
    assert(chunks(preamble + "\n"@).len() >= chunks(preamble).len());
    let below = head.skip(base.len() as int);
    let start = document_head(format, preamble);
    assert(start.take(base.len() as int) =~= base);
    assert(head.take(base.len() as int) =~= start.take(base.len() as int));
    assert(head =~= head.take(base.len() as int) + below);
    assert(below.len() > 0);
    lemma_chunks_concat(base, below);
    lemma_chunks(below);
}

proof fn lemma_map_of_preamble(
    format: Seq<char>,
    preamble: Seq<char>,
    head: Seq<char>,
    context: Seq<SnippetView>,
    prefix: Seq<char>,
    frame: Seq<char>,
    frame_lines: (nat, nat),
    begin_line: nat,
    end_line: nat,
    k: int,
)
    requires
        ends_line(head),
        ends_line(prefix),
        line_fits(begin_line as int),
        0 <= k < chunks(preamble).len(),
        chunks(format).len() + chunks(preamble).len() <= chunks(format + preamble + "\n"@).len()
            < chunks(head).len(),
        prefix.len() + frame.len() + 1 <= usize::MAX,
        with_context(head, context, context.len() as int).len() <= prefix.len(),
        prefix.take(with_context(head, context, context.len() as int).len() as int) == with_context(
            head,
            context,
            context.len() as int,
        ),
    ensures
        ({
            let segments = frame_segments(
                format,
                preamble,
                head,
                context,
                prefix,
                frame,
                frame_lines,
                begin_line,
                end_line,
            );
            &&& mapped_line(segments, (chunks(format).len() + k + 1) as nat) == k + 1
            &&& mapped_line(segments, chunks(format + preamble + "\n"@).len() + 1) == begin_line
        }),
{
    reveal_strlit("\n");
    let n = context.len() as int;
    let whole = with_context(head, context, n);
    let more = prefix.skip(whole.len() as int);
    let first = head_segments(format, preamble, begin_line);
    let middle = context_segments(head, context, n);
    let frame_run = run_of_lines(chunks(prefix).len() + 1, frame_lines.1, frame_lines.0);
    let all = prefix + frame + "\n"@;
    let end_run = run_of_lines(chunks(all).len() + 1, 1, end_line);
    let segments = (first + middle).push(frame_run).push(end_run);
    lemma_context_starts(head, context, n);
    lemma_context_ends_line(head, context, n);
    assert(prefix =~= whole + more);
    lemma_chunks_concat(whole, more);
    assert(all =~= prefix + (frame + "\n"@));
    lemma_chunks_concat(prefix, frame + "\n"@);
    lemma_chunks(prefix);
    lemma_chunks(all);
    let line = (chunks(format).len() + k + 1) as nat;
    let begin = chunks(format + preamble + "\n"@).len() + 1;
    assert(segments[0] == first[0]);
    assert(segments[1] == first[1]);
    assert forall|j: int| 1 < j < segments.len() implies (#[trigger] segments[j]).temp_start_line
        > begin by {
        if j < first.len() + middle.len() {
            assert(segments[j] == middle[j - first.len()]);
        } else if j == first.len() + middle.len() {
            assert(segments[j] == frame_run);
        } else {
            assert(segments[j] == end_run);
        }
    }
    assert(segments[0].covers(line as int));
    assert forall|j: int| 0 < j < segments.len() implies !(#[trigger] segments[j]).covers(
        line as int,
    ) by {
        if j > 1 {
            assert(segments[j].temp_start_line > begin);
        }
    }
    law_last_covering_segment_decides(segments, line, 0);
    assert(segments[1].covers(begin as int));
    law_last_covering_segment_decides(segments, begin, 1);
}

/// The PDF of a generated file is in the directory of the cache, under the name of the file.
pub proof fn law_pdfs_are_called_like_their_source(cache_subdir: PathView, base: Seq<char>)
    requires
        base.len() > 0,
        crate::paths::plain_part(
            cache_subdir.style,
            crate::path_parts::PartView::Normal(base.push('.') + "tex"@),
        ),
    ensures
        pdf_path(cache_subdir, base.push('.') + "tex"@).parts == cache_subdir.parts.push(
            crate::path_parts::PartView::Normal(base.push('.') + "pdf"@),
        ),
{
    reveal_strlit("tex");
    reveal_strlit("pdf");
    crate::paths::law_renamed_files_are_in_the_directory(cache_subdir, base, "tex"@, "pdf"@);
}

}
