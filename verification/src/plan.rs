//! What a build has to do: which frames are typeset, how, and what is made of the outcome.
use crate::artifacts::{
    dependency_job_sidecars, dependency_sidecars, frame_job_sidecars, frame_sidecars, job_file,
    job_file_path,
};
use crate::context::{context_fits, snippet_views, DocumentContextSnippet};
use crate::document::{
    compiled_pdf_path, document_names, frame_document, frame_document_view, pdf_path, FrameDocument,
    GeneratedDocument, SharedParts,
};
use crate::frames::{
    filters_pick, frame_label_for_index, frame_matches_filter, index_label, shows_dynamic_toc,
    shows_toc, FrameLabel,
};
use crate::latexcompile::{
    command_views, engine_name, CommandLine, CommandView, LatexEngine, LatexInput, LatexRun,
    LatexRunOptions,
};
use crate::options::BuildMode;
use crate::paths::{child, file_name, lone_name, path_views, stem, FilePath, PathView};
use crate::presentation::{line_fits, line_views, SourceFrames};
use crate::related::push_path;
use crate::search::{contains, has_text};
use crate::sections::{
    section_views, source_toc, toc_frame_patch, toc_support, SourceSection, TocFrameSupport,
    TocSupportView,
};
use crate::text::{chars_of, optional_text, owned, push_text, push_texts, same_text, texts};
use crate::united::{build_compiler, build_compiler_for};
use vstd::prelude::*;

verus! {

// ---------------------------------------------------------------------------
// Documents for all frames
// ---------------------------------------------------------------------------

/// What is known of the place of a presentation, and of a full build of it.
#[verifier::ext_equal]
pub struct PlaceView {
    pub input_dir: PathView,
    pub input_name: Seq<char>,
    pub toc_file: Option<Seq<char>>,
}

/// How the table of contents of a frame is made.
pub open spec fn frame_toc(
    place: PlaceView,
    frame: Seq<char>,
    start_line: nat,
    begin_line: nat,
    sections: Seq<crate::sections::SectionView>,
) -> TocSupportView {
    toc_support(
        shows_toc(frame),
        shows_dynamic_toc(frame),
        start_line,
        begin_line,
        source_toc(place.input_dir, place.input_name),
        place.toc_file,
        sections,
    )
}

/// How many of the first `n` frames show a table of contents that cannot be made for a single
/// frame.
pub open spec fn unsupported_tocs(
    place: PlaceView,
    frames: Seq<Seq<char>>,
    lines: Seq<(nat, nat)>,
    begin_line: nat,
    sections: Seq<crate::sections::SectionView>,
    n: int,
) -> nat
    decreases n,
{
    if n <= 0 {
        0
    } else {
        let before = unsupported_tocs(place, frames, lines, begin_line, sections, n - 1);
        if frame_toc(
            place,
            frames[n - 1],
            lines[n - 1].0,
            begin_line,
            sections,
        ) is UnsupportedDynamic {
            before + 1
        } else {
            before
        }
    }
}

/// The documents for all frames, and how many of the frames show a table of contents that cannot
/// be made for a single frame.
pub fn generate_documents(
    shared: &SharedParts,
    frames: &SourceFrames,
    contexts: &[Vec<DocumentContextSnippet>],
    labels: &[FrameLabel],
    input_dir: &FilePath,
    input_path: &FilePath,
    toc_file: Option<&str>,
    sections: &[SourceSection],
) -> (r: (Vec<FrameDocument>, usize))
    requires
        shared.wf(),
        file_name(input_path@) is Some,
        frames.lines@.len() == frames.frames@.len(),
        contexts@.len() == frames.frames@.len(),
        labels@.len() == frames.frames@.len(),
        forall|i: int|
            0 <= i < frames.lines@.len() ==> line_fits((#[trigger] frames.lines@[i]).0 as int)
                && frames.lines@[i].1 <= usize::MAX,
        forall|i: int|
            0 <= i < contexts@.len() ==> context_fits(snippet_views((#[trigger] contexts@[i])@)),
    ensures
        ({
            let place = PlaceView {
                input_dir: input_dir@,
                input_name: file_name(input_path@)->0,
                toc_file: optional_text(toc_file),
            };
            let all = texts(frames.frames@);
            &&& r.0@.len() == frames.frames@.len()
            &&& forall|i: int|
                0 <= i < r.0@.len() ==> (#[trigger] r.0@[i])@ == frame_document_view(
                    shared@,
                    all[i],
                    (frames.lines@[i].0 as nat, frames.lines@[i].1 as nat),
                    snippet_views(contexts@[i]@),
                    labels@[i],
                    frame_toc(
                        place,
                        all[i],
                        frames.lines@[i].0 as nat,
                        shared.begin_line as nat,
                        section_views(sections@),
                    ),
                ) && r.0@[i].sync_map.wf()
            &&& r.1 == unsupported_tocs(
                place,
                all,
                line_views(frames.lines@),
                shared.begin_line as nat,
                section_views(sections@),
                frames.frames@.len() as int,
            )
        }),
{
    let ghost place = PlaceView {
        input_dir: input_dir@,
        input_name: file_name(input_path@)->0,
        toc_file: optional_text(toc_file),
    };
    let ghost all = texts(frames.frames@);
    let ghost parts = section_views(sections@);
    let mut out: Vec<FrameDocument> = Vec::new();
    let mut unsupported: usize = 0;
    let mut i: usize = 0;
    while i < frames.frames.len()
        invariant
            i <= frames.frames.len(),
            shared.wf(),
            file_name(input_path@) is Some,
            place == (PlaceView {
                input_dir: input_dir@,
                input_name: file_name(input_path@)->0,
                toc_file: optional_text(toc_file),
            }),
            all == texts(frames.frames@),
            parts == section_views(sections@),
            frames.lines@.len() == frames.frames@.len(),
            contexts@.len() == frames.frames@.len(),
            labels@.len() == frames.frames@.len(),
            forall|i: int|
                0 <= i < frames.lines@.len() ==> line_fits((#[trigger] frames.lines@[i]).0 as int)
                    && frames.lines@[i].1 <= usize::MAX,
            forall|i: int|
                0 <= i < contexts@.len() ==> context_fits(
                    snippet_views((#[trigger] contexts@[i])@),
                ),
            out@.len() == i,
            unsupported <= i,
            unsupported == unsupported_tocs(
                place,
                all,
                line_views(frames.lines@),
                shared.begin_line as nat,
                parts,
                i as int,
            ),
            forall|k: int|
                0 <= k < i ==> (#[trigger] out@[k])@ == frame_document_view(
                    shared@,
                    all[k],
                    (frames.lines@[k].0 as nat, frames.lines@[k].1 as nat),
                    snippet_views(contexts@[k]@),
                    labels@[k],
                    frame_toc(
                        place,
                        all[k],
                        frames.lines@[k].0 as nat,
                        shared.begin_line as nat,
                        parts,
                    ),
                ) && out@[k].sync_map.wf(),
        decreases frames.frames.len() - i,
    {
        let frame = frames.frames[i].as_str();
        let lines = frames.lines[i];
        assert(all[i as int] == frame@);
        assert(frames.lines@[i as int] == lines);
        assert(context_fits(snippet_views(contexts@[i as int]@)));
        let toc = toc_frame_patch(
            frame,
            lines.0,
            shared.begin_line,
            input_dir,
            input_path,
            toc_file,
            sections,
        );
        if let TocFrameSupport::UnsupportedDynamic = &toc {
            unsupported += 1;
        }
        let document = frame_document(shared, frame, lines, &contexts[i], labels[i], toc);
        let ghost before = out@;
        out.push(document);
        i += 1;
        assert forall|k: int| 0 <= k < i implies (#[trigger] out@[k])@ == frame_document_view(
            shared@,
            all[k],
            (frames.lines@[k].0 as nat, frames.lines@[k].1 as nat),
            snippet_views(contexts@[k]@),
            labels@[k],
            frame_toc(place, all[k], frames.lines@[k].0 as nat, shared.begin_line as nat, parts),
        ) && out@[k].sync_map.wf() by {
            if k < i - 1 {
                assert(out@[k] == before[k]);
            }
        }
    }
    (out, unsupported)
}

// ---------------------------------------------------------------------------
// What changed
// ---------------------------------------------------------------------------

/// Whether a frame is not as it was at the last build, or its PDF cannot be used again.
pub open spec fn frame_changed(
    frames: Seq<Seq<char>>,
    previous: Seq<Seq<char>>,
    fresh: Seq<bool>,
    force: bool,
    i: int,
) -> bool {
    force || i >= previous.len() || previous[i] != frames[i] || !fresh[i]
}

/// The first frame that changed, from number `i` on. Without one, how many frames there are.
pub open spec fn first_changed(
    frames: Seq<Seq<char>>,
    previous: Seq<Seq<char>>,
    fresh: Seq<bool>,
    force: bool,
    i: int,
) -> int
    decreases frames.len() - i,
{
    if 0 <= i < frames.len() && !frame_changed(frames, previous, fresh, force, i) {
        first_changed(frames, previous, fresh, force, i + 1)
    } else {
        i
    }
}

/// Whether it is known of a frame that it changed, where not all of the flags may be there.
pub open spec fn known_change(
    frames: Seq<Seq<char>>,
    previous: Seq<Seq<char>>,
    fresh: Seq<bool>,
    force: bool,
    i: int,
) -> bool {
    force || i >= previous.len() || previous[i] != frames[i] || (i < fresh.len() && !fresh[i])
}

/// The first frame that changed. `fresh` says which of the PDFs can be used again. No flag is
/// needed behind the first frame that changed, nor for a frame whose text did.
pub fn first_changed_frame_index(
    frames: &[String],
    previous_frames: &[String],
    fresh: &[bool],
    force_recompile: bool,
) -> (r: usize)
    requires
        fresh@.len() < frames@.len() ==> exists|k: int|
            0 <= k <= fresh@.len() && #[trigger] known_change(
                texts(frames@),
                texts(previous_frames@),
                fresh@,
                force_recompile,
                k,
            ),
    ensures
        r == first_changed(
            texts(frames@),
            texts(previous_frames@),
            fresh@,
            force_recompile,
            0,
        ),
        r <= frames@.len(),
{
    let ghost all = texts(frames@);
    let ghost before = texts(previous_frames@);
    let mut i: usize = 0;
    while i < frames.len()
        invariant
            i <= frames.len(),
            all == texts(frames@),
            before == texts(previous_frames@),
            fresh@.len() < frames@.len() ==> i <= fresh@.len() && exists|k: int|
                i <= k <= fresh@.len() && #[trigger] known_change(
                    all,
                    before,
                    fresh@,
                    force_recompile,
                    k,
                ),
            first_changed(all, before, fresh@, force_recompile, i as int) == first_changed(
                all,
                before,
                fresh@,
                force_recompile,
                0,
            ),
        decreases frames.len() - i,
    {
        assert(all[i as int] == frames@[i as int]@);
        if force_recompile || i >= previous_frames.len() {
            return i;
        }
        assert(before[i as int] == previous_frames@[i as int]@);
        if !same_text(previous_frames[i].as_str(), frames[i].as_str()) {
            return i;
        }
        assert(i < fresh@.len()) by {
            if fresh@.len() < frames@.len() && i == fresh@.len() {
                assert(!known_change(all, before, fresh@, force_recompile, i as int));
            }
        }
        if !fresh[i] {
            return i;
        }
        assert(!known_change(all, before, fresh@, force_recompile, i as int));
        i += 1;
    }
    i
}

/// Nothing in front of the first frame that changed has changed, and it has.
pub proof fn law_first_change_is_first(
    frames: Seq<Seq<char>>,
    previous: Seq<Seq<char>>,
    fresh: Seq<bool>,
    force: bool,
    from: int,
)
    requires
        0 <= from <= frames.len(),
    ensures
        ({
            let k = first_changed(frames, previous, fresh, force, from);
            &&& from <= k <= frames.len()
            &&& forall|i: int|
                from <= i < k ==> !#[trigger] frame_changed(frames, previous, fresh, force, i)
            &&& k < frames.len() ==> frame_changed(frames, previous, fresh, force, k)
        }),
    decreases frames.len() - from,
{
    if from < frames.len() && !frame_changed(frames, previous, fresh, force, from) {
        law_first_change_is_first(frames, previous, fresh, force, from + 1);
    }
}

/// What the first frame that changed is called, where one did.
pub open spec fn told_change(first: usize, labels: Seq<FrameLabel>, count: nat) -> Seq<char> {
    if first >= labels.len() {
        "none"@
    } else {
        index_label(labels, first as int, count)
    }
}

/// What the first frame that changed is called, where one did.
pub fn first_changed_frame_label(
    first_changed_frame: usize,
    frame_labels: &[FrameLabel],
    numbered_frame_count: usize,
) -> (r: String)
    ensures
        r@ == told_change(first_changed_frame, frame_labels@, numbered_frame_count as nat),
{
    if frame_labels.len() == 0 || first_changed_frame >= frame_labels.len() {
        owned("none")
    } else {
        frame_label_for_index(frame_labels, first_changed_frame, numbered_frame_count)
    }
}

// ---------------------------------------------------------------------------
// What is typeset
// ---------------------------------------------------------------------------

/// Whether no document in front of number `i` has its name.
pub open spec fn first_of_name(names: Seq<Seq<char>>, i: int) -> bool {
    forall|j: int| 0 <= j < i ==> #[trigger] names[j] != names[i]
}

/// Which frames are asked for.
pub open spec fn asked_for(
    filters: Option<Seq<Seq<char>>>,
    labels: Seq<FrameLabel>,
    frames: Seq<Seq<char>>,
    i: int,
) -> bool {
    match filters {
        Some(f) => filters_pick(labels[i], frames[i], f),
        None => true,
    }
}

/// Whether a frame has to be typeset: its PDF cannot be used again, unless the frame is not asked
/// for and there is some PDF of it.
pub open spec fn must_typeset(asked: bool, fresh: bool, pdf_exists: bool, force: bool) -> bool {
    (force || !fresh) && (asked || !pdf_exists)
}

/// What the frames of a build are.
#[verifier::ext_equal]
pub struct JobsView {
    pub names: Seq<Seq<char>>,
    pub labels: Seq<FrameLabel>,
    pub frames: Seq<Seq<char>>,
    pub fresh: Seq<bool>,
    pub pdf_exists: Seq<bool>,
    pub filters: Option<Seq<Seq<char>>>,
    pub force: bool,
}

impl JobsView {
    /// Whether frame `i` is asked for.
    pub open spec fn asked(self, i: int) -> bool {
        asked_for(self.filters, self.labels, self.frames, i)
    }

    /// Whether the document of frame `i` is typeset for it.
    pub open spec fn is_target(self, i: int) -> bool {
        first_of_name(self.names, i) && must_typeset(
            self.asked(i),
            self.fresh[i],
            self.pdf_exists[i],
            self.force,
        )
    }

    /// Whether the PDF of frame `i` is used as it is.
    pub open spec fn is_cached(self, i: int) -> bool {
        first_of_name(self.names, i) && !must_typeset(
            self.asked(i),
            self.fresh[i],
            self.pdf_exists[i],
            self.force,
        )
    }

    /// The frames whose documents are typeset, among the first `n`.
    pub open spec fn targets(self, n: int) -> Seq<usize>
        decreases n,
    {
        if n <= 0 {
            Seq::empty()
        } else if self.is_target(n - 1) {
            self.targets(n - 1).push((n - 1) as usize)
        } else {
            self.targets(n - 1)
        }
    }

    /// How many PDFs are used as they are, among those of the first `n` frames.
    pub open spec fn cached(self, n: int) -> nat
        decreases n,
    {
        if n <= 0 {
            0
        } else if self.is_cached(n - 1) {
            self.cached(n - 1) + 1
        } else {
            self.cached(n - 1)
        }
    }

    /// The frames that are not asked for but have no PDF, among the first `n`.
    pub open spec fn missing(self, n: int) -> Seq<usize>
        decreases n,
    {
        if n <= 0 {
            Seq::empty()
        } else if first_of_name(self.names, n - 1) && !self.asked(n - 1)
            && !self.pdf_exists[n - 1] {
            self.missing(n - 1).push((n - 1) as usize)
        } else {
            self.missing(n - 1)
        }
    }
}

/// Which frames are typeset, how many PDFs are used as they are, and which frames were not asked
/// for but have no PDF.
#[derive(Clone, Debug)]
pub struct CompilePlan {
    pub targets: Vec<usize>,
    pub cached: usize,
    pub missing: Vec<usize>,
}

fn is_first_of_name(names: &[String], i: usize) -> (r: bool)
    requires
        i < names@.len(),
    ensures
        r == first_of_name(texts(names@), i as int),
{
    let ghost all = texts(names@);
    let mut j: usize = 0;
    while j < i
        invariant
            j <= i < names@.len(),
            all == texts(names@),
            forall|k: int| 0 <= k < j ==> #[trigger] all[k] != all[i as int],
        decreases i - j,
    {
        assert(all[j as int] == names@[j as int]@);
        assert(all[i as int] == names@[i as int]@);
        if same_text(names[j].as_str(), names[i].as_str()) {
            return false;
        }
        j += 1;
    }
    true
}

/// Decides which frames are typeset. Documents of one name are typeset once.
pub fn plan_compile_jobs(
    names: &[String],
    labels: &[FrameLabel],
    frames: &[String],
    fresh: &[bool],
    pdf_exists: &[bool],
    filters: Option<&Vec<String>>,
    force_recompile: bool,
) -> (r: CompilePlan)
    requires
        labels@.len() == names@.len(),
        frames@.len() == names@.len(),
        fresh@.len() == names@.len(),
        pdf_exists@.len() == names@.len(),
    ensures
        ({
            let jobs = JobsView {
                names: texts(names@),
                labels: labels@,
                frames: texts(frames@),
                fresh: fresh@,
                pdf_exists: pdf_exists@,
                filters: match filters {
                    Some(f) => Some(texts(f@)),
                    None => None,
                },
                force: force_recompile,
            };
            &&& r.targets@ == jobs.targets(names@.len() as int)
            &&& r.cached == jobs.cached(names@.len() as int)
            &&& r.missing@ == jobs.missing(names@.len() as int)
        }),
{
    let ghost jobs = JobsView {
        names: texts(names@),
        labels: labels@,
        frames: texts(frames@),
        fresh: fresh@,
        pdf_exists: pdf_exists@,
        filters: match filters {
            Some(f) => Some(texts(f@)),
            None => None,
        },
        force: force_recompile,
    };
    let mut targets: Vec<usize> = Vec::new();
    let mut cached: usize = 0;
    let mut missing: Vec<usize> = Vec::new();
    let mut i: usize = 0;
    while i < names.len()
        invariant
            i <= names.len(),
            labels@.len() == names@.len(),
            frames@.len() == names@.len(),
            fresh@.len() == names@.len(),
            pdf_exists@.len() == names@.len(),
            jobs == (JobsView {
                names: texts(names@),
                labels: labels@,
                frames: texts(frames@),
                fresh: fresh@,
                pdf_exists: pdf_exists@,
                filters: match filters {
                    Some(f) => Some(texts(f@)),
                    None => None,
                },
                force: force_recompile,
            }),
            targets@ == jobs.targets(i as int),
            cached <= i,
            cached == jobs.cached(i as int),
            missing@ == jobs.missing(i as int),
        decreases names.len() - i,
    {
        if is_first_of_name(names, i) {
            let asked = match filters {
                Some(f) => frame_matches_filter(&labels[i], frames[i].as_str(), f),
                None => true,
            };
            assert(jobs.frames[i as int] == frames@[i as int]@);
            assert(asked == jobs.asked(i as int));
            if !asked && !pdf_exists[i] {
                missing.push(i);
            }
            if (force_recompile || !fresh[i]) && (asked || !pdf_exists[i]) {
                targets.push(i);
            } else {
                cached += 1;
            }
        }
        i += 1;
    }
    CompilePlan { targets, cached, missing }
}

proof fn lemma_targets_are_listed(jobs: JobsView, n: int, i: int)
    requires
        0 <= i < n <= usize::MAX,
        jobs.is_target(i),
    ensures
        jobs.targets(n).contains(i as usize),
    decreases n,
{
    let before = jobs.targets(n - 1);
    if i < n - 1 {
        lemma_targets_are_listed(jobs, n - 1, i);
        let at = before.index_of(i as usize);
        assert(before[at] == i as usize);
        assert(jobs.targets(n)[at] == i as usize);
    } else {
        assert(jobs.targets(n)[before.len() as int] == i as usize);
    }
}

/// Every frame is taken care of: its document is typeset, or its PDF is used as it is, for the
/// first frame with the same document.
pub proof fn law_every_frame_is_taken_care_of(jobs: JobsView, i: int) -> (j: int)
    requires
        0 <= i < jobs.names.len() <= usize::MAX,
    ensures
        0 <= j <= i,
        jobs.names[j] == jobs.names[i],
        jobs.targets(jobs.names.len() as int).contains(j as usize) || jobs.is_cached(j),
    decreases i,
{
    if first_of_name(jobs.names, i) {
        if jobs.is_target(i) {
            lemma_targets_are_listed(jobs, jobs.names.len() as int, i);
        }
        i
    } else {
        let k = choose|k: int| 0 <= k < i && #[trigger] jobs.names[k] == jobs.names[i];
        law_every_frame_is_taken_care_of(jobs, k)
    }
}

/// Only what has to be is typeset: a frame whose PDF is fresh is left alone unless all are to be
/// typeset again, and so is one that is not asked for and has a PDF. A frame that is asked for and
/// whose PDF is not fresh is typeset, where it is the first with its document.
pub proof fn law_only_stale_frames_are_typeset(jobs: JobsView, i: int)
    requires
        0 <= i < jobs.names.len() <= usize::MAX,
    ensures
        ({
            let typeset = jobs.targets(jobs.names.len() as int).contains(i as usize);
            &&& jobs.fresh[i] && !jobs.force ==> !typeset
            &&& !jobs.asked(i) && jobs.pdf_exists[i] ==> !typeset
            &&& jobs.asked(i) && (!jobs.fresh[i] || jobs.force) && first_of_name(jobs.names, i)
                ==> typeset
        }),
{
    let n = jobs.names.len() as int;
    if jobs.is_target(i) {
        lemma_targets_are_listed(jobs, n, i);
    }
    if jobs.targets(n).contains(i as usize) {
        let a = jobs.targets(n).index_of(i as usize);
        lemma_target(jobs, n, a);
    }
}

/// The frames that are typeset are in their order, and no two of them have the same document.
pub proof fn law_no_document_is_typeset_twice(jobs: JobsView, n: int, a: int, b: int)
    requires
        0 <= n <= jobs.names.len(),
        n <= usize::MAX,
        0 <= a < b < jobs.targets(n).len(),
    ensures
        jobs.targets(n)[a] < jobs.targets(n)[b] < n,
        jobs.names[jobs.targets(n)[a] as int] != jobs.names[jobs.targets(n)[b] as int],
    decreases n,
{
    let before = jobs.targets(n - 1);
    if b < before.len() {
        law_no_document_is_typeset_twice(jobs, n - 1, a, b);
    } else {
        lemma_target(jobs, n - 1, a);
        assert(first_of_name(jobs.names, n - 1));
        assert(jobs.names[before[a] as int] != jobs.names[n - 1]);
    }
}

proof fn lemma_target(jobs: JobsView, n: int, a: int)
    requires
        0 <= n <= jobs.names.len(),
        n <= usize::MAX,
        0 <= a < jobs.targets(n).len(),
    ensures
        0 <= jobs.targets(n)[a] < n,
        jobs.is_target(jobs.targets(n)[a] as int),
    decreases n,
{
    if a < jobs.targets(n - 1).len() {
        lemma_target(jobs, n - 1, a);
    }
}

/// Every document is counted once: it is typeset, or its PDF is used as it is.
pub proof fn law_jobs_are_counted(jobs: JobsView, n: int)
    requires
        0 <= n <= jobs.names.len(),
    ensures
        jobs.targets(n).len() + jobs.cached(n) == distinct_names(jobs.names, n),
    decreases n,
{
    if n > 0 {
        law_jobs_are_counted(jobs, n - 1);
    }
}

/// How many different names there are among the first `n`.
pub open spec fn distinct_names(names: Seq<Seq<char>>, n: int) -> nat
    decreases n,
{
    if n <= 0 {
        0
    } else if first_of_name(names, n - 1) {
        distinct_names(names, n - 1) + 1
    } else {
        distinct_names(names, n - 1)
    }
}

// ---------------------------------------------------------------------------
// Typesetting one frame
// ---------------------------------------------------------------------------

/// The runs for one frame: a frame that comes with files of its own is typeset once, so that they
/// are not written over.
pub open spec fn frame_options(has_support_files: bool, run_options: LatexRunOptions) -> LatexRunOptions {
    if has_support_files {
        LatexRunOptions { latex_pass_count: 1, bibliography_tool: None, ..run_options }
    } else {
        run_options
    }
}

/// The runs for one frame.
pub fn document_run_options(has_support_files: bool, run_options: LatexRunOptions) -> (r:
    LatexRunOptions)
    ensures
        r == frame_options(has_support_files, run_options),
{
    if has_support_files {
        run_options.with_latex_pass_count(1).with_bibliography_tool(None)
    } else {
        run_options
    }
}

/// What typesetting a frame takes: the file that its document is written to, the files of earlier
/// jobs that are removed first, the files that are written next to it, and what runs.
#[derive(Clone, Debug)]
pub struct FrameBuild {
    pub temp_file: FilePath,
    pub stale_files: Vec<FilePath>,
    pub stale_dependency_files: Vec<FilePath>,
    pub support_paths: Vec<FilePath>,
    pub run: LatexRun,
}

/// Where the files next to a document are written.
pub open spec fn support_places(
    cache_subdir: PathView,
    name: Seq<char>,
    files: Seq<(Seq<char>, Seq<char>)>,
) -> Seq<PathView> {
    files.map_values(|f: (Seq<char>, Seq<char>)| job_file(cache_subdir, name, f.0))
}

/// What typesetting the frame of `document` takes.
pub fn plan_frame_build(
    document: &GeneratedDocument,
    cache_subdir: &FilePath,
    input_dir: &FilePath,
    latex_engine: LatexEngine,
    compiler_options: &[String],
    run_options: LatexRunOptions,
) -> (r: FrameBuild)
    ensures
        ({
            let name = document.sync_map.temp_file_name@;
            let compiler = build_compiler(
                cache_subdir@,
                input_dir@,
                latex_engine,
                texts(compiler_options@),
            );
            &&& r.temp_file@ == child(input_dir@, name)
            &&& path_views(r.stale_files@) == frame_sidecars(cache_subdir@, name)
            &&& path_views(r.stale_dependency_files@) == dependency_sidecars(
                cache_subdir@,
                input_dir@,
                document@.dependencies,
            )
            &&& path_views(r.support_paths@) == support_places(
                cache_subdir@,
                name,
                document@.support_files,
            )
            &&& r.run.output@ == compiler.output(stem(name))
            &&& command_views(r.run.commands@) == compiler.commands(
                lone_name(input_dir@.style, name),
                stem(name),
                frame_options(document.support_files@.len() > 0, run_options),
            )
        }),
{
    let name = document.sync_map.temp_file_name.as_str();
    let ghost files = document@.support_files;
    let ghost places = support_places(cache_subdir@, name@, files);
    let mut support_paths: Vec<FilePath> = Vec::new();
    let mut i: usize = 0;
    assert(path_views(support_paths@) =~= places.take(0));
    while i < document.support_files.len()
        invariant
            i <= document.support_files.len(),
            files == document@.support_files,
            places == support_places(cache_subdir@, name@, files),
            path_views(support_paths@) == places.take(i as int),
        decreases document.support_files.len() - i,
    {
        let ext = document.support_files[i].extension;
        assert(files[i as int].0 == ext@);
        push_path(&mut support_paths, job_file_path(cache_subdir, name, ext));
        i += 1;
        assert(places.take(i as int) =~= places.take(i - 1).push(places[i - 1]));
    }
    assert(places.take(i as int) =~= places);
    let compiler = build_compiler_for(cache_subdir, input_dir, latex_engine, compiler_options);
    let main = FilePath::lone(name, input_dir.style);
    let options = document_run_options(document.support_files.len() > 0, run_options);
    let run = match compiler.run(&main, &LatexInput::new(), options) {
        Ok(run) => run,
        Err(_) => {
            assert(false);
            LatexRun { commands: Vec::new(), output: cache_subdir.copy() }
        },
    };
    FrameBuild {
        temp_file: input_dir.child(name),
        stale_files: frame_job_sidecars(cache_subdir, name),
        stale_dependency_files: dependency_job_sidecars(
            cache_subdir,
            input_dir,
            &document.dependencies,
        ),
        support_paths,
        run,
    }
}

/// Why a frame was not typeset, where it was not: `run` is what came of the commands, and
/// `checked` what is wrong with the PDF that they left.
pub fn frame_error(run: Result<(), String>, checked: Result<(), String>, output: &FilePath) -> (r:
    Option<String>)
    ensures
        match r {
            None => run is Ok && checked is Ok,
            Some(text) => match run {
                Err(e) => text@ == e@,
                Ok(_) => checked is Err && text@ == "Generated PDF "@ + output@.text
                    + " is incomplete or unreadable: "@ + checked->Err_0@,
            },
        },
{
    match run {
        Err(text) => Some(text),
        Ok(_) => match checked {
            Ok(_) => None,
            Err(text) => {
                let mut out = owned("Generated PDF ");
                out.push_str(output.text.as_str());
                out.push_str(" is incomplete or unreadable: ");
                out.push_str(text.as_str());
                Some(out)
            },
        },
    }
}

/// Which frames are tried again, one after the other: those that failed while others were
/// typeset at the same time.
pub open spec fn retried(failed: Seq<usize>, use_parallel: bool) -> Seq<usize> {
    if use_parallel {
        failed
    } else {
        Seq::empty()
    }
}

/// Which frames are tried again, one after the other: those that failed while others were
/// typeset at the same time.
pub fn retry_targets(failed: &[usize], use_parallel: bool) -> (r: Vec<usize>)
    ensures
        r@ == retried(failed@, use_parallel),
{
    let mut out: Vec<usize> = Vec::new();
    if use_parallel {
        let mut i: usize = 0;
        while i < failed.len()
            invariant
                i <= failed.len(),
                out@ == failed@.take(i as int),
            decreases failed.len() - i,
        {
            out.push(failed[i]);
            i += 1;
            assert(failed@.take(i as int) =~= failed@.take(i - 1).push(failed@[i - 1]));
        }
        assert(failed@.take(i as int) =~= failed@);
    }
    out
}

// ---------------------------------------------------------------------------
// The preamble
// ---------------------------------------------------------------------------

/// What is done with the preamble.
#[derive(Clone, Copy, Debug, PartialEq, Eq, Structural)]
pub enum PreambleStep {
    /// It is part of every document.
    Disabled,
    /// It was dumped before.
    Cached,
    /// It is dumped now.
    Compile,
}

/// What is done with the preamble.
pub open spec fn preamble_plan(
    precompile: bool,
    format_is_file: bool,
    force_recompile: bool,
) -> PreambleStep {
    if !precompile {
        PreambleStep::Disabled
    } else if format_is_file && !force_recompile {
        PreambleStep::Cached
    } else {
        PreambleStep::Compile
    }
}

/// What is done with the preamble.
pub fn preamble_step(precompile: bool, format_is_file: bool, force_recompile: bool) -> (r:
    PreambleStep)
    ensures
        r == preamble_plan(precompile, format_is_file, force_recompile),
{
    if !precompile {
        PreambleStep::Disabled
    } else if format_is_file && !force_recompile {
        PreambleStep::Cached
    } else {
        PreambleStep::Compile
    }
}

/// Where the dumped preamble is, and the log of the job that dumps it.
pub fn preamble_files(input_dir: &FilePath, job: &str) -> (r: (FilePath, FilePath))
    ensures
        r.0@ == child(input_dir@, job@ + ".fmt"@),
        r.1@ == child(input_dir@, job@ + ".log"@),
{
    let mut format_name = owned(job);
    format_name.push_str(".fmt");
    let mut log_name = owned(job);
    log_name.push_str(".log");
    (input_dir.child(format_name.as_str()), input_dir.child(log_name.as_str()))
}

/// The command that dumps a preamble.
pub open spec fn dump_command(
    engine: LatexEngine,
    job: Seq<char>,
    options: Seq<Seq<char>>,
    input_name: Seq<char>,
    input_dir: PathView,
) -> CommandView {
    CommandView {
        program: engine_name(engine),
        args: seq!["-shell-escape"@, "-ini"@, "-jobname="@ + job] + options + seq![
            "&"@ + engine_name(engine),
            "mylatexformat.ltx"@,
            input_name,
        ],
        current_dir: input_dir,
        target: input_name,
    }
}

/// The command that dumps a preamble.
pub fn preamble_command(
    latex_engine: LatexEngine,
    job: &str,
    compiler_options: &[String],
    input_name: &str,
    input_dir: &FilePath,
) -> (r: CommandLine)
    ensures
        r@ == dump_command(
            latex_engine,
            job@,
            texts(compiler_options@),
            input_name@,
            input_dir@,
        ),
{
    let mut args: Vec<String> = Vec::new();
    assert(texts(args@) =~= Seq::<Seq<char>>::empty());
    push_text(&mut args, owned("-shell-escape"));
    push_text(&mut args, owned("-ini"));
    let mut job_arg = owned("-jobname=");
    job_arg.push_str(job);
    push_text(&mut args, job_arg);
    assert(texts(args@) =~= seq!["-shell-escape"@, "-ini"@, "-jobname="@ + job@]);
    push_texts(&mut args, compiler_options);
    let ghost front = texts(args@);
    let mut format_arg = owned("&");
    format_arg.push_str(latex_engine.command_name());
    push_text(&mut args, format_arg);
    push_text(&mut args, owned("mylatexformat.ltx"));
    push_text(&mut args, owned(input_name));
    assert(texts(args@) =~= front + seq![
        "&"@ + engine_name(latex_engine),
        "mylatexformat.ltx"@,
        input_name@,
    ]);
    CommandLine {
        program: owned(latex_engine.command_name()),
        args,
        current_dir: input_dir.copy(),
        target: owned(input_name),
    }
}

/// Whether a dump of `lualatex` can be used although the job failed: there is a format, and the
/// log says that it was dumped before the output was thrown away.
pub open spec fn dump_completed(format_len: Option<u64>, log: Option<Seq<char>>) -> bool {
    &&& format_len is Some && format_len->0 > 0
    &&& log is Some && contains(log->0, "Beginning to dump on file"@) && contains(
        log->0,
        "(pdf backend): already written content discarded"@,
    )
}

/// Whether a dump of `lualatex` can be used although the job failed. `format_len` is the length of
/// the format, where it is a file, and `log` the log of the job, where it can be read.
pub fn lualatex_format_dump_completed_after_backend_error(
    format_len: Option<u64>,
    log: Option<&str>,
) -> (r: bool)
    ensures
        r == dump_completed(format_len, optional_text(log)),
{
    match format_len {
        Some(n) => {
            if n == 0 {
                return false;
            }
        },
        None => {
            return false;
        },
    }
    match log {
        Some(text) => {
            let chars = chars_of(text);
            has_text(&chars, "Beginning to dump on file") && has_text(
                &chars,
                "(pdf backend): already written content discarded",
            )
        },
        None => false,
    }
}

/// Whether a preamble can be used once its job ended.
pub open spec fn usable_preamble(
    success: bool,
    latex_engine: LatexEngine,
    format_len: Option<u64>,
    log: Option<Seq<char>>,
) -> bool {
    success || (latex_engine == LatexEngine::LuaLatex && dump_completed(format_len, log))
}

/// Whether a preamble can be used once its job ended.
pub fn preamble_is_usable(
    success: bool,
    latex_engine: LatexEngine,
    format_len: Option<u64>,
    log: Option<&str>,
) -> (r: bool)
    ensures
        r == usable_preamble(success, latex_engine, format_len, optional_text(log)),
{
    success || (latex_engine == LatexEngine::LuaLatex
        && lualatex_format_dump_completed_after_backend_error(format_len, log))
}

// ---------------------------------------------------------------------------
// Publishing
// ---------------------------------------------------------------------------

/// How the output is made once all frames are typeset.
#[derive(Clone, Copy, Debug, PartialEq, Eq, Structural)]
pub enum PublishStep {
    /// The PDFs of the frames are joined.
    PdfUnite,
    /// The source is typeset again with the frames in it.
    TexUnite,
    /// The frame of this number is shown.
    Preview(usize),
    /// There is nothing to show.
    Nothing,
}

/// How the output is made. A preview shows the first frame that changed, and where none did the
/// first one.
pub open spec fn publishing(mode: BuildMode, first_changed_frame: usize, document_count: usize) -> PublishStep {
    match mode {
        BuildMode::PdfUnite => PublishStep::PdfUnite,
        BuildMode::PdfUniteSynctex => PublishStep::PdfUnite,
        BuildMode::TexUnite => PublishStep::TexUnite,
        BuildMode::Preview => if document_count == 0 {
            PublishStep::Nothing
        } else if first_changed_frame == document_count {
            PublishStep::Preview(0)
        } else if first_changed_frame < document_count {
            PublishStep::Preview(first_changed_frame)
        } else {
            PublishStep::Nothing
        },
    }
}

/// How the output is made.
pub fn publish_step(mode: BuildMode, first_changed_frame: usize, document_count: usize) -> (r:
    PublishStep)
    ensures
        r == publishing(mode, first_changed_frame, document_count),
{
    match mode {
        BuildMode::PdfUnite => PublishStep::PdfUnite,
        BuildMode::PdfUniteSynctex => PublishStep::PdfUnite,
        BuildMode::TexUnite => PublishStep::TexUnite,
        BuildMode::Preview => {
            let shown: usize = if first_changed_frame == document_count {
                0
            } else {
                first_changed_frame
            };
            if shown < document_count {
                PublishStep::Preview(shown)
            } else {
                PublishStep::Nothing
            }
        },
    }
}

/// A preview shows the frame that changed: of every frame that a build can name as the first that
/// changed, it is this frame that is shown. Where none changed, the first frame is shown, and
/// nothing only where there is no frame.
pub proof fn law_preview_shows_the_change(k: usize, n: usize)
    ensures
        k < n ==> publishing(BuildMode::Preview, k, n) == PublishStep::Preview(k),
        n > 0 ==> publishing(BuildMode::Preview, n, n) == PublishStep::Preview(0),
        k > n ==> publishing(BuildMode::Preview, k, n) == PublishStep::Nothing,
        publishing(BuildMode::Preview, k, 0) == PublishStep::Nothing,
{
}

/// The frame that a preview shows differs from the build before, or its PDF cannot be used again,
/// and no frame in front of it does. Where no frame changed, it is the first one.
pub proof fn law_shown_frame_is_the_first_that_changed(
    frames: Seq<Seq<char>>,
    previous: Seq<Seq<char>>,
    fresh: Seq<bool>,
    force: bool,
    shown: usize,
    i: int,
)
    requires
        frames.len() <= usize::MAX,
        fresh.len() == frames.len(),
        0 <= i < frames.len(),
        publishing(
            BuildMode::Preview,
            first_changed(frames, previous, fresh, force, 0) as usize,
            frames.len() as usize,
        ) == PublishStep::Preview(shown),
    ensures
        shown < frames.len(),
        force ==> shown == 0,
        !force && i < shown ==> i < previous.len() && previous[i] == frames[i] && fresh[i],
        shown > 0 ==> shown >= previous.len() || previous[shown as int] != frames[shown as int]
            || !fresh[shown as int],
        shown == 0 && !force && previous.len() > 0 && previous[0] == frames[0] && fresh[0] ==> i
            < previous.len() && previous[i] == frames[i] && fresh[i],
{
    law_first_change_is_first(frames, previous, fresh, force, 0);
    let k = first_changed(frames, previous, fresh, force, 0);
    assert(i < k ==> !frame_changed(frames, previous, fresh, force, i));
    assert(0 < k ==> !frame_changed(frames, previous, fresh, force, 0));
}

/// Only previews depend on what changed: the other ways of building join all frames, or typeset
/// the source with all of them, whichever of them changed.
pub proof fn law_joined_output_holds_every_frame(
    k: usize,
    n: usize,
    cache_subdir: PathView,
    names: Seq<Seq<char>>,
    i: int,
)
    ensures
        publishing(BuildMode::PdfUnite, k, n) == PublishStep::PdfUnite,
        publishing(BuildMode::PdfUniteSynctex, k, n) == PublishStep::PdfUnite,
        publishing(BuildMode::TexUnite, k, n) == PublishStep::TexUnite,
        pdfunite_paths(cache_subdir, names).len() == names.len() + 1,
        0 <= i < names.len() ==> pdfunite_paths(cache_subdir, names)[i] == pdf_path(
            cache_subdir,
            names[i],
        ),
        pdfunite_paths(cache_subdir, names).last().parts == cache_subdir.parts.push(
            crate::path_parts::PartView::Normal("faster-beamer-pdfunite-output.pdf"@),
        ),
{
    crate::paths::law_child_has_its_name(cache_subdir, "faster-beamer-pdfunite-output.pdf"@);
}

/// The PDFs that are joined, and at the end the one that they are joined to.
pub open spec fn pdfunite_paths(cache_subdir: PathView, names: Seq<Seq<char>>) -> Seq<
    PathView,
> {
    names.map_values(|name: Seq<char>| pdf_path(cache_subdir, name)).push(
        child(cache_subdir, "faster-beamer-pdfunite-output.pdf"@),
    )
}

/// The PDFs that are joined, and at the end the one that they are joined to.
pub fn pdfunite_arguments(cache_subdir: &FilePath, documents: &[GeneratedDocument]) -> (r: Vec<
    FilePath,
>)
    ensures
        path_views(r@) == pdfunite_paths(cache_subdir@, document_names(documents@)),
        r@.len() == documents@.len() + 1,
{
    let ghost names = document_names(documents@);
    let ghost all = names.map_values(|name: Seq<char>| pdf_path(cache_subdir@, name));
    let mut out: Vec<FilePath> = Vec::new();
    let mut i: usize = 0;
    assert(path_views(out@) =~= all.take(0));
    while i < documents.len()
        invariant
            i <= documents.len(),
            names == document_names(documents@),
            all == names.map_values(|name: Seq<char>| pdf_path(cache_subdir@, name)),
            path_views(out@) == all.take(i as int),
            out@.len() == i,
        decreases documents.len() - i,
    {
        let name = documents[i].sync_map.temp_file_name.as_str();
        assert(names[i as int] == name@);
        push_path(&mut out, compiled_pdf_path(cache_subdir, name));
        i += 1;
        assert(all.take(i as int) =~= all.take(i - 1).push(all[i - 1]));
    }
    assert(all.take(i as int) =~= all);
    push_path(&mut out, cache_subdir.child("faster-beamer-pdfunite-output.pdf"));
    out
}

// ---------------------------------------------------------------------------
// What builds leave out, and what they do not
// ---------------------------------------------------------------------------

proof fn lemma_missing(jobs: JobsView, n: int, i: int)
    requires
        0 <= n <= jobs.names.len(),
        n <= usize::MAX,
    ensures
        0 <= i < n ==> (jobs.missing(n).contains(i as usize) <==> first_of_name(jobs.names, i)
            && !jobs.asked(i) && !jobs.pdf_exists[i]),
        n <= i <= usize::MAX ==> !jobs.missing(n).contains(i as usize),
    decreases n,
{
    if n > 0 {
        lemma_missing(jobs, n - 1, i);
        let before = jobs.missing(n - 1);
        let all = jobs.missing(n);
        if before.contains(i as usize) {
            let k = before.index_of(i as usize);
            assert(all[k] == i as usize);
        }
        if all.contains(i as usize) && all.len() > before.len() {
            let k = all.index_of(i as usize);
            if k < before.len() {
                assert(before[k] == i as usize);
            }
        }
        if all.len() > before.len() {
            assert(all[before.len() as int] == (n - 1) as usize);
        }
    }
}

/// A frame that is not asked for is typeset all the same where there is no PDF of it at all, and
/// such frames are told of. With all frames to be typeset again, each one that is asked for is.
pub proof fn law_missing_frames_are_typeset_anyway(jobs: JobsView, i: int)
    requires
        0 <= i < jobs.names.len() <= usize::MAX,
        first_of_name(jobs.names, i),
    ensures
        ({
            let n = jobs.names.len() as int;
            &&& jobs.missing(n).contains(i as usize) <==> !jobs.asked(i) && !jobs.pdf_exists[i]
            &&& !jobs.pdf_exists[i] && !jobs.fresh[i] ==> jobs.targets(n).contains(i as usize)
            &&& jobs.force && jobs.asked(i) ==> jobs.targets(n).contains(i as usize)
            &&& jobs.filters is None ==> jobs.asked(i)
            &&& jobs.filters is Some ==> (jobs.asked(i) <==> exists|k: int|
                0 <= k < jobs.filters->0.len() && crate::frames::filter_picks(
                    jobs.labels[i],
                    jobs.frames[i],
                    #[trigger] jobs.filters->0[k],
                ))
        }),
{
    let n = jobs.names.len() as int;
    lemma_missing(jobs, n, i);
    if jobs.is_target(i) {
        lemma_targets_are_listed(jobs, n, i);
    }
}

/// A frame that comes with files of its own is typeset once and without a bibliography. Any other
/// one is typeset as was asked for.
pub proof fn law_frames_with_files_are_typeset_once(options: LatexRunOptions)
    ensures
        frame_options(true, options).latex_pass_count == 1,
        frame_options(true, options).bibliography_tool is None,
        frame_options(false, options) == options,
{
}

/// Frames that failed are tried again exactly where others were typeset at the same time, all of
/// them and in their order.
pub proof fn law_parallel_failures_are_tried_again(failed: Seq<usize>)
    ensures
        retried(failed, true) == failed,
        retried(failed, false).len() == 0,
{
}

/// A dumped preamble is used again unless all is to be made anew, and is not looked for where it is
/// not to be used.
pub proof fn law_dumped_preambles_are_used_again(exists_already: bool, force: bool)
    ensures
        preamble_plan(false, exists_already, force) == PreambleStep::Disabled,
        preamble_plan(true, true, false) == PreambleStep::Cached,
        preamble_plan(true, false, force) == PreambleStep::Compile,
        preamble_plan(true, exists_already, true) == PreambleStep::Compile,
{
}

/// A preamble can be used where its job succeeded. Of a job that failed, only that of `lualatex` is
/// looked at again: its format has to hold something, and its log has to tell of both the dump and
/// the output that was thrown away.
pub proof fn law_failed_dumps_are_looked_at_again(
    engine: LatexEngine,
    format_len: Option<u64>,
    log: Option<Seq<char>>,
)
    ensures
        usable_preamble(true, engine, format_len, log),
        engine != LatexEngine::LuaLatex ==> !usable_preamble(false, engine, format_len, log),
        format_len is None || format_len == Some(0u64) || log is None ==> !usable_preamble(
            false,
            engine,
            format_len,
            log,
        ),
        log is Some && !(contains(log->0, "Beginning to dump on file"@) && contains(
            log->0,
            "(pdf backend): already written content discarded"@,
        )) ==> !usable_preamble(false, engine, format_len, log),
        format_len is Some && format_len->0 > 0 && log is Some && contains(
            log->0,
            "Beginning to dump on file"@,
        ) && contains(log->0, "(pdf backend): already written content discarded"@)
            ==> usable_preamble(false, LatexEngine::LuaLatex, format_len, log),
{
}

/// The job that dumps a preamble runs the program that typesets the frames, on the source, in its
/// directory and under the name of the dump, with the options of the build in their order.
pub proof fn law_preambles_are_dumped_by_the_same_program(
    engine: LatexEngine,
    job: Seq<char>,
    options: Seq<Seq<char>>,
    input_name: Seq<char>,
    input_dir: PathView,
)
    ensures
        ({
            let command = dump_command(engine, job, options, input_name, input_dir);
            let n = options.len() as int;
            &&& command.program == engine_name(engine)
            &&& command.current_dir == input_dir
            &&& command.args.contains("-ini"@)
            &&& command.args.contains("-jobname="@ + job)
            &&& command.args.subrange(3, 3 + n) == options
            &&& command.args.skip(3 + n) == seq![
                "&"@ + engine_name(engine),
                "mylatexformat.ltx"@,
                input_name,
            ]
        }),
{
    let command = dump_command(engine, job, options, input_name, input_dir);
    let n = options.len() as int;
    assert(command.args[1] == "-ini"@);
    assert(command.args[2] == "-jobname="@ + job);
    assert(command.args.subrange(3, 3 + n) =~= options);
    assert(command.args.skip(3 + n) =~= seq![
        "&"@ + engine_name(engine),
        "mylatexformat.ltx"@,
        input_name,
    ]);
}

/// The tables of contents that cannot be made are counted one by one: with a further frame there is
/// one more exactly where its table depends on the section and stands in front of the document.
pub proof fn law_unsupported_tables_are_counted(
    place: PlaceView,
    frames: Seq<Seq<char>>,
    lines: Seq<(nat, nat)>,
    begin_line: nat,
    sections: Seq<crate::sections::SectionView>,
    n: int,
)
    requires
        0 <= n,
    ensures
        unsupported_tocs(place, frames, lines, begin_line, sections, 0) == 0,
        unsupported_tocs(place, frames, lines, begin_line, sections, n + 1) == unsupported_tocs(
            place,
            frames,
            lines,
            begin_line,
            sections,
            n,
        ) + if shows_toc(frames[n]) && shows_dynamic_toc(frames[n]) && lines[n].0 < begin_line {
            1nat
        } else {
            0nat
        },
{
}

/// The frame that is told of is the one that changed, by its own label, and none is told of where
/// none changed.
pub proof fn law_changed_frames_are_told_by_their_label(
    first: usize,
    labels: Seq<FrameLabel>,
    count: nat,
)
    ensures
        first < labels.len() ==> told_change(first, labels, count) == index_label(
            labels,
            first as int,
            count,
        ),
        first >= labels.len() ==> told_change(first, labels, count) == "none"@,
{
}

}
