//! The course of a build, from the source to the published output.
use crate::document::FasterBeamerError;
use crate::options::BuildMode;
use crate::plan::{
    first_changed, law_first_change_is_first, publish_step, publishing, PreambleStep, PublishStep,
};
use crate::text::texts;
use vstd::prelude::*;

verus! {

/// What is known of a build while it runs.
#[derive(Clone, Copy, Debug, PartialEq, Eq, Structural)]
pub struct BuildFacts {
    pub mode: BuildMode,
    pub use_parallel: bool,
    /// The first frame that differs from the build before.
    pub first_changed_frame: usize,
    pub document_count: usize,
}

/// What is published at the end of a build.
#[derive(Clone, Copy, Debug, PartialEq, Eq, Structural)]
pub enum Publication {
    /// The joined PDFs of the frames. A SyncTeX file that was published before is removed.
    Joined,
    /// The joined PDFs of the frames, with their merged SyncTeX files.
    JoinedWithMergedSynctex,
    /// The joined PDFs of the frames, with the SyncTeX file of the united document.
    JoinedWithUnitedSynctex,
    /// The joined PDFs of the frames, because the united document failed like this. A SyncTeX file
    /// that was published before is removed.
    JoinedInstead(FasterBeamerError),
    /// The united document, with its SyncTeX file.
    United,
    /// One frame, with its SyncTeX file.
    Preview(usize),
}

/// How a build ended.
#[derive(Clone, Copy, Debug, PartialEq, Eq, Structural)]
pub enum BuildOutcome {
    InputMissing,
    /// The directories of the cache could not be made.
    CacheUnavailable,
    PreambleFailed,
    FramesFailed,
    PdfUniteFailed,
    /// The united document could not be made or typeset.
    UnitedFailed(FasterBeamerError),
    /// The frame that was to be shown has no PDF.
    PreviewMissing,
    /// The output could not be written.
    PublishFailed,
    /// The output was written without SyncTeX, because the united document failed like this.
    PublishedWithoutSynctex(FasterBeamerError),
    Published,
}

/// What is to be done next in a build.
#[derive(Clone, Copy, Debug, PartialEq, Eq, Structural)]
pub enum Stage {
    FindInput,
    PrepareCache,
    CompilePreamble,
    CompileFrames,
    /// The frames that failed are compiled again, one by one.
    RetryFrames,
    JoinPdfs,
    MergeSynctex,
    /// The united document is compiled for its SyncTeX file alone.
    CompileUnitedForSynctex,
    CompileUnited,
    FindPreview(usize),
    Publish(Publication),
    Ended(BuildOutcome),
}

/// What came of the last stage.
#[derive(Clone, Copy, Debug, PartialEq, Eq, Structural)]
pub enum Event {
    InputFound(bool),
    CachePrepared(bool, PreambleStep),
    PreambleCompiled(bool),
    /// How many frames failed.
    FramesCompiled(usize),
    PdfsJoined(bool),
    SynctexMerged(bool),
    UnitedCompiled,
    UnitedNotCompiled(FasterBeamerError),
    PreviewFound(bool),
    Published(bool),
}

/// Where a build whose frames are compiled goes on.
pub open spec fn publishing_stage(facts: BuildFacts) -> Stage {
    match publishing(facts.mode, facts.first_changed_frame, facts.document_count) {
        PublishStep::PdfUnite => Stage::JoinPdfs,
        PublishStep::TexUnite => Stage::CompileUnited,
        PublishStep::Preview(i) => Stage::FindPreview(i),
        PublishStep::Nothing => Stage::Ended(BuildOutcome::Published),
    }
}

/// How a build ends whose output was written.
pub open spec fn published_outcome(publication: Publication) -> BuildOutcome {
    match publication {
        Publication::JoinedInstead(e) => BuildOutcome::PublishedWithoutSynctex(e),
        _ => BuildOutcome::Published,
    }
}

/// Whether an event tells of a stage.
pub open spec fn answers(stage: Stage, event: Event) -> bool {
    match stage {
        Stage::FindInput => event is InputFound,
        Stage::PrepareCache => event is CachePrepared,
        Stage::CompilePreamble => event is PreambleCompiled,
        Stage::CompileFrames => event is FramesCompiled,
        Stage::RetryFrames => event is FramesCompiled,
        Stage::JoinPdfs => event is PdfsJoined,
        Stage::MergeSynctex => event is SynctexMerged,
        Stage::CompileUnitedForSynctex => event is UnitedCompiled || event is UnitedNotCompiled,
        Stage::CompileUnited => event is UnitedCompiled || event is UnitedNotCompiled,
        Stage::FindPreview(_) => event is PreviewFound,
        Stage::Publish(_) => event is Published,
        Stage::Ended(_) => false,
    }
}

/// What is to be done after `event`. An event that does not tell of the stage changes nothing.
pub open spec fn next(stage: Stage, event: Event, facts: BuildFacts) -> Stage {
    match (stage, event) {
        (Stage::FindInput, Event::InputFound(found)) => if found {
            Stage::PrepareCache
        } else {
            Stage::Ended(BuildOutcome::InputMissing)
        },
        (Stage::PrepareCache, Event::CachePrepared(ready, preamble)) => if !ready {
            Stage::Ended(BuildOutcome::CacheUnavailable)
        } else if preamble == PreambleStep::Compile {
            Stage::CompilePreamble
        } else {
            Stage::CompileFrames
        },
        (Stage::CompilePreamble, Event::PreambleCompiled(usable)) => if usable {
            Stage::CompileFrames
        } else {
            Stage::Ended(BuildOutcome::PreambleFailed)
        },
        (Stage::CompileFrames, Event::FramesCompiled(failures)) => if failures == 0 {
            publishing_stage(facts)
        } else if facts.use_parallel {
            Stage::RetryFrames
        } else {
            Stage::Ended(BuildOutcome::FramesFailed)
        },
        (Stage::RetryFrames, Event::FramesCompiled(failures)) => if failures == 0 {
            publishing_stage(facts)
        } else {
            Stage::Ended(BuildOutcome::FramesFailed)
        },
        (Stage::JoinPdfs, Event::PdfsJoined(joined)) => if !joined {
            Stage::Ended(BuildOutcome::PdfUniteFailed)
        } else if facts.mode == BuildMode::PdfUniteSynctex {
            Stage::MergeSynctex
        } else {
            Stage::Publish(Publication::Joined)
        },
        (Stage::MergeSynctex, Event::SynctexMerged(merged)) => if merged {
            Stage::Publish(Publication::JoinedWithMergedSynctex)
        } else {
            Stage::CompileUnitedForSynctex
        },
        (Stage::CompileUnitedForSynctex, Event::UnitedCompiled) => Stage::Publish(
            Publication::JoinedWithUnitedSynctex,
        ),
        (Stage::CompileUnitedForSynctex, Event::UnitedNotCompiled(e)) => Stage::Publish(
            Publication::JoinedInstead(e),
        ),
        (Stage::CompileUnited, Event::UnitedCompiled) => Stage::Publish(Publication::United),
        (Stage::CompileUnited, Event::UnitedNotCompiled(e)) => Stage::Ended(
            BuildOutcome::UnitedFailed(e),
        ),
        (Stage::FindPreview(i), Event::PreviewFound(found)) => if found {
            Stage::Publish(Publication::Preview(i))
        } else {
            Stage::Ended(BuildOutcome::PreviewMissing)
        },
        (Stage::Publish(publication), Event::Published(written)) => if written {
            Stage::Ended(published_outcome(publication))
        } else {
            Stage::Ended(BuildOutcome::PublishFailed)
        },
        _ => stage,
    }
}

fn start_publishing(facts: BuildFacts) -> (r: Stage)
    ensures
        r == publishing_stage(facts),
{
    match publish_step(facts.mode, facts.first_changed_frame, facts.document_count) {
        PublishStep::PdfUnite => Stage::JoinPdfs,
        PublishStep::TexUnite => Stage::CompileUnited,
        PublishStep::Preview(i) => Stage::FindPreview(i),
        PublishStep::Nothing => Stage::Ended(BuildOutcome::Published),
    }
}

/// What is to be done after `event`.
pub fn next_stage(stage: Stage, event: Event, facts: BuildFacts) -> (r: Stage)
    ensures
        r == next(stage, event, facts),
{
    match (stage, event) {
        (Stage::FindInput, Event::InputFound(found)) => if found {
            Stage::PrepareCache
        } else {
            Stage::Ended(BuildOutcome::InputMissing)
        },
        (Stage::PrepareCache, Event::CachePrepared(ready, preamble)) => if !ready {
            Stage::Ended(BuildOutcome::CacheUnavailable)
        } else if preamble == PreambleStep::Compile {
            Stage::CompilePreamble
        } else {
            Stage::CompileFrames
        },
        (Stage::CompilePreamble, Event::PreambleCompiled(usable)) => if usable {
            Stage::CompileFrames
        } else {
            Stage::Ended(BuildOutcome::PreambleFailed)
        },
        (Stage::CompileFrames, Event::FramesCompiled(failures)) => if failures == 0 {
            start_publishing(facts)
        } else if facts.use_parallel {
            Stage::RetryFrames
        } else {
            Stage::Ended(BuildOutcome::FramesFailed)
        },
        (Stage::RetryFrames, Event::FramesCompiled(failures)) => if failures == 0 {
            start_publishing(facts)
        } else {
            Stage::Ended(BuildOutcome::FramesFailed)
        },
        (Stage::JoinPdfs, Event::PdfsJoined(joined)) => if !joined {
            Stage::Ended(BuildOutcome::PdfUniteFailed)
        } else if facts.mode == BuildMode::PdfUniteSynctex {
            Stage::MergeSynctex
        } else {
            Stage::Publish(Publication::Joined)
        },
        (Stage::MergeSynctex, Event::SynctexMerged(merged)) => if merged {
            Stage::Publish(Publication::JoinedWithMergedSynctex)
        } else {
            Stage::CompileUnitedForSynctex
        },
        (Stage::CompileUnitedForSynctex, Event::UnitedCompiled) => Stage::Publish(
            Publication::JoinedWithUnitedSynctex,
        ),
        (Stage::CompileUnitedForSynctex, Event::UnitedNotCompiled(e)) => Stage::Publish(
            Publication::JoinedInstead(e),
        ),
        (Stage::CompileUnited, Event::UnitedCompiled) => Stage::Publish(Publication::United),
        (Stage::CompileUnited, Event::UnitedNotCompiled(e)) => Stage::Ended(
            BuildOutcome::UnitedFailed(e),
        ),
        (Stage::FindPreview(i), Event::PreviewFound(found)) => if found {
            Stage::Publish(Publication::Preview(i))
        } else {
            Stage::Ended(BuildOutcome::PreviewMissing)
        },
        (Stage::Publish(publication), Event::Published(written)) => if written {
            match publication {
                Publication::JoinedInstead(e) => Stage::Ended(
                    BuildOutcome::PublishedWithoutSynctex(e),
                ),
                _ => Stage::Ended(BuildOutcome::Published),
            }
        } else {
            Stage::Ended(BuildOutcome::PublishFailed)
        },
        _ => stage,
    }
}

/// Whether a build with these facts can be at this stage.
pub open spec fn reachable(stage: Stage, facts: BuildFacts) -> bool {
    let joins = facts.mode == BuildMode::PdfUnite || facts.mode == BuildMode::PdfUniteSynctex;
    match stage {
        Stage::RetryFrames => facts.use_parallel,
        Stage::JoinPdfs => joins,
        Stage::MergeSynctex => facts.mode == BuildMode::PdfUniteSynctex,
        Stage::CompileUnitedForSynctex => facts.mode == BuildMode::PdfUniteSynctex,
        Stage::CompileUnited => facts.mode == BuildMode::TexUnite,
        Stage::FindPreview(i) => facts.mode == BuildMode::Preview && i < facts.document_count,
        Stage::Publish(publication) => match publication {
            Publication::Joined => facts.mode == BuildMode::PdfUnite,
            Publication::United => facts.mode == BuildMode::TexUnite,
            Publication::Preview(i) => facts.mode == BuildMode::Preview && i
                < facts.document_count,
            _ => facts.mode == BuildMode::PdfUniteSynctex,
        },
        Stage::Ended(outcome) => match outcome {
            BuildOutcome::PdfUniteFailed => joins,
            BuildOutcome::UnitedFailed(_) => facts.mode == BuildMode::TexUnite,
            BuildOutcome::PreviewMissing => facts.mode == BuildMode::Preview,
            BuildOutcome::PublishedWithoutSynctex(_) => facts.mode == BuildMode::PdfUniteSynctex,
            _ => true,
        },
        _ => true,
    }
}

/// How many stages a build can go through from this one on.
pub open spec fn stages_left(stage: Stage) -> nat {
    match stage {
        Stage::FindInput => 9,
        Stage::PrepareCache => 8,
        Stage::CompilePreamble => 7,
        Stage::CompileFrames => 6,
        Stage::RetryFrames => 5,
        Stage::JoinPdfs => 4,
        Stage::MergeSynctex => 3,
        Stage::CompileUnitedForSynctex => 2,
        Stage::CompileUnited => 2,
        Stage::FindPreview(_) => 2,
        Stage::Publish(_) => 1,
        Stage::Ended(_) => 0,
    }
}

/// Every build ends: each answered stage leaves fewer of them, and only one that ended has none
/// left.
pub proof fn law_builds_end(stage: Stage, event: Event, facts: BuildFacts)
    ensures
        answers(stage, event) ==> stages_left(next(stage, event, facts)) < stages_left(stage),
        !answers(stage, event) ==> next(stage, event, facts) == stage,
        stages_left(stage) == 0 <==> stage is Ended,
{
}

/// A build makes the output that was asked for, and no other: a preview shows one frame and joins
/// nothing, SyncTeX files are merged only where that was asked for.
pub proof fn law_builds_keep_to_the_request(stage: Stage, event: Event, facts: BuildFacts)
    requires
        reachable(stage, facts),
    ensures
        reachable(next(stage, event, facts), facts),
{
}

/// Nothing is published of a build in which a frame failed for good: it ends there. Where the
/// frames were compiled in parallel, they get a second chance.
pub proof fn law_failed_frames_are_not_published(failures: usize, facts: BuildFacts)
    requires
        failures > 0,
    ensures
        next(Stage::RetryFrames, Event::FramesCompiled(failures), facts) == Stage::Ended(
            BuildOutcome::FramesFailed,
        ),
        next(Stage::CompileFrames, Event::FramesCompiled(failures), facts)
            == if facts.use_parallel {
            Stage::RetryFrames
        } else {
            Stage::Ended(BuildOutcome::FramesFailed)
        },
{
}

/// What a build that ended like this returns.
pub open spec fn result_of(outcome: BuildOutcome) -> Result<(), FasterBeamerError> {
    match outcome {
        BuildOutcome::InputMissing => Err(FasterBeamerError::InputFileNotExistent),
        BuildOutcome::CacheUnavailable => Err(FasterBeamerError::IoError),
        BuildOutcome::PreambleFailed => Err(FasterBeamerError::CompileError),
        BuildOutcome::FramesFailed => Err(FasterBeamerError::CompileError),
        BuildOutcome::PdfUniteFailed => Err(FasterBeamerError::PdfUniteError),
        BuildOutcome::UnitedFailed(e) => Err(e),
        BuildOutcome::PreviewMissing => Err(FasterBeamerError::CompileError),
        BuildOutcome::PublishFailed => Err(FasterBeamerError::IoError),
        BuildOutcome::PublishedWithoutSynctex(e) => Err(e),
        BuildOutcome::Published => Ok(()),
    }
}

/// What a build that ended like this returns.
pub fn build_result(outcome: BuildOutcome) -> (r: Result<(), FasterBeamerError>)
    ensures
        r == result_of(outcome),
{
    match outcome {
        BuildOutcome::InputMissing => Err(FasterBeamerError::InputFileNotExistent),
        BuildOutcome::CacheUnavailable => Err(FasterBeamerError::IoError),
        BuildOutcome::PreambleFailed => Err(FasterBeamerError::CompileError),
        BuildOutcome::FramesFailed => Err(FasterBeamerError::CompileError),
        BuildOutcome::PdfUniteFailed => Err(FasterBeamerError::PdfUniteError),
        BuildOutcome::UnitedFailed(e) => Err(e),
        BuildOutcome::PreviewMissing => Err(FasterBeamerError::CompileError),
        BuildOutcome::PublishFailed => Err(FasterBeamerError::IoError),
        BuildOutcome::PublishedWithoutSynctex(e) => Err(e),
        BuildOutcome::Published => Ok(()),
    }
}

/// Whether an error is shown in place of the output.
pub open spec fn error_slide_due(outcome: BuildOutcome) -> bool {
    outcome is PreambleFailed || outcome is FramesFailed || outcome is PdfUniteFailed
        || outcome is UnitedFailed || outcome is PreviewMissing
}

/// Whether an error is shown in place of the output.
pub fn shows_error_slide(outcome: BuildOutcome) -> (r: bool)
    ensures
        r == error_slide_due(outcome),
{
    match outcome {
        BuildOutcome::PreambleFailed => true,
        BuildOutcome::FramesFailed => true,
        BuildOutcome::PdfUniteFailed => true,
        BuildOutcome::UnitedFailed(_) => true,
        BuildOutcome::PreviewMissing => true,
        _ => false,
    }
}

/// Whether the program ends with a failure after this result: where the source cannot be read or
/// something cannot be written. A source that does not compile is for its author to mend.
pub open spec fn fatal(result: Result<(), FasterBeamerError>) -> bool {
    result == Err::<(), FasterBeamerError>(FasterBeamerError::InputFileNotExistent) || result
        == Err::<(), FasterBeamerError>(FasterBeamerError::IoError)
}

/// Whether the program ends with a failure after this result.
pub fn is_fatal(result: Result<(), FasterBeamerError>) -> (r: bool)
    ensures
        r == fatal(result),
{
    match result {
        Err(FasterBeamerError::InputFileNotExistent) => true,
        Err(FasterBeamerError::IoError) => true,
        _ => false,
    }
}

/// The frames that the next build is compared with. Where frames could not be typeset nothing is
/// remembered, so that all of them count as changed; where the build did not get to them or its
/// output could not be written, what was remembered stays.
pub open spec fn remembered(
    outcome: BuildOutcome,
    previous: Seq<Seq<char>>,
    frames: Seq<Seq<char>>,
) -> Seq<Seq<char>> {
    match outcome {
        BuildOutcome::PreambleFailed => Seq::empty(),
        BuildOutcome::FramesFailed => Seq::empty(),
        BuildOutcome::InputMissing => previous,
        BuildOutcome::CacheUnavailable => previous,
        BuildOutcome::PublishFailed => previous,
        _ => frames,
    }
}

/// The frames that the next build is compared with.
pub fn remember_frames(outcome: BuildOutcome, previous: Vec<String>, frames: Vec<String>) -> (r: Vec<
    String,
>)
    ensures
        texts(r@) == remembered(outcome, texts(previous@), texts(frames@)),
{
    match outcome {
        BuildOutcome::PreambleFailed => {
            let none: Vec<String> = Vec::new();
            assert(texts(none@) =~= Seq::<Seq<char>>::empty());
            none
        },
        BuildOutcome::FramesFailed => {
            let none: Vec<String> = Vec::new();
            assert(texts(none@) =~= Seq::<Seq<char>>::empty());
            none
        },
        BuildOutcome::InputMissing => previous,
        BuildOutcome::CacheUnavailable => previous,
        BuildOutcome::PublishFailed => previous,
        _ => frames,
    }
}

/// Behind a build whose frames could not be typeset, the next one starts over with the first
/// frame; behind one that was published, an unchanged source with fresh PDFs has nothing to do.
pub proof fn law_failed_builds_start_over(
    previous: Seq<Seq<char>>,
    frames: Seq<Seq<char>>,
    next: Seq<Seq<char>>,
    fresh: Seq<bool>,
)
    requires
        fresh.len() == next.len(),
    ensures
        first_changed(
            next,
            remembered(BuildOutcome::FramesFailed, previous, frames),
            fresh,
            false,
            0,
        ) == 0,
        next == frames && (forall|i: int| 0 <= i < fresh.len() ==> fresh[i]) ==> first_changed(
            next,
            remembered(BuildOutcome::Published, previous, frames),
            fresh,
            false,
            0,
        ) == next.len(),
{
    if next == frames && (forall|i: int| 0 <= i < fresh.len() ==> fresh[i]) {
        law_first_change_is_first(next, frames, fresh, false, 0);
    }
}

// ---------------------------------------------------------------------------
// Where builds lead
// ---------------------------------------------------------------------------

/// A build in which everything succeeds goes from the source to the output: it compiles a preamble
/// where that is due, then the frames, and what follows depends on what was asked for alone.
pub proof fn law_successful_builds_go_on(facts: BuildFacts, preamble: PreambleStep)
    ensures
        next(Stage::FindInput, Event::InputFound(true), facts) == Stage::PrepareCache,
        preamble == PreambleStep::Compile ==> next(
            Stage::PrepareCache,
            Event::CachePrepared(true, preamble),
            facts,
        ) == Stage::CompilePreamble,
        preamble != PreambleStep::Compile ==> next(
            Stage::PrepareCache,
            Event::CachePrepared(true, preamble),
            facts,
        ) == Stage::CompileFrames,
        next(Stage::CompilePreamble, Event::PreambleCompiled(true), facts) == Stage::CompileFrames,
        next(Stage::RetryFrames, Event::FramesCompiled(0), facts) == next(
            Stage::CompileFrames,
            Event::FramesCompiled(0),
            facts,
        ),
        facts.mode == BuildMode::TexUnite ==> next(
            Stage::CompileFrames,
            Event::FramesCompiled(0),
            facts,
        ) == Stage::CompileUnited,
        facts.mode == BuildMode::PdfUnite || facts.mode == BuildMode::PdfUniteSynctex ==> next(
            Stage::CompileFrames,
            Event::FramesCompiled(0),
            facts,
        ) == Stage::JoinPdfs,
        facts.mode == BuildMode::Preview && facts.first_changed_frame < facts.document_count
            ==> next(Stage::CompileFrames, Event::FramesCompiled(0), facts) == Stage::FindPreview(
            facts.first_changed_frame,
        ),
        facts.mode == BuildMode::Preview && facts.first_changed_frame == facts.document_count
            && facts.document_count > 0 ==> next(
            Stage::CompileFrames,
            Event::FramesCompiled(0),
            facts,
        ) == Stage::FindPreview(0),
{
}

/// What a build publishes is what it made: a joined PDF with merged SyncTeX files where those were
/// merged, with that of the united document where they were not, without SyncTeX where that failed
/// too, and without where none was asked for. A united document or a frame is published as such.
pub proof fn law_what_is_made_is_published(facts: BuildFacts, i: usize, error: FasterBeamerError)
    ensures
        facts.mode == BuildMode::PdfUniteSynctex ==> next(
            Stage::JoinPdfs,
            Event::PdfsJoined(true),
            facts,
        ) == Stage::MergeSynctex,
        facts.mode != BuildMode::PdfUniteSynctex ==> next(
            Stage::JoinPdfs,
            Event::PdfsJoined(true),
            facts,
        ) == Stage::Publish(Publication::Joined),
        next(Stage::MergeSynctex, Event::SynctexMerged(true), facts) == Stage::Publish(
            Publication::JoinedWithMergedSynctex,
        ),
        next(Stage::MergeSynctex, Event::SynctexMerged(false), facts)
            == Stage::CompileUnitedForSynctex,
        next(Stage::CompileUnitedForSynctex, Event::UnitedCompiled, facts) == Stage::Publish(
            Publication::JoinedWithUnitedSynctex,
        ),
        next(Stage::CompileUnitedForSynctex, Event::UnitedNotCompiled(error), facts)
            == Stage::Publish(Publication::JoinedInstead(error)),
        next(Stage::CompileUnited, Event::UnitedCompiled, facts) == Stage::Publish(
            Publication::United,
        ),
        next(Stage::FindPreview(i), Event::PreviewFound(true), facts) == Stage::Publish(
            Publication::Preview(i),
        ),
{
}

/// Whether an event tells that something went wrong.
pub open spec fn is_failure(event: Event) -> bool {
    match event {
        Event::InputFound(found) => !found,
        Event::CachePrepared(ready, _) => !ready,
        Event::PreambleCompiled(usable) => !usable,
        Event::FramesCompiled(failures) => failures > 0,
        Event::PdfsJoined(joined) => !joined,
        Event::SynctexMerged(merged) => !merged,
        Event::UnitedCompiled => false,
        Event::UnitedNotCompiled(_) => true,
        Event::PreviewFound(found) => !found,
        Event::Published(written) => !written,
    }
}

/// A failure ends the build with an error, but for frames that failed in parallel and for SyncTeX
/// files, which there is another way to. A stage that succeeded never ends the build with an error,
/// unless SyncTeX is missing in the end.
pub proof fn law_failures_end_builds_with_an_error(stage: Stage, event: Event, facts: BuildFacts)
    requires
        answers(stage, event),
    ensures
        is_failure(event) && !(stage == Stage::CompileFrames && facts.use_parallel) && stage
            != Stage::MergeSynctex && stage != Stage::CompileUnitedForSynctex ==> next(
            stage,
            event,
            facts,
        ) is Ended && result_of(next(stage, event, facts)->Ended_0) is Err,
        !is_failure(event) && next(stage, event, facts) is Ended ==> (result_of(
            next(stage, event, facts)->Ended_0,
        ) is Ok || (stage is Publish && stage->Publish_0 is JoinedInstead)),
        is_failure(event) && stage == Stage::MergeSynctex ==> !(next(stage, event, facts) is Ended),
{
}

/// A build that ended succeeded exactly where its output was published with all that was asked for.
/// An error says what went wrong: the source, writing files, joining, or what typesetting told.
pub proof fn law_results_tell_what_went_wrong(outcome: BuildOutcome, error: FasterBeamerError)
    ensures
        result_of(outcome) is Ok <==> outcome == BuildOutcome::Published,
        result_of(outcome) == Err::<(), FasterBeamerError>(FasterBeamerError::InputFileNotExistent)
            && !(outcome is UnitedFailed) && !(outcome is PublishedWithoutSynctex) <==> outcome
            == BuildOutcome::InputMissing,
        result_of(BuildOutcome::CacheUnavailable) == Err::<(), FasterBeamerError>(
            FasterBeamerError::IoError,
        ),
        result_of(BuildOutcome::PublishFailed) == Err::<(), FasterBeamerError>(
            FasterBeamerError::IoError,
        ),
        result_of(BuildOutcome::PdfUniteFailed) == Err::<(), FasterBeamerError>(
            FasterBeamerError::PdfUniteError,
        ),
        result_of(BuildOutcome::FramesFailed) == Err::<(), FasterBeamerError>(
            FasterBeamerError::CompileError,
        ),
        result_of(BuildOutcome::PreambleFailed) == result_of(BuildOutcome::FramesFailed),
        result_of(BuildOutcome::PreviewMissing) == result_of(BuildOutcome::FramesFailed),
        result_of(BuildOutcome::UnitedFailed(error)) == Err::<(), FasterBeamerError>(error),
        result_of(BuildOutcome::PublishedWithoutSynctex(error)) == Err::<(), FasterBeamerError>(
            error,
        ),
{
}

/// The program fails only where a file is missing or cannot be written: a source that does not
/// compile gets an error slide in place of the output, and where files are at fault there is none.
pub proof fn law_errors_of_the_source_are_shown(outcome: BuildOutcome, error: FasterBeamerError)
    ensures
        fatal(Err(error)) <==> error == FasterBeamerError::InputFileNotExistent || error
            == FasterBeamerError::IoError,
        !fatal(Ok(())),
        error_slide_due(BuildOutcome::FramesFailed),
        error_slide_due(BuildOutcome::PreambleFailed),
        error_slide_due(BuildOutcome::PdfUniteFailed),
        error_slide_due(BuildOutcome::UnitedFailed(error)),
        error_slide_due(BuildOutcome::PreviewMissing),
        error_slide_due(outcome) ==> result_of(outcome) is Err,
        outcome is Published || outcome is PublishedWithoutSynctex || outcome is PublishFailed
            || outcome is InputMissing || outcome is CacheUnavailable ==> !error_slide_due(outcome),
{
}

/// What the next build is compared with: a build that did not get to the frames, or whose output
/// could not be written, leaves that as it was; one whose frames or preamble failed leaves nothing,
/// so that every frame counts as changed; any other one leaves its own frames.
pub proof fn law_next_build_is_compared_with_what_was_shown(
    outcome: BuildOutcome,
    previous: Seq<Seq<char>>,
    frames: Seq<Seq<char>>,
    next: Seq<Seq<char>>,
    fresh: Seq<bool>,
    force: bool,
)
    ensures
        outcome == BuildOutcome::InputMissing || outcome == BuildOutcome::CacheUnavailable || outcome
            == BuildOutcome::PublishFailed ==> first_changed(
            next,
            remembered(outcome, previous, frames),
            fresh,
            force,
            0,
        ) == first_changed(next, previous, fresh, force, 0),
        outcome == BuildOutcome::PreambleFailed || outcome == BuildOutcome::FramesFailed
            ==> first_changed(next, remembered(outcome, previous, frames), fresh, force, 0) == 0,
        outcome is Published || outcome is PublishedWithoutSynctex || outcome is PdfUniteFailed
            || outcome is UnitedFailed || outcome is PreviewMissing ==> first_changed(
            next,
            remembered(outcome, previous, frames),
            fresh,
            force,
            0,
        ) == first_changed(next, frames, fresh, force, 0),
{
}

}
