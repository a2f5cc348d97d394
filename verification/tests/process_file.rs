use faster_beamer::document::FasterBeamerError;
use faster_beamer::options::BuildMode;
use faster_beamer::plan::PreambleStep;
use faster_beamer::process_file::{
    build_result, is_fatal, next_stage, remember_frames, shows_error_slide, BuildFacts,
    BuildOutcome, Event, Publication, Stage,
};

fn facts(mode: BuildMode, use_parallel: bool) -> BuildFacts {
    BuildFacts {
        mode,
        use_parallel,
        first_changed_frame: 1,
        document_count: 2,
    }
}

/// The stages that a build goes through.
fn course(facts: BuildFacts, events: &[Event]) -> Vec<Stage> {
    let mut stage = Stage::FindInput;
    let mut stages = Vec::new();
    for event in events {
        stage = next_stage(stage, *event, facts);
        stages.push(stage);
    }
    stages
}

#[test]
fn a_preview_shows_the_first_changed_frame() {
    assert_eq!(
        course(
            facts(BuildMode::Preview, false),
            &[
                Event::InputFound(true),
                Event::CachePrepared(true, PreambleStep::Compile),
                Event::PreambleCompiled(true),
                Event::FramesCompiled(0),
                Event::PreviewFound(true),
                Event::Published(true),
            ]
        ),
        vec![
            Stage::PrepareCache,
            Stage::CompilePreamble,
            Stage::CompileFrames,
            Stage::FindPreview(1),
            Stage::Publish(Publication::Preview(1)),
            Stage::Ended(BuildOutcome::Published),
        ]
    );
}

#[test]
fn merged_synctex_files_fall_back_to_a_united_document() {
    let joined = [
        Event::InputFound(true),
        Event::CachePrepared(true, PreambleStep::Cached),
        Event::FramesCompiled(0),
        Event::PdfsJoined(true),
    ];
    let end = |mode: BuildMode, rest: &[Event]| {
        let mut events = joined.to_vec();
        events.extend(rest);
        *course(facts(mode, true), &events).last().unwrap()
    };
    assert_eq!(
        end(BuildMode::PdfUnite, &[]),
        Stage::Publish(Publication::Joined)
    );
    assert_eq!(
        end(BuildMode::PdfUniteSynctex, &[Event::SynctexMerged(true)]),
        Stage::Publish(Publication::JoinedWithMergedSynctex)
    );
    assert_eq!(
        end(
            BuildMode::PdfUniteSynctex,
            &[Event::SynctexMerged(false), Event::UnitedCompiled]
        ),
        Stage::Publish(Publication::JoinedWithUnitedSynctex)
    );
    assert_eq!(
        end(
            BuildMode::PdfUniteSynctex,
            &[
                Event::SynctexMerged(false),
                Event::UnitedNotCompiled(FasterBeamerError::CompileError),
                Event::Published(true),
            ]
        ),
        Stage::Ended(BuildOutcome::PublishedWithoutSynctex(
            FasterBeamerError::CompileError
        ))
    );
}

#[test]
fn frames_that_fail_in_parallel_are_tried_again() {
    let failed = Event::FramesCompiled(2);
    let parallel = facts(BuildMode::TexUnite, true);
    assert_eq!(next_stage(Stage::CompileFrames, failed, parallel), Stage::RetryFrames);
    assert_eq!(
        next_stage(Stage::RetryFrames, failed, parallel),
        Stage::Ended(BuildOutcome::FramesFailed)
    );
    assert_eq!(
        next_stage(Stage::RetryFrames, Event::FramesCompiled(0), parallel),
        Stage::CompileUnited
    );
    assert_eq!(
        next_stage(Stage::CompileFrames, failed, facts(BuildMode::TexUnite, false)),
        Stage::Ended(BuildOutcome::FramesFailed)
    );
}

#[test]
fn every_failure_ends_the_build() {
    let facts = facts(BuildMode::TexUnite, false);
    let end = |stage: Stage, event: Event| next_stage(stage, event, facts);
    assert_eq!(
        end(Stage::FindInput, Event::InputFound(false)),
        Stage::Ended(BuildOutcome::InputMissing)
    );
    assert_eq!(
        end(Stage::PrepareCache, Event::CachePrepared(false, PreambleStep::Cached)),
        Stage::Ended(BuildOutcome::CacheUnavailable)
    );
    assert_eq!(
        end(Stage::CompilePreamble, Event::PreambleCompiled(false)),
        Stage::Ended(BuildOutcome::PreambleFailed)
    );
    assert_eq!(
        end(Stage::JoinPdfs, Event::PdfsJoined(false)),
        Stage::Ended(BuildOutcome::PdfUniteFailed)
    );
    assert_eq!(
        end(
            Stage::CompileUnited,
            Event::UnitedNotCompiled(FasterBeamerError::IoError)
        ),
        Stage::Ended(BuildOutcome::UnitedFailed(FasterBeamerError::IoError))
    );
    assert_eq!(
        end(Stage::FindPreview(0), Event::PreviewFound(false)),
        Stage::Ended(BuildOutcome::PreviewMissing)
    );
    assert_eq!(
        end(Stage::Publish(Publication::United), Event::Published(false)),
        Stage::Ended(BuildOutcome::PublishFailed)
    );
    let ended = Stage::Ended(BuildOutcome::Published);
    assert_eq!(end(ended, Event::Published(false)), ended);
    assert_eq!(end(Stage::JoinPdfs, Event::Published(true)), Stage::JoinPdfs);
}

#[test]
fn outcomes_are_reported_as_errors() {
    let result = |outcome: BuildOutcome| build_result(outcome);
    assert_eq!(
        result(BuildOutcome::InputMissing),
        Err(FasterBeamerError::InputFileNotExistent)
    );
    assert_eq!(result(BuildOutcome::CacheUnavailable), Err(FasterBeamerError::IoError));
    assert_eq!(result(BuildOutcome::PreambleFailed), Err(FasterBeamerError::CompileError));
    assert_eq!(result(BuildOutcome::FramesFailed), Err(FasterBeamerError::CompileError));
    assert_eq!(result(BuildOutcome::PdfUniteFailed), Err(FasterBeamerError::PdfUniteError));
    assert_eq!(
        result(BuildOutcome::UnitedFailed(FasterBeamerError::IoError)),
        Err(FasterBeamerError::IoError)
    );
    assert_eq!(
        result(BuildOutcome::PublishedWithoutSynctex(FasterBeamerError::CompileError)),
        Err(FasterBeamerError::CompileError)
    );
    assert_eq!(result(BuildOutcome::PreviewMissing), Err(FasterBeamerError::CompileError));
    assert_eq!(result(BuildOutcome::PublishFailed), Err(FasterBeamerError::IoError));
    assert_eq!(result(BuildOutcome::Published), Ok(()));

    assert!(shows_error_slide(BuildOutcome::PreambleFailed));
    assert!(shows_error_slide(BuildOutcome::UnitedFailed(FasterBeamerError::IoError)));
    assert!(!shows_error_slide(BuildOutcome::Published));
    assert!(!shows_error_slide(BuildOutcome::PublishFailed));
    assert!(!shows_error_slide(BuildOutcome::PublishedWithoutSynctex(
        FasterBeamerError::CompileError
    )));

    assert!(is_fatal(Err(FasterBeamerError::IoError)));
    assert!(is_fatal(Err(FasterBeamerError::InputFileNotExistent)));
    assert!(!is_fatal(Err(FasterBeamerError::CompileError)));
    assert!(!is_fatal(Ok(())));
}

#[test]
fn frames_are_remembered_for_the_next_build() {
    let old = || vec!["old".to_string()];
    let new = || vec!["new".to_string()];
    assert_eq!(remember_frames(BuildOutcome::Published, old(), new()), new());
    assert_eq!(remember_frames(BuildOutcome::PdfUniteFailed, old(), new()), new());
    assert_eq!(remember_frames(BuildOutcome::PublishFailed, old(), new()), old());
    assert_eq!(remember_frames(BuildOutcome::InputMissing, old(), new()), old());
    assert_eq!(
        remember_frames(BuildOutcome::FramesFailed, old(), new()),
        Vec::<String>::new()
    );
    assert_eq!(
        remember_frames(BuildOutcome::PreambleFailed, old(), new()),
        Vec::<String>::new()
    );
}
