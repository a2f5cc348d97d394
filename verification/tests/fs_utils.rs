use faster_beamer::fs_utils::{
    dir_to_create, error_slide, error_slide_step, first_stage_action, next_stage_action,
    publish_failure, published_synctex, ErrorSlideStep, StageAction,
};
use faster_beamer::latexcompile::LatexEngine;
use faster_beamer::path_parts::PathStyle;
use faster_beamer::paths::{cache_path, FilePath};

fn path(text: &str) -> FilePath {
    FilePath::parse(text)
}

/// What is tried where only `works` works.
fn tried(is_dir: bool, windows: bool, works: StageAction) -> Vec<StageAction> {
    let mut action = first_stage_action(false);
    let mut actions = vec![action];
    while action != StageAction::Finished && action != StageAction::Failed {
        let success = action == StageAction::MakeParent || action == works;
        action = next_stage_action(action, success, is_dir, windows);
        actions.push(action);
    }
    actions
}

#[test]
fn stages_files_without_requiring_symlinks() {
    assert_eq!(
        tried(false, false, StageAction::Copy),
        vec![
            StageAction::MakeParent,
            StageAction::SymbolicLink,
            StageAction::HardLink,
            StageAction::Copy,
            StageAction::Finished
        ]
    );
    assert_eq!(
        cache_path(&path("/cache"), &path("/src/frame.tex")),
        path("/cache/root/src/frame.tex")
    );
    assert_eq!(first_stage_action(true), StageAction::Finished);
}

#[test]
fn stages_directories_with_nested_files() {
    assert_eq!(
        tried(true, false, StageAction::SymbolicLink),
        vec![
            StageAction::MakeParent,
            StageAction::SymbolicLink,
            StageAction::Finished
        ]
    );
    assert_eq!(
        tried(true, false, StageAction::Copy),
        vec![
            StageAction::MakeParent,
            StageAction::SymbolicLink,
            StageAction::Copy,
            StageAction::Finished
        ]
    );
    assert_eq!(
        tried(true, true, StageAction::Junction).last(),
        Some(&StageAction::Finished)
    );
    assert_eq!(
        tried(true, true, StageAction::Copy).last(),
        Some(&StageAction::Failed)
    );
    assert_eq!(
        next_stage_action(StageAction::MakeParent, false, false, false),
        StageAction::Failed
    );
}

#[test]
fn directories_are_made_where_a_path_names_one() {
    assert_eq!(dir_to_create(&path("a/b.pdf")), Some(path("a")));
    assert_eq!(dir_to_create(&path("/b.pdf")), Some(path("/")));
    assert_eq!(dir_to_create(&path("b.pdf")), None);
    assert_eq!(dir_to_create(&path("/")), None);
}

#[test]
fn synctex_files_lie_next_to_the_output() {
    assert_eq!(published_synctex("out/deck.pdf", PathStyle::Unix), path("out/deck.synctex.gz"));
    assert_eq!(
        published_synctex("out\\.\\deck.pdf", PathStyle::Windows).text,
        "out\\.\\deck.synctex.gz"
    );
    assert_eq!(
        publish_failure(&path("/c/a.pdf"), &path("b.pdf"), "denied"),
        "failed to publish /c/a.pdf to b.pdf. The destination may be open in another program: denied"
    );
}

#[test]
fn the_error_slide_is_compiled_once() {
    let (tex, pdf, run) = error_slide(&path("/cache"), LatexEngine::LuaLatex);
    assert_eq!(tex, path("/cache/error.tex"));
    assert_eq!(pdf, path("/cache/error.pdf"));
    assert_eq!(run.commands.len(), 1);
    assert_eq!(run.commands[0].program, "lualatex");
    assert_eq!(run.commands[0].args.last().unwrap(), "/cache/error.tex");
    assert_eq!(error_slide_step(true, false), ErrorSlideStep::Publish);
    assert_eq!(error_slide_step(true, true), ErrorSlideStep::Publish);
    assert_eq!(error_slide_step(false, false), ErrorSlideStep::Compile);
    assert_eq!(error_slide_step(false, true), ErrorSlideStep::GiveUp);
}
