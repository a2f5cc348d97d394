//! Placing files in the cache and at their destination.
use crate::latexcompile::{
    command_views, new_compiler, CompilerView, LatexCompiler, LatexEngine, LatexInput, LatexRun,
    LatexRunOptions,
};
use crate::path_parts::PathStyle;
use crate::paths::{
    child, law_child_has_its_name, parent, parsed, stem, with_extension, FilePath, PathView,
};
use crate::text::owned;
use vstd::prelude::*;

verus! {

// ---------------------------------------------------------------------------
// Staging
// ---------------------------------------------------------------------------

/// What is tried next to get something into the cache.
#[derive(Clone, Copy, Debug, PartialEq, Eq, Structural)]
pub enum StageAction {
    MakeParent,
    SymbolicLink,
    HardLink,
    /// A link to a directory as Windows has it.
    Junction,
    Copy,
    Finished,
    Failed,
}

/// What is tried first: nothing, where it is there already.
pub open spec fn first_action(dest_exists: bool) -> StageAction {
    if dest_exists {
        StageAction::Finished
    } else {
        StageAction::MakeParent
    }
}

/// What is tried first: nothing, where it is there already.
pub fn first_stage_action(dest_exists: bool) -> (r: StageAction)
    ensures
        r == first_action(dest_exists),
{
    if dest_exists {
        StageAction::Finished
    } else {
        StageAction::MakeParent
    }
}

/// What is tried after `action`. Links are preferred to copies; directories have no hard links.
/// Where Windows can neither link nor join a directory, it is not staged.
pub open spec fn after_stage_action(
    action: StageAction,
    success: bool,
    is_dir: bool,
    windows: bool,
) -> StageAction {
    match action {
        StageAction::MakeParent => if success {
            StageAction::SymbolicLink
        } else {
            StageAction::Failed
        },
        StageAction::SymbolicLink => if success {
            StageAction::Finished
        } else if !is_dir {
            StageAction::HardLink
        } else if windows {
            StageAction::Junction
        } else {
            StageAction::Copy
        },
        StageAction::HardLink => if success {
            StageAction::Finished
        } else {
            StageAction::Copy
        },
        StageAction::Junction => if success {
            StageAction::Finished
        } else {
            StageAction::Failed
        },
        StageAction::Copy => if success {
            StageAction::Finished
        } else {
            StageAction::Failed
        },
        _ => action,
    }
}

/// What is tried after `action`.
pub fn next_stage_action(action: StageAction, success: bool, is_dir: bool, windows: bool) -> (r:
    StageAction)
    ensures
        r == after_stage_action(action, success, is_dir, windows),
{
    match action {
        StageAction::MakeParent => if success {
            StageAction::SymbolicLink
        } else {
            StageAction::Failed
        },
        StageAction::SymbolicLink => if success {
            StageAction::Finished
        } else if !is_dir {
            StageAction::HardLink
        } else if windows {
            StageAction::Junction
        } else {
            StageAction::Copy
        },
        StageAction::HardLink => if success {
            StageAction::Finished
        } else {
            StageAction::Copy
        },
        StageAction::Junction => if success {
            StageAction::Finished
        } else {
            StageAction::Failed
        },
        StageAction::Copy => if success {
            StageAction::Finished
        } else {
            StageAction::Failed
        },
        _ => action,
    }
}

/// How many things can be tried from `action` on.
pub open spec fn tries_left(action: StageAction) -> nat {
    match action {
        StageAction::MakeParent => 4,
        StageAction::SymbolicLink => 3,
        StageAction::HardLink => 2,
        StageAction::Junction => 2,
        StageAction::Copy => 1,
        StageAction::Finished => 0,
        StageAction::Failed => 0,
    }
}

/// Staging comes to an end, and once a link or a copy was made it is finished: symbolic links are
/// never required.
pub proof fn law_staging_ends(action: StageAction, success: bool, is_dir: bool, windows: bool)
    ensures
        tries_left(action) > 0 ==> tries_left(after_stage_action(action, success, is_dir, windows))
            < tries_left(action),
        success && tries_left(action) > 0 && action != StageAction::MakeParent
            ==> after_stage_action(action, success, is_dir, windows) == StageAction::Finished,
        !is_dir && action == StageAction::SymbolicLink ==> after_stage_action(
            action,
            success,
            is_dir,
            windows,
        ) != StageAction::Failed,
{
}

// ---------------------------------------------------------------------------
// Publishing
// ---------------------------------------------------------------------------

/// The directory that has to be there before something is written to a path.
pub open spec fn needed_dir(path: PathView) -> Option<PathView> {
    match parent(path) {
        Some(dir) => if dir.text.len() > 0 {
            Some(dir)
        } else {
            None
        },
        None => None,
    }
}

/// The directory that has to be there before something is written to `path`.
pub fn dir_to_create(path: &FilePath) -> (r: Option<FilePath>)
    ensures
        match r {
            Some(dir) => needed_dir(path@) == Some(dir@),
            None => needed_dir(path@) is None,
        },
{
    match path.parent() {
        Some(dir) => if !dir.text.as_str().is_empty() {
            Some(dir)
        } else {
            None
        },
        None => None,
    }
}

/// What is said where a file could not be published.
pub fn publish_failure(source: &FilePath, dest: &FilePath, error: &str) -> (r: String)
    ensures
        r@ == "failed to publish "@ + source@.text + " to "@ + dest@.text
            + ". The destination may be open in another program: "@ + error@,
{
    let mut out = owned("failed to publish ");
    out.push_str(source.text.as_str());
    out.push_str(" to ");
    out.push_str(dest.text.as_str());
    out.push_str(". The destination may be open in another program: ");
    out.push_str(error);
    out
}

/// Where the SyncTeX file next to an output is.
pub fn published_synctex(output_file: &str, style: PathStyle) -> (r: FilePath)
    ensures
        r@ == with_extension(parsed(style, output_file@), "synctex.gz"@),
{
    let output = FilePath::parse_as(output_file, style);
    output.with_extension("synctex.gz")
}

// ---------------------------------------------------------------------------
// The error slide
// ---------------------------------------------------------------------------

/// The compiler of the error slide.
pub open spec fn error_compiler(cache_dir: PathView, engine: LatexEngine) -> CompilerView {
    let plain = new_compiler(cache_dir, engine);
    CompilerView {
        args: plain.args.push("-shell-escape"@).push("-interaction=nonstopmode"@),
        ..plain
    }
}

/// The source of the error slide, its PDF, and the commands that make one of the other.
pub fn error_slide(cache_dir: &FilePath, latex_engine: LatexEngine) -> (r: (
    FilePath,
    FilePath,
    LatexRun,
))
    ensures
        r.0@ == child(cache_dir@, "error.tex"@),
        r.1@ == child(cache_dir@, "error.pdf"@),
        command_views(r.2.commands@) == error_compiler(cache_dir@, latex_engine).commands(
            r.0@,
            stem("error.tex"@),
            (LatexRunOptions {
                latex_pass_count: 1,
                bibliography_tool: None,
                passes_after_bibliography: None,
            }),
        ),
        r.2.output@ == error_compiler(cache_dir@, latex_engine).output(stem("error.tex"@)),
{
    proof {
        law_child_has_its_name(cache_dir@, "error.tex"@);
    }
    let tex_file = cache_dir.child("error.tex");
    let pdf_file = cache_dir.child("error.pdf");
    let compiler = LatexCompiler::new_in_with_engine(cache_dir.copy(), latex_engine).add_arg(
        "-shell-escape",
    ).add_arg("-interaction=nonstopmode");
    match compiler.run(&tex_file, &LatexInput::new(), LatexRunOptions::new()) {
        Ok(run) => (tex_file, pdf_file, run),
        Err(_) => {
            assert(false);
            (tex_file, pdf_file, LatexRun { commands: Vec::new(), output: cache_dir.copy() })
        },
    }
}

/// What is done to show the error slide.
#[derive(Clone, Copy, Debug, PartialEq, Eq, Structural)]
pub enum ErrorSlideStep {
    /// Its source is written and compiled, and then it is published where it is there.
    Compile,
    Publish,
    GiveUp,
}

/// What is done to show the error slide, by whether its PDF is there and whether it was compiled
/// just now.
pub open spec fn slide_step(pdf_exists: bool, compiled: bool) -> ErrorSlideStep {
    if pdf_exists {
        ErrorSlideStep::Publish
    } else if compiled {
        ErrorSlideStep::GiveUp
    } else {
        ErrorSlideStep::Compile
    }
}

/// What is done to show the error slide, by whether its PDF is there and whether it was compiled
/// just now.
pub fn error_slide_step(pdf_exists: bool, compiled: bool) -> (r: ErrorSlideStep)
    ensures
        r == slide_step(pdf_exists, compiled),
{
    if pdf_exists {
        ErrorSlideStep::Publish
    } else if compiled {
        ErrorSlideStep::GiveUp
    } else {
        ErrorSlideStep::Compile
    }
}

/// What is tried to stage something, in order: the directory around it has to be there, then comes
/// a symbolic link; for a file a hard link and then a copy; for a directory a junction on Windows
/// and a copy elsewhere. What succeeds ends it, and what is there already is left alone.
pub proof fn law_links_are_tried_before_copies(is_dir: bool, windows: bool)
    ensures
        first_action(true) == StageAction::Finished,
        first_action(false) == StageAction::MakeParent,
        after_stage_action(StageAction::MakeParent, true, is_dir, windows)
            == StageAction::SymbolicLink,
        after_stage_action(StageAction::MakeParent, false, is_dir, windows) == StageAction::Failed,
        after_stage_action(StageAction::SymbolicLink, false, false, windows)
            == StageAction::HardLink,
        after_stage_action(StageAction::SymbolicLink, false, true, true) == StageAction::Junction,
        after_stage_action(StageAction::SymbolicLink, false, true, false) == StageAction::Copy,
        after_stage_action(StageAction::HardLink, false, is_dir, windows) == StageAction::Copy,
        after_stage_action(StageAction::Copy, false, is_dir, windows) == StageAction::Failed,
        after_stage_action(StageAction::Junction, false, is_dir, windows) == StageAction::Failed,
        after_stage_action(StageAction::Finished, false, is_dir, windows) == StageAction::Finished,
        after_stage_action(StageAction::Failed, true, is_dir, windows) == StageAction::Failed,
{
}

/// An error slide is compiled once: where its PDF is there it is published, and where it is not
/// there after it was compiled, it is given up.
pub proof fn law_error_slides_are_compiled_once(compiled: bool)
    ensures
        slide_step(true, compiled) == ErrorSlideStep::Publish,
        slide_step(false, false) == ErrorSlideStep::Compile,
        slide_step(false, true) == ErrorSlideStep::GiveUp,
{
}

/// What has to be there before a file is written is the directory around it, unless that is the
/// current one.
pub proof fn law_directories_are_made_before_files(path: PathView)
    ensures
        parent(path) is None ==> needed_dir(path) is None,
        parent(path) is Some && parent(path)->0.text.len() > 0 ==> needed_dir(path) == parent(path),
        parent(path) is Some && parent(path)->0.text.len() == 0 ==> needed_dir(path) is None,
{
}

/// The error slide is compiled like any other document of its directory, by the same program.
pub proof fn law_error_slides_use_the_same_program(dir: PathView, engine: LatexEngine)
    ensures
        error_compiler(dir, engine).program == crate::latexcompile::engine_name(engine),
        error_compiler(dir, engine).working_dir == dir,
        error_compiler(dir, engine).current_dir is None,
        error_compiler(dir, engine).args.contains("-interaction=nonstopmode"@),
{
    assert(error_compiler(dir, engine).args[0] == "-interaction=nonstopmode"@);
}

}
