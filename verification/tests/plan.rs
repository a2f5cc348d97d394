use faster_beamer::artifacts::compiled_output_is_fresh;
use faster_beamer::document::GeneratedDocument;
use faster_beamer::frames::FrameLabel;
use faster_beamer::latexcompile::{BibliographyTool, LatexEngine, LatexRunOptions};
use faster_beamer::options::BuildMode;
use faster_beamer::paths::FilePath;
use faster_beamer::plan::{
    document_run_options, first_changed_frame_index, first_changed_frame_label, frame_error,
    lualatex_format_dump_completed_after_backend_error, pdfunite_arguments, plan_compile_jobs,
    plan_frame_build, preamble_command, preamble_files, preamble_is_usable, preamble_step,
    publish_step, retry_targets, PreambleStep, PublishStep,
};
use faster_beamer::sections::GeneratedSupportFile;
use faster_beamer::sync_map::FrameSyncTexMap;

fn path(text: &str) -> FilePath {
    FilePath::parse(text)
}

fn texts(items: &[&str]) -> Vec<String> {
    items.iter().map(|item| item.to_string()).collect()
}

fn document(name: &str, dependencies: Vec<FilePath>) -> GeneratedDocument {
    GeneratedDocument {
        tex_content: String::new(),
        sync_map: FrameSyncTexMap {
            source_file: path("/deck/slides.tex"),
            temp_file_name: name.to_string(),
            segments: Vec::new(),
        },
        dependencies,
        support_files: Vec::new(),
    }
}

#[test]
fn first_changed_frame_detects_stale_related_file() {
    let fresh = compiled_output_is_fresh(Some(b"compiled"), Some(1100), &[Some(2200)]);

    let first_changed = first_changed_frame_index(
        &texts(&["same frame"]),
        &texts(&["same frame"]),
        &[fresh],
        false,
    );

    assert_eq!(first_changed, 0);
}

#[test]
fn the_first_change_is_found() {
    let old = texts(&["a", "b", "c"]);
    let index = |frames: &[&str], fresh: &[bool], force: bool| {
        first_changed_frame_index(&texts(frames), &old, fresh, force)
    };
    assert_eq!(index(&["a", "b", "c"], &[true; 3], false), 3);
    assert_eq!(index(&["a", "b", "c"], &[true; 3], true), 0);
    assert_eq!(index(&["a", "x", "c"], &[true; 3], false), 1);
    assert_eq!(index(&["a", "b", "c"], &[true, true, false], false), 2);
    assert_eq!(index(&["a", "b", "c", "d"], &[true; 4], false), 3);
    assert_eq!(index(&[], &[], true), 0);
    assert_eq!(index(&["a", "b"], &[true, true, false], false), 2);
    assert_eq!(index(&["a", "x", "c"], &[true], false), 1);
    assert_eq!(index(&["a", "b", "c"], &[false], false), 0);
    assert_eq!(index(&["a", "b", "c"], &[], true), 0);
    let labels = [FrameLabel::Title, FrameLabel::Number(1)];
    assert_eq!(first_changed_frame_label(1, &labels, 1), "1/1");
    assert_eq!(first_changed_frame_label(2, &labels, 1), "none");
    assert_eq!(first_changed_frame_label(0, &[], 0), "none");
}

#[test]
fn lualatex_format_dump_accepts_backend_failure_after_dump() {
    assert!(lualatex_format_dump_completed_after_backend_error(
        Some(6),
        Some("Beginning to dump on file preamble.fmt\n! error:  (pdf backend): already written content discarded, no output file produced."),
    ));
}

#[test]
fn lualatex_format_dump_rejects_failure_before_dump() {
    assert!(!lualatex_format_dump_completed_after_backend_error(
        Some(6),
        Some("! error:  (pdf backend): already written content discarded, no output file produced."),
    ));
}

#[test]
fn a_dump_needs_a_format_and_a_log() {
    let log = "Beginning to dump on file x\n(pdf backend): already written content discarded";
    assert!(!lualatex_format_dump_completed_after_backend_error(Some(0), Some(log)));
    assert!(!lualatex_format_dump_completed_after_backend_error(None, Some(log)));
    assert!(!lualatex_format_dump_completed_after_backend_error(Some(6), None));
    assert!(preamble_is_usable(true, LatexEngine::PdfLatex, None, None));
    assert!(!preamble_is_usable(false, LatexEngine::PdfLatex, Some(6), Some(log)));
    assert!(preamble_is_usable(false, LatexEngine::LuaLatex, Some(6), Some(log)));
}

#[test]
fn frames_with_the_same_source_are_compiled_once() {
    let plan = plan_compile_jobs(
        &texts(&["a", "b", "a", "c"]),
        &[FrameLabel::Title, FrameLabel::Number(1), FrameLabel::Number(2), FrameLabel::Number(3)],
        &texts(&["A", "B", "A", "C"]),
        &[false, true, false, false],
        &[false; 4],
        None,
        false,
    );
    assert_eq!(plan.targets, vec![0, 3]);
    assert_eq!(plan.cached, 1);
    assert_eq!(plan.missing, Vec::<usize>::new());
}

#[test]
fn filtered_frames_are_compiled_only_where_their_pdf_is_missing() {
    let filters = texts(&["2"]);
    let plan = plan_compile_jobs(
        &texts(&["a", "b", "c"]),
        &[FrameLabel::Number(1), FrameLabel::Number(2), FrameLabel::Number(3)],
        &texts(&["A", "B", "C"]),
        &[false, false, false],
        &[true, true, false],
        Some(&filters),
        false,
    );
    assert_eq!(plan.targets, vec![1, 2]);
    assert_eq!(plan.cached, 1);
    assert_eq!(plan.missing, vec![2]);
    let forced = plan_compile_jobs(
        &texts(&["a"]),
        &[FrameLabel::Number(1)],
        &texts(&["A"]),
        &[true],
        &[true],
        None,
        true,
    );
    assert_eq!(forced.targets, vec![0]);
}

#[test]
fn a_frame_build_is_planned() {
    let mut frame = document("t.tex", vec![path("/deck/shared.tex")]);
    frame.support_files.push(GeneratedSupportFile {
        extension: "toc",
        content: String::from("toc"),
    });
    let options = LatexRunOptions::new()
        .with_latex_pass_count(3)
        .with_bibliography_tool(Some(BibliographyTool::Biber));
    let build = plan_frame_build(
        &frame,
        &path("/cache"),
        &path("/deck"),
        LatexEngine::PdfLatex,
        &texts(&["-draftmode"]),
        options,
    );
    assert_eq!(build.temp_file, path("/deck/t.tex"));
    assert!(build.stale_files.contains(&path("/cache/t.aux")));
    assert!(build.stale_dependency_files.contains(&path("/cache/shared.aux")));
    assert_eq!(build.support_paths, vec![path("/cache/t.toc")]);
    assert_eq!(build.run.commands.len(), 1);
    assert_eq!(build.run.commands[0].args.last().unwrap(), "t.tex");
    assert_eq!(build.run.output, path("/cache/t.pdf"));

    let plain = plan_frame_build(
        &document("t.tex", Vec::new()),
        &path("/cache"),
        &path("/deck"),
        LatexEngine::PdfLatex,
        &[],
        options,
    );
    assert_eq!(plain.run.commands.len(), 5);
    assert_eq!(plain.run.commands[1].program, "biber");
    let single = document_run_options(true, options);
    assert_eq!(single.latex_pass_count, 1);
    assert_eq!(single.bibliography_tool, None);
    assert_eq!(document_run_options(false, options).latex_pass_count, 3);
}

#[test]
fn failures_of_frames_are_told_apart() {
    let output = path("/cache/t.pdf");
    assert_eq!(frame_error(Ok(()), Ok(()), &output), None);
    assert_eq!(
        frame_error(Err("broken".to_string()), Ok(()), &output),
        Some("broken".to_string())
    );
    assert_eq!(
        frame_error(Ok(()), Err("PDF header is missing".to_string()), &output),
        Some("Generated PDF /cache/t.pdf is incomplete or unreadable: PDF header is missing".to_string())
    );
    assert_eq!(retry_targets(&[2, 5], true), vec![2, 5]);
    assert_eq!(retry_targets(&[2, 5], false), Vec::<usize>::new());
}

#[test]
fn preambles_are_dumped_by_the_engine() {
    assert_eq!(preamble_step(false, true, false), PreambleStep::Disabled);
    assert_eq!(preamble_step(true, true, false), PreambleStep::Cached);
    assert_eq!(preamble_step(true, true, true), PreambleStep::Compile);
    assert_eq!(preamble_step(true, false, false), PreambleStep::Compile);
    let (format, log) = preamble_files(&path("/deck"), "job");
    assert_eq!(format, path("/deck/job.fmt"));
    assert_eq!(log, path("/deck/job.log"));
    let command = preamble_command(
        LatexEngine::LuaLatex,
        "job",
        &texts(&["-x"]),
        "slides.tex",
        &path("/deck"),
    );
    assert_eq!(command.program, "lualatex");
    assert_eq!(
        command.args,
        texts(&[
            "-shell-escape",
            "-ini",
            "-jobname=job",
            "-x",
            "&lualatex",
            "mylatexformat.ltx",
            "slides.tex"
        ])
    );
    assert_eq!(command.current_dir, path("/deck"));
}

#[test]
fn the_output_follows_from_the_mode() {
    assert_eq!(publish_step(BuildMode::PdfUnite, 0, 3), PublishStep::PdfUnite);
    assert_eq!(publish_step(BuildMode::PdfUniteSynctex, 0, 3), PublishStep::PdfUnite);
    assert_eq!(publish_step(BuildMode::TexUnite, 0, 3), PublishStep::TexUnite);
    assert_eq!(publish_step(BuildMode::Preview, 2, 3), PublishStep::Preview(2));
    assert_eq!(publish_step(BuildMode::Preview, 3, 3), PublishStep::Preview(0));
    assert_eq!(publish_step(BuildMode::Preview, 0, 0), PublishStep::Nothing);
    assert_eq!(
        pdfunite_arguments(
            &path("/cache"),
            &[document("a.tex", Vec::new()), document("b.tex", Vec::new())]
        ),
        vec![
            path("/cache/a.pdf"),
            path("/cache/b.pdf"),
            path("/cache/faster-beamer-pdfunite-output.pdf")
        ]
    );
}
