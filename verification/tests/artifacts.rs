use faster_beamer::artifacts::{
    compiled_output_is_fresh, dependencies_for_document, dependency_job_sidecars,
    dependency_sidecar_path, fls_inputs, frame_job_sidecars, is_generated_name,
    is_transient_file_lock, job_file_path, parse_dependency_manifest, parse_fls_dependencies,
    remove_step, render_dependency_manifest, should_track_runtime_dependency,
    validate_compiled_pdf, PdfDefect, RemoveOutcome, RemoveStep,
};
use faster_beamer::document::GeneratedDocument;
use faster_beamer::path_order::{is_path_le, sorted_set};
use faster_beamer::path_parts::PathStyle;
use faster_beamer::paths::FilePath;
use faster_beamer::sync_map::FrameSyncTexMap;

fn path(text: &str) -> FilePath {
    FilePath::parse(text)
}

fn complete_pdf() -> Vec<u8> {
    b"%PDF-1.5\nbody\n%%EOF\n".to_vec()
}

#[test]
fn parse_fls_dependencies_ignores_generated_temp_files() {
    let source_file = path("/tmp/src/slides.tex");
    let graphic_file = path("/tmp/src/plot.pdf");
    let temp_file = path("/tmp/src/faster-beamer-temp-demo.tex");
    let cached_file = path("/tmp/cache/foo.sty");

    let fls = format!(
        "INPUT {}\nINPUT {}\nINPUT {}\nINPUT {}\n",
        source_file.text,
        graphic_file.text,
        temp_file.text,
        cached_file.text
    );
    let inputs = fls_inputs(&fls, PathStyle::Unix);
    assert_eq!(
        inputs,
        vec![source_file.clone(), graphic_file.clone(), temp_file, cached_file]
    );

    let dependencies = parse_fls_dependencies(&fls, &inputs, &path("/tmp/cache"));

    assert_eq!(dependencies, vec![graphic_file, source_file]);
}

#[test]
fn remove_frame_job_sidecars_clears_stale_auxiliary_files() {
    let cache_dir = path("/cache");
    let removed = frame_job_sidecars(&cache_dir, "faster-beamer-temp-test.tex");

    assert!(removed.contains(&path("/cache/faster-beamer-temp-test.aux")));
    assert!(removed.contains(&path("/cache/faster-beamer-temp-test.toc")));
    assert!(removed.contains(&path("/cache/faster-beamer-temp-test.synctex.gz")));
    assert!(!removed.contains(&path("/cache/faster-beamer-temp-test.pdf")));
    assert!(!removed.contains(&path("/cache/faster-beamer-temp-test.deps")));
    assert_eq!(removed.len(), 13);
}

#[test]
fn remove_dependency_job_sidecars_clears_input_auxiliary_files() {
    let removed =
        dependency_job_sidecars(&path("/cache"), &path("/deck"), &[path("/deck/shared.tex")]);

    assert!(removed.contains(&path("/cache/shared.aux")));
    assert!(removed.contains(&path("/cache/shared.toc")));
    assert!(!removed.contains(&path("/cache/shared.tex")));
}

#[test]
fn remove_dependency_job_sidecars_preserves_relative_subdirectories() {
    let removed = dependency_job_sidecars(
        &path("/cache"),
        &path("/deck"),
        &[path("/deck/parts/chapter.tex")],
    );

    assert!(removed.contains(&path("/cache/parts/chapter.aux")));
}

#[test]
fn sidecars_of_files_elsewhere_lie_in_the_cache() {
    assert_eq!(
        dependency_sidecar_path(&path("/cache"), &path("/deck"), &path("/lib/x.tex"), "aux"),
        path("/cache/x.aux")
    );
    assert_eq!(
        dependency_job_sidecars(&path("/cache"), &path("/deck"), &[path("/deck/plot.pdf")]),
        vec![]
    );
    assert_eq!(job_file_path(&path("/cache"), "a.tex", "deps"), path("/cache/a.deps"));
}

#[test]
fn compiled_output_is_not_fresh_when_pdf_is_incomplete() {
    assert!(!compiled_output_is_fresh(
        Some(b"%PDF-1.5\nmissing trailer"),
        Some(20),
        &[Some(10)]
    ));
}

#[test]
fn output_is_fresh_when_nothing_is_newer() {
    let pdf = complete_pdf();
    assert!(compiled_output_is_fresh(Some(&pdf), Some(20), &[Some(10), Some(20)]));
    assert!(compiled_output_is_fresh(Some(&pdf), Some(20), &[]));
    assert!(!compiled_output_is_fresh(Some(&pdf), Some(20), &[Some(10), Some(21)]));
    assert!(!compiled_output_is_fresh(Some(&pdf), Some(20), &[None]));
    assert!(!compiled_output_is_fresh(Some(&pdf), None, &[]));
    assert!(!compiled_output_is_fresh(None, Some(20), &[]));
}

#[test]
fn a_complete_pdf_has_a_header_and_a_trailer() {
    assert_eq!(validate_compiled_pdf(&complete_pdf()), Ok(()));
    assert_eq!(validate_compiled_pdf(b""), Err(PdfDefect::HeaderMissing));
    assert_eq!(validate_compiled_pdf(b"%PDF-"), Err(PdfDefect::TrailerMissing));
    let mut padded = complete_pdf();
    padded.extend(vec![b' '; 2040]);
    assert_eq!(validate_compiled_pdf(&padded), Ok(()));
    padded.extend(vec![b' '; 10]);
    assert_eq!(validate_compiled_pdf(&padded), Err(PdfDefect::TrailerMissing));
    assert_eq!(PdfDefect::HeaderMissing.message(), "PDF header is missing");
    assert_eq!(PdfDefect::TrailerMissing.message(), "PDF trailer is missing");
}

#[test]
fn manifests_are_read_as_they_were_written() {
    let paths = [path("/a/b.tex"), path("/a/c d.sty"), path("rel/x")];
    let text = render_dependency_manifest(&paths);
    assert_eq!(text, "/a/b.tex\n/a/c d.sty\nrel/x");
    assert_eq!(parse_dependency_manifest(&text, PathStyle::Unix), paths.to_vec());
    assert_eq!(
        parse_dependency_manifest(" b \r\n\n a\nb\n", PathStyle::Unix),
        vec![path("a"), path("b")]
    );
    assert_eq!(render_dependency_manifest(&[]), "");
    assert_eq!(parse_dependency_manifest("", PathStyle::Unix), vec![]);
}

#[test]
fn recorded_dependencies_replace_those_of_the_source() {
    let document = GeneratedDocument {
        tex_content: String::new(),
        sync_map: FrameSyncTexMap {
            source_file: path("/s.tex"),
            temp_file_name: String::from("t.tex"),
            segments: Vec::new(),
        },
        dependencies: vec![path("named")],
        support_files: Vec::new(),
    };
    assert_eq!(
        dependencies_for_document(Some("recorded\n"), &document),
        vec![path("recorded")]
    );
    assert_eq!(dependencies_for_document(None, &document), vec![path("named")]);
}

#[test]
fn files_of_the_cache_are_no_dependencies() {
    let cache = path("/cache/deck");
    assert!(should_track_runtime_dependency(&path("/cache/x"), true, &cache));
    assert!(!should_track_runtime_dependency(&path("/cache/x"), false, &cache));
    assert!(!should_track_runtime_dependency(&path("/cache/deck/x"), true, &cache));
    assert!(!should_track_runtime_dependency(&path("/faster-beamer-united-1.tex"), true, &cache));
    assert!(!should_track_runtime_dependency(&path("/a/.."), true, &cache));
    assert!(is_generated_name("faster-beamer-preamble-x.fmt"));
    assert!(!is_generated_name("my-faster-beamer-temp-x"));
}

#[test]
fn removing_a_file_is_tried_again_while_it_is_locked() {
    assert_eq!(remove_step(0, RemoveOutcome::Removed), RemoveStep::Done);
    assert_eq!(remove_step(3, RemoveOutcome::NotFound), RemoveStep::Done);
    assert_eq!(remove_step(0, RemoveOutcome::Failed), RemoveStep::Fail);
    let delays: Vec<RemoveStep> = (0..9)
        .map(|attempt| remove_step(attempt, RemoveOutcome::Locked))
        .collect();
    let expected: Vec<RemoveStep> = [25, 50, 75, 100, 150, 200, 300, 500]
        .iter()
        .map(|ms| RemoveStep::Retry(*ms))
        .chain(vec![RemoveStep::Fail])
        .collect();
    assert_eq!(delays, expected);
    assert!(is_transient_file_lock(Some(32), false));
    assert!(is_transient_file_lock(None, true));
    assert!(!is_transient_file_lock(Some(2), false));
}

#[test]
fn paths_are_sorted_by_their_components() {
    let mut texts = vec![
        "/b", "a/b", "a", "a-b", "../x", ".", "/", "a/b/c", "\u{e4}", "a b", "A", "a/\u{10000}",
        "a/\u{ffff}", "", "a",
    ];
    let paths: Vec<FilePath> = texts.iter().map(|text| path(text)).collect();
    texts.sort_by(|a, b| std::path::Path::new(a).cmp(std::path::Path::new(b)));
    texts.dedup();
    let expected: Vec<FilePath> = texts.iter().map(|text| path(text)).collect();
    assert_eq!(sorted_set(&paths), expected);
    assert!(is_path_le(&path("a"), &path("a/b")));
    assert!(!is_path_le(&path("a/b"), &path("a")));
}
