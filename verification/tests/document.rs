use faster_beamer::context::DocumentContextSnippet;
use faster_beamer::digest::{digest_of, hex_text, is_hex_digest};
use faster_beamer::document::{
    append_latex_cache_key, compiled_pdf_path, frame_document, frame_temp_file_name,
    needs_title_info, preamble_job_for, preamble_job_name, with_dependencies, BuildSettings,
    SharedParts,
};
use faster_beamer::frames::FrameLabel;
use faster_beamer::latexcompile::LatexEngine;
use faster_beamer::paths::FilePath;
use faster_beamer::plan::generate_documents;
use faster_beamer::presentation::{find_frames, frame_contexts, read_preamble};
use faster_beamer::sections::{document_sections, GeneratedSupportFile, TocFramePatch, TocFrameSupport};

fn settings(precompile_preamble: bool, correct_frame_numbers: bool) -> BuildSettings {
    BuildSettings {
        latex_engine: LatexEngine::PdfLatex,
        precompile_preamble,
        compiler_options: Vec::new(),
        correct_frame_numbers,
    }
}

fn shared(settings: BuildSettings) -> SharedParts {
    SharedParts {
        preamble: String::from("\\documentclass{beamer}\n"),
        title_info: String::from("\\title{T}\n"),
        preamble_name: String::from("pre"),
        begin_line: 3,
        end_line: 20,
        settings,
        source_file: FilePath::parse("/deck/slides.tex"),
    }
}

fn line_of(text: &str, piece: &str) -> usize {
    text[..text.find(piece).unwrap()].matches('\n').count() + 1
}

#[test]
fn digests_are_those_of_the_text() {
    assert_eq!(digest_of(""), "d41d8cd98f00b204e9800998ecf8427e");
    assert_eq!(
        digest_of("The quick brown fox jumps over the lazy dog"),
        "9e107d9d372bb6826bd81d3542a419d6"
    );
    assert_eq!(digest_of("\u{e4}"), format!("{:x}", md5::compute("\u{e4}")));
    assert_eq!(hex_text(&[0, 15, 16, 255]), "000f10ff");
    assert!(is_hex_digest(&digest_of("x")));
    assert!(!is_hex_digest("0123"));
    assert!(!is_hex_digest(&"g".repeat(32)));
}

#[test]
fn names_are_made_of_digests() {
    assert_eq!(frame_temp_file_name("abc"), "faster-beamer-temp-abc.tex");
    assert_eq!(preamble_job_name("abc"), "faster-beamer-preamble-abc");
    assert_eq!(
        compiled_pdf_path(&FilePath::parse("/cache"), "faster-beamer-temp-abc.tex"),
        FilePath::parse("/cache/faster-beamer-temp-abc.pdf")
    );
    let key = "p\n% faster-beamer latex engine\npdflatex\n% faster-beamer precompile preamble: true\n";
    assert_eq!(
        preamble_job_for("p", &settings(true, false)),
        format!("faster-beamer-preamble-{:x}", md5::compute(key))
    );
}

#[test]
fn settings_are_part_of_the_cache_key() {
    let mut plain = String::from("x");
    append_latex_cache_key(&mut plain, LatexEngine::LuaLatex, false, &[]);
    assert_eq!(
        plain,
        "x\n% faster-beamer latex engine\nlualatex\n% faster-beamer precompile preamble: false\n"
    );
    let mut with_options = String::from("x");
    append_latex_cache_key(
        &mut with_options,
        LatexEngine::LuaLatex,
        false,
        &["-a".to_string(), "-b".to_string()],
    );
    assert_eq!(
        with_options,
        plain + "% faster-beamer compiler options\n-a\n-b\n"
    );
}

#[test]
fn frames_that_show_the_title_get_it() {
    for frame in [
        "\\titlepage",
        "\\maketitle",
        "\\inserttitle",
        "\\insertauthor",
        "\\insertdate",
        "\\insertinstitute",
        "\\insertsubtitle",
    ] {
        assert!(needs_title_info(frame));
    }
    assert!(!needs_title_info("\\title"));
}

#[test]
fn a_frame_becomes_a_document() {
    let context = [DocumentContextSnippet {
        content: String::from("\\def\\x{1}\n"),
        source_start_line: 5,
    }];
    let document = frame_document(
        &shared(settings(true, true)),
        "\\begin{frame}\n\\titlepage\n\\end{frame}",
        (7, 3),
        &context,
        FrameLabel::Number(4),
        TocFrameSupport::NotNeeded,
    );
    assert_eq!(
        document.tex_content,
        "%&pre\n\\documentclass{beamer}\n\n\\begin{document}\n\\title{T}\n\n\\def\\x{1}\n\\setcounter{framenumber}{3}\n\\begin{frame}\n\\titlepage\n\\end{frame}\n\\end{document}\n"
    );
    let key = document.tex_content.clone()
        + "\n% faster-beamer latex engine\npdflatex\n% faster-beamer precompile preamble: true\n";
    assert_eq!(
        document.sync_map.temp_file_name,
        format!("faster-beamer-temp-{:x}.tex", md5::compute(key))
    );
    let map = |piece: &str| document.sync_map.map_temp_line(line_of(&document.tex_content, piece));
    assert_eq!(map("\\documentclass"), 1);
    assert_eq!(map("\\begin{document}"), 3);
    assert_eq!(map("\\def\\x"), 5);
    assert_eq!(map("\\begin{frame}"), 7);
    assert_eq!(map("\\end{frame}"), 9);
    assert_eq!(map("\\end{document}"), 20);
    assert_eq!(document.additional_dependencies.len(), 0);
}

#[test]
fn a_table_of_contents_is_part_of_the_digest() {
    let patch = |content: &str| {
        TocFrameSupport::Supported(TocFramePatch {
            runtime_setup: String::from("\\setcounter{section}{0}\n"),
            support_files: vec![GeneratedSupportFile {
                extension: "toc",
                content: content.to_string(),
            }],
            additional_dependencies: vec![FilePath::parse("/deck/slides.toc")],
        })
    };
    let document = |content: &str| {
        frame_document(
            &shared(settings(false, false)),
            "\\tableofcontents",
            (7, 1),
            &[],
            FrameLabel::Toc,
            patch(content),
        )
    };
    let one = document("a");
    let two = document("b");
    assert_eq!(one.tex_content, two.tex_content);
    assert_ne!(one.sync_map.temp_file_name, two.sync_map.temp_file_name);
    assert!(one.tex_content.starts_with("\\documentclass"));
    assert!(one.tex_content.contains("\\def\\insertframenumber{}"));
    assert!(one.tex_content.contains("\\setcounter{section}{0}\n\\tableofcontents\n\\end{document}\n"));
    let full = with_dependencies(
        one,
        &[FilePath::parse("/z"), FilePath::parse("/a"), FilePath::parse("/z")],
    );
    assert_eq!(
        full.dependencies,
        vec![
            FilePath::parse("/a"),
            FilePath::parse("/deck/slides.toc"),
            FilePath::parse("/z")
        ]
    );
    assert_eq!(full.support_files.len(), 1);
}

#[test]
fn every_frame_of_a_source_gets_a_document() {
    let source = "\\documentclass{beamer}\n\\begin{document}\n\\titlepage\n\\begin{frame}\n\\tableofcontents[currentsection]\n\\end{frame}\n\\end{document}\n";
    let frames = find_frames(source);
    let preamble = read_preamble(source, false);
    let contexts = frame_contexts(source, &frames, &preamble, false);
    let mut parts = shared(settings(false, false));
    parts.begin_line = preamble.begin_line;
    parts.end_line = preamble.end_line;
    let labels = [FrameLabel::Title, FrameLabel::Toc];
    let (documents, unsupported) = generate_documents(
        &parts,
        &frames,
        &contexts,
        &labels,
        &FilePath::parse("/deck"),
        &FilePath::parse("/deck/slides.tex"),
        None,
        &document_sections(source),
    );
    assert_eq!(documents.len(), 2);
    assert_eq!(unsupported, 0);
    assert!(documents[0].tex_content.contains("\\titlepage"));
    assert_eq!(documents[1].support_files.len(), 1);
    assert_eq!(
        documents[1].sync_map.map_temp_line(line_of(&documents[1].tex_content, "\\tableofcontents")),
        5
    );
}
