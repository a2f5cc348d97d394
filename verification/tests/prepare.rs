use faster_beamer::document::BuildSettings;
use faster_beamer::frames::{frame_labels, FrameLabel};
use faster_beamer::latexcompile::LatexEngine;
use faster_beamer::paths::FilePath;
use faster_beamer::prepare::{prepare_documents, read_source, PreparedSource};
use faster_beamer::presentation::frames_at;

const SOURCE: &str = "\\documentclass{beamer}\n\\title{T}\n\\begin{document}\n\\titlepage\n\\section{One}\n\\newcommand{\\x}{y}\n\\begin{frame}{A}\n  \\x\n\\end{frame}\n\\begin{frame}\n\\tableofcontents\n\\end{frame}\n\\end{document}\n";

fn settings(compiler_options: Vec<String>) -> BuildSettings {
    BuildSettings {
        latex_engine: LatexEngine::PdfLatex,
        precompile_preamble: true,
        compiler_options,
        correct_frame_numbers: false,
    }
}

#[test]
fn a_source_is_read_at_once() {
    let read = read_source(SOURCE, &settings(Vec::new()), false);
    assert_eq!(read.frames.frames.len(), 3);
    assert_eq!(read.frames.lines, vec![(4, 1), (7, 3), (10, 3)]);
    assert_eq!(
        read.labels,
        vec![
            FrameLabel::Title,
            FrameLabel::Number(1),
            FrameLabel::Number(2)
        ]
    );
    assert_eq!(read.preamble.text, "\\documentclass{beamer}\n");
    assert_eq!(read.preamble.title_info, "\\title{T}\n");
    assert!(read.preamble_job.starts_with("faster-beamer-preamble-"));
    let other = read_source(SOURCE, &settings(vec!["-draftmode".to_string()]), false);
    assert_ne!(read.preamble_job, other.preamble_job);
}

#[test]
fn lines_of_documents_lead_back_to_the_same_text() {
    let options = settings(Vec::new());
    let read = read_source(SOURCE, &options, false);
    let input = FilePath::parse("/deck/slides.tex");
    let (documents, unsupported) = prepare_documents(
        SOURCE,
        &read,
        &options,
        false,
        &input,
        &FilePath::parse("/deck"),
        &input,
        None,
    );
    assert_eq!(documents.len(), 3);
    assert_eq!(unsupported, 0);
    let source_lines: Vec<&str> = SOURCE.lines().collect();
    for (document, frame) in documents.iter().zip(&read.frames.frames) {
        let at = document.tex_content.find(frame.as_str()).unwrap();
        let first = document.tex_content[..at].matches('\n').count() + 1;
        for (k, line) in frame.lines().enumerate() {
            let source_line = document.sync_map.map_temp_line(first + k) as usize;
            assert_eq!(source_lines[source_line - 1], line);
        }
        assert_eq!(document.sync_map.source_file, input);
    }
    assert!(documents[0].tex_content.contains("\\title{T}\n"));
    assert!(!documents[1].tex_content.contains("\\title{T}\n"));
    assert!(documents[1].tex_content.contains("\\newcommand{\\x}{y}\n"));
    assert_eq!(documents[2].support_files[0].extension, "toc");
    assert_eq!(
        documents[2].support_files[0].content,
        "\\beamer@sectionintoc {1}{One}{1}{0}{1}\n"
    );
}

#[test]
fn frames_can_be_found_otherwise() {
    let options = settings(Vec::new());
    let read = read_source(SOURCE, &options, false);
    let start = SOURCE.find("\\begin{frame}{A}").unwrap();
    let frames = frames_at(SOURCE, vec![(start, start + "\\begin{frame}{A}\n  \\x\n".len())]);
    let labels = frame_labels(&frames.frames);
    let source = PreparedSource {
        frames,
        labels,
        preamble: read.preamble,
        preamble_job: read.preamble_job,
    };
    let input = FilePath::parse("/deck/slides.tex");
    let (documents, unsupported) = prepare_documents(
        SOURCE,
        &source,
        &options,
        false,
        &input,
        &FilePath::parse("/deck"),
        &input,
        None,
    );
    assert_eq!((documents.len(), unsupported), (1, 0));
    assert!(documents[0].tex_content.contains("\\begin{frame}{A}\n  \\x\n"));
    assert!(!documents[0].tex_content.contains("\\tableofcontents"));
    assert!(documents[0].tex_content.contains("\\newcommand{\\x}{y}\n"));
}
