use faster_beamer::document::{FasterBeamerError, GeneratedDocument};
use faster_beamer::latexcompile::{LatexEngine, LatexRunOptions};
use faster_beamer::lines::logical_line_count;
use faster_beamer::paths::FilePath;
use faster_beamer::sync_map::FrameSyncTexMap;
use faster_beamer::united::{
    append_united_frame_placeholder, append_united_source_segment, build_compiler_for,
    build_united_document, plan_united_build, split_trailing_frame_boundary, united_frame_replacement,
    united_outcome,
};

fn document(name: &str) -> GeneratedDocument {
    GeneratedDocument {
        tex_content: String::new(),
        sync_map: FrameSyncTexMap {
            source_file: FilePath::parse("/deck/slides.tex"),
            temp_file_name: name.to_string(),
            segments: Vec::new(),
        },
        dependencies: Vec::new(),
        support_files: Vec::new(),
    }
}

#[test]
fn united_frame_replacement_suppresses_wrapper_templates() {
    let replacement = united_frame_replacement("", "frame.pdf");

    assert!(replacement.contains("\\setbeamertemplate{footline}{}"));
    assert!(replacement.contains("\\setbeamertemplate{headline}{}"));
    assert!(replacement.contains("\\setbeamertemplate{navigation symbols}{}"));
    assert!(replacement.contains("pagecommand={\\thispagestyle{empty}"));
}

#[test]
fn a_replacement_is_written_in_full() {
    assert_eq!(
        united_frame_replacement("% note\n", "a/f.pdf"),
        "% note\n{\\setbeamercolor{background canvas}{bg=}\n\\setbeamertemplate{footline}{}\n\\setbeamertemplate{headline}{}\n\\setbeamertemplate{navigation symbols}{}\n\\includepdf[\n  pages=-,\n  pagecommand={\\thispagestyle{empty}\\smash{\\hbox to 0pt{\\phantom{.}\\hss}}}\n]{a/f.pdf}\n}"
    );
}

#[test]
fn comments_before_a_frame_belong_to_it() {
    let split = |segment: &str| split_trailing_frame_boundary(segment);
    assert_eq!(split("a\n\n  % b\n"), ("a\n".to_string(), "\n  % b\n".to_string()));
    assert_eq!(split("a\nb"), ("a\nb".to_string(), String::new()));
    assert_eq!(split(" \n%"), (String::new(), " \n%".to_string()));
    assert_eq!(split(""), (String::new(), String::new()));
}

#[test]
fn a_united_document_leads_back_to_its_source() {
    let source = "\\documentclass{beamer}\n\\begin{document}\n% first\n\\titlepage\nmiddle\n\\titlepage\n\\end{document}\n";
    let frames = ["\\titlepage".to_string(), "\\titlepage".to_string()];
    let (tex, map) = build_united_document(
        source,
        &frames,
        &[(4, 1), (6, 1)],
        &[document("f1.tex"), document("f2.tex")],
        &FilePath::parse("/cache"),
        &FilePath::parse("/deck/slides.tex"),
    )
    .unwrap();
    assert!(tex.starts_with("\\RequirePackage{pdfpages}\n\\documentclass{beamer}\n\\begin{document}\n% first\n{"));
    assert!(tex.contains("]{/cache/f1.pdf}\n}\nmiddle\n{"));
    assert!(tex.ends_with("]{/cache/f2.pdf}\n}\n\\end{document}\n"));
    assert_eq!(map.temp_file_name, "faster-beamer-united-preview.tex");
    assert_eq!(map.source_file, FilePath::parse("/deck/slides.tex"));
    let line_of = |text: &str| tex[..tex.find(text).unwrap()].matches('\n').count() + 1;
    assert_eq!(map.map_temp_line(line_of("\\begin{document}")), 2);
    assert_eq!(map.map_temp_line(line_of("/cache/f1.pdf")), 4);
    assert_eq!(map.map_temp_line(line_of("/cache/f2.pdf")), 6);
}

#[test]
fn lines_are_counted_piece_by_piece() {
    let frames = ["F".to_string(), "F".to_string()];
    let (tex, map) = build_united_document(
        "A\nF\nB\nF\nC\n",
        &frames,
        &[(2, 1), (4, 1)],
        &[document("f1.tex"), document("f2.tex")],
        &FilePath::parse("/cache"),
        &FilePath::parse("/deck/slides.tex"),
    )
    .unwrap();
    let lines: Vec<&str> = tex.lines().collect();
    assert_eq!((lines[1], lines[11], lines[21]), ("A", "B", "C"));
    assert_eq!((lines[9], lines[19]), ("]{/cache/f1.pdf}", "]{/cache/f2.pdf}"));
    let segments: Vec<(usize, usize, usize)> = map
        .segments
        .iter()
        .map(|s| {
            (s.temp_start_line as usize, s.line_count as usize, s.source_start_line as usize)
        })
        .collect();
    assert_eq!(segments, vec![(2, 1, 1), (12, 2, 2), (23, 2, 4), (10, 1, 2), (20, 1, 4)]);
    assert_eq!(map.map_temp_line(2), 1);
    assert_eq!(map.map_temp_line(10), 2);
    assert_eq!(map.map_temp_line(12), 2);
    assert_eq!(map.map_temp_line(13), 3);
    assert_eq!(map.map_temp_line(20), 4);
}

#[test]
fn a_frame_that_is_not_in_the_source_cannot_be_united() {
    let united = build_united_document(
        "no frame",
        &["\\titlepage".to_string()],
        &[(1, 1)],
        &[document("f.tex")],
        &FilePath::parse("/cache"),
        &FilePath::parse("/deck/slides.tex"),
    );
    assert!(matches!(united, Err(FasterBeamerError::CompileError)));
}

#[test]
fn pieces_are_counted_as_they_are_appended() {
    let source: Vec<char> = "a\nb\nc\n".chars().collect();
    let mut text: Vec<char> = Vec::new();
    let mut segments = Vec::new();
    let mut line: u128 = 2;
    append_united_source_segment(&mut text, &mut segments, &mut line, &source, 2, &source[2..]);
    assert_eq!(text.iter().collect::<String>(), "b\nc\n");
    assert_eq!(line, 4);
    assert_eq!(segments.len(), 1);
    assert_eq!(segments[0].temp_start_line, 2);
    assert_eq!(segments[0].line_count, 2);
    assert_eq!(segments[0].source_start_line, 2);
    append_united_source_segment(&mut text, &mut segments, &mut line, &source, 6, &source[6..]);
    assert_eq!(segments.len(), 1);
    append_united_frame_placeholder(&mut text, &mut line, &['x', '\n', 'y']);
    assert_eq!(line, 6);
    assert_eq!(logical_line_count(&text.iter().collect::<String>()), 4);
}

#[test]
fn a_united_build_is_planned() {
    let build = plan_united_build(
        "x\n",
        &[],
        &[],
        &[],
        &FilePath::parse("/cache"),
        &FilePath::parse("/deck/slides.tex"),
        &FilePath::parse("/deck"),
        LatexEngine::PdfLatex,
        &["-draftmode".to_string()],
        LatexRunOptions::new(),
        1234,
    )
    .unwrap();
    assert_eq!(build.tex_content, "\\RequirePackage{pdfpages}\nx\n");
    assert_eq!(build.run.commands.len(), 1);
    let command = &build.run.commands[0];
    assert_eq!(command.program, "pdflatex");
    assert_eq!(
        command.args,
        vec![
            "-interaction=nonstopmode",
            "-synctex=5",
            "-shell-escape",
            "-interaction=nonstopmode",
            "-draftmode",
            "-output-directory=/cache",
            "faster-beamer-united-1234.tex"
        ]
        .into_iter()
        .map(String::from)
        .collect::<Vec<String>>()
    );
    assert_eq!(build.artifacts.tex_file, FilePath::parse("/deck/faster-beamer-united-1234.tex"));
    assert_eq!(build.artifacts.pdf_file, FilePath::parse("/cache/faster-beamer-united-1234.pdf"));
    assert_eq!(build.run.output, build.artifacts.pdf_file);
    let compiler = build_compiler_for(
        &FilePath::parse("/cache"),
        &FilePath::parse("/deck"),
        LatexEngine::LuaLatex,
        &[],
    );
    assert_eq!(compiler.program, "lualatex");
    let failed = build.clone();
    assert!(matches!(
        united_outcome(failed, false),
        Err(FasterBeamerError::CompileError)
    ));
    let artifacts = united_outcome(build, true).unwrap();
    assert_eq!(artifacts.sync_map.temp_file_name, "faster-beamer-united-1234.tex");
}
