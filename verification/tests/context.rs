use faster_beamer::context::{
    append_document_context, document_contexts_before_frames, extract_document_context_snippets,
    extract_title_commands, DocumentContextSnippet,
};
use faster_beamer::presentation::{find_frames, frame_contexts, frames_at, read_preamble};
use faster_beamer::sync_map::SyncTexLineSegment;

fn context_text(context: &[DocumentContextSnippet]) -> String {
    context
        .iter()
        .map(|snippet| snippet.content.as_str())
        .collect::<Vec<_>>()
        .join("")
}

#[test]
fn document_context_accumulates_definitions_between_frames() {
    let source = "\\documentclass{beamer}\n\
\\begin{document}\n\
\\begin{frame}{A}\n\
A\n\
\\end{frame}\n\
\\newcommand{\\shared}{first}\n\
\\definecolor{brand}{RGB}{1,2,3}\n\
\\section{Ignored}\n\
\\begin{frame}{B}\n\
\\shared\n\
\\end{frame}\n\
\\renewcommand{\\shared}{second}\n\
\\begin{frame}{C}\n\
\\shared\n\
\\end{frame}\n\
\\end{document}\n";

    let contexts = document_contexts_before_frames(
        source,
        &find_frames(source).ranges,
        source.find("\\begin{document}"),
    );

    assert_eq!(context_text(&contexts[0]), "");

    let second_context = context_text(&contexts[1]);
    assert!(second_context.contains("\\newcommand{\\shared}{first}"));
    assert!(second_context.contains("\\definecolor{brand}{RGB}{1,2,3}"));
    assert!(!second_context.contains("\\section{Ignored}"));
    assert_eq!(contexts[1][0].source_start_line, 6);

    let third_context = context_text(&contexts[2]);
    assert!(third_context.contains("\\newcommand{\\shared}{first}"));
    assert!(third_context.contains("\\renewcommand{\\shared}{second}"));
}

#[test]
fn document_context_keeps_multiline_definitions_together() {
    let source = "\\documentclass{beamer}\n\
\\begin{document}\n\
\\begin{frame}{A}\n\
A\n\
\\end{frame}\n\
\\newcommand{\\wrapped}[1]{%\n\
  \\textbf{#1}\n\
}\n\
% \\newcommand{\\commented}{ignored}\n\
\\begin{frame}{B}\n\
\\wrapped{B}\n\
\\end{frame}\n\
\\end{document}\n";

    let contexts = document_contexts_before_frames(
        source,
        &find_frames(source).ranges,
        source.find("\\begin{document}"),
    );
    let second_context = context_text(&contexts[1]);

    assert!(second_context.contains("\\newcommand{\\wrapped}[1]{%"));
    assert!(second_context.contains("\\textbf{#1}"));
    assert!(second_context.contains("}\n"));
    assert!(!second_context.contains("\\commented"));
    assert_eq!(contexts[1].len(), 1);
    assert_eq!(contexts[1][0].source_start_line, 6);
}

#[test]
fn frames_before_the_document_have_no_context() {
    let source = "\\newcommand{\\x}{y}\n\
\\begin{frame}\n\
\\end{frame}\n\
\\begin{document}\n\
\\def\\y{z}\n\
\\begin{frame}\n\
\\end{frame}\n";
    let contexts = document_contexts_before_frames(
        source,
        &find_frames(source).ranges,
        source.find("\\begin{document}"),
    );
    assert_eq!(contexts[0].len(), 0);
    assert_eq!(context_text(&contexts[1]), "\\def\\y{z}\n");
}

#[test]
fn a_definition_that_is_never_closed_is_kept() {
    let source = "\u{e4}\n\\newcommand{\\x}{\nopen\n";
    let snippets = extract_document_context_snippets(source, 3, source.len());
    assert_eq!(snippets.len(), 1);
    assert_eq!(snippets[0].content, "\\newcommand{\\x}{\nopen\n");
    assert_eq!(snippets[0].source_start_line, 2);
}

#[test]
fn title_commands_are_taken_out_of_the_preamble() {
    let mut preamble = String::from(
        "\\documentclass{beamer}\n\\title[short]{A %}\n long} \n\\usepackage{x}\n% \\author{no}\n  \\author{Me}\n",
    );
    let title = extract_title_commands(&mut preamble);
    assert_eq!(title, "\\title[short]{A %}\n long} \n  \\author{Me}\n");
    assert_eq!(
        preamble,
        "\\documentclass{beamer}\n\\usepackage{x}\n% \\author{no}\n"
    );
    let mut rest = preamble.clone();
    assert_eq!(extract_title_commands(&mut rest), "");
    assert_eq!(rest, preamble);
}

#[test]
fn context_lines_lead_back_to_the_source() {
    let context = [
        DocumentContextSnippet {
            content: String::from("\\def\\a{1}\n"),
            source_start_line: 40,
        },
        DocumentContextSnippet {
            content: String::from("\\def\\b{%\n2}"),
            source_start_line: 50,
        },
    ];
    let mut prefix = String::from("one\ntwo\n");
    let mut segments: Vec<SyncTexLineSegment> = Vec::new();
    append_document_context(&mut prefix, &mut segments, &context);
    assert_eq!(prefix, "one\ntwo\n\\def\\a{1}\n\\def\\b{%\n2}\n");
    assert_eq!(segments.len(), 2);
    assert_eq!(segments[0].temp_start_line, 3);
    assert_eq!(segments[0].line_count, 1);
    assert_eq!(segments[0].source_start_line, 40);
    assert_eq!(segments[1].temp_start_line, 4);
    assert_eq!(segments[1].line_count, 2);
    assert_eq!(segments[1].source_start_line, 50);
}

#[test]
fn frames_are_found_in_the_source() {
    let source = "\\begin{document}\n  \\begin{frame}{A}\nx\n  \\end{frame}\n\
\\sectiontitlepage{A {b}}{C}\n\\titlepage\n\\includepdf[pages=-]{f.pdf}\n\
text \\begin{frame} no \\end{frame}\n";
    let found = find_frames(source);
    assert_eq!(
        found.frames,
        vec![
            "  \\begin{frame}{A}\nx\n  \\end{frame}".to_string(),
            "\\sectiontitlepage{A {b}}{C}".to_string(),
            "\\titlepage".to_string(),
            "\\includepdf[pages=-]{f.pdf}".to_string(),
        ]
    );
    assert_eq!(found.lines, vec![(2, 3), (5, 1), (6, 1), (7, 1)]);
    assert_eq!(found.ranges[0], (17, 17 + found.frames[0].len()));
    let again = frames_at(source, found.ranges.clone());
    assert_eq!(again.frames, found.frames);
    assert_eq!(again.lines, found.lines);
}

#[test]
fn the_preamble_ends_where_the_document_begins() {
    let source = "\\documentclass{beamer}\n\\title{T}\n\\begin{document}\nx\n\\end{document}\n";
    let read = read_preamble(source, false);
    assert_eq!(read.text, "\\documentclass{beamer}\n");
    assert_eq!(read.title_info, "\\title{T}\n");
    assert_eq!(read.begin_idx, Some(33));
    assert_eq!(read.begin_line, 3);
    assert_eq!(read.end_line, 5);

    let kept = read_preamble(source, true);
    assert_eq!(kept.text, "\\documentclass{beamer}\n\\title{T}\n");
    assert_eq!(kept.title_info, "");

    let without = read_preamble("x\n", false);
    assert_eq!(
        without.text,
        "\\documentclass[aspectratio=43,c,xcolor=dvipsnames]{beamer}"
    );
    assert_eq!(without.begin_idx, None);
    assert_eq!(without.begin_line, 2);
    assert_eq!(without.end_line, 2);
}

#[test]
fn contexts_of_all_frames_come_with_the_preamble() {
    let source = "\\begin{document}\n\\def\\x{1}\n\\titlepage\n\\end{document}\n";
    let found = find_frames(source);
    let preamble = read_preamble(source, false);
    let contexts = frame_contexts(source, &found, &preamble, false);
    assert_eq!(contexts.len(), 1);
    assert_eq!(context_text(&contexts[0]), "\\def\\x{1}\n");
}
