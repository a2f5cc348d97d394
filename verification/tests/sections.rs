use faster_beamer::paths::FilePath;
use faster_beamer::sections::{
    current_section_number, document_sections, number_sections, patch_toc_frame,
    read_section_title, source_toc_path, synthetic_toc_content, toc_frame_patch, SourceSection,
    TocFrameSupport,
};

fn section(line_number: u128, number: u128, title: &str, is_appendix: bool) -> SourceSection {
    SourceSection {
        line_number,
        number,
        title: title.to_string(),
        is_appendix,
    }
}

#[test]
fn toc_frame_patch_generates_synthetic_toc_for_document_frame() {
    let input_dir = FilePath::parse("/deck");
    let input_path = FilePath::parse("/deck/slides.tex");

    let source = "\\documentclass{beamer}\n\\begin{document}\n\\section{Intro}\n\\begin{frame}{Agenda}\n\\tableofcontents\n\\end{frame}\n\\section{Next}\n\\end{document}\n";
    let sections = document_sections(source);
    let frame = "\\begin{frame}{Agenda}\n\\tableofcontents\n\\end{frame}";

    match toc_frame_patch(frame, 4, 2, &input_dir, &input_path, None, &sections) {
        TocFrameSupport::Supported(patch) => {
            assert!(patch.runtime_setup.contains("\\setcounter{section}{0}"));
            assert_eq!(patch.support_files.len(), 1);
            assert!(patch.support_files[0]
                .content
                .contains("\\beamer@sectionintoc {1}{Intro}"));
            assert!(patch.support_files[0]
                .content
                .contains("\\beamer@sectionintoc {2}{Next}"));
        }
        _ => panic!("expected supported TOC frame patch"),
    }
}

#[test]
fn toc_frame_patch_marks_dynamic_preamble_toc_as_unsupported() {
    let input_dir = FilePath::parse("/deck");
    let input_path = FilePath::parse("/deck/slides.tex");

    let source = "\\documentclass{beamer}\n\\AtBeginSection[]{\\begin{frame}\\tableofcontents[currentsection]\\end{frame}}\n\\begin{document}\n\\section{Intro}\n\\end{document}\n";
    let sections = document_sections(source);
    let frame = "\\begin{frame}\\tableofcontents[currentsection]\\end{frame}";

    assert!(matches!(
        toc_frame_patch(frame, 2, 3, &input_dir, &input_path, None, &sections),
        TocFrameSupport::UnsupportedDynamic
    ));
}

#[test]
fn frames_without_a_patch_need_no_name_of_the_source() {
    let input_dir = FilePath::parse("/deck");
    let root = FilePath::parse("/");
    assert!(matches!(
        toc_frame_patch("\\begin{frame}a\\end{frame}", 4, 2, &input_dir, &root, None, &[]),
        TocFrameSupport::NotNeeded
    ));
    assert!(matches!(
        toc_frame_patch("\\tableofcontents[currentsection]", 1, 2, &input_dir, &root, None, &[]),
        TocFrameSupport::UnsupportedDynamic
    ));
}

#[test]
fn a_toc_file_of_the_source_is_preferred() {
    let input_dir = FilePath::parse("/deck");
    let input_path = FilePath::parse("slides.tex");
    let toc_path = source_toc_path(&input_dir, &input_path);
    assert_eq!(toc_path.text, "/deck/slides.toc");

    let sections = [section(3, 1, "A", false), section(9, 2, "B", false)];
    let frame = "\\tableofcontents[currentsection]";
    match toc_frame_patch(frame, 7, 2, &input_dir, &input_path, Some("toc"), &sections) {
        TocFrameSupport::Supported(patch) => {
            assert_eq!(
                patch.runtime_setup,
                "\\setcounter{section}{1}\n\\setcounter{subsection}{0}\n"
            );
            assert_eq!(patch.support_files[0].extension, "toc");
            assert_eq!(patch.support_files[0].content, "toc");
            assert_eq!(patch.additional_dependencies, vec![toc_path]);
        }
        _ => panic!("expected supported TOC frame patch"),
    }
}

#[test]
fn frames_without_a_toc_need_no_patch() {
    let path = FilePath::parse("/deck/slides.toc");
    assert!(matches!(
        patch_toc_frame(false, true, 1, 5, &path, None, &[]),
        TocFrameSupport::NotNeeded
    ));
    match patch_toc_frame(true, false, 1, 5, &path, None, &[]) {
        TocFrameSupport::Supported(patch) => {
            assert_eq!(patch.support_files[0].content, "");
            assert_eq!(patch.additional_dependencies.len(), 0);
        }
        _ => panic!("expected supported TOC frame patch"),
    }
}

#[test]
fn sections_are_numbered_as_they_come() {
    let source = "\\section{One}\n% \\section{Not}\n\t\\section [s] { Two }\nx \\section{no}\n\\appendix\n\\section{Three}\n";
    assert_eq!(
        document_sections(source),
        vec![
            section(1, 1, "One", false),
            section(3, 2, "Two", false),
            section(6, 3, "Three", true),
        ]
    );
    assert_eq!(read_section_title("\\section[x]{ A b }"), Some("A b".to_string()));
    assert_eq!(read_section_title("\\subsection{A}"), None);
    assert_eq!(
        number_sections(&[true, false], vec![None, Some("T".to_string())]),
        vec![section(2, 1, "T", true)]
    );
}

#[test]
fn the_current_section_is_the_last_one_before() {
    let sections = [section(3, 1, "A", false), section(9, 2, "B", false)];
    assert_eq!(current_section_number(&sections, 3), 0);
    assert_eq!(current_section_number(&sections, 4), 1);
    assert_eq!(current_section_number(&sections, 100), 2);
    assert_eq!(current_section_number(&[], 4), 0);
}

#[test]
fn a_table_of_contents_lists_every_section() {
    let sections = [section(3, 1, "A", false), section(9, 2, "B", true)];
    assert_eq!(
        synthetic_toc_content(&sections),
        "\\beamer@sectionintoc {1}{A}{1}{0}{1}\n\\beamer@sectionintoc {2}{B}{2}{1}{2}\n"
    );
}
