use faster_beamer::frames::{
    frame_contains_table_of_contents, frame_contains_title_page, frame_counter_setup,
    frame_label_for_index, frame_labels, frame_matches_filter, frame_number_display_setup,
    frame_preview, label_frames, numbered_frame_count, render_frame_map,
    table_of_contents_uses_dynamic_section_context, FrameLabel,
};

#[test]
fn frame_number_setup_uses_previous_numbered_frame() {
    assert_eq!(
        frame_counter_setup(&FrameLabel::Number(3), true),
        "\\setcounter{framenumber}{2}\n"
    );
    assert_eq!(
        frame_counter_setup(&FrameLabel::Title, true),
        "\\setcounter{framenumber}{0}\n"
    );
    assert_eq!(
        frame_counter_setup(&FrameLabel::Toc, true),
        "\\setcounter{framenumber}{0}\n"
    );
}

#[test]
fn frame_number_setup_is_empty_when_disabled() {
    assert_eq!(frame_counter_setup(&FrameLabel::Number(3), false), "");
}

#[test]
fn toc_frame_display_setup_hides_frame_number() {
    let setup = frame_number_display_setup(&FrameLabel::Toc);

    assert!(setup.contains("\\def\\insertframenumber{}"));
    assert!(setup.contains("\\setbeamertemplate{page number in head/foot}{}"));
    assert!(setup.contains("\\setbeamertemplate{frame numbering}{}"));
    assert_eq!(frame_number_display_setup(&FrameLabel::Number(1)), "");
}

#[test]
fn frame_labels_skip_front_matter_title_and_toc_frames() {
    let labels = frame_labels(&[
        String::from("\\begin{frame}\\titlepage\\end{frame}"),
        String::from("\\begin{frame}{Agenda}\\tableofcontents\\end{frame}"),
        String::from("\\begin{frame}{Body}\\end{frame}"),
        String::from("\\sectiontitlepage{A}{B}"),
        String::from("\\begin{frame}{More}\\end{frame}"),
        String::from("\\begin{frame}{Roadmap}\\tableofcontents[currentsection]\\end{frame}"),
    ]);

    assert_eq!(
        labels,
        vec![
            FrameLabel::Title,
            FrameLabel::Toc,
            FrameLabel::Number(1),
            FrameLabel::Number(2),
            FrameLabel::Number(3),
            FrameLabel::Number(4)
        ]
    );
    assert_eq!(numbered_frame_count(&labels), 4);
}

#[test]
fn frame_labels_start_after_title_when_toc_is_absent() {
    let labels = frame_labels(&[
        String::from("\\begin{frame}\\titlepage\\end{frame}"),
        String::from("\\sectiontitlepage{Intro}{Overview}"),
        String::from("\\begin{frame}{Body}\\end{frame}"),
    ]);

    assert_eq!(
        labels,
        vec![
            FrameLabel::Title,
            FrameLabel::Number(1),
            FrameLabel::Number(2)
        ]
    );
    assert_eq!(numbered_frame_count(&labels), 2);
}

#[test]
fn labels_follow_from_what_frames_hold() {
    assert_eq!(
        label_frames(&[true, true, false, true], &[true, false, true, false]),
        vec![
            FrameLabel::Title,
            FrameLabel::Title,
            FrameLabel::Toc,
            FrameLabel::Number(1)
        ]
    );
    assert_eq!(
        label_frames(&[false, true, false], &[false, false, true]),
        vec![
            FrameLabel::Number(1),
            FrameLabel::Number(2),
            FrameLabel::Number(3)
        ]
    );
    assert_eq!(label_frames(&[], &[]), vec![]);
}

#[test]
fn labels_are_written_in_full_and_in_short() {
    assert_eq!(FrameLabel::Title.progress_label(), "title");
    assert_eq!(FrameLabel::Toc.progress_label(), "toc");
    assert_eq!(FrameLabel::Number(12).progress_label(), "12");
    assert_eq!(FrameLabel::Title.status_label(30), "title");
    assert_eq!(FrameLabel::Toc.status_label(30), "toc");
    assert_eq!(FrameLabel::Number(12).status_label(30), "12/30");
    assert_eq!(FrameLabel::Number(12).status_label(0), "12");
    assert_eq!(FrameLabel::Number(1).counter_value(), 0);
    assert_eq!(FrameLabel::Number(0).counter_value(), 0);
    assert_eq!(FrameLabel::Number(8).counter_value(), 7);
    let labels = [FrameLabel::Title, FrameLabel::Number(1)];
    assert_eq!(frame_label_for_index(&labels, 1, 1), "1/1");
    assert_eq!(frame_label_for_index(&labels, 2, 1), "raw frame 3");
    assert_eq!(
        render_frame_map(&[('#', FrameLabel::Title), ('R', FrameLabel::Number(1))]),
        "title# 1R"
    );
    assert_eq!(render_frame_map(&[]), "");
}

#[test]
fn frames_are_recognised_by_their_commands() {
    assert!(frame_contains_table_of_contents("x \\tableofcontents[hideallsubsections] y"));
    assert!(!frame_contains_table_of_contents("\\tableofcontent"));
    assert!(!frame_contains_table_of_contents("% \\tableofcontents"));
    assert!(frame_contains_title_page("\\titlepage"));
    assert!(frame_contains_title_page("\\maketitle\n"));
    assert!(!frame_contains_title_page("\\titlepages"));
    assert!(!frame_contains_title_page("\\sectiontitlepage{A}{B}"));
    assert!(!frame_contains_title_page("text % \\titlepage"));
    assert!(table_of_contents_uses_dynamic_section_context(
        "\\tableofcontents [a, currentsubsection]"
    ));
    assert!(!table_of_contents_uses_dynamic_section_context(
        "\\tableofcontents[hideallsubsections]"
    ));
}

#[test]
fn filters_pick_frames_by_label_or_text() {
    let filter = |f: &str| vec![f.to_string()];
    let body = "\\begin{frame}{Results 3}\\end{frame}";
    assert!(frame_matches_filter(&FrameLabel::Number(3), body, &filter("3")));
    assert!(frame_matches_filter(&FrameLabel::Number(3), body, &filter("+03")));
    assert!(!frame_matches_filter(&FrameLabel::Number(13), body, &filter("3")));
    assert!(frame_matches_filter(&FrameLabel::Number(1), body, &filter("Results")));
    assert!(!frame_matches_filter(&FrameLabel::Number(1), body, &filter("results")));
    assert!(frame_matches_filter(&FrameLabel::Title, body, &filter("TITLE")));
    assert!(!frame_matches_filter(&FrameLabel::Toc, "title", &filter("title")));
    assert!(frame_matches_filter(&FrameLabel::Toc, body, &filter("Toc")));
    assert!(frame_matches_filter(
        &FrameLabel::Toc,
        body,
        &["1".to_string(), "toc".to_string()]
    ));
    assert!(!frame_matches_filter(&FrameLabel::Number(1), body, &[]));
}

#[test]
fn a_preview_is_the_first_line_with_text() {
    assert_eq!(
        frame_preview("\n  \\begin{frame}{Title}  \n  text\n\\end{frame}"),
        "\\begin{frame}{Title}"
    );
    assert_eq!(frame_preview(" \n\t\n"), "");
    assert_eq!(frame_preview(&"x".repeat(160)), "x".repeat(160));
    assert_eq!(frame_preview(&"\u{fc}".repeat(161)), "\u{fc}".repeat(160) + "...");
}
