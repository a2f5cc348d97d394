use faster_beamer::frames::FrameLabel;
use faster_beamer::logs::{
    abort_message, command_error_message, frame_failure_report, master_log_for_frame_failures,
    master_log_for_united_failure, master_log_from_compile_failure, preamble_failure_text,
    remap_frame_log_to_source, remap_log_lines_to_source, replace_log_lines, watch_label,
    FrameCompileFailure,
};
use faster_beamer::paths::FilePath;
use faster_beamer::sync_map::SyncTexLineSegment;

fn path(text: &str) -> FilePath {
    FilePath::parse(text)
}

fn segments() -> Vec<SyncTexLineSegment> {
    vec![SyncTexLineSegment {
        temp_start_line: 3,
        line_count: 4,
        source_start_line: 50,
    }]
}

fn failure() -> FrameCompileFailure {
    FrameCompileFailure {
        frame_idx: 1,
        source_start_line: 50,
        source_line_count: 4,
        temp_file: path("/deck/t.tex"),
        temp_file_name: String::from("t.tex"),
        sync_segments: segments(),
        frame_preview: String::from("\\begin{frame}{A}"),
        error: String::from("pdflatex failed for t.tex"),
    }
}

const LABELS: [FrameLabel; 2] = [FrameLabel::Title, FrameLabel::Number(1)];

#[test]
fn lines_of_logs_lead_back_to_the_source() {
    assert_eq!(
        remap_log_lines_to_source("(./t.tex\nl.4 \\x\nl.99 l.4a\n", "s.tex", "t.tex", &segments()),
        "(./s.tex\nl.51 \\x\nl.99 l.4a\n"
    );
    assert_eq!(
        remap_frame_log_to_source(&failure(), "s.tex", "/deck/t.tex t.tex l.3"),
        "/deck/s.tex s.tex l.50"
    );
    assert_eq!(
        replace_log_lines("a l.5 b", &[vec![Some((2, 5)), Some((4, 5))]], &segments()),
        "a l.52 b"
    );
    assert_eq!(
        replace_log_lines("\u{e4}l.x", &[vec![Some((2, 5)), None]], &segments()),
        "\u{e4}l.0"
    );
    assert_eq!(replace_log_lines("same", &[], &segments()), "same");
}

#[test]
fn failures_of_frames_are_gathered_in_one_log() {
    let log = |logs: &[Result<String, String>]| {
        master_log_for_frame_failures(&[failure()], logs, &path("/cache"), "s.tex", &LABELS, 1)
    };
    assert_eq!(
        log(&[Ok("! Undefined.\nl.4 \\x".to_string())]),
        "This is faster-beamer, aggregated frame failure log.\n(./s.tex)\n! faster-beamer: frame 1/1 failed to compile\nl.50 \\begin{frame}{A}\n! Undefined.\nl.51 \\x\n"
    );
    assert_eq!(
        log(&[Err("denied".to_string())]),
        "This is faster-beamer, aggregated frame failure log.\n(./s.tex)\n! faster-beamer: frame 1/1 failed to compile\nl.50 \\begin{frame}{A}\n! faster-beamer: could not read frame log /cache/t.log (denied)\nl.50\npdflatex failed for t.tex\n"
    );
}

#[test]
fn other_failures_are_passed_on() {
    assert_eq!(
        master_log_from_compile_failure("s.tex", "preamble compilation", Some("log"), "fallback"),
        "This is faster-beamer, redirected compiler failure log.\n(./s.tex)\n! faster-beamer: preamble compilation failed\nlog\n"
    );
    assert_eq!(
        master_log_from_compile_failure("s.tex", "preamble compilation", None, "fallback\n"),
        "This is faster-beamer, redirected compiler failure log.\n(./s.tex)\n! faster-beamer: preamble compilation failed\nfallback\n"
    );
    assert_eq!(
        master_log_for_united_failure("s.tex", "t.tex", &segments(), Some("t.tex l.3"), "fallback"),
        "This is faster-beamer, redirected compiler failure log.\n(./s.tex)\n! faster-beamer: united document compilation failed\ns.tex l.50\n"
    );
    assert_eq!(
        master_log_for_united_failure("s.tex", "t.tex", &segments(), None, "fallback"),
        "This is faster-beamer, redirected compiler failure log.\n(./s.tex)\n! faster-beamer: united document compilation failed\nfallback\n"
    );
}

#[test]
fn failures_are_reported() {
    assert_eq!(
        frame_failure_report(&failure(), &path("/deck/s.tex"), &path("/cache"), &LABELS, 1),
        vec![
            "Frame 1/1 failed at /deck/s.tex:50-53.",
            "Reason: pdflatex failed for t.tex",
            "Generated source: /deck/t.tex",
            "Frame log: /cache/t.log",
            "Frame preview: \\begin{frame}{A}",
        ]
    );
    assert_eq!(
        abort_message(2, &path("/deck/s.tex")),
        "Compilation aborted: 2 frame build(s) failed. Details were written to /deck/s.log."
    );
    assert_eq!(
        command_error_message("biber", "run biber", true, "x"),
        "Failed to run biber: biber was not found on PATH."
    );
    assert_eq!(
        command_error_message("biber", "run biber", false, "denied"),
        "Failed to run biber: denied"
    );
    assert_eq!(preamble_failure_text(b"out", b" err "), "err");
    assert_eq!(preamble_failure_text(b"out\n", b""), "out");
    assert_eq!(preamble_failure_text(b" ", b"\xff"), "preamble compilation failed");
    assert_eq!(watch_label("s.tex"), "Watch: monitoring s.tex");
}
