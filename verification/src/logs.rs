//! What is told of a build that failed.
use crate::artifacts::{job_file, job_file_path};
use crate::context::with_newline;
use crate::frames::{frame_label_for_index, index_label, FrameLabel};
use crate::latexcompile::{printed, printed_text};
use crate::numbers::{decimal, law_decimal_round_trip, parse_number, push_decimal, read_usize};
use crate::paths::{with_extension, FilePath, PathView};
use crate::patterns::{
    capture_views, captures_fit, find_captures, group_text, read_group, regex_captures, span_fits,
    Groups, TEX_LOG_LINE_PATTERN,
};
use crate::search::{extend, replace_text, replaced};
use crate::sync_map::{map_temp_line_from_segments, mapped_line, segments_wf, SyncTexLineSegment};
use crate::text::{
    byte_len, char_index, chars_of, lemma_char_index, lemma_char_index_order, owned, position_of,
    push_text, string_of, texts,
};
use vstd::prelude::*;

verus! {

// ---------------------------------------------------------------------------
// Line numbers in logs
// ---------------------------------------------------------------------------

/// The line that a match in a log names. What cannot be read counts as zero.
pub open spec fn logged_line(text: Seq<char>, groups: Groups) -> nat {
    match parse_number(group_text(text, groups[1]), usize::MAX as nat) {
        Some(n) => n,
        None => 0,
    }
}

/// What stands in place of a match in a log: the line of the source.
pub open spec fn source_line_text(
    text: Seq<char>,
    groups: Groups,
    segments: Seq<SyncTexLineSegment>,
) -> Seq<char> {
    "l."@ + decimal(mapped_line(segments, logged_line(text, groups)))
}

/// The position behind the first `n` matches.
pub open spec fn behind(text: Seq<char>, found: Seq<Groups>, n: int) -> int {
    if n <= 0 {
        0
    } else {
        char_index(text, (found[n - 1][0]->0).1 as int)
    }
}

/// A log up to the end of its match number `n`, with the lines of the source in place of its own.
pub open spec fn relined(
    text: Seq<char>,
    found: Seq<Groups>,
    segments: Seq<SyncTexLineSegment>,
    n: int,
) -> Seq<char>
    decreases n,
{
    if n <= 0 {
        Seq::empty()
    } else {
        relined(text, found, segments, n - 1) + text.subrange(
            behind(text, found, n - 1),
            char_index(text, (found[n - 1][0]->0).0 as int),
        ) + source_line_text(text, found[n - 1], segments)
    }
}

/// A log with the lines of the source in place of its own.
pub open spec fn relined_log(
    text: Seq<char>,
    found: Seq<Groups>,
    segments: Seq<SyncTexLineSegment>,
) -> Seq<char> {
    relined(text, found, segments, found.len() as int) + text.skip(
        behind(text, found, found.len() as int),
    )
}

/// A log with the lines of the source in place of its own, where it is known where lines are
/// named.
pub fn replace_log_lines(
    text: &str,
    found: &[Vec<Option<(usize, usize)>>],
    segments: &[SyncTexLineSegment],
) -> (r: String)
    requires
        captures_fit(capture_views(found@), text@),
        forall|i: int| 0 <= i < found@.len() ==> (#[trigger] found@[i])@.len() > 1,
        segments_wf(segments@),
    ensures
        r@ == relined_log(text@, capture_views(found@), segments@),
{
    let chars = chars_of(text);
    let ghost all = capture_views(found@);
    let mut out: Vec<char> = Vec::new();
    let mut cursor: usize = 0;
    let mut i: usize = 0;
    while i < found.len()
        invariant
            i <= found.len(),
            chars@ == text@,
            all == capture_views(found@),
            captures_fit(all, text@),
            forall|i: int| 0 <= i < found@.len() ==> (#[trigger] found@[i])@.len() > 1,
            segments_wf(segments@),
            cursor <= text@.len(),
            cursor == behind(text@, all, i as int),
            out@ == relined(text@, all, segments@, i as int),
        decreases found.len() - i,
    {
        let groups = &found[i];
        assert(all[i as int] == groups@);
        assert(groups@.len() > 1);
        assert(all[i as int].len() > 0 && all[i as int][0] is Some);
        assert(span_fits(all[i as int][0], text@));
        assert(span_fits(all[i as int][1], text@));
        if let Some((start, end)) = groups[0] {
            let from = position_of(&chars, start);
            let to = position_of(&chars, end);
            proof {
                lemma_char_index_order(text@, start as int, end as int);
                if i > 0 {
                    let last = all[i - 1][0]->0;
                    assert(span_fits(all[i - 1][0], text@));
                    assert((all[i - 1][0]->0).1 <= (all[i as int][0]->0).0);
                    lemma_char_index_order(text@, last.1 as int, start as int);
                }
            }
            let kept = &chars[cursor..from];
            assert(kept@ =~= text@.subrange(cursor as int, from as int));
            extend(&mut out, kept);
            let number = read_group(&chars, groups[1]);
            let digits = chars_of(number.as_str());
            let line: usize = match read_usize(&digits) {
                Some(n) => n,
                None => 0,
            };
            let mapped = map_temp_line_from_segments(segments, line);
            let mut mark = owned("l.");
            push_decimal(&mut mark, mapped);
            let mark_chars = chars_of(mark.as_str());
            extend(&mut out, &mark_chars);
            cursor = to;
        }
        i += 1;
    }
    let rest = &chars[cursor..chars.len()];
    assert(rest@ =~= text@.skip(cursor as int));
    assert(all.len() == found@.len());
    extend(&mut out, rest);
    string_of(&out)
}

/// A log with the lines of the source in place of its own.
pub open spec fn log_to_source(text: Seq<char>, segments: Seq<SyncTexLineSegment>) -> Seq<char> {
    relined_log(text, regex_captures(TEX_LOG_LINE_PATTERN@, text), segments)
}

fn remap_lines(text: &str, segments: &[SyncTexLineSegment]) -> (r: String)
    requires
        segments_wf(segments@),
    ensures
        r@ == log_to_source(text@, segments@),
{
    let found = find_captures(TEX_LOG_LINE_PATTERN, text);
    replace_log_lines(text, &found, segments)
}

fn replace_name(text: &str, name: &str, source_name: &str) -> (r: String)
    ensures
        r@ == replaced(text@, name@, source_name@),
{
    let chars = chars_of(text);
    let from = chars_of(name);
    let to = chars_of(source_name);
    string_of(&replace_text(&chars, &from, &to))
}

/// A log with the name of the source in place of that of the generated file, and the lines of the
/// source in place of its own.
pub fn remap_log_lines_to_source(
    log_content: &str,
    source_file_name: &str,
    temp_file_name: &str,
    segments: &[SyncTexLineSegment],
) -> (r: String)
    requires
        segments_wf(segments@),
    ensures
        r@ == log_to_source(
            replaced(log_content@, temp_file_name@, source_file_name@),
            segments@,
        ),
{
    let renamed = replace_name(log_content, temp_file_name, source_file_name);
    remap_lines(renamed.as_str(), segments)
}

// ---------------------------------------------------------------------------
// Failures of frames
// ---------------------------------------------------------------------------

/// A frame that could not be typeset.
#[derive(Clone, Debug)]
pub struct FrameCompileFailure {
    pub frame_idx: usize,
    pub source_start_line: u128,
    pub source_line_count: u128,
    pub temp_file: FilePath,
    pub temp_file_name: String,
    pub sync_segments: Vec<SyncTexLineSegment>,
    pub frame_preview: String,
    pub error: String,
}

/// What is known of a frame that could not be typeset.
#[verifier::ext_equal]
pub struct FailureView {
    pub frame_idx: int,
    pub source_start_line: nat,
    pub source_line_count: nat,
    pub temp_file: PathView,
    pub temp_file_name: Seq<char>,
    pub sync_segments: Seq<SyncTexLineSegment>,
    pub frame_preview: Seq<char>,
    pub error: Seq<char>,
}

impl View for FrameCompileFailure {
    type V = FailureView;

    open spec fn view(&self) -> FailureView {
        FailureView {
            frame_idx: self.frame_idx as int,
            source_start_line: self.source_start_line as nat,
            source_line_count: self.source_line_count as nat,
            temp_file: self.temp_file@,
            temp_file_name: self.temp_file_name@,
            sync_segments: self.sync_segments@,
            frame_preview: self.frame_preview@,
            error: self.error@,
        }
    }
}

/// The log of a frame, told of the source.
pub open spec fn frame_log_to_source(
    failure: FailureView,
    source_name: Seq<char>,
    log: Seq<char>,
) -> Seq<char> {
    log_to_source(
        replaced(
            replaced(log, failure.temp_file_name, source_name),
            failure.temp_file.text,
            source_name,
        ),
        failure.sync_segments,
    )
}

/// The log of a frame, told of the source.
pub fn remap_frame_log_to_source(
    failure: &FrameCompileFailure,
    source_file_name: &str,
    log_content: &str,
) -> (r: String)
    requires
        segments_wf(failure.sync_segments@),
    ensures
        r@ == frame_log_to_source(failure@, source_file_name@, log_content@),
{
    let once = replace_name(log_content, failure.temp_file_name.as_str(), source_file_name);
    let twice = replace_name(once.as_str(), failure.temp_file.text.as_str(), source_file_name);
    remap_lines(twice.as_str(), &failure.sync_segments)
}

/// What is told of one frame: where it starts, and its log as far as it can be read.
pub open spec fn failure_section(
    failure: FailureView,
    label: Seq<char>,
    source_name: Seq<char>,
    log_path: PathView,
    log: Result<Seq<char>, Seq<char>>,
) -> Seq<char> {
    "! faster-beamer: frame "@ + label + " failed to compile\n"@ + "l."@ + decimal(
        failure.source_start_line,
    ) + " "@ + failure.frame_preview + "\n"@ + match log {
        Ok(text) => with_newline(frame_log_to_source(failure, source_name, text)),
        Err(text) => "! faster-beamer: could not read frame log "@ + log_path.text + " ("@
            + text + ")\n"@ + "l."@ + decimal(failure.source_start_line) + "\n"@ + failure.error
            + "\n"@,
    }
}

/// What results hold.
pub open spec fn log_view(log: Result<String, String>) -> Result<Seq<char>, Seq<char>> {
    match log {
        Ok(t) => Ok(t@),
        Err(t) => Err(t@),
    }
}

/// What is told of the first `n` frames.
pub open spec fn failure_sections(
    failures: Seq<FrameCompileFailure>,
    logs: Seq<Result<String, String>>,
    cache_subdir: PathView,
    source_name: Seq<char>,
    labels: Seq<FrameLabel>,
    count: nat,
    n: int,
) -> Seq<char>
    decreases n,
{
    if n <= 0 {
        Seq::empty()
    } else {
        failure_sections(failures, logs, cache_subdir, source_name, labels, count, n - 1)
            + failure_section(
            failures[n - 1]@,
            index_label(labels, failures[n - 1].frame_idx as int, count),
            source_name,
            job_file(cache_subdir, failures[n - 1].temp_file_name@, "log"@),
            log_view(logs[n - 1]),
        )
    }
}

/// The log for the source when frames could not be typeset.
pub open spec fn frame_failure_log(
    failures: Seq<FrameCompileFailure>,
    logs: Seq<Result<String, String>>,
    cache_subdir: PathView,
    source_name: Seq<char>,
    labels: Seq<FrameLabel>,
    count: nat,
) -> Seq<char> {
    "This is faster-beamer, aggregated frame failure log.\n"@ + "(./"@ + source_name + ")\n"@
        + failure_sections(
        failures,
        logs,
        cache_subdir,
        source_name,
        labels,
        count,
        failures.len() as int,
    )
}

fn push_line_end(out: &mut String, text: &str)
    ensures
        final(out)@ == old(out)@ + with_newline(text@),
{
    let ghost before = out@;
    let chars = chars_of(text);
    out.push_str(text);
    if chars.len() == 0 || chars[chars.len() - 1] != '\n' {
        out.push('\n');
    }
    assert(out@ =~= before + with_newline(text@));
}

fn push_failure(
    out: &mut String,
    failure: &FrameCompileFailure,
    label: &str,
    source_name: &str,
    log_path: &FilePath,
    log: &Result<String, String>,
)
    requires
        segments_wf(failure.sync_segments@),
    ensures
        final(out)@ == old(out)@ + failure_section(
            failure@,
            label@,
            source_name@,
            log_path@,
            log_view(*log),
        ),
{
    let ghost before = out@;
    out.push_str("! faster-beamer: frame ");
    out.push_str(label);
    out.push_str(" failed to compile\n");
    out.push_str("l.");
    push_decimal(out, failure.source_start_line);
    out.push_str(" ");
    out.push_str(failure.frame_preview.as_str());
    out.push_str("\n");
    match log {
        Ok(content) => {
            let text = remap_frame_log_to_source(failure, source_name, content.as_str());
            push_line_end(out, text.as_str());
        },
        Err(text) => {
            out.push_str("! faster-beamer: could not read frame log ");
            out.push_str(log_path.text.as_str());
            out.push_str(" (");
            out.push_str(text.as_str());
            out.push_str(")\n");
            out.push_str("l.");
            push_decimal(out, failure.source_start_line);
            out.push_str("\n");
            out.push_str(failure.error.as_str());
            out.push_str("\n");
        },
    }
    assert(out@ =~= before + failure_section(
        failure@,
        label@,
        source_name@,
        log_path@,
        log_view(*log),
    ));
}

/// The log for the source when frames could not be typeset. `logs` are the logs of the frames, or
/// why they could not be read.
pub fn master_log_for_frame_failures(
    failures: &[FrameCompileFailure],
    logs: &[Result<String, String>],
    cache_subdir: &FilePath,
    source_file_name: &str,
    frame_labels: &[FrameLabel],
    numbered_frame_count: usize,
) -> (r: String)
    requires
        logs@.len() == failures@.len(),
        forall|i: int|
            0 <= i < failures@.len() ==> segments_wf((#[trigger] failures@[i]).sync_segments@),
    ensures
        r@ == frame_failure_log(
            failures@,
            logs@,
            cache_subdir@,
            source_file_name@,
            frame_labels@,
            numbered_frame_count as nat,
        ),
{
    let mut out = owned("This is faster-beamer, aggregated frame failure log.\n");
    out.push_str("(./");
    out.push_str(source_file_name);
    out.push_str(")\n");
    let ghost head = out@;
    let mut i: usize = 0;
    assert(head + failure_sections(
        failures@,
        logs@,
        cache_subdir@,
        source_file_name@,
        frame_labels@,
        numbered_frame_count as nat,
        0,
    ) =~= head);
    while i < failures.len()
        invariant
            i <= failures.len(),
            logs@.len() == failures@.len(),
            forall|i: int|
                0 <= i < failures@.len() ==> segments_wf((#[trigger] failures@[i]).sync_segments@),
            out@ == head + failure_sections(
                failures@,
                logs@,
                cache_subdir@,
                source_file_name@,
                frame_labels@,
                numbered_frame_count as nat,
                i as int,
            ),
        decreases failures.len() - i,
    {
        let failure = &failures[i];
        assert(segments_wf(failures@[i as int].sync_segments@));
        let label = frame_label_for_index(frame_labels, failure.frame_idx, numbered_frame_count);
        let log_path = job_file_path(cache_subdir, failure.temp_file_name.as_str(), "log");
        let ghost before = out@;
        push_failure(&mut out, failure, label.as_str(), source_file_name, &log_path, &logs[i]);
        i += 1;
        assert(out@ =~= head + failure_sections(
            failures@,
            logs@,
            cache_subdir@,
            source_file_name@,
            frame_labels@,
            numbered_frame_count as nat,
            i as int,
        ));
    }
    out
}

// ---------------------------------------------------------------------------
// Failures of whole documents
// ---------------------------------------------------------------------------

/// The log for the source when a whole document could not be typeset.
pub open spec fn redirected_log(source_name: Seq<char>, context: Seq<char>, text: Seq<char>) -> Seq<
    char,
> {
    "This is faster-beamer, redirected compiler failure log.\n"@ + "(./"@ + source_name + ")\n"@
        + "! faster-beamer: "@ + context + " failed\n"@ + with_newline(text)
}

fn redirected(source_name: &str, context: &str, text: &str) -> (r: String)
    ensures
        r@ == redirected_log(source_name@, context@, text@),
{
    let mut out = owned("This is faster-beamer, redirected compiler failure log.\n");
    out.push_str("(./");
    out.push_str(source_name);
    out.push_str(")\n");
    out.push_str("! faster-beamer: ");
    out.push_str(context);
    out.push_str(" failed\n");
    push_line_end(&mut out, text);
    out
}

/// The log for the source when something was not typeset: that of the program, where it can be
/// read, else what else is known.
pub fn master_log_from_compile_failure(
    source_file_name: &str,
    context: &str,
    log_content: Option<&str>,
    fallback_message: &str,
) -> (r: String)
    ensures
        r@ == redirected_log(
            source_file_name@,
            context@,
            match crate::text::optional_text(log_content) {
                Some(text) => text,
                None => fallback_message@,
            },
        ),
{
    match log_content {
        Some(text) => redirected(source_file_name, context, text),
        None => redirected(source_file_name, context, fallback_message),
    }
}

/// The log for the source when the united document was not typeset: that of the program, told of
/// the source, where it can be read, else what else is known.
pub fn master_log_for_united_failure(
    source_file_name: &str,
    temp_file_name: &str,
    segments: &[SyncTexLineSegment],
    log_content: Option<&str>,
    fallback_message: &str,
) -> (r: String)
    requires
        segments_wf(segments@),
    ensures
        r@ == redirected_log(
            source_file_name@,
            "united document compilation"@,
            match crate::text::optional_text(log_content) {
                Some(text) => log_to_source(
                    replaced(text, temp_file_name@, source_file_name@),
                    segments@,
                ),
                None => fallback_message@,
            },
        ),
{
    match log_content {
        Some(text) => {
            let moved = remap_log_lines_to_source(text, source_file_name, temp_file_name, segments);
            redirected(source_file_name, "united document compilation", moved.as_str())
        },
        None => redirected(source_file_name, "united document compilation", fallback_message),
    }
}

// ---------------------------------------------------------------------------
// Messages
// ---------------------------------------------------------------------------

/// The last line of a frame.
pub open spec fn last_line(start: nat, count: nat) -> nat {
    let end = start + if count > 0 {
        (count - 1) as nat
    } else {
        0
    };
    if end > u128::MAX {
        u128::MAX as nat
    } else {
        end
    }
}

/// What is reported of a frame that could not be typeset.
pub open spec fn failure_report(
    failure: FailureView,
    label: Seq<char>,
    source_file: PathView,
    log_path: PathView,
) -> Seq<Seq<char>> {
    let lines = seq![
        "Frame "@ + label + " failed at "@ + source_file.text + ":"@ + decimal(
            failure.source_start_line,
        ) + "-"@ + decimal(last_line(failure.source_start_line, failure.source_line_count)) + "."@,
        "Reason: "@ + failure.error,
        "Generated source: "@ + failure.temp_file.text,
        "Frame log: "@ + log_path.text,
    ];
    if failure.frame_preview.len() == 0 {
        lines
    } else {
        lines.push("Frame preview: "@ + failure.frame_preview)
    }
}

fn labelled(label: &str, text: &str) -> (r: String)
    ensures
        r@ == label@ + text@,
{
    let mut out = owned(label);
    out.push_str(text);
    out
}

/// What is reported of a frame that could not be typeset.
pub fn frame_failure_report(
    failure: &FrameCompileFailure,
    source_file: &FilePath,
    cache_subdir: &FilePath,
    frame_labels: &[FrameLabel],
    numbered_frame_count: usize,
) -> (r: Vec<String>)
    ensures
        texts(r@) == failure_report(
            failure@,
            index_label(
                frame_labels@,
                failure.frame_idx as int,
                numbered_frame_count as nat,
            ),
            source_file@,
            job_file(cache_subdir@, failure.temp_file_name@, "log"@),
        ),
{
    let extra: u128 = if failure.source_line_count > 0 {
        failure.source_line_count - 1
    } else {
        0
    };
    let end: u128 = if extra > u128::MAX - failure.source_start_line {
        u128::MAX
    } else {
        failure.source_start_line + extra
    };
    let label = frame_label_for_index(frame_labels, failure.frame_idx, numbered_frame_count);
    let mut out: Vec<String> = Vec::new();
    assert(texts(out@) =~= Seq::<Seq<char>>::empty());
    let mut line = labelled("Frame ", label.as_str());
    line.push_str(" failed at ");
    line.push_str(source_file.text.as_str());
    line.push_str(":");
    push_decimal(&mut line, failure.source_start_line);
    line.push_str("-");
    push_decimal(&mut line, end);
    line.push_str(".");
    push_text(&mut out, line);
    push_text(&mut out, labelled("Reason: ", failure.error.as_str()));
    push_text(&mut out, labelled("Generated source: ", failure.temp_file.text.as_str()));
    let log_path = job_file_path(cache_subdir, failure.temp_file_name.as_str(), "log");
    push_text(&mut out, labelled("Frame log: ", log_path.text.as_str()));
    if !failure.frame_preview.as_str().is_empty() {
        push_text(&mut out, labelled("Frame preview: ", failure.frame_preview.as_str()));
    }
    assert(texts(out@) =~= failure_report(
        failure@,
        label@,
        source_file@,
        job_file(cache_subdir@, failure.temp_file_name@, "log"@),
    ));
    out
}

/// What is reported when frames could not be typeset.
pub fn abort_message(failure_count: usize, source_file: &FilePath) -> (r: String)
    ensures
        r@ == "Compilation aborted: "@ + decimal(failure_count as nat)
            + " frame build(s) failed. Details were written to "@ + with_extension(
            source_file@,
            "log"@,
        ).text + "."@,
{
    let mut out = owned("Compilation aborted: ");
    push_decimal(&mut out, failure_count as u128);
    out.push_str(" frame build(s) failed. Details were written to ");
    let log = source_file.with_extension("log");
    out.push_str(log.text.as_str());
    out.push_str(".");
    out
}

/// What is reported when a program could not be started.
pub open spec fn start_failure(
    command: Seq<char>,
    context: Seq<char>,
    not_found: bool,
    error: Seq<char>,
) -> Seq<char> {
    if not_found {
        "Failed to "@ + context + ": "@ + command + " was not found on PATH."@
    } else {
        "Failed to "@ + context + ": "@ + error
    }
}

/// What is reported when a program could not be started.
pub fn command_error_message(command: &str, context: &str, not_found: bool, error: &str) -> (r:
    String)
    ensures
        r@ == start_failure(command@, context@, not_found, error@),
{
    let mut out = owned("Failed to ");
    out.push_str(context);
    out.push_str(": ");
    if not_found {
        out.push_str(command);
        out.push_str(" was not found on PATH.");
    } else {
        out.push_str(error);
    }
    out
}

/// What is known of a preamble that could not be dumped: what the program printed.
pub open spec fn preamble_failure(stdout: Seq<u8>, stderr: Seq<u8>) -> Seq<char> {
    if printed(stderr).len() > 0 {
        printed(stderr)
    } else if printed(stdout).len() > 0 {
        printed(stdout)
    } else {
        "preamble compilation failed"@
    }
}

/// What is known of a preamble that could not be dumped: what the program printed.
pub fn preamble_failure_text(stdout: &[u8], stderr: &[u8]) -> (r: String)
    ensures
        r@ == preamble_failure(stdout@, stderr@),
{
    let err_chars = printed_text(stderr);
    if err_chars.len() > 0 {
        return string_of(&err_chars);
    }
    let out_chars = printed_text(stdout);
    if out_chars.len() > 0 {
        string_of(&out_chars)
    } else {
        owned("preamble compilation failed")
    }
}

/// What is reported when a source is watched.
pub fn watch_label(input_file: &str) -> (r: String)
    ensures
        r@ == "Watch: monitoring "@ + input_file@,
{
    labelled("Watch: monitoring ", input_file)
}

// ---------------------------------------------------------------------------
// What logs tell of the source
// ---------------------------------------------------------------------------

proof fn lemma_relined_longer(
    text: Seq<char>,
    found: Seq<Groups>,
    segments: Seq<SyncTexLineSegment>,
    k: int,
    n: int,
)
    requires
        0 <= k <= n,
    ensures
        relined(text, found, segments, k).is_prefix_of(relined(text, found, segments, n)),
    decreases n - k,
{
    if k < n {
        lemma_relined_longer(text, found, segments, k, n - 1);
        let before = relined(text, found, segments, n - 1);
        let all = relined(text, found, segments, n);
        assert(all.take(before.len() as int) =~= before);
        assert(all.take(relined(text, found, segments, k).len() as int) =~= before.take(
            relined(text, found, segments, k).len() as int,
        ));
    }
}

/// Each line that a log names is named in the result as the line of the source that it came from,
/// wherever it stands and whichever lines are named before it. The text between two such names is
/// kept as it is, and stands right before the second one.
pub proof fn law_logs_name_lines_of_the_source(
    text: Seq<char>,
    found: Seq<Groups>,
    segments: Seq<SyncTexLineSegment>,
    k: int,
    line: nat,
) -> (at: int)
    requires
        captures_fit(found, text),
        0 <= k < found.len(),
        group_text(text, found[k][1]) == decimal(line),
        line <= usize::MAX,
    ensures
        ({
            let log = relined_log(text, found, segments);
            let named = "l."@ + decimal(mapped_line(segments, line));
            let from = if k == 0 {
                0
            } else {
                char_index(text, (found[k - 1][0]->0).1 as int)
            };
            let between = text.subrange(from, char_index(text, (found[k][0]->0).0 as int));
            &&& between.len() <= at <= at + named.len() <= log.len()
            &&& log.subrange(at, at + named.len()) == named
            &&& log.subrange(at - between.len(), at) == between
        }),
{
    let log = relined_log(text, found, segments);
    let named = "l."@ + decimal(mapped_line(segments, line));
    let before = relined(text, found, segments, k);
    let behind_it = relined(text, found, segments, k + 1);
    let between = text.subrange(
        behind(text, found, k),
        char_index(text, (found[k][0]->0).0 as int),
    );
    law_decimal_round_trip(line, usize::MAX as nat);
    assert(source_line_text(text, found[k], segments) == named);
    assert(span_fits(found[k][0], text));
    if k > 0 {
        assert(span_fits(found[k - 1][0], text));
        assert((found[k - 1][0]->0).1 <= (found[k][0]->0).0);
        lemma_char_index_order(
            text,
            (found[k - 1][0]->0).1 as int,
            (found[k][0]->0).0 as int,
        );
    } else {
        lemma_char_index_order(
            text,
            (found[k][0]->0).0 as int,
            (found[k][0]->0).0 as int,
        );
    }
    lemma_relined_longer(text, found, segments, k + 1, found.len() as int);
    let all = relined(text, found, segments, found.len() as int);
    let at = (before.len() + between.len()) as int;
    assert(behind_it == before + between + named);
    assert forall|i: int| 0 <= i < behind_it.len() implies log[i] == behind_it[i] by {
        assert(all.take(behind_it.len() as int)[i] == all[i]);
    }
    assert(log.subrange(at, at + named.len()) =~= named);
    assert(log.subrange(at - between.len(), at) =~= between);
    at
}

/// A log that names one line keeps all that stands before and behind the name, and one that names
/// none is kept as it is.
pub proof fn law_rest_of_a_log_is_kept(
    before: Seq<char>,
    name: Seq<char>,
    rest: Seq<char>,
    found: Seq<Groups>,
    segments: Seq<SyncTexLineSegment>,
    line: nat,
)
    requires
        found.len() == 1,
        found[0].len() > 1,
        found[0][0] is Some,
        (found[0][0]->0).0 == byte_len(before),
        (found[0][0]->0).1 == byte_len(before + name),
        group_text(before + name + rest, found[0][1]) == decimal(line),
        line <= usize::MAX,
    ensures
        relined_log(before + name + rest, found, segments) == before + "l."@ + decimal(
            mapped_line(segments, line),
        ) + rest,
        relined_log(before + name + rest, Seq::empty(), segments) == before + name + rest,
{
    let text = before + name + rest;
    let n = before.len() as int;
    let m = (before + name).len() as int;
    assert(text.take(n) =~= before);
    assert(text.take(m) =~= before + name);
    lemma_char_index(text, n);
    lemma_char_index(text, m);
    law_decimal_round_trip(line, usize::MAX as nat);
    reveal_with_fuel(relined, 2);
    assert(text.subrange(0, n) =~= before);
    assert(text.skip(m) =~= rest);
    assert(Seq::<char>::empty() + text.subrange(0, n) =~= before);
    assert(relined_log(text, found, segments) =~= before + "l."@ + decimal(
        mapped_line(segments, line),
    ) + rest);
    assert(text.skip(0) =~= text);
    assert(relined_log(text, Seq::empty(), segments) =~= text);
}

/// A number that cannot be read counts as line zero.
pub proof fn law_unreadable_lines_count_as_zero(text: Seq<char>, groups: Groups)
    requires
        parse_number(group_text(text, groups[1]), usize::MAX as nat) is None,
    ensures
        logged_line(text, groups) == 0,
{
}

proof fn lemma_sections_longer(
    failures: Seq<FrameCompileFailure>,
    logs: Seq<Result<String, String>>,
    cache_subdir: PathView,
    source_name: Seq<char>,
    labels: Seq<FrameLabel>,
    count: nat,
    k: int,
    n: int,
)
    requires
        0 <= k <= n,
    ensures
        failure_sections(failures, logs, cache_subdir, source_name, labels, count, k).is_prefix_of(
            failure_sections(failures, logs, cache_subdir, source_name, labels, count, n),
        ),
    decreases n - k,
{
    if k < n {
        lemma_sections_longer(
            failures,
            logs,
            cache_subdir,
            source_name,
            labels,
            count,
            k,
            n - 1,
        );
        let first = failure_sections(failures, logs, cache_subdir, source_name, labels, count, k);
        let before = failure_sections(
            failures,
            logs,
            cache_subdir,
            source_name,
            labels,
            count,
            n - 1,
        );
        let all = failure_sections(failures, logs, cache_subdir, source_name, labels, count, n);
        assert(all.take(first.len() as int) =~= before.take(first.len() as int));
    }
}

proof fn lemma_section_in_log(
    failures: Seq<FrameCompileFailure>,
    logs: Seq<Result<String, String>>,
    cache_subdir: PathView,
    source_name: Seq<char>,
    labels: Seq<FrameLabel>,
    count: nat,
    i: int,
) -> (at: int)
    requires
        0 <= i < failures.len(),
    ensures
        ({
            let all = frame_failure_log(failures, logs, cache_subdir, source_name, labels, count);
            let section = failure_section(
                failures[i]@,
                index_label(labels, failures[i].frame_idx as int, count),
                source_name,
                job_file(cache_subdir, failures[i].temp_file_name@, "log"@),
                log_view(logs[i]),
            );
            &&& 0 <= at <= at + section.len() <= all.len()
            &&& all.subrange(at, at + section.len()) == section
        }),
{
    let all = frame_failure_log(failures, logs, cache_subdir, source_name, labels, count);
    let title = "This is faster-beamer, aggregated frame failure log.\n"@ + "(./"@ + source_name
        + ")\n"@;
    let before = failure_sections(failures, logs, cache_subdir, source_name, labels, count, i);
    let longer = failure_sections(failures, logs, cache_subdir, source_name, labels, count, i + 1);
    let sections = failure_sections(
        failures,
        logs,
        cache_subdir,
        source_name,
        labels,
        count,
        failures.len() as int,
    );
    let section = failure_section(
        failures[i]@,
        index_label(labels, failures[i].frame_idx as int, count),
        source_name,
        job_file(cache_subdir, failures[i].temp_file_name@, "log"@),
        log_view(logs[i]),
    );
    lemma_sections_longer(
        failures,
        logs,
        cache_subdir,
        source_name,
        labels,
        count,
        i + 1,
        failures.len() as int,
    );
    let at = (title.len() + before.len()) as int;
    assert(longer == before + section);
    assert(all == title + sections);
    lemma_piece_kept(title, before, section, sections);
    at
}

proof fn lemma_piece_kept(a: Seq<char>, b: Seq<char>, c: Seq<char>, all: Seq<char>)
    requires
        (b + c).is_prefix_of(all),
    ensures
        a.len() + b.len() + c.len() <= (a + all).len(),
        (a + all).subrange((a.len() + b.len()) as int, (a.len() + b.len() + c.len()) as int) == c,
{
    assert forall|j: int| 0 <= j < (b + c).len() implies all[j] == (b + c)[j] by {
        assert(all.take((b + c).len() as int)[j] == all[j]);
    }
    assert((a + all).subrange((a.len() + b.len()) as int, (a.len() + b.len() + c.len()) as int)
        =~= c);
}

proof fn lemma_two_parts(all: Seq<char>, at: int, a: Seq<char>, b: Seq<char>)
    requires
        0 <= at,
        at + a.len() + b.len() <= all.len(),
        all.subrange(at, at + a.len() + b.len()) == a + b,
    ensures
        all.subrange(at, at + a.len()) == a,
        all.subrange(at + a.len(), at + a.len() + b.len()) == b,
{
    let both = all.subrange(at, at + a.len() + b.len());
    assert(both.subrange(0, a.len() as int) =~= a);
    assert(both.subrange(a.len() as int, both.len() as int) =~= b);
    assert(all.subrange(at, at + a.len()) =~= both.subrange(0, a.len() as int));
    assert(all.subrange(at + a.len(), at + a.len() + b.len()) =~= both.subrange(
        a.len() as int,
        both.len() as int,
    ));
}

/// The log for the source tells of every frame that could not be typeset: which one it is, the line
/// of the source that it starts at, its first words, and what LaTeX said, told of the source. Where
/// the log of the frame cannot be read, it says so, and why the frame failed.
pub proof fn law_every_failed_frame_is_told(
    failures: Seq<FrameCompileFailure>,
    logs: Seq<Result<String, String>>,
    cache_subdir: PathView,
    source_name: Seq<char>,
    labels: Seq<FrameLabel>,
    count: nat,
    i: int,
) -> (at: int)
    requires
        0 <= i < failures.len(),
        logs.len() == failures.len(),
    ensures
        ({
            let all = frame_failure_log(failures, logs, cache_subdir, source_name, labels, count);
            let failure = failures[i]@;
            let head = "! faster-beamer: frame "@ + index_label(labels, failure.frame_idx, count)
                + " failed to compile\n"@ + "l."@ + decimal(failure.source_start_line) + " "@
                + failure.frame_preview + "\n"@;
            let told = match logs[i] {
                Ok(text) => with_newline(
                    log_to_source(
                        replaced(
                            replaced(text@, failure.temp_file_name, source_name),
                            failure.temp_file.text,
                            source_name,
                        ),
                        failure.sync_segments,
                    ),
                ),
                Err(text) => "! faster-beamer: could not read frame log "@ + job_file(
                    cache_subdir,
                    failure.temp_file_name,
                    "log"@,
                ).text + " ("@ + text@ + ")\n"@ + "l."@ + decimal(failure.source_start_line)
                    + "\n"@ + failure.error + "\n"@,
            };
            &&& 0 <= at
            &&& at + head.len() + told.len() <= all.len()
            &&& all.subrange(at, at + head.len()) == head
            &&& all.subrange(at + head.len(), at + head.len() + told.len()) == told
        }),
{
    let all = frame_failure_log(failures, logs, cache_subdir, source_name, labels, count);
    let failure = failures[i]@;
    let head = "! faster-beamer: frame "@ + index_label(labels, failure.frame_idx, count)
        + " failed to compile\n"@ + "l."@ + decimal(failure.source_start_line) + " "@
        + failure.frame_preview + "\n"@;
    let section = failure_section(
        failure,
        index_label(labels, failure.frame_idx, count),
        source_name,
        job_file(cache_subdir, failure.temp_file_name, "log"@),
        log_view(logs[i]),
    );
    let at = lemma_section_in_log(
        failures,
        logs,
        cache_subdir,
        source_name,
        labels,
        count,
        i,
    );
    let told = match log_view(logs[i]) {
        Ok(text) => with_newline(frame_log_to_source(failure, source_name, text)),
        Err(text) => "! faster-beamer: could not read frame log "@ + job_file(
            cache_subdir,
            failure.temp_file_name,
            "log"@,
        ).text + " ("@ + text + ")\n"@ + "l."@ + decimal(failure.source_start_line) + "\n"@
            + failure.error + "\n"@,
    };
    assert(section == head + told);
    assert(at + section.len() == at + head.len() + told.len());
    lemma_two_parts(all, at, head, told);
    at
}

/// Logs for the source name the source in the way that editors look for it, on the second line.
pub proof fn law_logs_open_the_source(
    failures: Seq<FrameCompileFailure>,
    logs: Seq<Result<String, String>>,
    cache_subdir: PathView,
    source_name: Seq<char>,
    labels: Seq<FrameLabel>,
    count: nat,
    context: Seq<char>,
    text: Seq<char>,
)
    ensures
        ("This is faster-beamer, aggregated frame failure log.\n(./"@ + source_name
            + ")\n"@).is_prefix_of(
            frame_failure_log(failures, logs, cache_subdir, source_name, labels, count),
        ),
        ("This is faster-beamer, redirected compiler failure log.\n(./"@ + source_name
            + ")\n! faster-beamer: "@ + context + " failed\n"@).is_prefix_of(
            redirected_log(source_name, context, text),
        ),
        with_newline(text).is_suffix_of(redirected_log(source_name, context, text)),
{
    reveal_strlit("This is faster-beamer, aggregated frame failure log.\n(./");
    reveal_strlit("This is faster-beamer, aggregated frame failure log.\n");
    reveal_strlit("This is faster-beamer, redirected compiler failure log.\n(./");
    reveal_strlit("This is faster-beamer, redirected compiler failure log.\n");
    reveal_strlit("(./");
    reveal_strlit(")\n! faster-beamer: ");
    reveal_strlit(")\n");
    reveal_strlit("! faster-beamer: ");
    reveal_strlit(" failed\n");
    assert("This is faster-beamer, aggregated frame failure log.\n(./"@
        =~= "This is faster-beamer, aggregated frame failure log.\n"@ + "(./"@);
    assert("This is faster-beamer, redirected compiler failure log.\n(./"@
        =~= "This is faster-beamer, redirected compiler failure log.\n"@ + "(./"@);
    assert(")\n! faster-beamer: "@ =~= ")\n"@ + "! faster-beamer: "@);
    let a = "This is faster-beamer, aggregated frame failure log.\n(./"@ + source_name + ")\n"@;
    let all = frame_failure_log(failures, logs, cache_subdir, source_name, labels, count);
    assert(all.take(a.len() as int) =~= a);
    let b = "This is faster-beamer, redirected compiler failure log.\n(./"@ + source_name
        + ")\n! faster-beamer: "@ + context + " failed\n"@;
    let log = redirected_log(source_name, context, text);
    assert(log =~= b + with_newline(text));
    assert(log.take(b.len() as int) =~= b);
    assert(log.skip(b.len() as int) =~= with_newline(text));
}

/// The last line of a frame is the one that is as many lines behind the first one as the frame has
/// further lines. A frame without lines ends where it starts.
pub proof fn law_frames_end_at_their_last_line(start: nat, count: nat)
    ensures
        count > 0 && start + count - 1 <= u128::MAX ==> last_line(start, count) - start + 1
            == count,
        count == 0 && start <= u128::MAX ==> last_line(start, count) == start,
        start <= u128::MAX ==> start <= last_line(start, count) <= u128::MAX,
{
}

/// What is reported of a frame tells where it is, why it failed and where to look, and its first
/// words exactly where it has some.
pub proof fn law_reports_tell_where_to_look(
    failure: FailureView,
    label: Seq<char>,
    source_file: PathView,
    log_path: PathView,
)
    ensures
        ({
            let report = failure_report(failure, label, source_file, log_path);
            let place = "Frame "@ + label + " failed at "@ + source_file.text + ":"@ + decimal(
                failure.source_start_line,
            ) + "-"@;
            &&& place.is_prefix_of(report[0])
            &&& report[0].skip(place.len() as int) == decimal(
                last_line(failure.source_start_line, failure.source_line_count),
            ) + "."@
            &&& report.contains("Reason: "@ + failure.error)
            &&& report.contains("Generated source: "@ + failure.temp_file.text)
            &&& report.contains("Frame log: "@ + log_path.text)
            &&& failure.frame_preview.len() > 0 ==> report.contains(
                "Frame preview: "@ + failure.frame_preview,
            )
            &&& report.len() == if failure.frame_preview.len() > 0 {
                5int
            } else {
                4int
            }
        }),
{
    let report = failure_report(failure, label, source_file, log_path);
    let place = "Frame "@ + label + " failed at "@ + source_file.text + ":"@ + decimal(
        failure.source_start_line,
    ) + "-"@;
    let end = decimal(last_line(failure.source_start_line, failure.source_line_count)) + "."@;
    assert(report[0] =~= place + end);
    assert(report[0].take(place.len() as int) =~= place);
    assert(report[0].skip(place.len() as int) =~= end);
    assert(report[1] == "Reason: "@ + failure.error);
    assert(report[2] == "Generated source: "@ + failure.temp_file.text);
    assert(report[3] == "Frame log: "@ + log_path.text);
    if failure.frame_preview.len() > 0 {
        assert(report[4] == "Frame preview: "@ + failure.frame_preview);
    }
}

/// What a program says of its errors is told before what else it printed. Where it printed nothing,
/// it is told that the preamble failed.
pub proof fn law_errors_are_told_before_output(stdout: Seq<u8>, stderr: Seq<u8>)
    ensures
        printed(stderr).len() > 0 ==> preamble_failure(stdout, stderr) == printed(stderr),
        printed(stderr).len() == 0 && printed(stdout).len() > 0 ==> preamble_failure(stdout, stderr)
            == printed(stdout),
        printed(stderr).len() == 0 && printed(stdout).len() == 0 ==> preamble_failure(
            stdout,
            stderr,
        ) == "preamble compilation failed"@,
{
}

/// A program that is not there is told by its name, and any other reason is told as it is. Either
/// way it is told what was to be done.
pub proof fn law_missing_programs_are_named(
    command: Seq<char>,
    context: Seq<char>,
    not_found: bool,
    error: Seq<char>,
)
    ensures
        ("Failed to "@ + context + ": "@).is_prefix_of(
            start_failure(command, context, not_found, error),
        ),
        not_found ==> (command + " was not found on PATH."@).is_suffix_of(
            start_failure(command, context, not_found, error),
        ),
        !not_found ==> error.is_suffix_of(start_failure(command, context, not_found, error)),
{
    let told = start_failure(command, context, not_found, error);
    let head = "Failed to "@ + context + ": "@;
    let tail = if not_found {
        command + " was not found on PATH."@
    } else {
        error
    };
    assert(told =~= head + tail);
    assert(told.take(head.len() as int) =~= head);
    assert(told.skip(head.len() as int) =~= tail);
}

}
