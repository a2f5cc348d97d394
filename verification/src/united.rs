//! The united document: the source with every frame replaced by its PDF.
use crate::document::{compiled_pdf_path, document_names, pdf_path, FasterBeamerError, GeneratedDocument};
use crate::latexcompile::{
    command_views, new_compiler, tex_path, tex_path_arg, CompilerView, LatexCompiler, LatexEngine,
    LatexInput, LatexRun, LatexRunOptions,
};
use crate::lines::{
    chunks, chunks_of, concat, count_lines, lemma_chunks, lemma_chunks_single, lemma_concat_append,
    lemma_line_count, lemma_line_of_character, lemma_offset_step, offset,
};
use crate::numbers::{decimal, push_decimal};
use crate::paths::{child, lone_name, stem, FilePath, PathView};
use crate::search::{
    extend, find_from, first_match, lemma_first_match, lemma_first_match_exists, matches_at,
    starts_with, trim, trimmed,
};
use crate::sync_map::{
    law_last_covering_segment_decides, mapped_line, segments_wf, FrameSyncTexMap,
    SyncTexLineSegment,
};
use crate::text::{
    chars_of, lemma_newlines_bound, lemma_newlines_concat, line_at, line_of_position, newlines,
    owned, string_of, texts, views,
};
use vstd::prelude::*;

verus! {

// ---------------------------------------------------------------------------
// Splitting off what belongs to a frame
// ---------------------------------------------------------------------------

/// Whether a line belongs to the frame behind it: it is blank, or a comment.
pub open spec fn boundary_line(line: Seq<char>) -> bool {
    trim(line).len() == 0 || trim(line)[0] == '%'
}

/// Where the lines that belong to the next frame start: behind the last of the first `n` lines
/// that does not.
pub open spec fn boundary_start(parts: Seq<Seq<char>>, n: int) -> int
    decreases n,
{
    if 0 < n <= parts.len() && boundary_line(parts[n - 1]) {
        boundary_start(parts, n - 1)
    } else {
        n
    }
}

/// How many characters of a piece of the source stand in front of what belongs to the next frame.
pub open spec fn boundary_offset(segment: Seq<char>) -> int {
    offset(chunks(segment), boundary_start(chunks(segment), chunks(segment).len() as int)) as int
}

proof fn lemma_boundary_start(parts: Seq<Seq<char>>, n: int)
    requires
        0 <= n <= parts.len(),
    ensures
        0 <= boundary_start(parts, n) <= n,
        forall|i: int| boundary_start(parts, n) <= i < n ==> boundary_line(#[trigger] parts[i]),
        boundary_start(parts, n) > 0 ==> !boundary_line(parts[boundary_start(parts, n) - 1]),
    decreases n,
{
    if n > 0 && boundary_line(parts[n - 1]) {
        lemma_boundary_start(parts, n - 1);
    }
}

proof fn lemma_boundary_offset(segment: Seq<char>)
    ensures
        0 <= boundary_offset(segment) <= segment.len(),
{
    lemma_chunks(segment);
    let parts = chunks(segment);
    lemma_boundary_start(parts, parts.len() as int);
    crate::lines::lemma_offset_bound(parts, boundary_start(parts, parts.len() as int));
}

fn find_boundary(segment: &[char]) -> (r: usize)
    ensures
        r == boundary_offset(segment@),
        r <= segment@.len(),
{
    let parts = chunks_of(segment);
    let ghost all = views(parts@);
    proof {
        lemma_chunks(segment@);
        lemma_boundary_offset(segment@);
    }
    let mut n: usize = parts.len();
    while n > 0
        invariant_except_break
            boundary_start(all, n as int) == boundary_start(all, all.len() as int),
        invariant
            n <= parts.len(),
            all == views(parts@),
        ensures
            n == boundary_start(all, all.len() as int),
        decreases n,
    {
        assert(all[n - 1] == parts@[n - 1]@);
        let words = trimmed(&parts[n - 1]);
        if words.len() == 0 || words[0] == '%' {
            n -= 1;
        } else {
            break;
        }
    }
    let mut at: usize = 0;
    let mut i: usize = 0;
    proof {
        assert(all.take(0) =~= Seq::<Seq<char>>::empty());
        assert(segment@.len() == segment.len());
    }
    while i < n
        invariant
            i <= n <= parts.len(),
            all == views(parts@),
            concat(all) == segment@,
            segment@.len() <= usize::MAX,
            at == offset(all, i as int),
        decreases n - i,
    {
        proof {
            lemma_offset_step(all, i as int);
            crate::lines::lemma_offset_bound(all, i + 1);
            assert(all[i as int] == parts@[i as int]@);
        }
        at += parts[i].len();
        i += 1;
    }
    at
}

/// Splits a piece of the source in two: the second part is what belongs to the frame behind it.
pub fn split_trailing_frame_boundary(segment: &str) -> (r: (String, String))
    ensures
        r.0@ == segment@.take(boundary_offset(segment@)),
        r.1@ == segment@.skip(boundary_offset(segment@)),
{
    let chars = chars_of(segment);
    let at = find_boundary(&chars);
    let head = &chars[0..at];
    let tail = &chars[at..chars.len()];
    assert(head@ =~= segment@.take(at as int));
    assert(tail@ =~= segment@.skip(at as int));
    (string_of(head), string_of(tail))
}

/// What is split off is made of blank lines and comments only, and no more of them stand in front
/// of it.
pub proof fn law_boundary_is_as_long_as_can_be(segment: Seq<char>)
    ensures
        ({
            let parts = chunks(segment);
            let k = boundary_start(parts, parts.len() as int);
            &&& 0 <= k <= parts.len()
            &&& segment.take(boundary_offset(segment)) == concat(parts.take(k))
            &&& segment.skip(boundary_offset(segment)) == concat(parts.skip(k))
            &&& forall|i: int| k <= i < parts.len() ==> boundary_line(#[trigger] parts[i])
            &&& k > 0 ==> !boundary_line(parts[k - 1])
        }),
{
    let parts = chunks(segment);
    let k = boundary_start(parts, parts.len() as int);
    lemma_chunks(segment);
    lemma_boundary_start(parts, parts.len() as int);
    assert(parts.take(k) + parts.skip(k) =~= parts);
    lemma_concat_append(parts.take(k), parts.skip(k));
    assert(segment.take(boundary_offset(segment)) =~= concat(parts.take(k)));
    assert(segment.skip(boundary_offset(segment)) =~= concat(parts.skip(k)));
}

// ---------------------------------------------------------------------------
// Replacing frames
// ---------------------------------------------------------------------------

/// What stands in front of the path of a PDF in place of a frame.
pub const REPLACEMENT_HEAD: &'static str = "{\\setbeamercolor{background canvas}{bg=}\n\\setbeamertemplate{footline}{}\n\\setbeamertemplate{headline}{}\n\\setbeamertemplate{navigation symbols}{}\n\\includepdf[\n  pages=-,\n  pagecommand={\\thispagestyle{empty}\\smash{\\hbox to 0pt{\\phantom{.}\\hss}}}\n]{";

/// What stands in place of a frame.
pub open spec fn replacement(boundary: Seq<char>, pdf: Seq<char>) -> Seq<char> {
    boundary + REPLACEMENT_HEAD@ + pdf + "}\n}"@
}

/// What stands in place of a frame.
pub fn united_frame_replacement(frame_boundary_segment: &str, frame_pdf: &str) -> (r: String)
    ensures
        r@ == replacement(frame_boundary_segment@, frame_pdf@),
{
    let mut out = owned(frame_boundary_segment);
    out.push_str(REPLACEMENT_HEAD);
    out.push_str(frame_pdf);
    out.push_str("}\n}");
    out
}

/// The united document so far: its text, the lines that come from the source, the number that the
/// next line is counted as, how far the source was read, and the PDFs with the lines of their
/// frames.
#[verifier::ext_equal]
pub struct UnitedView {
    pub text: Seq<char>,
    pub segments: Seq<SyncTexLineSegment>,
    pub line: nat,
    pub cursor: int,
    pub paths: Seq<(Seq<char>, nat)>,
}

/// The united document before the source.
pub open spec fn united_start() -> UnitedView {
    UnitedView {
        text: "\\RequirePackage{pdfpages}\n"@,
        segments: Seq::empty(),
        line: chunks("\\RequirePackage{pdfpages}\n"@).len() + 1,
        cursor: 0,
        paths: Seq::empty(),
    }
}

/// The lines from the source behind a piece of it that starts at `cursor`, where the piece is put
/// on what is counted as line `line`.
pub open spec fn piece_segments(
    segments: Seq<SyncTexLineSegment>,
    line: nat,
    source: Seq<char>,
    cursor: int,
    piece: Seq<char>,
) -> Seq<SyncTexLineSegment> {
    if chunks(piece).len() == 0 {
        segments
    } else {
        segments.push(
            SyncTexLineSegment {
                temp_start_line: line as u128,
                line_count: chunks(piece).len() as u128,
                source_start_line: line_at(source, cursor) as u128,
            },
        )
    }
}

/// The united document behind a piece of the source that starts at the cursor. Lines are counted
/// piece by piece: where one does not end in a line break, the next one is counted from a line of
/// its own.
pub open spec fn with_piece(u: UnitedView, source: Seq<char>, piece: Seq<char>) -> UnitedView {
    UnitedView {
        text: u.text + piece,
        segments: piece_segments(u.segments, u.line, source, u.cursor, piece),
        line: u.line + chunks(piece).len(),
        ..u
    }
}

/// The united document behind a replaced frame. A replacement does not end in a line break, but
/// what stands behind it is counted from a line of its own.
pub open spec fn with_replacement(u: UnitedView, text: Seq<char>) -> UnitedView {
    UnitedView { text: u.text + text, line: u.line + chunks(text).len(), ..u }
}

/// The united document behind the source up to the end of a frame that starts at `at`.
pub open spec fn with_frame(
    u: UnitedView,
    source: Seq<char>,
    at: int,
    frame: Seq<char>,
    start_line: nat,
    pdf: Seq<char>,
) -> UnitedView {
    let between = source.subrange(u.cursor, at);
    let split = boundary_offset(between);
    let kept = with_piece(u, source, between.take(split));
    let placed = with_replacement(kept, replacement(between.skip(split), pdf));
    UnitedView {
        cursor: at + frame.len(),
        paths: placed.paths.push((pdf, start_line)),
        ..placed
    }
}

/// The united document behind the first `n` frames, where each of them was found behind the one
/// before it.
pub open spec fn united_frames(
    source: Seq<char>,
    frames: Seq<Seq<char>>,
    start_lines: Seq<nat>,
    pdfs: Seq<Seq<char>>,
    n: int,
) -> Option<UnitedView>
    decreases n,
{
    if n <= 0 {
        Some(united_start())
    } else {
        match united_frames(source, frames, start_lines, pdfs, n - 1) {
            None => None,
            Some(u) => match first_match(source, frames[n - 1], u.cursor) {
                None => None,
                Some(at) => Some(
                    with_frame(u, source, at, frames[n - 1], start_lines[n - 1], pdfs[n - 1]),
                ),
            },
        }
    }
}

/// The lines of the first `n` PDFs, and how far the text was searched for them.
pub open spec fn path_segments(text: Seq<char>, paths: Seq<(Seq<char>, nat)>, n: int) -> Option<
    (Seq<SyncTexLineSegment>, int),
>
    decreases n,
{
    if n <= 0 {
        Some((Seq::empty(), 0))
    } else {
        match path_segments(text, paths, n - 1) {
            None => None,
            Some((segments, cursor)) => match first_match(text, paths[n - 1].0, cursor) {
                None => None,
                Some(at) => Some(
                    (
                        segments.push(
                            SyncTexLineSegment {
                                temp_start_line: line_at(text, at) as u128,
                                line_count: 1,
                                source_start_line: paths[n - 1].1 as u128,
                            },
                        ),
                        at + paths[n - 1].0.len(),
                    ),
                ),
            },
        }
    }
}

/// The united document and its lines. A line with a PDF comes from the first line of the frame.
pub open spec fn united(
    source: Seq<char>,
    frames: Seq<Seq<char>>,
    start_lines: Seq<nat>,
    pdfs: Seq<Seq<char>>,
    n: int,
) -> Option<(Seq<char>, Seq<SyncTexLineSegment>)> {
    match united_frames(source, frames, start_lines, pdfs, n) {
        None => None,
        Some(u) => {
            let all = with_piece(u, source, source.skip(u.cursor));
            match path_segments(all.text, all.paths, all.paths.len() as int) {
                None => None,
                Some((segments, _)) => Some((all.text, all.segments + segments)),
            }
        },
    }
}

/// The text of the PDF paths for generated documents.
pub open spec fn pdf_texts(cache_subdir: PathView, names: Seq<Seq<char>>) -> Seq<Seq<char>> {
    names.map_values(|name: Seq<char>| tex_path(pdf_path(cache_subdir, name)))
}

/// The first lines of frames.
pub open spec fn start_lines(lines: Seq<(u128, u128)>) -> Seq<nat> {
    lines.map_values(|l: (u128, u128)| l.0 as nat)
}

/// Where PDFs stand in a text, one behind the other.
spec fn placed(text: Seq<char>, paths: Seq<(Seq<char>, nat)>, at: Seq<int>) -> bool {
    &&& at.len() == paths.len()
    &&& forall|i: int| 0 <= i < paths.len() ==> matches_at(text, paths[i].0, #[trigger] at[i])
    &&& forall|i: int, j: int|
        0 <= i < j < paths.len() ==> #[trigger] at[i] + paths[i].0.len() <= #[trigger] at[j]
}

proof fn lemma_placed_longer(
    text: Seq<char>,
    more: Seq<char>,
    paths: Seq<(Seq<char>, nat)>,
    at: Seq<int>,
)
    requires
        placed(text, paths, at),
    ensures
        placed(text + more, paths, at),
{
    assert forall|i: int| 0 <= i < paths.len() implies matches_at(
        text + more,
        paths[i].0,
        #[trigger] at[i],
    ) by {
        assert(matches_at(text, paths[i].0, at[i]));
        assert((text + more).subrange(at[i], at[i] + paths[i].0.len()) =~= text.subrange(
            at[i],
            at[i] + paths[i].0.len(),
        ));
    }
}

proof fn lemma_paths_placed(
    source: Seq<char>,
    frames: Seq<Seq<char>>,
    start_lines: Seq<nat>,
    pdfs: Seq<Seq<char>>,
    n: int,
) -> (at: Seq<int>)
    requires
        united_frames(source, frames, start_lines, pdfs, n) is Some,
    ensures
        placed(
            united_frames(source, frames, start_lines, pdfs, n)->0.text,
            united_frames(source, frames, start_lines, pdfs, n)->0.paths,
            at,
        ),
        forall|i: int|
            0 <= i < at.len() ==> #[trigger] at[i] + united_frames(
                source,
                frames,
                start_lines,
                pdfs,
                n,
            )->0.paths[i].0.len() <= united_frames(source, frames, start_lines, pdfs, n)->0.text.len(),
    decreases n,
{
    if n <= 0 {
        Seq::<int>::empty()
    } else {
        let u = united_frames(source, frames, start_lines, pdfs, n - 1)->0;
        let before = lemma_paths_placed(source, frames, start_lines, pdfs, n - 1);
        let frame = frames[n - 1];
        let pdf = pdfs[n - 1];
        let start = first_match(source, frame, u.cursor)->0;
        let between = source.subrange(u.cursor, start);
        let split = boundary_offset(between);
        let kept = with_piece(u, source, between.take(split));
        let boundary = between.skip(split);
        let after = united_frames(source, frames, start_lines, pdfs, n)->0;
        lemma_placed_longer(u.text, between.take(split) + replacement(boundary, pdf), u.paths, before);
        assert(after.text =~= u.text + (between.take(split) + replacement(boundary, pdf)));
        let here: int = (kept.text.len() + boundary.len() + REPLACEMENT_HEAD@.len()) as int;
        assert(after.text.subrange(here, here + pdf.len()) =~= pdf);
        let at = before.push(here);
        assert forall|i: int| 0 <= i < after.paths.len() implies matches_at(
            after.text,
            after.paths[i].0,
            #[trigger] at[i],
        ) by {
            if i < before.len() {
                assert(matches_at(after.text, u.paths[i].0, before[i]));
            }
        }
        assert forall|i: int, j: int| 0 <= i < j < after.paths.len() implies #[trigger] at[i]
            + after.paths[i].0.len() <= #[trigger] at[j] by {
            if j == before.len() {
                assert(before[i] + u.paths[i].0.len() <= u.text.len());
            } else {
                assert(before[i] + u.paths[i].0.len() <= before[j]);
            }
        }
        at
    }
}

/// How far a text was searched for the first `n` PDFs.
pub open spec fn searched(text: Seq<char>, paths: Seq<(Seq<char>, nat)>, n: int) -> int {
    match path_segments(text, paths, n) {
        Some((_, cursor)) => cursor,
        None => 0,
    }
}

proof fn lemma_paths_found(text: Seq<char>, paths: Seq<(Seq<char>, nat)>, at: Seq<int>, n: int)
    requires
        placed(text, paths, at),
        0 <= n <= paths.len(),
    ensures
        path_segments(text, paths, n) is Some,
        searched(text, paths, n) >= 0,
        n < paths.len() ==> searched(text, paths, n) <= at[n],
    decreases n,
{
    if n > 0 {
        lemma_paths_found(text, paths, at, n - 1);
        let cursor = searched(text, paths, n - 1);
        assert(matches_at(text, paths[n - 1].0, at[n - 1]));
        lemma_first_match_exists(text, paths[n - 1].0, cursor, at[n - 1]);
        lemma_first_match(text, paths[n - 1].0, cursor);
        if n < paths.len() {
            assert(at[n - 1] + paths[n - 1].0.len() <= at[n]);
        }
    } else if paths.len() > 0 {
        assert(matches_at(text, paths[0].0, at[0]));
    }
}

/// A united document is made whenever the frames are found in the source one behind the other:
/// the PDFs that were put in are always found again.
pub proof fn law_united_document_needs_only_its_frames(
    source: Seq<char>,
    frames: Seq<Seq<char>>,
    start_lines: Seq<nat>,
    pdfs: Seq<Seq<char>>,
    n: int,
)
    ensures
        united(source, frames, start_lines, pdfs, n) is Some <==> united_frames(
            source,
            frames,
            start_lines,
            pdfs,
            n,
        ) is Some,
{
    if let Some(u) = united_frames(source, frames, start_lines, pdfs, n) {
        let at = lemma_paths_placed(source, frames, start_lines, pdfs, n);
        let all = with_piece(u, source, source.skip(u.cursor));
        lemma_placed_longer(u.text, source.skip(u.cursor), u.paths, at);
        lemma_paths_found(all.text, all.paths, at, all.paths.len() as int);
    }
}

/// The PDFs of the first `n` frames, each with the first line of its frame.
pub open spec fn frame_paths(pdfs: Seq<Seq<char>>, start_lines: Seq<nat>, n: int) -> Seq<
    (Seq<char>, nat),
> {
    Seq::new(n as nat, |i: int| (pdfs[i], start_lines[i]))
}

/// Where a PDF stands in a text: behind the one before it.
pub open spec fn path_position(text: Seq<char>, paths: Seq<(Seq<char>, nat)>, i: int) -> int {
    first_match(text, paths[i].0, searched(text, paths, i))->0
}

proof fn lemma_united_paths(
    source: Seq<char>,
    frames: Seq<Seq<char>>,
    start_lines: Seq<nat>,
    pdfs: Seq<Seq<char>>,
    n: int,
)
    requires
        0 <= n,
        united_frames(source, frames, start_lines, pdfs, n) is Some,
    ensures
        united_frames(source, frames, start_lines, pdfs, n)->0.paths == frame_paths(
            pdfs,
            start_lines,
            n,
        ),
    decreases n,
{
    let u = united_frames(source, frames, start_lines, pdfs, n)->0;
    if n > 0 {
        lemma_united_paths(source, frames, start_lines, pdfs, n - 1);
        assert(frame_paths(pdfs, start_lines, n) =~= frame_paths(pdfs, start_lines, n - 1).push(
            (pdfs[n - 1], start_lines[n - 1]),
        ));
    } else {
        assert(u.paths =~= frame_paths(pdfs, start_lines, n));
    }
}

proof fn lemma_path_segments(text: Seq<char>, paths: Seq<(Seq<char>, nat)>, n: int, k: int)
    requires
        path_segments(text, paths, n) is Some,
        0 <= k < n <= paths.len(),
    ensures
        (path_segments(text, paths, n)->0).0.len() == n,
        (path_segments(text, paths, n)->0).0[k] == (SyncTexLineSegment {
            temp_start_line: line_at(text, path_position(text, paths, k)) as u128,
            line_count: 1,
            source_start_line: paths[k].1 as u128,
        }),
        searched(text, paths, k) >= 0,
        searched(text, paths, n) >= 0,
        path_position(text, paths, k) >= 0,
        matches_at(text, paths[k].0, path_position(text, paths, k)),
    decreases n,
{
    if n > 1 {
        lemma_path_segments(text, paths, n - 1, if k < n - 1 { k } else { 0 });
    }
    lemma_first_match(text, paths[n - 1].0, searched(text, paths, n - 1));
}

/// The line on which the PDF of a frame is included leads back to the first line of that frame,
/// where no later PDF stands on the same line.
pub proof fn law_included_frames_lead_back_to_the_source(
    source: Seq<char>,
    frames: Seq<Seq<char>>,
    start_lines: Seq<nat>,
    pdfs: Seq<Seq<char>>,
    n: int,
    i: int,
)
    requires
        0 <= i < n,
        united(source, frames, start_lines, pdfs, n) is Some,
        (united(source, frames, start_lines, pdfs, n)->0).0.len() <= usize::MAX,
        start_lines[i] <= u128::MAX,
        ({
            let text = (united(source, frames, start_lines, pdfs, n)->0).0;
            let paths = frame_paths(pdfs, start_lines, n);
            forall|j: int|
                i < j < n ==> line_at(text, #[trigger] path_position(text, paths, j)) != line_at(
                    text,
                    path_position(text, paths, i),
                )
        }),
    ensures
        ({
            let (text, segments) = united(source, frames, start_lines, pdfs, n)->0;
            let at = path_position(text, frame_paths(pdfs, start_lines, n), i);
            &&& matches_at(text, pdfs[i], at)
            &&& mapped_line(segments, line_at(text, at)) == start_lines[i]
        }),
{
    let (text, segments) = united(source, frames, start_lines, pdfs, n)->0;
    let paths = frame_paths(pdfs, start_lines, n);
    lemma_united_paths(source, frames, start_lines, pdfs, n);
    let found = (path_segments(text, paths, n)->0).0;
    lemma_path_segments(text, paths, n, i);
    let first = segments.len() - n;
    let line = line_at(text, path_position(text, paths, i));
    assert forall|j: int| 0 <= j < n implies segments[first + j] == (SyncTexLineSegment {
        temp_start_line: line_at(text, #[trigger] path_position(text, paths, j)) as u128,
        line_count: 1,
        source_start_line: paths[j].1 as u128,
    }) && line_at(text, path_position(text, paths, j)) <= u128::MAX by {
        lemma_path_segments(text, paths, n, j);
        assert(segments[first + j] == found[j]);
        lemma_newlines_bound(text.take(path_position(text, paths, j)));
    }
    assert forall|k: int| first + i < k < segments.len() implies !(#[trigger] segments[k]).covers(
        line as int,
    ) by {
        let j = k - first;
        assert(line_at(text, path_position(text, paths, j)) != line);
        assert(segments[first + j] == segments[k]);
    }
    assert(segments[first + i].covers(line as int));
    law_last_covering_segment_decides(segments, line, first + i);
}

/// The piece of the source that is copied behind the first `i` of `n` frames: up to the frame
/// behind it and the comments on it, or to the end.
pub open spec fn copied_piece(
    source: Seq<char>,
    frames: Seq<Seq<char>>,
    start_lines: Seq<nat>,
    pdfs: Seq<Seq<char>>,
    n: int,
    i: int,
) -> Seq<char> {
    let u = united_frames(source, frames, start_lines, pdfs, i)->0;
    if i < n {
        let between = source.subrange(u.cursor, first_match(source, frames[i], u.cursor)->0);
        between.take(boundary_offset(between))
    } else {
        source.skip(u.cursor)
    }
}

proof fn lemma_cursor(
    source: Seq<char>,
    frames: Seq<Seq<char>>,
    start_lines: Seq<nat>,
    pdfs: Seq<Seq<char>>,
    n: int,
)
    requires
        united_frames(source, frames, start_lines, pdfs, n) is Some,
    ensures
        0 <= united_frames(source, frames, start_lines, pdfs, n)->0.cursor <= source.len(),
    decreases n,
{
    if n > 0 {
        lemma_cursor(source, frames, start_lines, pdfs, n - 1);
        let u = united_frames(source, frames, start_lines, pdfs, n - 1)->0;
        lemma_first_match(source, frames[n - 1], u.cursor);
    }
}

/// The frames before one that was put in were put in too.
proof fn lemma_earlier_frames(
    source: Seq<char>,
    frames: Seq<Seq<char>>,
    start_lines: Seq<nat>,
    pdfs: Seq<Seq<char>>,
    n: int,
    i: int,
)
    requires
        0 <= i <= n,
        united_frames(source, frames, start_lines, pdfs, n) is Some,
    ensures
        united_frames(source, frames, start_lines, pdfs, i) is Some,
        starts_with(
            united_frames(source, frames, start_lines, pdfs, n)->0.text,
            united_frames(source, frames, start_lines, pdfs, i)->0.text,
        ),
    decreases n,
{
    let after = united_frames(source, frames, start_lines, pdfs, n)->0;
    if i < n {
        lemma_earlier_frames(source, frames, start_lines, pdfs, n - 1, i);
        let u = united_frames(source, frames, start_lines, pdfs, n - 1)->0;
        let first = united_frames(source, frames, start_lines, pdfs, i)->0.text;
        assert(starts_with(after.text, u.text)) by {
            assert(after.text.subrange(0, u.text.len() as int) =~= u.text);
        }
        assert(after.text.subrange(0, first.len() as int) =~= u.text.subrange(
            0,
            first.len() as int,
        ));
    } else {
        assert(after.text.subrange(0, after.text.len() as int) =~= after.text);
    }
}

/// Lines are counted up to a number that a text in memory allows for.
proof fn lemma_counted_lines(
    source: Seq<char>,
    frames: Seq<Seq<char>>,
    start_lines: Seq<nat>,
    pdfs: Seq<Seq<char>>,
    n: int,
)
    requires
        united_frames(source, frames, start_lines, pdfs, n) is Some,
    ensures
        united_frames(source, frames, start_lines, pdfs, n)->0.line <= united_frames(
            source,
            frames,
            start_lines,
            pdfs,
            n,
        )->0.text.len() + 2,
    decreases n,
{
    if n > 0 {
        lemma_counted_lines(source, frames, start_lines, pdfs, n - 1);
        let u = united_frames(source, frames, start_lines, pdfs, n - 1)->0;
        let at = first_match(source, frames[n - 1], u.cursor)->0;
        let between = source.subrange(u.cursor, at);
        let split = boundary_offset(between);
        lemma_chunks(between.take(split));
        lemma_chunks(replacement(between.skip(split), pdfs[n - 1]));
    } else {
        lemma_united_start();
    }
}

proof fn lemma_united_start()
    ensures
        united_start().line == 2,
        newlines(united_start().text) == 1,
{
    reveal_strlit("\\RequirePackage{pdfpages}\n");
    lemma_chunks_single(united_start().text);
    lemma_line_count(united_start().text);
}

proof fn lemma_frames_lead_back(
    source: Seq<char>,
    frames: Seq<Seq<char>>,
    start_lines: Seq<nat>,
    pdfs: Seq<Seq<char>>,
    n: int,
    i: int,
    k: int,
)
    requires
        0 <= i < n,
        united_frames(source, frames, start_lines, pdfs, n) is Some,
        united_frames(source, frames, start_lines, pdfs, n)->0.text.len() <= usize::MAX,
        source.len() <= usize::MAX,
        0 <= k < chunks(copied_piece(source, frames, start_lines, pdfs, n, i)).len(),
    ensures
        ({
            let u = united_frames(source, frames, start_lines, pdfs, i)->0;
            let after = united_frames(source, frames, start_lines, pdfs, n)->0;
            let piece = copied_piece(source, frames, start_lines, pdfs, n, i);
            &&& matches_at(source, piece, u.cursor)
            &&& matches_at(after.text, piece, u.text.len() as int)
            &&& u.line + k < after.line
            &&& mapped_line(after.segments, (u.line + k) as nat) == line_at(source, u.cursor) + k
        }),
    decreases n,
{
    lemma_earlier_frames(source, frames, start_lines, pdfs, n, n - 1);
    let last = united_frames(source, frames, start_lines, pdfs, n - 1)->0;
    let after = united_frames(source, frames, start_lines, pdfs, n)->0;
    lemma_cursor(source, frames, start_lines, pdfs, n - 1);
    lemma_counted_lines(source, frames, start_lines, pdfs, n - 1);
    lemma_first_match(source, frames[n - 1], last.cursor);
    let between = source.subrange(last.cursor, first_match(source, frames[n - 1], last.cursor)->0);
    let split = boundary_offset(between);
    lemma_boundary_offset(between);
    let u = united_frames(source, frames, start_lines, pdfs, i)->0;
    let piece = copied_piece(source, frames, start_lines, pdfs, n, i);
    let here: int = u.text.len() as int;
    let line = (u.line + k) as nat;
    lemma_chunks(between.take(split));
    if i == n - 1 {
        assert(source.subrange(u.cursor, u.cursor + piece.len()) =~= piece);
        assert(after.text.subrange(here, here + piece.len()) =~= piece);
        lemma_newlines_bound(source.take(u.cursor));
        assert(after.segments.last().covers(line as int));
    } else {
        lemma_frames_lead_back(source, frames, start_lines, pdfs, n - 1, i, k);
        assert(after.text.subrange(here, here + piece.len()) =~= last.text.subrange(
            here,
            here + piece.len(),
        ));
        if chunks(between.take(split)).len() > 0 {
            assert(!after.segments.last().covers(line as int));
            assert(after.segments.drop_last() =~= last.segments);
        }
    }
}

proof fn lemma_path_segments_len(text: Seq<char>, paths: Seq<(Seq<char>, nat)>, n: int)
    requires
        0 <= n,
        path_segments(text, paths, n) is Some,
    ensures
        (path_segments(text, paths, n)->0).0.len() == n,
    decreases n,
{
    if n > 0 {
        lemma_path_segments_len(text, paths, n - 1);
    }
}

/// Segments that do not cover a line change nothing of where it leads.
proof fn lemma_more_segments(
    segments: Seq<SyncTexLineSegment>,
    more: Seq<SyncTexLineSegment>,
    line: nat,
)
    requires
        forall|j: int| 0 <= j < more.len() ==> !(#[trigger] more[j]).covers(line as int),
    ensures
        mapped_line(segments + more, line) == mapped_line(segments, line),
    decreases more.len(),
{
    if more.len() > 0 {
        let front = more.drop_last();
        assert forall|j: int| 0 <= j < front.len() implies !(#[trigger] front[j]).covers(
            line as int,
        ) by {
            assert(front[j] == more[j]);
        }
        lemma_more_segments(segments, front, line);
        assert(!more[more.len() - 1].covers(line as int));
        assert((segments + more).drop_last() =~= segments + front);
    } else {
        assert(segments + more =~= segments);
    }
}

/// Every line that was copied from the source leads back to where it comes from, by the number that
/// it is counted as, where no PDF stands on the line of that number. Behind the first `i` frames, the
/// united document goes on with the piece of the source that is copied there, and its line `k` is
/// counted from the number that is next there.
pub proof fn law_counted_lines_lead_back_to_the_source(
    source: Seq<char>,
    frames: Seq<Seq<char>>,
    start_lines: Seq<nat>,
    pdfs: Seq<Seq<char>>,
    n: int,
    i: int,
    k: int,
)
    requires
        0 <= i <= n,
        united(source, frames, start_lines, pdfs, n) is Some,
        (united(source, frames, start_lines, pdfs, n)->0).0.len() <= usize::MAX,
        source.len() <= usize::MAX,
        0 <= k < chunks(copied_piece(source, frames, start_lines, pdfs, n, i)).len(),
        ({
            let text = (united(source, frames, start_lines, pdfs, n)->0).0;
            let line = united_frames(source, frames, start_lines, pdfs, i)->0.line + k;
            let paths = frame_paths(pdfs, start_lines, n);
            forall|j: int|
                0 <= j < n ==> line_at(text, #[trigger] path_position(text, paths, j)) != line
        }),
    ensures
        ({
            let (text, segments) = united(source, frames, start_lines, pdfs, n)->0;
            let u = united_frames(source, frames, start_lines, pdfs, i)->0;
            let piece = copied_piece(source, frames, start_lines, pdfs, n, i);
            &&& starts_with(text, u.text)
            &&& matches_at(text, piece, u.text.len() as int)
            &&& matches_at(source, piece, u.cursor)
            &&& mapped_line(segments, (u.line + k) as nat) == line_at(source, u.cursor) + k
        }),
{
    let (text, segments) = united(source, frames, start_lines, pdfs, n)->0;
    let last = united_frames(source, frames, start_lines, pdfs, n)->0;
    let u = united_frames(source, frames, start_lines, pdfs, i)->0;
    let piece = copied_piece(source, frames, start_lines, pdfs, n, i);
    let rest = source.skip(last.cursor);
    let all = with_piece(last, source, rest);
    let paths = frame_paths(pdfs, start_lines, n);
    let here: int = u.text.len() as int;
    let line = (u.line + k) as nat;
    lemma_earlier_frames(source, frames, start_lines, pdfs, n, i);
    lemma_united_paths(source, frames, start_lines, pdfs, n);
    lemma_cursor(source, frames, start_lines, pdfs, n);
    lemma_counted_lines(source, frames, start_lines, pdfs, n);
    lemma_chunks(rest);
    assert(text.subrange(0, here) =~= last.text.subrange(0, here));
    if i < n {
        lemma_frames_lead_back(source, frames, start_lines, pdfs, n, i, k);
        assert(text.subrange(here, here + piece.len()) =~= last.text.subrange(
            here,
            here + piece.len(),
        ));
        if chunks(rest).len() > 0 {
            assert(!all.segments.last().covers(line as int));
            assert(all.segments.drop_last() =~= last.segments);
        }
    } else {
        assert(source.subrange(u.cursor, u.cursor + piece.len()) =~= piece);
        assert(text.subrange(here, here + piece.len()) =~= piece);
        lemma_newlines_bound(source.take(u.cursor));
        assert(all.segments.last().covers(line as int));
    }
    let found = (path_segments(text, paths, n)->0).0;
    lemma_path_segments_len(text, paths, n);
    assert forall|j: int| 0 <= j < found.len() implies !(#[trigger] found[j]).covers(
        line as int,
    ) by {
        lemma_path_segments(text, paths, n, j);
        assert(line_at(text, path_position(text, paths, j)) != line);
        lemma_newlines_bound(text.take(path_position(text, paths, j)));
    }
    lemma_more_segments(all.segments, found, line);
}

/// Every character that stands in the source before its first frame and the comments on it leads
/// back from its line in the united document to its line in the source, where no PDF stands on its
/// line. Without a frame, that is the whole source.
pub proof fn law_united_head_leads_back_to_the_source(
    source: Seq<char>,
    frames: Seq<Seq<char>>,
    start_lines: Seq<nat>,
    pdfs: Seq<Seq<char>>,
    n: int,
    q: int,
)
    requires
        0 <= n,
        united(source, frames, start_lines, pdfs, n) is Some,
        (united(source, frames, start_lines, pdfs, n)->0).0.len() <= usize::MAX,
        source.len() <= usize::MAX,
        0 <= q < copied_piece(source, frames, start_lines, pdfs, n, 0).len(),
        ({
            let text = (united(source, frames, start_lines, pdfs, n)->0).0;
            let at = united_start().text.len() + q;
            let paths = frame_paths(pdfs, start_lines, n);
            forall|j: int|
                0 <= j < n ==> line_at(text, #[trigger] path_position(text, paths, j)) != line_at(
                    text,
                    at,
                )
        }),
    ensures
        ({
            let (text, segments) = united(source, frames, start_lines, pdfs, n)->0;
            let head = copied_piece(source, frames, start_lines, pdfs, n, 0);
            let at = united_start().text.len() as int;
            &&& starts_with(source, head)
            &&& matches_at(text, head, at)
            &&& mapped_line(segments, line_at(text, at + q)) == line_at(source, q)
        }),
{
    let text = (united(source, frames, start_lines, pdfs, n)->0).0;
    let head = copied_piece(source, frames, start_lines, pdfs, n, 0);
    let first = united_start().text;
    let k = newlines(head.take(q)) as int;
    lemma_line_of_character(head, q);
    lemma_united_start();
    assert(united_frames(source, frames, start_lines, pdfs, 0) == Some(united_start()));
    lemma_head_stands_first(source, frames, start_lines, pdfs, n);
    let at = first.len() + q;
    assert(text.take(at as int) =~= first + head.take(q)) by {
        assert(text.subrange(0, first.len() as int) == first);
        assert(text.subrange(first.len() as int, (first.len() + head.len()) as int) == head);
        assert forall|j: int| 0 <= j < at implies text[j] == (first + head.take(q))[j] by {
            if j < first.len() {
                assert(text.subrange(0, first.len() as int)[j] == text[j]);
            } else {
                assert(text.subrange(
                    first.len() as int,
                    (first.len() + head.len()) as int,
                )[j - first.len()] == text[j]);
            }
        }
    }
    lemma_newlines_concat(first, head.take(q));
    law_counted_lines_lead_back_to_the_source(source, frames, start_lines, pdfs, n, 0, k);
    assert(source.take(0) =~= Seq::<char>::empty());
    assert(source.take(q) =~= head.take(q)) by {
        assert forall|j: int| 0 <= j < q implies source[j] == head[j] by {
            assert(source.subrange(0, head.len() as int)[j] == source[j]);
        }
    }
}

/// A united document starts with what stands in the source before the first frame.
proof fn lemma_head_stands_first(
    source: Seq<char>,
    frames: Seq<Seq<char>>,
    start_lines: Seq<nat>,
    pdfs: Seq<Seq<char>>,
    n: int,
)
    requires
        0 <= n,
        united(source, frames, start_lines, pdfs, n) is Some,
    ensures
        starts_with((united(source, frames, start_lines, pdfs, n)->0).0, united_start().text),
        matches_at(
            (united(source, frames, start_lines, pdfs, n)->0).0,
            copied_piece(source, frames, start_lines, pdfs, n, 0),
            united_start().text.len() as int,
        ),
{
    let text = (united(source, frames, start_lines, pdfs, n)->0).0;
    let head = copied_piece(source, frames, start_lines, pdfs, n, 0);
    let first = united_start().text;
    let last = united_frames(source, frames, start_lines, pdfs, n)->0;
    assert(united_frames(source, frames, start_lines, pdfs, 0) == Some(united_start()));
    lemma_earlier_frames(source, frames, start_lines, pdfs, n, 0);
    assert(text.subrange(0, first.len() as int) =~= last.text.subrange(0, first.len() as int));
    let here: int = first.len() as int;
    if n > 0 {
        lemma_earlier_frames(source, frames, start_lines, pdfs, n, 1);
        let one = united_frames(source, frames, start_lines, pdfs, 1)->0;
        assert(one.text.subrange(here, here + head.len()) =~= head);
        assert forall|j: int| 0 <= j < head.len() implies text[here + j] == head[j] by {
            assert(last.text.subrange(0, one.text.len() as int)[here + j] == one.text[here + j]);
            assert(one.text.subrange(here, here + head.len())[j] == one.text[here + j]);
        }
        assert(text.subrange(here, here + head.len()) =~= head);
    } else {
        assert(text.subrange(here, here + head.len()) =~= head);
    }
}

/// Appends a piece of the source that starts at position `source_start`, and the lines it takes.
pub fn append_united_source_segment(
    united_tex: &mut Vec<char>,
    segments: &mut Vec<SyncTexLineSegment>,
    current_temp_line: &mut u128,
    source: &[char],
    source_start: usize,
    piece: &[char],
)
    requires
        source_start <= source@.len(),
        *old(current_temp_line) + usize::MAX <= u128::MAX,
        segments_wf(old(segments)@),
    ensures
        final(united_tex)@ == old(united_tex)@ + piece@,
        final(segments)@ == piece_segments(
            old(segments)@,
            *old(current_temp_line) as nat,
            source@,
            source_start as int,
            piece@,
        ),
        *final(current_temp_line) == *old(current_temp_line) + chunks(piece@).len(),
        segments_wf(final(segments)@),
{
    proof {
        lemma_chunks(piece@);
    }
    extend(united_tex, piece);
    let line_count = count_lines(piece);
    if line_count > 0 {
        let source_start_line = line_of_position(source, source_start);
        proof {
            lemma_newlines_bound(source@.take(source_start as int));
            assert(source@.len() == source.len());
        }
        let ghost before = segments@;
        let segment = SyncTexLineSegment {
            temp_start_line: *current_temp_line,
            line_count: line_count as u128,
            source_start_line,
        };
        assert(segment.wf());
        segments.push(segment);
        assert forall|i: int| 0 <= i < segments@.len() implies (#[trigger] segments@[i]).wf() by {
            if i < before.len() {
                assert(before[i].wf());
            }
        }
    }
    *current_temp_line = *current_temp_line + line_count as u128;
}

/// Appends what stands in place of a frame, and counts the lines it takes.
pub fn append_united_frame_placeholder(
    united_tex: &mut Vec<char>,
    current_temp_line: &mut u128,
    replacement: &[char],
)
    requires
        *old(current_temp_line) + usize::MAX <= u128::MAX,
    ensures
        final(united_tex)@ == old(united_tex)@ + replacement@,
        *final(current_temp_line) == *old(current_temp_line) + chunks(replacement@).len(),
{
    extend(united_tex, replacement);
    let line_count = count_lines(replacement);
    *current_temp_line = *current_temp_line + line_count as u128;
}

/// How many frames go into the united document: as many as there are lines and documents for.
pub open spec fn united_count(frames: nat, lines: nat, documents: nat) -> int {
    if frames <= lines && frames <= documents {
        frames as int
    } else if lines <= documents {
        lines as int
    } else {
        documents as int
    }
}

/// The lines of the PDFs in a text.
fn find_paths(text: &[char], paths: &[(Vec<char>, u128)]) -> (r: Option<Vec<SyncTexLineSegment>>)
    requires
        forall|i: int| 0 <= i < paths@.len() ==> (#[trigger] paths@[i]).1 < u128::MAX,
    ensures
        match r {
            Some(found) => {
                &&& segments_wf(found@)
                &&& path_segments(text@, path_entries(paths@), paths@.len() as int) is Some
                &&& found@ == (path_segments(text@, path_entries(paths@), paths@.len() as int)->0).0
            },
            None => path_segments(text@, path_entries(paths@), paths@.len() as int) is None,
        },
{
    let ghost all = path_entries(paths@);
    let mut out: Vec<SyncTexLineSegment> = Vec::new();
    let mut cursor: usize = 0;
    let mut i: usize = 0;
    while i < paths.len()
        invariant
            i <= paths.len(),
            cursor <= text@.len(),
            all == path_entries(paths@),
            forall|i: int| 0 <= i < paths@.len() ==> (#[trigger] paths@[i]).1 < u128::MAX,
            segments_wf(out@),
            path_segments(text@, all, i as int) == Some((out@, cursor as int)),
        decreases paths.len() - i,
    {
        assert(all[i as int] == (paths@[i as int].0@, paths@[i as int].1 as nat));
        match find_from(text, &paths[i].0, cursor) {
            Some(at) => {
                let line = line_of_position(text, at);
                proof {
                    lemma_newlines_bound(text@.take(at as int));
                    assert(text@.len() == text.len());
                    assert(paths@[i as int].1 < u128::MAX);
                }
                let ghost before = out@;
                let segment = SyncTexLineSegment {
                    temp_start_line: line,
                    line_count: 1,
                    source_start_line: paths[i].1,
                };
                assert(segment.wf());
                out.push(segment);
                assert forall|k: int| 0 <= k < out@.len() implies (#[trigger] out@[k]).wf() by {
                    if k < before.len() {
                        assert(before[k].wf());
                    }
                }
                cursor = at + paths[i].0.len();
            },
            None => {
                proof {
                    lemma_missing_path(text@, all, i + 1);
                }
                return None;
            },
        }
        i += 1;
    }
    Some(out)
}

/// What PDFs and the lines of their frames hold.
pub open spec fn path_entries(v: Seq<(Vec<char>, u128)>) -> Seq<(Seq<char>, nat)> {
    v.map_values(|p: (Vec<char>, u128)| (p.0@, p.1 as nat))
}

proof fn lemma_missing_path(text: Seq<char>, paths: Seq<(Seq<char>, nat)>, n: int)
    requires
        0 <= n <= paths.len(),
        path_segments(text, paths, n) is None,
    ensures
        path_segments(text, paths, paths.len() as int) is None,
    decreases paths.len() - n,
{
    if n < paths.len() {
        lemma_missing_path(text, paths, n + 1);
    }
}

proof fn lemma_missing_frame(
    source: Seq<char>,
    frames: Seq<Seq<char>>,
    start_lines: Seq<nat>,
    pdfs: Seq<Seq<char>>,
    n: int,
    count: int,
)
    requires
        0 <= n <= count,
        united_frames(source, frames, start_lines, pdfs, n) is None,
    ensures
        united_frames(source, frames, start_lines, pdfs, count) is None,
    decreases count - n,
{
    if n < count {
        lemma_missing_frame(source, frames, start_lines, pdfs, n + 1, count);
    }
}

/// The united document and how its lines map to the source. It cannot be made where a frame is
/// not found in the source behind the frame before it.
#[verifier::rlimit(40)]
pub fn build_united_document(
    source_content: &str,
    frames: &[String],
    frame_source_lines: &[(u128, u128)],
    generated_documents: &[GeneratedDocument],
    cache_subdir: &FilePath,
    original_source_path: &FilePath,
) -> (r: Result<(String, FrameSyncTexMap), FasterBeamerError>)
    requires
        forall|i: int|
            0 <= i < frame_source_lines@.len() ==> (#[trigger] frame_source_lines@[i]).0
                < u128::MAX,
    ensures
        ({
            let made = united(
                source_content@,
                texts(frames@),
                start_lines(frame_source_lines@),
                pdf_texts(cache_subdir@, document_names(generated_documents@)),
                united_count(frames@.len(), frame_source_lines@.len(), generated_documents@.len()),
            );
            match r {
                Ok((text, map)) => {
                    &&& made == Some((text@, map.segments@))
                    &&& map.wf()
                    &&& map.source_file@ == original_source_path@
                    &&& map.temp_file_name@ == "faster-beamer-united-preview.tex"@
                },
                Err(e) => made is None && e == FasterBeamerError::CompileError,
            }
        }),
{
    let source = chars_of(source_content);
    let ghost all = texts(frames@);
    let ghost lines = start_lines(frame_source_lines@);
    let ghost pdfs = pdf_texts(cache_subdir@, document_names(generated_documents@));
    let mut text = chars_of("\\RequirePackage{pdfpages}\n");
    proof {
        lemma_united_start();
    }
    let mut segments: Vec<SyncTexLineSegment> = Vec::new();
    let mut line: u128 = 2;
    let mut cursor: usize = 0;
    let mut paths: Vec<(Vec<char>, u128)> = Vec::new();
    assert(path_entries(paths@) =~= Seq::<(Seq<char>, nat)>::empty());
    let mut count: usize = frames.len();
    if frame_source_lines.len() < count {
        count = frame_source_lines.len();
    }
    if generated_documents.len() < count {
        count = generated_documents.len();
    }
    let mut i: usize = 0;
    while i < count
        invariant
            i <= count,
            count <= frames@.len(),
            count <= frame_source_lines@.len(),
            count <= generated_documents@.len(),
            source@ == source_content@,
            cursor <= source@.len(),
            all == texts(frames@),
            lines == start_lines(frame_source_lines@),
            pdfs == pdf_texts(cache_subdir@, document_names(generated_documents@)),
            forall|i: int|
                0 <= i < frame_source_lines@.len() ==> (#[trigger] frame_source_lines@[i]).0
                    < u128::MAX,
            forall|i: int| 0 <= i < paths@.len() ==> (#[trigger] paths@[i]).1 < u128::MAX,
            count == united_count(
                frames@.len(),
                frame_source_lines@.len(),
                generated_documents@.len(),
            ),
            segments_wf(segments@),
            line <= 2 + text@.len(),
            united_frames(source@, all, lines, pdfs, i as int) == Some(
                (UnitedView {
                    text: text@,
                    segments: segments@,
                    line: line as nat,
                    cursor: cursor as int,
                    paths: path_entries(paths@),
                }),
            ),
        decreases count - i,
    {
        let frame = chars_of(frames[i].as_str());
        assert(all[i as int] == frame@);
        assert(lines[i as int] == frame_source_lines@[i as int].0);
        assert(document_names(generated_documents@)[i as int]
            == generated_documents@[i as int].sync_map.temp_file_name@);
        let at = match find_from(&source, &frame, cursor) {
            Some(at) => at,
            None => {
                proof {
                    lemma_missing_frame(source@, all, lines, pdfs, i + 1, count as int);
                }
                return Err(FasterBeamerError::CompileError);
            },
        };
        let between = &source[cursor..at];
        assert(between@ =~= source@.subrange(cursor as int, at as int));
        let split = find_boundary(between);
        let kept = &between[0..split];
        let boundary = &between[split..between.len()];
        assert(kept@ =~= between@.take(split as int));
        assert(boundary@ =~= between@.skip(split as int));
        proof {
            assert(text@.len() == text.len());
            lemma_chunks(kept@);
        }
        append_united_source_segment(&mut text, &mut segments, &mut line, &source, cursor, kept);
        let pdf_file = compiled_pdf_path(
            cache_subdir,
            generated_documents[i].sync_map.temp_file_name.as_str(),
        );
        let pdf = tex_path_arg(&pdf_file);
        let boundary_text = string_of(boundary);
        let replacement_text = united_frame_replacement(boundary_text.as_str(), pdf.as_str());
        let replacement_chars = chars_of(replacement_text.as_str());
        let ghost before = paths@;
        assert(frame_source_lines@[i as int].0 < u128::MAX);
        paths.push((chars_of(pdf.as_str()), frame_source_lines[i].0));
        assert(path_entries(paths@) =~= path_entries(before).push((pdf@, lines[i as int])));
        proof {
            assert(text@.len() == text.len());
            lemma_chunks(replacement_chars@);
        }
        append_united_frame_placeholder(&mut text, &mut line, &replacement_chars);
        cursor = at + frame.len();
        i += 1;
    }
    let rest = &source[cursor..source.len()];
    assert(rest@ =~= source@.skip(cursor as int));
    assert(text@.len() == text.len());
    append_united_source_segment(&mut text, &mut segments, &mut line, &source, cursor, rest);
    match find_paths(&text, &paths) {
        Some(found) => {
            let ghost before = segments@;
            let mut more = found;
            let ghost tail = more@;
            segments.append(&mut more);
            assert(segments@ =~= before + tail);
            assert forall|k: int| 0 <= k < segments@.len() implies (#[trigger] segments@[k]).wf() by {
                if k < before.len() {
                    assert(before[k].wf());
                } else {
                    assert(tail[k - before.len()].wf());
                }
            }
            Ok(
                (
                    string_of(&text),
                    FrameSyncTexMap {
                        source_file: original_source_path.copy(),
                        temp_file_name: owned("faster-beamer-united-preview.tex"),
                        segments,
                    },
                ),
            )
        },
        None => Err(FasterBeamerError::CompileError),
    }
}

// ---------------------------------------------------------------------------
// Compiling the united document
// ---------------------------------------------------------------------------

/// What a united build needs and leaves.
#[derive(Clone, Debug)]
pub struct UnitedCompileArtifacts {
    pub tex_file: FilePath,
    pub pdf_file: FilePath,
    pub sync_map: FrameSyncTexMap,
}

/// A united build: the text to write, the commands to run on it, and what they leave.
#[derive(Clone, Debug)]
pub struct UnitedBuild {
    pub tex_content: String,
    pub run: LatexRun,
    pub artifacts: UnitedCompileArtifacts,
}

/// The name of a united build that was started at `millis`.
pub open spec fn united_job(millis: nat) -> Seq<char> {
    "faster-beamer-united-"@ + decimal(millis)
}

/// The LaTeX program for a build in `cache_subdir` that runs in `input_dir`.
pub open spec fn build_compiler(
    cache_subdir: PathView,
    input_dir: PathView,
    engine: LatexEngine,
    options: Seq<Seq<char>>,
) -> CompilerView {
    let plain = new_compiler(cache_subdir, engine);
    CompilerView {
        current_dir: Some(input_dir),
        args: plain.args.push("-shell-escape"@).push("-interaction=nonstopmode"@) + options,
        ..plain
    }
}

/// The LaTeX program for a build in `cache_subdir` that runs in `input_dir`.
pub fn build_compiler_for(
    cache_subdir: &FilePath,
    input_dir: &FilePath,
    latex_engine: LatexEngine,
    compiler_options: &[String],
) -> (r: LatexCompiler)
    ensures
        r@ == build_compiler(cache_subdir@, input_dir@, latex_engine, texts(compiler_options@)),
{
    LatexCompiler::new_in_with_engine(cache_subdir.copy(), latex_engine).add_arg(
        "-shell-escape",
    ).add_arg("-interaction=nonstopmode").with_current_dir(input_dir.copy()).add_args(
        compiler_options,
    )
}

/// The united build that is started at `millis`: what is written to the directory of the source,
/// what runs there, and where the output is in the cache.
pub fn plan_united_build(
    source_content: &str,
    frames: &[String],
    frame_source_lines: &[(u128, u128)],
    generated_documents: &[GeneratedDocument],
    cache_subdir: &FilePath,
    original_source_path: &FilePath,
    input_dir: &FilePath,
    latex_engine: LatexEngine,
    compiler_options: &[String],
    run_options: LatexRunOptions,
    millis: u128,
) -> (r: Result<UnitedBuild, FasterBeamerError>)
    requires
        forall|i: int|
            0 <= i < frame_source_lines@.len() ==> (#[trigger] frame_source_lines@[i]).0
                < u128::MAX,
    ensures
        ({
            let made = united(
                source_content@,
                texts(frames@),
                start_lines(frame_source_lines@),
                pdf_texts(cache_subdir@, document_names(generated_documents@)),
                united_count(frames@.len(), frame_source_lines@.len(), generated_documents@.len()),
            );
            let name = united_job(millis as nat) + ".tex"@;
            match r {
                Ok(build) => {
                    &&& made == Some((build.tex_content@, build.artifacts.sync_map.segments@))
                    &&& build.artifacts.sync_map.wf()
                    &&& build.artifacts.sync_map.source_file@ == original_source_path@
                    &&& build.artifacts.sync_map.temp_file_name@ == name
                    &&& build.artifacts.tex_file@ == child(input_dir@, name)
                    &&& build.artifacts.pdf_file@ == child(
                        cache_subdir@,
                        united_job(millis as nat) + ".pdf"@,
                    )
                    &&& command_views(build.run.commands@) == build_compiler(
                        cache_subdir@,
                        input_dir@,
                        latex_engine,
                        texts(compiler_options@),
                    ).commands(lone_name(input_dir@.style, name), stem(name), run_options)
                    &&& build.run.output@ == build_compiler(
                        cache_subdir@,
                        input_dir@,
                        latex_engine,
                        texts(compiler_options@),
                    ).output(stem(name))
                },
                Err(e) => made is None && e == FasterBeamerError::CompileError,
            }
        }),
{
    let (tex_content, map) = match build_united_document(
        source_content,
        frames,
        frame_source_lines,
        generated_documents,
        cache_subdir,
        original_source_path,
    ) {
        Ok(made) => made,
        Err(e) => {
            return Err(e);
        },
    };
    let mut job = owned("faster-beamer-united-");
    push_decimal(&mut job, millis);
    let mut tex_name = owned(job.as_str());
    tex_name.push_str(".tex");
    let mut pdf_name = job;
    pdf_name.push_str(".pdf");
    let compiler = build_compiler_for(cache_subdir, input_dir, latex_engine, compiler_options);
    let main = FilePath::lone(tex_name.as_str(), input_dir.style);
    let run = match compiler.run(&main, &LatexInput::new(), run_options) {
        Ok(run) => run,
        Err(_) => {
            assert(false);
            return Err(FasterBeamerError::CompileError);
        },
    };
    let tex_file = input_dir.child(tex_name.as_str());
    let pdf_file = cache_subdir.child(pdf_name.as_str());
    Ok(
        UnitedBuild {
            tex_content,
            run,
            artifacts: UnitedCompileArtifacts {
                tex_file,
                pdf_file,
                sync_map: FrameSyncTexMap {
                    source_file: map.source_file,
                    temp_file_name: tex_name,
                    segments: map.segments,
                },
            },
        },
    )
}

/// What came of a united build: it counts as done where it left a PDF, whatever the commands said.
pub fn united_outcome(build: UnitedBuild, pdf_is_file: bool) -> (r: Result<
    UnitedCompileArtifacts,
    FasterBeamerError,
>)
    ensures
        match r {
            Ok(artifacts) => pdf_is_file && artifacts == build.artifacts,
            Err(e) => !pdf_is_file && e == FasterBeamerError::CompileError,
        },
{
    if pdf_is_file {
        Ok(build.artifacts)
    } else {
        Err(FasterBeamerError::CompileError)
    }
}

// ---------------------------------------------------------------------------
// What a united document is made of
// ---------------------------------------------------------------------------

/// What stands in place of a frame: the blank lines and comments in front of the frame, and then all
/// pages of its PDF, without a head, a foot or navigation of their own.
pub proof fn law_replacements_include_every_page(boundary: Seq<char>, pdf: Seq<char>)
    ensures
        replacement(boundary, pdf) == boundary
            + "{\\setbeamercolor{background canvas}{bg=}\n\\setbeamertemplate{footline}{}\n\\setbeamertemplate{headline}{}\n\\setbeamertemplate{navigation symbols}{}\n\\includepdf[\n  pages=-,\n  pagecommand={\\thispagestyle{empty}\\smash{\\hbox to 0pt{\\phantom{.}\\hss}}}\n]{"@
            + pdf + "}\n}"@,
{
}

/// A united document starts by loading what PDFs are included with, and then goes through the
/// source: up to frame `i` it copies what stands there, then the frame is replaced by its PDF, and
/// the source goes on behind the frame. Behind the last frame the rest of the source is copied.
pub proof fn law_united_documents_are_the_source_with_pdfs(
    source: Seq<char>,
    frames: Seq<Seq<char>>,
    start_lines: Seq<nat>,
    pdfs: Seq<Seq<char>>,
    n: int,
    i: int,
)
    requires
        0 <= i < n,
        united(source, frames, start_lines, pdfs, n) is Some,
    ensures
        ({
            let u = united_frames(source, frames, start_lines, pdfs, i)->0;
            let next = united_frames(source, frames, start_lines, pdfs, i + 1)->0;
            let last = united_frames(source, frames, start_lines, pdfs, n)->0;
            let first = united_frames(source, frames, start_lines, pdfs, 0)->0;
            let at = next.cursor - frames[i].len();
            let between = source.subrange(u.cursor, at);
            let kept = between.take(boundary_offset(between));
            let boundary = between.skip(boundary_offset(between));
            &&& first.text == "\\RequirePackage{pdfpages}\n"@
            &&& first.cursor == 0
            &&& u.cursor <= at
            &&& matches_at(source, frames[i], at)
            &&& forall|j: int| u.cursor <= j < at ==> !#[trigger] matches_at(source, frames[i], j)
            &&& kept + boundary == between
            &&& next.text == u.text + kept + replacement(boundary, pdfs[i])
            &&& (united(source, frames, start_lines, pdfs, n)->0).0 == last.text + source.skip(
                last.cursor,
            )
        }),
{
    lemma_earlier_frames(source, frames, start_lines, pdfs, n, i);
    lemma_earlier_frames(source, frames, start_lines, pdfs, n, i + 1);
    lemma_cursor(source, frames, start_lines, pdfs, i);
    let u = united_frames(source, frames, start_lines, pdfs, i)->0;
    lemma_first_match(source, frames[i], u.cursor);
    let at = first_match(source, frames[i], u.cursor)->0;
    let between = source.subrange(u.cursor, at);
    lemma_boundary_offset(between);
    assert(between.take(boundary_offset(between)) + between.skip(boundary_offset(between))
        =~= between);
}

/// As many frames go into a united document as there are frames with lines and documents.
pub proof fn law_no_frame_is_left_out(frames: nat, lines: nat, documents: nat)
    ensures
        united_count(frames, lines, documents) <= frames,
        united_count(frames, lines, documents) <= lines,
        united_count(frames, lines, documents) <= documents,
        frames == lines && lines == documents ==> united_count(frames, lines, documents) == frames,
        united_count(frames, lines, documents) == frames || united_count(frames, lines, documents)
            == lines || united_count(frames, lines, documents) == documents,
{
}

/// Builds run in the directory of the source and leave their files in the cache. The options of the
/// call come last among the arguments, in their order.
pub proof fn law_builds_run_next_to_the_source(
    cache_subdir: PathView,
    input_dir: PathView,
    engine: LatexEngine,
    options: Seq<Seq<char>>,
)
    ensures
        ({
            let compiler = build_compiler(cache_subdir, input_dir, engine, options);
            let n = compiler.args.len() - options.len();
            &&& compiler.program == crate::latexcompile::engine_name(engine)
            &&& compiler.working_dir == cache_subdir
            &&& compiler.current_dir == Some(input_dir)
            &&& compiler.args.take(n).contains("-shell-escape"@)
            &&& compiler.args.take(n).contains("-synctex=5"@)
            &&& compiler.args.skip(n) == options
        }),
{
    let compiler = build_compiler(cache_subdir, input_dir, engine, options);
    let n = compiler.args.len() - options.len();
    assert(compiler.args.take(n)[2] == "-shell-escape"@);
    assert(compiler.args.take(n)[1] == "-synctex=5"@);
    assert(compiler.args.skip(n) =~= options);
}

/// A line belongs to the frame behind it exactly where it is blank, or the first thing on it is a
/// percent sign. `before` and `behind` are the white space at its ends.
pub proof fn law_blank_lines_and_comments_go_with_their_frame(
    before: Seq<char>,
    s: Seq<char>,
    behind: Seq<char>,
)
    requires
        forall|i: int| 0 <= i < before.len() ==> crate::search::whitespace(#[trigger] before[i]),
        forall|i: int| 0 <= i < behind.len() ==> crate::search::whitespace(#[trigger] behind[i]),
        s.len() > 0 ==> !crate::search::whitespace(s[0]) && !crate::search::whitespace(s.last()),
    ensures
        boundary_line(before + s + behind) <==> s.len() == 0 || s[0] == '%',
{
    crate::search::law_trimming_takes_white_space_off(before, s, behind);
}

}
