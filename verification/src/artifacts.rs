//! Files that builds leave behind: whether they can be used again, and which are in the way.
use crate::document::GeneratedDocument;
use crate::lines::{concat, join, join_texts, law_chunks_of_concat, line_body, lines, lines_of};
use crate::options::{has_tex_extension, is_tex};
use crate::path_order::{has_path, has_same, is_sorted_set, law_sorted_sets_are_unique, sorted_set};
use crate::path_parts::PathStyle;
use crate::paths::{
    below, file_name, inside, joined, lone_name, parsed, path_views, with_extension, FilePath,
    PathView,
};
use crate::related::{copied_paths, push_path};
use crate::search::{
    has_prefix, lemma_trim_noop, prefix_len, starts_with, trim, trimmed, whitespace,
};
use crate::text::{chars_of, owned, push_text, string_of, texts, views};
use vstd::prelude::*;

verus! {

/// What the names of generated frame sources start with.
pub const FRAME_TEMP_PREFIX: &'static str = "faster-beamer-temp-";

/// What the names of dumped preambles start with.
pub const PREAMBLE_TEMP_PREFIX: &'static str = "faster-beamer-preamble-";

/// What the names of united documents start with.
pub const UNITED_TEMP_PREFIX: &'static str = "faster-beamer-united-";

/// Whether a file name is that of a generated file.
pub open spec fn generated_name(name: Seq<char>) -> bool {
    starts_with(name, FRAME_TEMP_PREFIX@) || starts_with(name, PREAMBLE_TEMP_PREFIX@)
        || starts_with(name, UNITED_TEMP_PREFIX@)
}

/// Whether a file name is that of a generated file.
pub fn is_generated_name(name: &str) -> (r: bool)
    ensures
        r == generated_name(name@),
{
    let chars = chars_of(name);
    has_prefix(&chars, FRAME_TEMP_PREFIX) || has_prefix(&chars, PREAMBLE_TEMP_PREFIX) || has_prefix(
        &chars,
        UNITED_TEMP_PREFIX,
    )
}

// ---------------------------------------------------------------------------
// Files of a job
// ---------------------------------------------------------------------------

/// The file that the job for a generated source leaves under an extension.
pub open spec fn job_file(cache_subdir: PathView, name: Seq<char>, ext: Seq<char>) -> PathView {
    joined(cache_subdir, with_extension(parsed(cache_subdir.style, name), ext))
}

/// The file that the job for a generated source leaves under an extension.
pub fn job_file_path(cache_subdir: &FilePath, temp_file_name: &str, ext: &str) -> (r: FilePath)
    ensures
        r@ == job_file(cache_subdir@, temp_file_name@, ext@),
{
    let file = FilePath::parse_as(temp_file_name, cache_subdir.style).with_extension(ext);
    cache_subdir.join(&file)
}

/// The extensions of what a job leaves besides its PDF.
pub open spec fn sidecar_extension(i: int) -> Seq<char> {
    if i == 0 {
        "aux"@
    } else if i == 1 {
        "bcf"@
    } else if i == 2 {
        "bbl"@
    } else if i == 3 {
        "blg"@
    } else if i == 4 {
        "fls"@
    } else if i == 5 {
        "log"@
    } else if i == 6 {
        "nav"@
    } else if i == 7 {
        "out"@
    } else if i == 8 {
        "run.xml"@
    } else if i == 9 {
        "snm"@
    } else if i == 10 {
        "synctex.gz"@
    } else if i == 11 {
        "toc"@
    } else {
        "vrb"@
    }
}

/// How many extensions there are for what a job leaves besides its PDF.
pub const SIDECAR_COUNT: usize = 13;

fn sidecar_extension_at(i: usize) -> (r: &'static str)
    ensures
        r@ == sidecar_extension(i as int),
{
    if i == 0 {
        "aux"
    } else if i == 1 {
        "bcf"
    } else if i == 2 {
        "bbl"
    } else if i == 3 {
        "blg"
    } else if i == 4 {
        "fls"
    } else if i == 5 {
        "log"
    } else if i == 6 {
        "nav"
    } else if i == 7 {
        "out"
    } else if i == 8 {
        "run.xml"
    } else if i == 9 {
        "snm"
    } else if i == 10 {
        "synctex.gz"
    } else if i == 11 {
        "toc"
    } else {
        "vrb"
    }
}

/// What a job for a generated source leaves besides its PDF.
pub open spec fn frame_sidecars(cache_subdir: PathView, name: Seq<char>) -> Seq<PathView> {
    Seq::new(SIDECAR_COUNT as nat, |i: int| job_file(cache_subdir, name, sidecar_extension(i)))
}

/// What a job for a generated source leaves besides its PDF.
pub fn frame_job_sidecars(cache_subdir: &FilePath, temp_file_name: &str) -> (r: Vec<FilePath>)
    ensures
        path_views(r@) == frame_sidecars(cache_subdir@, temp_file_name@),
{
    let ghost all = frame_sidecars(cache_subdir@, temp_file_name@);
    let mut out: Vec<FilePath> = Vec::new();
    let mut i: usize = 0;
    assert(path_views(out@) =~= all.take(0));
    while i < SIDECAR_COUNT
        invariant
            i <= SIDECAR_COUNT,
            all == frame_sidecars(cache_subdir@, temp_file_name@),
            path_views(out@) == all.take(i as int),
        decreases SIDECAR_COUNT - i,
    {
        push_path(&mut out, job_file_path(cache_subdir, temp_file_name, sidecar_extension_at(i)));
        i += 1;
        assert(all.take(i as int) =~= all.take(i - 1).push(all[i - 1]));
    }
    assert(all.take(i as int) =~= all);
    out
}

/// Where a source that was put in is seen from the cache: as from the directory of the input, or
/// under its own name where it is elsewhere.
pub open spec fn cache_side(input_dir: PathView, dependency: PathView) -> PathView {
    if inside(dependency, input_dir) {
        below(dependency, input_dir.parts.len() as int)
    } else {
        match file_name(dependency) {
            Some(name) => lone_name(dependency.style, name),
            None => dependency,
        }
    }
}

/// What a job leaves under an extension for a source that was put in.
pub open spec fn dependency_sidecar(
    cache_subdir: PathView,
    input_dir: PathView,
    dependency: PathView,
    ext: Seq<char>,
) -> PathView {
    with_extension(joined(cache_subdir, cache_side(input_dir, dependency)), ext)
}

/// What a job leaves under an extension for a source that was put in.
pub fn dependency_sidecar_path(
    cache_subdir: &FilePath,
    input_dir: &FilePath,
    dependency: &FilePath,
    ext: &str,
) -> (r: FilePath)
    ensures
        r@ == dependency_sidecar(cache_subdir@, input_dir@, dependency@, ext@),
{
    let relative = match dependency.strip_prefix(input_dir) {
        Some(path) => path,
        None => match dependency.file_name() {
            Some(name) => FilePath::lone(name, dependency.style),
            None => dependency.copy(),
        },
    };
    let path = cache_subdir.join(&relative);
    path.with_extension(ext)
}

/// What a job leaves for one source that was put in.
pub open spec fn sidecars_of(
    cache_subdir: PathView,
    input_dir: PathView,
    dependency: PathView,
) -> Seq<PathView> {
    Seq::new(
        SIDECAR_COUNT as nat,
        |i: int| dependency_sidecar(cache_subdir, input_dir, dependency, sidecar_extension(i)),
    )
}

/// What a job leaves for all sources that were put in. Other files leave nothing.
pub open spec fn dependency_sidecars(
    cache_subdir: PathView,
    input_dir: PathView,
    dependencies: Seq<PathView>,
) -> Seq<PathView>
    decreases dependencies.len(),
{
    if dependencies.len() == 0 {
        Seq::empty()
    } else {
        let front = dependency_sidecars(cache_subdir, input_dir, dependencies.drop_last());
        if is_tex(dependencies.last()) {
            front + sidecars_of(cache_subdir, input_dir, dependencies.last())
        } else {
            front
        }
    }
}

/// What a job leaves for the sources that were put in.
pub fn dependency_job_sidecars(
    cache_subdir: &FilePath,
    input_dir: &FilePath,
    dependencies: &[FilePath],
) -> (r: Vec<FilePath>)
    ensures
        path_views(r@) == dependency_sidecars(
            cache_subdir@,
            input_dir@,
            path_views(dependencies@),
        ),
{
    let ghost all = path_views(dependencies@);
    let mut out: Vec<FilePath> = Vec::new();
    let mut i: usize = 0;
    assert(all.take(0) =~= Seq::<PathView>::empty());
    assert(path_views(out@) =~= Seq::<PathView>::empty());
    while i < dependencies.len()
        invariant
            i <= dependencies.len(),
            all == path_views(dependencies@),
            path_views(out@) == dependency_sidecars(
                cache_subdir@,
                input_dir@,
                all.take(i as int),
            ),
        decreases dependencies.len() - i,
    {
        assert(all.take(i + 1).drop_last() =~= all.take(i as int));
        assert(all.take(i + 1).last() == dependencies@[i as int]@);
        if has_tex_extension(&dependencies[i]) {
            let ghost before = path_views(out@);
            let ghost more = sidecars_of(cache_subdir@, input_dir@, dependencies@[i as int]@);
            let mut k: usize = 0;
            assert(before + more.take(0) =~= before);
            while k < SIDECAR_COUNT
                invariant
                    k <= SIDECAR_COUNT,
                    i < dependencies@.len(),
                    more == sidecars_of(cache_subdir@, input_dir@, dependencies@[i as int]@),
                    path_views(out@) == before + more.take(k as int),
                decreases SIDECAR_COUNT - k,
            {
                push_path(
                    &mut out,
                    dependency_sidecar_path(
                        cache_subdir,
                        input_dir,
                        &dependencies[i],
                        sidecar_extension_at(k),
                    ),
                );
                k += 1;
                assert(before + more.take(k as int) =~= (before + more.take(k - 1)).push(
                    more[k - 1],
                ));
            }
            assert(more.take(k as int) =~= more);
        }
        i += 1;
    }
    assert(all.take(i as int) =~= all);
    out
}

// ---------------------------------------------------------------------------
// Removing files
// ---------------------------------------------------------------------------

/// What came of an attempt to remove a file.
#[derive(Clone, Copy, Debug, PartialEq, Eq, Structural)]
pub enum RemoveOutcome {
    Removed,
    NotFound,
    /// Another program holds the file; that may pass.
    Locked,
    Failed,
}

/// What to do after an attempt to remove a file.
#[derive(Clone, Copy, Debug, PartialEq, Eq, Structural)]
pub enum RemoveStep {
    Done,
    /// Try again after so many milliseconds.
    Retry(u64),
    Fail,
}

/// How long to wait after an attempt, in milliseconds.
pub open spec fn retry_delay(attempt: int) -> int {
    if attempt == 0 {
        25
    } else if attempt == 1 {
        50
    } else if attempt == 2 {
        75
    } else if attempt == 3 {
        100
    } else if attempt == 4 {
        150
    } else if attempt == 5 {
        200
    } else if attempt == 6 {
        300
    } else {
        500
    }
}

/// How often a file that is locked is tried again.
pub const REMOVE_RETRIES: usize = 8;

/// What to do after attempt number `attempt` to remove a file. A file that is not there counts as
/// removed.
pub open spec fn after_removal(attempt: usize, outcome: RemoveOutcome) -> RemoveStep {
    match outcome {
        RemoveOutcome::Removed => RemoveStep::Done,
        RemoveOutcome::NotFound => RemoveStep::Done,
        RemoveOutcome::Locked => if attempt < REMOVE_RETRIES {
            RemoveStep::Retry(retry_delay(attempt as int) as u64)
        } else {
            RemoveStep::Fail
        },
        RemoveOutcome::Failed => RemoveStep::Fail,
    }
}

/// What to do after attempt number `attempt` to remove a file. A file that is not there counts as
/// removed.
pub fn remove_step(attempt: usize, outcome: RemoveOutcome) -> (r: RemoveStep)
    ensures
        r == after_removal(attempt, outcome),
{
    match outcome {
        RemoveOutcome::Removed => RemoveStep::Done,
        RemoveOutcome::NotFound => RemoveStep::Done,
        RemoveOutcome::Failed => RemoveStep::Fail,
        RemoveOutcome::Locked => {
            if attempt >= REMOVE_RETRIES {
                RemoveStep::Fail
            } else if attempt == 0 {
                RemoveStep::Retry(25)
            } else if attempt == 1 {
                RemoveStep::Retry(50)
            } else if attempt == 2 {
                RemoveStep::Retry(75)
            } else if attempt == 3 {
                RemoveStep::Retry(100)
            } else if attempt == 4 {
                RemoveStep::Retry(150)
            } else if attempt == 5 {
                RemoveStep::Retry(200)
            } else if attempt == 6 {
                RemoveStep::Retry(300)
            } else {
                RemoveStep::Retry(500)
            }
        },
    }
}

/// Whether a failure to remove a file may pass: the file is in use, or access to it is denied.
pub open spec fn lock_may_pass(raw_os_error: Option<i32>, permission_denied: bool) -> bool {
    raw_os_error == Some(32i32) || permission_denied
}

/// Whether a failure to remove a file may pass: the file is in use, or access to it is denied.
pub fn is_transient_file_lock(raw_os_error: Option<i32>, permission_denied: bool) -> (r: bool)
    ensures
        r == lock_may_pass(raw_os_error, permission_denied),
{
    match raw_os_error {
        Some(code) => code == 32 || permission_denied,
        None => permission_denied,
    }
}

// ---------------------------------------------------------------------------
// Dependencies that a job recorded
// ---------------------------------------------------------------------------

/// The paths that a manifest lists.
pub open spec fn manifest_paths(all: Seq<Seq<char>>, style: PathStyle) -> Seq<PathView>
    decreases all.len(),
{
    if all.len() == 0 {
        Seq::empty()
    } else {
        let front = manifest_paths(all.drop_last(), style);
        if trim(all.last()).len() > 0 {
            front.push(parsed(style, trim(all.last())))
        } else {
            front
        }
    }
}

/// The paths that a manifest lists, sorted, and each of them once.
pub fn parse_dependency_manifest(content: &str, style: PathStyle) -> (r: Vec<FilePath>)
    ensures
        is_sorted_set(path_views(r@), manifest_paths(lines(content@), style)),
{
    let chars = chars_of(content);
    let all = lines_of(&chars);
    let ghost lines = views(all@);
    let mut out: Vec<FilePath> = Vec::new();
    let mut i: usize = 0;
    assert(lines.take(0) =~= Seq::<Seq<char>>::empty());
    assert(path_views(out@) =~= Seq::<PathView>::empty());
    while i < all.len()
        invariant
            i <= all.len(),
            lines == views(all@),
            path_views(out@) == manifest_paths(lines.take(i as int), style),
        decreases all.len() - i,
    {
        assert(lines.take(i + 1).drop_last() =~= lines.take(i as int));
        assert(lines.take(i + 1).last() == all@[i as int]@);
        let line = trimmed(&all[i]);
        if line.len() > 0 {
            let text = string_of(&line);
            push_path(&mut out, FilePath::parse_as(text.as_str(), style));
        }
        i += 1;
    }
    assert(lines.take(i as int) =~= lines);
    sorted_set(&out)
}

/// The text of a manifest that lists paths: one on each line.
pub open spec fn manifest_text(paths: Seq<PathView>) -> Seq<char> {
    join(paths.map_values(|p: PathView| p.text), "\n"@)
}

/// The text of a manifest that lists `dependencies`.
pub fn render_dependency_manifest(dependencies: &[FilePath]) -> (r: String)
    ensures
        r@ == manifest_text(path_views(dependencies@)),
{
    let ghost all = path_views(dependencies@).map_values(|p: PathView| p.text);
    let mut parts: Vec<String> = Vec::new();
    let mut i: usize = 0;
    assert(texts(parts@) =~= all.take(0));
    while i < dependencies.len()
        invariant
            i <= dependencies.len(),
            all == path_views(dependencies@).map_values(|p: PathView| p.text),
            texts(parts@) == all.take(i as int),
        decreases dependencies.len() - i,
    {
        push_text(&mut parts, owned(dependencies[i].text.as_str()));
        i += 1;
        assert(all.take(i as int) =~= all.take(i - 1).push(all[i - 1]));
    }
    assert(all.take(i as int) =~= all);
    join_texts(&parts, "\n")
}

/// Whether a path can stand in a manifest: it is what its text stands for, which has no line ends,
/// and no white space at its ends.
pub open spec fn listable(path: PathView, style: PathStyle) -> bool {
    let text = path.text;
    &&& path == parsed(style, text)
    &&& text.len() > 0
    &&& !text.contains('\n')
    &&& !whitespace(text[0])
    &&& !whitespace(text.last())
}

spec fn ended(all: Seq<Seq<char>>) -> Seq<Seq<char>> {
    all.map_values(|t: Seq<char>| t.push('\n'))
}

proof fn lemma_join_is_concat(all: Seq<Seq<char>>)
    requires
        all.len() > 0,
    ensures
        join(all, "\n"@).push('\n') == concat(ended(all)),
    decreases all.len(),
{
    reveal_strlit("\n");
    let front = all.drop_last();
    assert(ended(all).drop_last() =~= ended(front));
    assert(ended(all).last() == all.last().push('\n'));
    if all.len() == 1 {
        assert(ended(front) =~= Seq::<Seq<char>>::empty());
        assert(concat(ended(front)) =~= Seq::<char>::empty());
        assert(join(all, "\n"@).push('\n') =~= concat(ended(all)));
    } else {
        lemma_join_is_concat(front);
        assert(join(all, "\n"@).push('\n') =~= join(front, "\n"@).push('\n') + all.last().push(
            '\n',
        ));
    }
}

/// Texts without line ends, on a line each, are the lines.
proof fn lemma_lines_of_join(all: Seq<Seq<char>>)
    requires
        forall|i: int|
            0 <= i < all.len() ==> (#[trigger] all[i]).len() > 0 && !all[i].contains('\n')
                && !whitespace(all[i].last()),
    ensures
        lines(join(all, "\n"@)) == all,
{
    reveal_strlit("\n");
    if all.len() == 0 {
        assert(lines(join(all, "\n"@)) =~= all);
    } else {
        let front = all.drop_last();
        let last = all[all.len() - 1];
        let parts = ended(front).push(last);
        if front.len() > 0 {
            lemma_join_is_concat(front);
            assert(join(front, "\n"@) + "\n"@ =~= join(front, "\n"@).push('\n'));
        } else {
            assert(ended(front) =~= Seq::<Seq<char>>::empty());
            assert(concat(ended(front)) =~= Seq::<char>::empty());
        }
        assert(parts.drop_last() =~= ended(front));
        assert(concat(parts) =~= join(all, "\n"@));
        assert forall|i: int| 0 <= i < parts.len() - 1 implies (#[trigger] parts[i]) == all[i].push(
            '\n',
        ) by {}
        assert forall|i: int, j: int|
            0 <= i < parts.len() && 0 <= j < parts[i].len() - 1 implies #[trigger] parts[i][j]
            != '\n' by {
            assert(all[i].len() > 0);
            assert(parts[i][j] == all[i][j]);
            assert(all[i].contains(all[i][j]));
        }
        law_chunks_of_concat(parts);
        assert forall|i: int| 0 <= i < all.len() implies line_body(#[trigger] parts[i]) == all[i] by {
            assert(all[i].len() > 0);
            assert(all[i].contains(all[i].last()));
            if i < all.len() - 1 {
                assert(parts[i].drop_last() =~= all[i]);
            }
        }
        assert(lines(join(all, "\n"@)) =~= all);
    }
}

proof fn lemma_manifest_paths(paths: Seq<PathView>, style: PathStyle)
    requires
        forall|i: int| 0 <= i < paths.len() ==> listable(#[trigger] paths[i], style),
    ensures
        manifest_paths(paths.map_values(|p: PathView| p.text), style) == paths,
    decreases paths.len(),
{
    let all = paths.map_values(|p: PathView| p.text);
    if paths.len() == 0 {
        assert(manifest_paths(all, style) =~= paths);
    } else {
        let front = paths.drop_last();
        assert forall|i: int| 0 <= i < front.len() implies listable(#[trigger] front[i], style) by {
            assert(front[i] == paths[i]);
        }
        lemma_manifest_paths(front, style);
        assert(all.drop_last() =~= front.map_values(|p: PathView| p.text));
        let last = paths[paths.len() - 1];
        assert(listable(last, style));
        assert(all.last() == last.text);
        lemma_trim_noop(last.text);
        assert(manifest_paths(all, style) =~= paths);
    }
}

/// A manifest that is written and read again lists the same paths. `read` is what is read, and
/// where the paths were sorted it is the very list that was written.
pub proof fn law_manifest_round_trip(
    paths: Seq<PathView>,
    read: Seq<PathView>,
    style: PathStyle,
)
    requires
        forall|i: int| 0 <= i < paths.len() ==> listable(#[trigger] paths[i], style),
        is_sorted_set(read, manifest_paths(lines(manifest_text(paths)), style)),
    ensures
        is_sorted_set(read, paths),
        is_sorted_set(paths, paths) ==> read == paths,
{
    let all = paths.map_values(|p: PathView| p.text);
    assert forall|i: int| 0 <= i < all.len() implies (#[trigger] all[i]).len() > 0
        && !all[i].contains('\n') && !whitespace(all[i].last()) by {
        assert(listable(paths[i], style));
    }
    lemma_lines_of_join(all);
    lemma_manifest_paths(paths, style);
    if is_sorted_set(paths, paths) {
        law_sorted_sets_are_unique(read, paths, paths);
    }
}

/// Whether a file that a job read is a dependency: it exists, is not in the cache, and was not
/// generated.
pub open spec fn counts_as_dependency(path: PathView, is_file: bool, cache_subdir: PathView) -> bool {
    is_file && !inside(path, cache_subdir) && match file_name(path) {
        Some(name) => !generated_name(name),
        None => false,
    }
}

/// Whether a file that a job read is a dependency.
pub fn should_track_runtime_dependency(
    path: &FilePath,
    is_file: bool,
    cache_subdir: &FilePath,
) -> (r: bool)
    ensures
        r == counts_as_dependency(path@, is_file, cache_subdir@),
{
    if !is_file || path.is_inside(cache_subdir) {
        return false;
    }
    match path.file_name() {
        Some(name) => !is_generated_name(name),
        None => false,
    }
}

/// The paths that the record of a job says were read.
pub open spec fn recorded_inputs(all: Seq<Seq<char>>, style: PathStyle) -> Seq<PathView>
    decreases all.len(),
{
    if all.len() == 0 {
        Seq::empty()
    } else {
        let front = recorded_inputs(all.drop_last(), style);
        if starts_with(all.last(), "INPUT "@) {
            front.push(parsed(style, trim(all.last().skip("INPUT "@.len() as int))))
        } else {
            front
        }
    }
}

/// The paths that the record of a job says were read.
pub fn fls_inputs(content: &str, style: PathStyle) -> (r: Vec<FilePath>)
    ensures
        path_views(r@) == recorded_inputs(lines(content@), style),
{
    let chars = chars_of(content);
    let all = lines_of(&chars);
    let ghost lines = views(all@);
    let mut out: Vec<FilePath> = Vec::new();
    let mut i: usize = 0;
    assert(lines.take(0) =~= Seq::<Seq<char>>::empty());
    assert(path_views(out@) =~= Seq::<PathView>::empty());
    while i < all.len()
        invariant
            i <= all.len(),
            lines == views(all@),
            path_views(out@) == recorded_inputs(lines.take(i as int), style),
        decreases all.len() - i,
    {
        assert(lines.take(i + 1).drop_last() =~= lines.take(i as int));
        assert(lines.take(i + 1).last() == all@[i as int]@);
        let line = &all[i];
        if let Some(n) = prefix_len(line, "INPUT ") {
            let rest = &line[n..line.len()];
            assert(rest@ =~= line@.skip("INPUT "@.len() as int));
            let text = string_of(&trimmed(rest));
            push_path(&mut out, FilePath::parse_as(text.as_str(), style));
        }
        i += 1;
    }
    assert(lines.take(i as int) =~= lines);
    out
}

/// The dependencies among files that were read, where it is known which of them exist.
pub open spec fn tracked_among(
    paths: Seq<PathView>,
    existing: Seq<PathView>,
    cache_subdir: PathView,
) -> Seq<PathView> {
    paths.filter(|p: PathView| counts_as_dependency(p, has_same(existing, p), cache_subdir))
}

/// The dependencies that the record of a job names, sorted, and each of them once. `existing` are
/// the files that exist.
pub fn parse_fls_dependencies(content: &str, existing: &[FilePath], cache_subdir: &FilePath) -> (r:
    Vec<FilePath>)
    ensures
        is_sorted_set(
            path_views(r@),
            tracked_among(
                recorded_inputs(lines(content@), cache_subdir@.style),
                path_views(existing@),
                cache_subdir@,
            ),
        ),
{
    let inputs = fls_inputs(content, cache_subdir.style);
    let ghost all = path_views(inputs@);
    let ghost keep = |p: PathView|
        counts_as_dependency(p, has_same(path_views(existing@), p), cache_subdir@);
    let mut out: Vec<FilePath> = Vec::new();
    let mut i: usize = 0;
    assert(all.take(0) =~= Seq::<PathView>::empty());
    assert(all.take(0).filter(keep) =~= Seq::<PathView>::empty()) by {
        reveal(Seq::filter);
    }
    assert(path_views(out@) =~= Seq::<PathView>::empty());
    while i < inputs.len()
        invariant
            i <= inputs.len(),
            all == path_views(inputs@),
            keep == (|p: PathView|
                counts_as_dependency(p, has_same(path_views(existing@), p), cache_subdir@)),
            path_views(out@) == all.take(i as int).filter(keep),
        decreases inputs.len() - i,
    {
        let path = &inputs[i];
        assert(all.take(i + 1).drop_last() =~= all.take(i as int));
        assert(all.take(i + 1).last() == path@);
        assert(all.take(i + 1).filter(keep) == if keep(path@) {
            all.take(i as int).filter(keep).push(path@)
        } else {
            all.take(i as int).filter(keep)
        }) by {
            reveal(Seq::filter);
        }
        let is_file = has_path(existing, path);
        if should_track_runtime_dependency(path, is_file, cache_subdir) {
            push_path(&mut out, path.copy());
        }
        i += 1;
    }
    assert(all.take(i as int) =~= all);
    assert(all.filter(keep) == tracked_among(
        recorded_inputs(lines(content@), cache_subdir@.style),
        path_views(existing@),
        cache_subdir@,
    ));
    sorted_set(&out)
}

/// The dependencies of a document: those that its last job recorded, else those that its source
/// names.
pub fn dependencies_for_document(manifest: Option<&str>, document: &GeneratedDocument) -> (r: Vec<
    FilePath,
>)
    ensures
        match manifest {
            Some(content) => is_sorted_set(
                path_views(r@),
                manifest_paths(lines(content@), document.sync_map.source_file.style),
            ),
            None => path_views(r@) == document@.dependencies,
        },
{
    match manifest {
        Some(content) => parse_dependency_manifest(content, document.sync_map.source_file.style),
        None => copied_paths(&document.dependencies),
    }
}

// ---------------------------------------------------------------------------
// Freshness
// ---------------------------------------------------------------------------

/// What is wrong with a PDF.
#[derive(Clone, Copy, Debug, PartialEq, Eq, Structural)]
pub enum PdfDefect {
    HeaderMissing,
    TrailerMissing,
}

impl PdfDefect {
    /// The defect in words.
    pub fn message(self) -> (r: &'static str)
        ensures
            r@ == match self {
                PdfDefect::HeaderMissing => "PDF header is missing"@,
                PdfDefect::TrailerMissing => "PDF trailer is missing"@,
            },
    {
        match self {
            PdfDefect::HeaderMissing => "PDF header is missing",
            PdfDefect::TrailerMissing => "PDF trailer is missing",
        }
    }
}

/// The bytes `%PDF-`.
pub open spec fn pdf_header() -> Seq<u8> {
    seq![37u8, 80u8, 68u8, 70u8, 45u8]
}

/// The bytes `%%EOF`.
pub open spec fn pdf_trailer() -> Seq<u8> {
    seq![37u8, 37u8, 69u8, 79u8, 70u8]
}

/// Whether bytes start with a PDF header.
pub open spec fn has_header(bytes: Seq<u8>) -> bool {
    bytes.len() >= 5 && bytes.take(5) == pdf_header()
}

/// Whether a trailer starts at position `i`.
pub open spec fn trailer_at(bytes: Seq<u8>, i: int) -> bool {
    0 <= i && i + 5 <= bytes.len() && bytes.subrange(i, i + 5) == pdf_trailer()
}

/// Whether bytes hold a trailer among their last ones.
pub open spec fn has_trailer(bytes: Seq<u8>) -> bool {
    exists|i: int| bytes.len() - 2048 <= i && #[trigger] trailer_at(bytes, i)
}

/// What is wrong with the bytes of a PDF: where it was not written to its end, its header or its
/// trailer is missing.
pub open spec fn pdf_verdict(content: Seq<u8>) -> Result<(), PdfDefect> {
    if !has_header(content) {
        Err(PdfDefect::HeaderMissing)
    } else if !has_trailer(content) {
        Err(PdfDefect::TrailerMissing)
    } else {
        Ok(())
    }
}

/// What is wrong with the bytes of a PDF: where it was not written to its end, its header or its
/// trailer is missing.
pub fn validate_compiled_pdf(content: &[u8]) -> (r: Result<(), PdfDefect>)
    ensures
        r == pdf_verdict(content@),
{
    let n = content.len();
    if n < 5 || content[0] != 37 || content[1] != 80 || content[2] != 68 || content[3] != 70
        || content[4] != 45 {
        proof {
            if has_header(content@) {
                let head = content@.take(5);
                assert(head[0] == content@[0] && head[1] == content@[1] && head[2] == content@[2]
                    && head[3] == content@[3] && head[4] == content@[4]);
            }
        }
        return Err(PdfDefect::HeaderMissing);
    }
    assert(content@.take(5) =~= pdf_header());
    let start: usize = if n < 2048 {
        0
    } else {
        n - 2048
    };
    let mut i: usize = start;
    while n - i >= 5
        invariant
            n == content@.len(),
            5 <= n,
            start <= i <= n,
            start == if n < 2048 {
                0
            } else {
                n - 2048
            },
            has_header(content@),
            forall|j: int| start <= j < i ==> !#[trigger] trailer_at(content@, j),
        decreases n - i,
    {
        if content[i] == 37 && content[i + 1] == 37 && content[i + 2] == 69 && content[i + 3] == 79
            && content[i + 4] == 70 {
            assert(content@.subrange(i as int, i + 5) =~= pdf_trailer());
            assert(trailer_at(content@, i as int));
            return Ok(());
        }
        proof {
            if trailer_at(content@, i as int) {
                let part = content@.subrange(i as int, i + 5);
                assert(part[0] == content@[i as int] && part[1] == content@[i + 1] && part[2]
                    == content@[i + 2] && part[3] == content@[i + 3] && part[4] == content@[i + 4]);
            }
        }
        i += 1;
    }
    Err(PdfDefect::TrailerMissing)
}

/// Whether a PDF is as new as what it depends on: it is whole, and nothing that it depends on is
/// missing or was changed later.
pub open spec fn fresh(
    pdf: Option<Seq<u8>>,
    modified: Option<u128>,
    dependencies: Seq<Option<u128>>,
) -> bool {
    &&& pdf is Some && has_header(pdf->0) && has_trailer(pdf->0)
    &&& modified is Some
    &&& forall|i: int|
        0 <= i < dependencies.len() ==> (#[trigger] dependencies[i]) is Some && dependencies[i]->0
            <= modified->0
}

/// Whether a PDF is as new as what it depends on. `pdf` are its bytes, where it can be read, and
/// the times say when a file was changed, where that is known.
pub fn compiled_output_is_fresh(
    pdf: Option<&[u8]>,
    modified: Option<u128>,
    dependencies: &[Option<u128>],
) -> (r: bool)
    ensures
        r == fresh(
            match pdf {
                Some(bytes) => Some(bytes@),
                None => None,
            },
            modified,
            dependencies@,
        ),
{
    match pdf {
        None => {
            return false;
        },
        Some(bytes) => {
            if validate_compiled_pdf(bytes).is_err() {
                return false;
            }
        },
    }
    let built = match modified {
        Some(time) => time,
        None => {
            return false;
        },
    };
    let mut i: usize = 0;
    while i < dependencies.len()
        invariant
            i <= dependencies.len(),
            modified == Some(built),
            forall|j: int|
                0 <= j < i ==> (#[trigger] dependencies@[j]) is Some && dependencies@[j]->0
                    <= built,
        decreases dependencies.len() - i,
    {
        let dependency = dependencies[i];
        assert(dependencies@[i as int] == dependency);
        match dependency {
            Some(time) => {
                if time > built {
                    return false;
                }
            },
            None => {
                return false;
            },
        }
        i += 1;
    }
    true
}

/// A PDF that was written later is no less fresh.
pub proof fn law_later_builds_stay_fresh(
    pdf: Option<Seq<u8>>,
    modified: u128,
    later: u128,
    dependencies: Seq<Option<u128>>,
)
    requires
        fresh(pdf, Some(modified), dependencies),
        modified <= later,
    ensures
        fresh(pdf, Some(later), dependencies),
{
}

/// A dependency that is missing, or that was changed later than the PDF, makes the PDF stale,
/// whatever else it depends on and in whichever place the dependency is listed.
pub proof fn law_any_newer_dependency_makes_stale(
    pdf: Option<Seq<u8>>,
    modified: u128,
    dependencies: Seq<Option<u128>>,
    i: int,
)
    requires
        0 <= i < dependencies.len(),
        dependencies[i] is None || dependencies[i]->0 > modified,
    ensures
        !fresh(pdf, Some(modified), dependencies),
{
}

/// A PDF is fresh with regard to two lists of dependencies together where it is so with regard to
/// each of them. On a single dependency the time decides, and without one whether the PDF is whole.
pub proof fn law_each_dependency_decides_alone(
    pdf: Option<Seq<u8>>,
    modified: u128,
    a: Seq<Option<u128>>,
    b: Seq<Option<u128>>,
    time: u128,
)
    ensures
        fresh(pdf, Some(modified), a + b) == (fresh(pdf, Some(modified), a) && fresh(
            pdf,
            Some(modified),
            b,
        )),
        fresh(pdf, Some(modified), seq![Some(time)]) == (time <= modified && fresh(
            pdf,
            Some(modified),
            Seq::empty(),
        )),
        !fresh(pdf, Some(modified), seq![None]),
        !fresh(pdf, None, a),
        !fresh(None, Some(modified), a),
{
    let all = a + b;
    if fresh(pdf, Some(modified), all) {
        assert forall|i: int| 0 <= i < a.len() implies (#[trigger] a[i]) is Some && a[i]->0
            <= modified by {
            assert(all[i] == a[i]);
        }
        assert forall|i: int| 0 <= i < b.len() implies (#[trigger] b[i]) is Some && b[i]->0
            <= modified by {
            assert(all[a.len() + i] == b[i]);
        }
    }
    if fresh(pdf, Some(modified), a) && fresh(pdf, Some(modified), b) {
        assert forall|i: int| 0 <= i < all.len() implies (#[trigger] all[i]) is Some && all[i]->0
            <= modified by {
            if i < a.len() {
                assert(all[i] == a[i]);
            } else {
                assert(all[i] == b[i - a.len()]);
            }
        }
    }
    let one: Seq<Option<u128>> = seq![Some(time)];
    assert(one[0] == Some(time));
    let none: Seq<Option<u128>> = seq![None];
    assert(none[0] is None);
}

/// The order of the dependencies, and how often one is listed, does not matter.
pub proof fn law_order_of_dependencies_does_not_matter(
    pdf: Option<Seq<u8>>,
    modified: Option<u128>,
    a: Seq<Option<u128>>,
    b: Seq<Option<u128>>,
)
    requires
        forall|time: Option<u128>| #[trigger] a.contains(time) == b.contains(time),
    ensures
        fresh(pdf, modified, a) == fresh(pdf, modified, b),
{
    if fresh(pdf, modified, a) {
        assert forall|i: int| 0 <= i < b.len() implies (#[trigger] b[i]) is Some && b[i]->0
            <= modified->0 by {
            assert(b.contains(b[i]));
            assert(a.contains(b[i]));
        }
    }
    if fresh(pdf, modified, b) {
        assert forall|i: int| 0 <= i < a.len() implies (#[trigger] a[i]) is Some && a[i]->0
            <= modified->0 by {
            assert(a.contains(a[i]));
        }
    }
}

/// What a PDF is tested for: it starts with `%PDF-`, and `%%EOF` stands among its last 2048 bytes.
/// A PDF that starts so and has the mark near its end is fresh where nothing is newer, whatever
/// else it holds, and one that starts otherwise or was cut off before the mark is not.
pub proof fn law_whole_pdfs_are_told_by_their_ends(
    bytes: Seq<u8>,
    modified: u128,
    at: int,
)
    ensures
        bytes.len() >= 5 && bytes[0] == 0x25 && bytes[1] == 0x50 && bytes[2] == 0x44 && bytes[3]
            == 0x46 && bytes[4] == 0x2d && 0 <= at && bytes.len() - 2048 <= at && at + 5
            <= bytes.len() && bytes[at] == 0x25 && bytes[at + 1] == 0x25 && bytes[at + 2] == 0x45
            && bytes[at + 3] == 0x4f && bytes[at + 4] == 0x46 ==> fresh(
            Some(bytes),
            Some(modified),
            Seq::empty(),
        ),
        fresh(Some(bytes), Some(modified), Seq::empty()) ==> bytes.len() >= 5 && bytes[0] == 0x25
            && bytes[1] == 0x50 && bytes[2] == 0x44 && bytes[3] == 0x46 && bytes[4] == 0x2d
            && exists|k: int|
            0 <= k && bytes.len() - 2048 <= k && k + 5 <= bytes.len() && #[trigger] bytes[k] == 0x25
                && bytes[k + 1] == 0x25 && bytes[k + 2] == 0x45 && bytes[k + 3] == 0x4f && bytes[k
                + 4] == 0x46,
{
    if bytes.len() >= 5 {
        let head = bytes.take(5);
        assert(head[0] == bytes[0] && head[1] == bytes[1] && head[2] == bytes[2] && head[3]
            == bytes[3] && head[4] == bytes[4]);
        if bytes[0] == 0x25 && bytes[1] == 0x50 && bytes[2] == 0x44 && bytes[3] == 0x46 && bytes[4]
            == 0x2d {
            assert(head =~= pdf_header());
        }
    }
    if 0 <= at && at + 5 <= bytes.len() && bytes[at] == 0x25 && bytes[at + 1] == 0x25 && bytes[at
        + 2] == 0x45 && bytes[at + 3] == 0x4f && bytes[at + 4] == 0x46 {
        assert(bytes.subrange(at, at + 5) =~= pdf_trailer());
        assert(trailer_at(bytes, at));
    }
    if has_trailer(bytes) {
        let k = choose|k: int| bytes.len() - 2048 <= k && #[trigger] trailer_at(bytes, k);
        let part = bytes.subrange(k, k + 5);
        assert(part[0] == bytes[k] && part[1] == bytes[k + 1] && part[2] == bytes[k + 2] && part[3]
            == bytes[k + 3] && part[4] == bytes[k + 4]);
    }
}

// ---------------------------------------------------------------------------
// What jobs leave and depend on
// ---------------------------------------------------------------------------

/// What a job leaves besides its PDF: the files of LaTeX, of its bibliography programs and of
/// Beamer, each next to the PDF under the name of the job.
pub proof fn law_all_sidecars_are_known(cache_subdir: PathView, name: Seq<char>)
    ensures
        ({
            let all = frame_sidecars(cache_subdir, name);
            &&& all.contains(job_file(cache_subdir, name, "aux"@))
            &&& all.contains(job_file(cache_subdir, name, "bcf"@))
            &&& all.contains(job_file(cache_subdir, name, "bbl"@))
            &&& all.contains(job_file(cache_subdir, name, "blg"@))
            &&& all.contains(job_file(cache_subdir, name, "fls"@))
            &&& all.contains(job_file(cache_subdir, name, "log"@))
            &&& all.contains(job_file(cache_subdir, name, "nav"@))
            &&& all.contains(job_file(cache_subdir, name, "out"@))
            &&& all.contains(job_file(cache_subdir, name, "run.xml"@))
            &&& all.contains(job_file(cache_subdir, name, "snm"@))
            &&& all.contains(job_file(cache_subdir, name, "synctex.gz"@))
            &&& all.contains(job_file(cache_subdir, name, "toc"@))
            &&& all.contains(job_file(cache_subdir, name, "vrb"@))
            &&& all.len() == 13
        }),
{
    let all = frame_sidecars(cache_subdir, name);
    assert(all[0] == job_file(cache_subdir, name, "aux"@));
    assert(all[1] == job_file(cache_subdir, name, "bcf"@));
    assert(all[2] == job_file(cache_subdir, name, "bbl"@));
    assert(all[3] == job_file(cache_subdir, name, "blg"@));
    assert(all[4] == job_file(cache_subdir, name, "fls"@));
    assert(all[5] == job_file(cache_subdir, name, "log"@));
    assert(all[6] == job_file(cache_subdir, name, "nav"@));
    assert(all[7] == job_file(cache_subdir, name, "out"@));
    assert(all[8] == job_file(cache_subdir, name, "run.xml"@));
    assert(all[9] == job_file(cache_subdir, name, "snm"@));
    assert(all[10] == job_file(cache_subdir, name, "synctex.gz"@));
    assert(all[11] == job_file(cache_subdir, name, "toc"@));
    assert(all[12] == job_file(cache_subdir, name, "vrb"@));
}

/// Every source that was put in leaves files of its own, and nothing else does: a further source
/// adds its files to those of the others, and a further file of another kind adds none.
pub proof fn law_sidecars_of_sources_add_up(
    cache_subdir: PathView,
    input_dir: PathView,
    dependencies: Seq<PathView>,
    more: PathView,
    i: int,
)
    ensures
        ({
            let front = dependency_sidecars(cache_subdir, input_dir, dependencies);
            let all = dependency_sidecars(cache_subdir, input_dir, dependencies.push(more));
            &&& dependency_sidecars(cache_subdir, input_dir, Seq::empty()).len() == 0
            &&& !is_tex(more) ==> all == front
            &&& is_tex(more) ==> all.len() == front.len() + 13 && all.take(front.len() as int)
                == front
            &&& is_tex(more) && 0 <= i < 13 ==> all[front.len() + i] == with_extension(
                joined(cache_subdir, cache_side(input_dir, more)),
                sidecar_extension(i),
            )
        }),
{
    let front = dependency_sidecars(cache_subdir, input_dir, dependencies);
    let all = dependency_sidecars(cache_subdir, input_dir, dependencies.push(more));
    assert(dependencies.push(more).drop_last() =~= dependencies);
    if is_tex(more) {
        assert(all.take(front.len() as int) =~= front);
    }
}

/// Names of generated files start with one of three prefixes, and every name that does is one.
pub proof fn law_generated_names_have_a_prefix(name: Seq<char>, rest: Seq<char>)
    ensures
        generated_name("faster-beamer-temp-"@ + rest),
        generated_name("faster-beamer-preamble-"@ + rest),
        generated_name("faster-beamer-united-"@ + rest),
        generated_name(name) ==> starts_with(name, "faster-beamer-temp-"@) || starts_with(
            name,
            "faster-beamer-preamble-"@,
        ) || starts_with(name, "faster-beamer-united-"@),
{
    let a = "faster-beamer-temp-"@;
    let b = "faster-beamer-preamble-"@;
    let c = "faster-beamer-united-"@;
    assert((a + rest).subrange(0, a.len() as int) =~= a);
    assert((b + rest).subrange(0, b.len() as int) =~= b);
    assert((c + rest).subrange(0, c.len() as int) =~= c);
}

/// A file that a job read is a dependency exactly where it is there, is not in the cache, and was not
/// generated.
pub proof fn law_only_foreign_files_are_dependencies(
    path: PathView,
    is_file: bool,
    cache_subdir: PathView,
)
    ensures
        counts_as_dependency(path, false, cache_subdir) == false,
        inside(path, cache_subdir) ==> !counts_as_dependency(path, is_file, cache_subdir),
        file_name(path) is Some && generated_name(file_name(path)->0) ==> !counts_as_dependency(
            path,
            is_file,
            cache_subdir,
        ),
        !inside(path, cache_subdir) && file_name(path) is Some && !generated_name(
            file_name(path)->0,
        ) ==> counts_as_dependency(path, true, cache_subdir),
{
}

/// The record of a job names the files that were read on lines of their own, and other lines of it
/// name none. What is recorded is kept in its order.
pub proof fn law_recorded_inputs_are_read(
    all: Seq<Seq<char>>,
    path: Seq<char>,
    other: Seq<char>,
    style: PathStyle,
)
    ensures
        recorded_inputs(Seq::empty(), style).len() == 0,
        recorded_inputs(all.push("INPUT "@ + path), style) == recorded_inputs(all, style).push(
            parsed(style, trim(path)),
        ),
        !starts_with(other, "INPUT "@) ==> recorded_inputs(all.push(other), style)
            == recorded_inputs(all, style),
{
    let line = "INPUT "@ + path;
    assert(all.push(line).drop_last() =~= all);
    assert(all.push(other).drop_last() =~= all);
    assert(line.subrange(0, "INPUT "@.len() as int) =~= "INPUT "@);
    assert(line.skip("INPUT "@.len() as int) =~= path);
}

/// Every file that a job read and that counts as a dependency is tracked, and no other one is.
pub proof fn law_dependencies_that_exist_are_tracked(
    paths: Seq<PathView>,
    existing: Seq<PathView>,
    cache_subdir: PathView,
    i: int,
)
    requires
        0 <= i < paths.len(),
    ensures
        counts_as_dependency(paths[i], has_same(existing, paths[i]), cache_subdir)
            ==> tracked_among(paths, existing, cache_subdir).contains(paths[i]),
        !counts_as_dependency(paths[i], has_same(existing, paths[i]), cache_subdir)
            ==> !tracked_among(paths, existing, cache_subdir).contains(paths[i]),
{
    let keep = |p: PathView| counts_as_dependency(p, has_same(existing, p), cache_subdir);
    broadcast use vstd::seq_lib::group_filter_ensures;

    assert(paths.contains(paths[i]));
    let found = paths.filter(keep);
    if keep(paths[i]) {
        assert(found.contains(paths[i]));
    } else if found.contains(paths[i]) {
        paths.lemma_filter_pred(keep, found.index_of(paths[i]));
    }
}

/// A manifest lists one path on each line that is not blank, without the space around it.
pub proof fn law_manifests_list_a_path_on_each_line(
    all: Seq<Seq<char>>,
    line: Seq<char>,
    style: PathStyle,
)
    ensures
        manifest_paths(Seq::empty(), style).len() == 0,
        trim(line).len() > 0 ==> manifest_paths(all.push(line), style) == manifest_paths(
            all,
            style,
        ).push(parsed(style, trim(line))),
        trim(line).len() == 0 ==> manifest_paths(all.push(line), style) == manifest_paths(
            all,
            style,
        ),
{
    assert(all.push(line).drop_last() =~= all);
}

/// A file that is gone counts as removed. One that is locked is tried again, eight times and each
/// time after a longer wait, and then given up. Any other failure is one at once.
pub proof fn law_locked_files_are_tried_again(attempt: usize)
    ensures
        after_removal(attempt, RemoveOutcome::Removed) == RemoveStep::Done,
        after_removal(attempt, RemoveOutcome::NotFound) == RemoveStep::Done,
        after_removal(attempt, RemoveOutcome::Failed) == RemoveStep::Fail,
        after_removal(attempt, RemoveOutcome::Locked) is Retry <==> attempt < 8,
        attempt >= 8 ==> after_removal(attempt, RemoveOutcome::Locked) == RemoveStep::Fail,
        after_removal(0, RemoveOutcome::Locked) == RemoveStep::Retry(25),
        after_removal(7, RemoveOutcome::Locked) == RemoveStep::Retry(500),
        attempt < 7 ==> after_removal(attempt, RemoveOutcome::Locked)->Retry_0 < after_removal(
            (attempt + 1) as usize,
            RemoveOutcome::Locked,
        )->Retry_0,
        lock_may_pass(Some(32i32), false),
        lock_may_pass(None, true),
        !lock_may_pass(None, false),
        !lock_may_pass(Some(5i32), false),
{
}

/// A PDF has no defect exactly where it can be used again as far as its bytes go. One that does not
/// start as a PDF is told so, however it ends, and one that ends too early is told so where it starts
/// as a PDF.
pub proof fn law_defects_of_pdfs_are_told(bytes: Seq<u8>, modified: u128)
    ensures
        pdf_verdict(bytes) is Ok <==> fresh(Some(bytes), Some(modified), Seq::empty()),
        bytes.len() < 5 || bytes[0] != 0x25 || bytes[1] != 0x50 || bytes[2] != 0x44 || bytes[3]
            != 0x46 || bytes[4] != 0x2d <==> pdf_verdict(bytes) == Err::<(), PdfDefect>(
            PdfDefect::HeaderMissing,
        ),
        pdf_verdict(bytes) is Err && bytes.len() >= 5 && bytes[0] == 0x25 && bytes[1] == 0x50
            && bytes[2] == 0x44 && bytes[3] == 0x46 && bytes[4] == 0x2d ==> pdf_verdict(bytes)
            == Err::<(), PdfDefect>(PdfDefect::TrailerMissing),
{
    if bytes.len() >= 5 {
        let head = bytes.take(5);
        assert(head[0] == bytes[0] && head[1] == bytes[1] && head[2] == bytes[2] && head[3]
            == bytes[3] && head[4] == bytes[4]);
        if bytes[0] == 0x25 && bytes[1] == 0x50 && bytes[2] == 0x44 && bytes[3] == 0x46 && bytes[4]
            == 0x2d {
            assert(head =~= pdf_header());
        }
    }
}

/// What a job leaves is in the directory of the cache, under the name of the generated source.
pub proof fn law_job_files_are_called_like_their_source(
    cache_subdir: PathView,
    base: Seq<char>,
    ext: Seq<char>,
)
    requires
        base.len() > 0,
        ext.len() > 0,
        crate::paths::plain_part(
            cache_subdir.style,
            crate::path_parts::PartView::Normal(base.push('.') + "tex"@),
        ),
    ensures
        job_file(cache_subdir, base.push('.') + "tex"@, ext).parts == cache_subdir.parts.push(
            crate::path_parts::PartView::Normal(base.push('.') + ext),
        ),
{
    reveal_strlit("tex");
    crate::paths::law_renamed_files_are_in_the_directory(cache_subdir, base, "tex"@, ext);
}

/// What is put in from below the directory of the input is kept in the cache as far below, and what
/// is put in from elsewhere is kept under its own name.
pub proof fn law_sources_keep_their_place_in_the_cache(
    input_dir: PathView,
    dependency: PathView,
    more: Seq<crate::path_parts::PartView>,
)
    ensures
        dependency.parts == input_dir.parts + more ==> cache_side(input_dir, dependency).parts
            == more,
        !inside(dependency, input_dir) && file_name(dependency) is Some ==> cache_side(
            input_dir,
            dependency,
        ).parts == seq![crate::path_parts::PartView::Normal(file_name(dependency)->0)],
{
    if dependency.parts == input_dir.parts + more {
        assert(dependency.parts.take(input_dir.parts.len() as int) =~= input_dir.parts);
        assert(dependency.parts.skip(input_dir.parts.len() as int) =~= more);
    }
}

}
