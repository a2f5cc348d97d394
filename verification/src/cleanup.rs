//! Removing what builds left behind.
use crate::artifacts::{generated_name, is_generated_name};
use crate::digest::{digest_form, is_hex_digest};
use crate::document::FasterBeamerError;
use crate::fs_utils::published_synctex;
use crate::path_parts::{PathComponent, PathStyle};
use crate::paths::{
    cache_path, cache_relative, inside, joined, optional_path, parent, parsed, path_views,
    same_path, with_extension, FilePath, PathView,
};
use crate::related::push_path;
use crate::search::{contains, ends_with, has_text, suffix_start};
use crate::text::{chars_of, is_text, optional_text, owned, string_of};
use vstd::prelude::*;

verus! {

// ---------------------------------------------------------------------------
// Files next to the source
// ---------------------------------------------------------------------------

/// A name without the suffix it ends with.
pub open spec fn without_suffix(name: Seq<char>, suffix: Seq<char>) -> Seq<char> {
    name.take(name.len() - suffix.len())
}

/// Whether a name is one that frame sources had before they had a prefix.
pub open spec fn legacy_frame_name(name: Seq<char>) -> bool {
    ends_with(name, ".tex"@) && digest_form(without_suffix(name, ".tex"@))
}

/// Whether a file is a frame source from before they had a prefix: its content has to look like
/// one, too.
pub open spec fn legacy_frame(name: Seq<char>, content: Option<Seq<char>>) -> bool {
    legacy_frame_name(name) && match content {
        Some(text) => contains(text, "\\addtocounter{framenumber}"@) && contains(
            text,
            "\\end{document}"@,
        ),
        None => false,
    }
}

/// Whether a name is one that frame sources had before they had a prefix.
pub fn is_legacy_frame_name(file_name: &str) -> (r: bool)
    ensures
        r == legacy_frame_name(file_name@),
{
    let chars = chars_of(file_name);
    match suffix_start(&chars, ".tex") {
        Some(n) => {
            let head = &chars[0..n];
            assert(head@ =~= without_suffix(file_name@, ".tex"@));
            let stem = string_of(head);
            is_hex_digest(stem.as_str())
        },
        None => false,
    }
}

/// Whether a file is a frame source from before they had a prefix. `content` is what it holds,
/// where it can be read.
pub fn is_legacy_frame_temp_file(file_name: &str, content: Option<&str>) -> (r: bool)
    ensures
        r == legacy_frame(file_name@, optional_text(content)),
{
    if !is_legacy_frame_name(file_name) {
        return false;
    }
    match content {
        Some(text) => {
            let chars = chars_of(text);
            has_text(&chars, "\\addtocounter{framenumber}") && has_text(&chars, "\\end{document}")
        },
        None => false,
    }
}

/// The position of the last underscore among the first `to` characters, or -1.
pub open spec fn last_underscore(s: Seq<char>, to: int) -> int
    decreases to,
{
    if to <= 0 || to > s.len() {
        -1
    } else if s[to - 1] == '_' {
        to - 1
    } else {
        last_underscore(s, to - 1)
    }
}

/// Whether a text is a digest and, behind an underscore, a truth value.
pub open spec fn flagged_digest(stem: Seq<char>) -> bool {
    let at = last_underscore(stem, stem.len() as int);
    &&& at >= 0
    &&& stem.skip(at + 1) == "true"@ || stem.skip(at + 1) == "false"@
    &&& digest_form(stem.take(at))
}

/// Whether a name is one that dumped preambles had before they had a prefix.
pub open spec fn legacy_preamble(name: Seq<char>) -> bool {
    ||| ends_with(name, ".fmt"@) && flagged_digest(without_suffix(name, ".fmt"@))
    ||| ends_with(name, ".log"@) && flagged_digest(without_suffix(name, ".log"@))
}

fn is_flagged_digest(stem: &[char]) -> (r: bool)
    ensures
        r == flagged_digest(stem@),
{
    let mut to: usize = stem.len();
    while to > 0 && stem[to - 1] != '_'
        invariant
            to <= stem.len(),
            last_underscore(stem@, to as int) == last_underscore(stem@, stem@.len() as int),
        decreases to,
    {
        to -= 1;
    }
    if to == 0 {
        return false;
    }
    let flag = &stem[to..stem.len()];
    assert(flag@ =~= stem@.skip(to as int));
    let head = &stem[0..to - 1];
    assert(head@ =~= stem@.take(to - 1));
    let digest = string_of(head);
    (is_text(flag, "true") || is_text(flag, "false")) && is_hex_digest(digest.as_str())
}

fn has_flagged_digest(chars: &[char], suffix: &str) -> (r: bool)
    ensures
        r == (ends_with(chars@, suffix@) && flagged_digest(without_suffix(chars@, suffix@))),
{
    match suffix_start(chars, suffix) {
        Some(n) => {
            let head = &chars[0..n];
            assert(head@ =~= without_suffix(chars@, suffix@));
            is_flagged_digest(head)
        },
        None => false,
    }
}

/// Whether a name is one that dumped preambles had before they had a prefix.
pub fn is_legacy_preamble_temp_file(file_name: &str) -> (r: bool)
    ensures
        r == legacy_preamble(file_name@),
{
    let chars = chars_of(file_name);
    has_flagged_digest(&chars, ".fmt") || has_flagged_digest(&chars, ".log")
}

/// Whether a file next to the source was left by a build.
pub open spec fn left_by_build(name: Seq<char>, content: Option<Seq<char>>) -> bool {
    generated_name(name) || legacy_frame(name, content) || legacy_preamble(name)
}

/// Whether a file next to the source was left by a build. `content` is what it holds, where it can
/// be read.
pub fn is_left_by_build(file_name: &str, content: Option<&str>) -> (r: bool)
    ensures
        r == left_by_build(file_name@, optional_text(content)),
{
    is_generated_name(file_name) || is_legacy_frame_temp_file(file_name, content)
        || is_legacy_preamble_temp_file(file_name)
}

// ---------------------------------------------------------------------------
// Directories of the cache
// ---------------------------------------------------------------------------

/// The directories around `path` up to the cache, from the inside out.
pub open spec fn directories_around(cache_dir: PathView, path: PathView) -> Seq<
    PathView,
>
    decreases path.parts.len(),
{
    match parent(path) {
        None => Seq::empty(),
        Some(dir) => if same_path(dir, cache_dir) {
            Seq::empty()
        } else {
            seq![dir] + directories_around(cache_dir, dir)
        },
    }
}

/// The directories around `cache_subdir` that may be empty once it is gone, from the inside out:
/// each of them is removed as long as that succeeds.
pub fn prunable_dirs(cache_dir: &FilePath, cache_subdir: &FilePath) -> (r: Vec<FilePath>)
    ensures
        path_views(r@) == directories_around(cache_dir@, cache_subdir@),
{
    let mut out: Vec<FilePath> = Vec::new();
    let mut current = cache_subdir.copy();
    let ghost all = directories_around(cache_dir@, cache_subdir@);
    assert(path_views(out@) + directories_around(cache_dir@, current@) =~= all);
    loop
        invariant
            all == directories_around(cache_dir@, cache_subdir@),
            path_views(out@) + directories_around(cache_dir@, current@) == all,
        ensures
            path_views(out@) == all,
        decreases current@.parts.len(),
    {
        let dir = match current.parent() {
            Some(dir) => dir,
            None => {
                assert(path_views(out@) =~= all);
                break;
            },
        };
        if dir.same_as(cache_dir) {
            assert(path_views(out@) =~= all);
            break;
        }
        let ghost before = path_views(out@);
        push_path(&mut out, dir.copy());
        assert(path_views(out@) + directories_around(cache_dir@, dir@) =~= before + (seq![dir@]
            + directories_around(cache_dir@, dir@)));
        current = dir;
    }
    out
}

/// Only directories inside the cache are pruned, and never the cache itself.
pub proof fn law_pruning_stays_in_the_cache(
    cache_dir: PathView,
    path: PathView,
    i: int,
)
    requires
        inside(path, cache_dir),
        path.parts.len() > cache_dir.parts.len(),
        0 <= i < directories_around(cache_dir, path).len(),
    ensures
        inside(directories_around(cache_dir, path)[i], cache_dir),
        directories_around(cache_dir, path)[i].parts.len() > cache_dir.parts.len(),
    decreases path.parts.len(),
{
    let dir = parent(path)->0;
    assert(dir.parts.take(cache_dir.parts.len() as int) =~= cache_dir.parts);
    if dir.parts.len() == cache_dir.parts.len() {
        assert(dir.parts =~= cache_dir.parts);
    }
    if i > 0 {
        law_pruning_stays_in_the_cache(cache_dir, dir, i - 1);
    }
}

/// How many seconds pass between two searches for old files in the cache.
pub const SWEEP_INTERVAL_SECONDS: u64 = 86400;

/// How many nanoseconds files stay in the cache at least.
pub const RETENTION_NANOS: u128 = 2592000000000000;

/// The name of the file whose age says when the cache was searched last.
pub const SWEEP_STAMP: &'static str = ".last-garbage-sweep";

/// Whether the cache is to be searched for old files. `stamp_age` is how many seconds ago that was
/// done, where that is known.
pub open spec fn sweep_due(stamp_age: Option<u64>) -> bool {
    match stamp_age {
        Some(age) => age >= SWEEP_INTERVAL_SECONDS,
        None => true,
    }
}

/// Whether the cache is to be searched for old files. `stamp_age` is how many seconds ago that was
/// done, where that is known.
pub fn cache_sweep_is_due(stamp_age: Option<u64>) -> (r: bool)
    ensures
        r == sweep_due(stamp_age),
{
    match stamp_age {
        Some(age) => age >= SWEEP_INTERVAL_SECONDS,
        None => true,
    }
}

/// The time before which files are old. Times count from zero, so where that is not long enough
/// ago, no file is old.
pub open spec fn cutoff_at(now: u128) -> u128 {
    if now >= RETENTION_NANOS {
        (now - RETENTION_NANOS) as u128
    } else {
        0
    }
}

/// The time before which files are old. Times count from zero, so where that is not long enough
/// ago, no file is old.
pub fn cache_garbage_cutoff(now: u128) -> (r: u128)
    ensures
        r == cutoff_at(now),
{
    if now >= RETENTION_NANOS {
        now - RETENTION_NANOS
    } else {
        0
    }
}

/// Whether a file is old: it was changed before the cutoff. Of one whose time is not known that
/// cannot be said.
pub open spec fn is_old(modified: Option<u128>, cutoff: u128) -> bool {
    modified is Some && modified->0 < cutoff
}

/// Whether a file is old: it was changed before the cutoff. Of one whose time is not known that
/// cannot be said.
pub fn cache_entry_is_stale(modified: Option<u128>, cutoff: u128) -> (r: bool)
    ensures
        r == is_old(modified, cutoff),
{
    match modified {
        Some(time) => time < cutoff,
        None => false,
    }
}

/// Whether `path` is `parent`, or in it.
pub fn path_is_inside(path: &FilePath, parent: &FilePath) -> (r: bool)
    ensures
        r == inside(path@, parent@),
{
    path.is_inside(parent)
}

/// What is done with something in the cache.
#[derive(Clone, Copy, Debug, PartialEq, Eq, Structural)]
pub enum SweepAction {
    Keep,
    /// It is searched in turn, and removed where nothing is left in it.
    Descend,
    RemoveFile,
}

/// What is done with something in the cache. What belongs to the current source is kept.
pub open spec fn sweep(
    path: PathView,
    active: PathView,
    is_dir: bool,
    is_file: bool,
    modified: Option<u128>,
    cutoff: u128,
) -> SweepAction {
    if inside(path, active) {
        SweepAction::Keep
    } else if is_dir {
        SweepAction::Descend
    } else if is_file && modified is Some && modified->0 < cutoff {
        SweepAction::RemoveFile
    } else {
        SweepAction::Keep
    }
}

/// What is done with something in the cache.
pub fn sweep_action(
    path: &FilePath,
    active_cache_subdir: &FilePath,
    is_dir: bool,
    is_file: bool,
    modified: Option<u128>,
    cutoff: u128,
) -> (r: SweepAction)
    ensures
        r == sweep(path@, active_cache_subdir@, is_dir, is_file, modified, cutoff),
{
    if path_is_inside(path, active_cache_subdir) {
        SweepAction::Keep
    } else if is_dir {
        SweepAction::Descend
    } else if is_file && cache_entry_is_stale(modified, cutoff) {
        SweepAction::RemoveFile
    } else {
        SweepAction::Keep
    }
}

/// Nothing that belongs to the current source is removed, however old it is, and no file is that
/// was changed since the cutoff.
pub proof fn law_sweep_keeps_what_is_in_use(
    path: PathView,
    active: PathView,
    is_dir: bool,
    is_file: bool,
    modified: Option<u128>,
    cutoff: u128,
)
    ensures
        inside(path, active) ==> sweep(path, active, is_dir, is_file, modified, cutoff)
            == SweepAction::Keep,
        modified is Some && modified->0 >= cutoff ==> sweep(
            path,
            active,
            is_dir,
            is_file,
            modified,
            cutoff,
        ) != SweepAction::RemoveFile,
        modified is None ==> sweep(path, active, is_dir, is_file, modified, cutoff)
            != SweepAction::RemoveFile,
{
}

// ---------------------------------------------------------------------------
// Removing the whole cache
// ---------------------------------------------------------------------------

/// Why the whole cache is not removed.
#[derive(Clone, Copy, Debug, PartialEq, Eq, Structural)]
pub enum CleanRefusal {
    ParentComponent,
    FilesystemRoot,
    LiveGuards,
    GuardsUnreadable,
    Unresolved,
    NotADirectory,
    Unreadable,
}

impl CleanRefusal {
    /// The reason in words. Where more can be said, it follows.
    pub open spec fn text(self) -> Seq<char> {
        match self {
            CleanRefusal::ParentComponent =>
                "Refusing to clean a cache path containing a parent component: "@,
            CleanRefusal::FilesystemRoot =>
                "Refusing to remove a filesystem root configured as the cache: "@,
            CleanRefusal::LiveGuards =>
                "Refusing to clean all caches while a faster-beamer watcher is active."@,
            CleanRefusal::GuardsUnreadable => "Failed to inspect watcher guards: "@,
            CleanRefusal::Unresolved => "Failed to resolve cache directory "@,
            CleanRefusal::NotADirectory => "Configured cache path is not a directory: "@,
            CleanRefusal::Unreadable => "Failed to inspect cache directory "@,
        }
    }

    /// The reason in words. Where more can be said, it follows.
    pub fn message(self) -> (r: &'static str)
        ensures
            r@ == self.text(),
    {
        match self {
            CleanRefusal::ParentComponent =>
                "Refusing to clean a cache path containing a parent component: ",
            CleanRefusal::FilesystemRoot =>
                "Refusing to remove a filesystem root configured as the cache: ",
            CleanRefusal::LiveGuards =>
                "Refusing to clean all caches while a faster-beamer watcher is active.",
            CleanRefusal::GuardsUnreadable => "Failed to inspect watcher guards: ",
            CleanRefusal::Unresolved => "Failed to resolve cache directory ",
            CleanRefusal::NotADirectory => "Configured cache path is not a directory: ",
            CleanRefusal::Unreadable => "Failed to inspect cache directory ",
        }
    }

    /// All that is said of the cache at a path, where `error` says what went wrong.
    pub open spec fn report_text(self, cache_dir: PathView, error: Seq<char>) -> Seq<char> {
        match self {
            CleanRefusal::LiveGuards => self.text(),
            CleanRefusal::GuardsUnreadable => self.text() + error,
            CleanRefusal::Unresolved => self.text() + cache_dir.text + ": "@ + error,
            CleanRefusal::Unreadable => self.text() + cache_dir.text + ": "@ + error,
            _ => self.text() + cache_dir.text,
        }
    }

    /// All that is said of the cache at `cache_dir`, where `error` says what went wrong.
    pub fn report(self, cache_dir: &FilePath, error: &str) -> (r: String)
        ensures
            r@ == self.report_text(cache_dir@, error@),
    {
        let mut out = owned(self.message());
        match self {
            CleanRefusal::LiveGuards => {},
            CleanRefusal::GuardsUnreadable => out.push_str(error),
            CleanRefusal::Unresolved | CleanRefusal::Unreadable => {
                out.push_str(cache_dir.text.as_str());
                out.push_str(": ");
                out.push_str(error);
            },
            _ => out.push_str(cache_dir.text.as_str()),
        }
        out
    }
}

/// Whether a path leads out of a directory somewhere.
pub open spec fn climbs(path: PathView) -> bool {
    exists|i: int| 0 <= i < path.parts.len() && #[trigger] path.parts[i] is ParentDir
}

fn path_climbs(path: &FilePath) -> (r: bool)
    ensures
        r == climbs(path@),
{
    let mut i: usize = 0;
    while i < path.components.len()
        invariant
            i <= path.components.len(),
            forall|k: int| 0 <= k < i ==> !(#[trigger] path@.parts[k] is ParentDir),
        decreases path.components.len() - i,
    {
        assert(path@.parts[i as int] == path.components@[i as int]@);
        if let PathComponent::ParentDir = &path.components[i] {
            assert(path@.parts[i as int] is ParentDir);
            return true;
        }
        i += 1;
    }
    false
}

/// What there is at the path of the cache.
#[derive(Clone, Copy, Debug, PartialEq, Eq, Structural)]
pub enum CacheKind {
    Directory,
    Other,
    Missing,
    Unreadable,
}

/// Why a cache at a path is not removed, whatever is there.
pub open spec fn unsafe_cache(cache_dir: PathView) -> Option<CleanRefusal> {
    if climbs(cache_dir) {
        Some(CleanRefusal::ParentComponent)
    } else if parent(cache_dir) is None {
        Some(CleanRefusal::FilesystemRoot)
    } else {
        None
    }
}

/// Why a cache at a path is not removed, whatever is there. Where there is a reason, nothing else
/// has to be found out.
pub fn cache_path_refusal(cache_dir: &FilePath) -> (r: Option<CleanRefusal>)
    ensures
        r == unsafe_cache(cache_dir@),
{
    if path_climbs(cache_dir) {
        Some(CleanRefusal::ParentComponent)
    } else if cache_dir.parent().is_none() {
        Some(CleanRefusal::FilesystemRoot)
    } else {
        None
    }
}

/// What is removed with the whole cache: the directory that is really there, nothing where there
/// is none.
pub open spec fn clean_all(
    cache_dir: PathView,
    live_guards: Option<bool>,
    kind: CacheKind,
    resolved: Option<PathView>,
) -> Result<Option<PathView>, CleanRefusal> {
    if unsafe_cache(cache_dir) is Some {
        Err(unsafe_cache(cache_dir)->0)
    } else if live_guards is None {
        Err(CleanRefusal::GuardsUnreadable)
    } else if live_guards->0 {
        Err(CleanRefusal::LiveGuards)
    } else {
        match kind {
            CacheKind::Missing => Ok(None),
            CacheKind::Other => Err(CleanRefusal::NotADirectory),
            CacheKind::Unreadable => Err(CleanRefusal::Unreadable),
            CacheKind::Directory => match resolved {
                None => Err(CleanRefusal::Unresolved),
                Some(path) => if parent(path) is None {
                    Err(CleanRefusal::FilesystemRoot)
                } else {
                    Ok(Some(path))
                },
            },
        }
    }
}

/// What is removed with the whole cache. `live_guards` says whether a source is watched, and
/// `resolved` where a directory really is, where these can be found out.
pub fn clean_all_generated_artifacts(
    cache_dir: &FilePath,
    live_guards: Option<bool>,
    kind: CacheKind,
    resolved: Option<FilePath>,
) -> (r: Result<Option<FilePath>, CleanRefusal>)
    ensures
        match clean_all(cache_dir@, live_guards, kind, optional_path(resolved)) {
            Ok(removed) => r is Ok && optional_path(r->Ok_0) == removed,
            Err(e) => r == Err::<Option<FilePath>, CleanRefusal>(e),
        },
{
    if let Some(refusal) = cache_path_refusal(cache_dir) {
        return Err(refusal);
    }
    match live_guards {
        Some(true) => {
            return Err(CleanRefusal::LiveGuards);
        },
        Some(false) => {},
        None => {
            return Err(CleanRefusal::GuardsUnreadable);
        },
    }
    match kind {
        CacheKind::Missing => Ok(None),
        CacheKind::Other => Err(CleanRefusal::NotADirectory),
        CacheKind::Unreadable => Err(CleanRefusal::Unreadable),
        CacheKind::Directory => match resolved {
            None => Err(CleanRefusal::Unresolved),
            Some(path) => if path.parent().is_none() {
                Err(CleanRefusal::FilesystemRoot)
            } else {
                Ok(Some(path))
            },
        },
    }
}

/// Removing the whole cache spares the roots of file systems, and a cache that is in use. Where
/// there is no cache, there is nothing to do.
pub proof fn law_clean_all_is_careful(
    cache_dir: PathView,
    live_guards: Option<bool>,
    kind: CacheKind,
    resolved: Option<PathView>,
)
    ensures
        match clean_all(cache_dir, live_guards, kind, resolved) {
            Ok(Some(removed)) => {
                &&& parent(removed) is Some
                &&& parent(cache_dir) is Some
                &&& !climbs(cache_dir)
                &&& live_guards == Some(false)
                &&& kind == CacheKind::Directory
                &&& resolved == Some(removed)
            },
            Ok(None) => kind == CacheKind::Missing,
            Err(_) => true,
        },
{
}

/// Removing the whole cache succeeds where its path is safe, nothing is watched, and there is a
/// directory that can be resolved or nothing at all. What is removed is the directory, and nothing
/// around it. Once it is gone, removing it again succeeds and removes nothing.
pub proof fn law_clean_all_removes_the_cache_once(
    cache_dir: PathView,
    kind: CacheKind,
    resolved: Option<PathView>,
    later: Option<PathView>,
)
    requires
        unsafe_cache(cache_dir) is None,
        kind == CacheKind::Missing || (kind == CacheKind::Directory && resolved is Some && parent(
            resolved->0,
        ) is Some),
    ensures
        clean_all(cache_dir, Some(false), kind, resolved) == Ok::<Option<PathView>, CleanRefusal>(
            if kind == CacheKind::Directory {
                resolved
            } else {
                None
            },
        ),
        resolved is Some && parent(resolved->0) is Some ==> inside(resolved->0, resolved->0)
            && !inside(parent(resolved->0)->0, resolved->0),
        clean_all(cache_dir, Some(false), CacheKind::Missing, later) == Ok::<
            Option<PathView>,
            CleanRefusal,
        >(None),
{
    if resolved is Some {
        let parts = resolved->0.parts;
        assert(parts.take(parts.len() as int) =~= parts);
    }
}

// ---------------------------------------------------------------------------
// Removing what belongs to one source
// ---------------------------------------------------------------------------

/// What is removed with what builds of one source left.
#[derive(Debug, PartialEq, Clone)]
pub struct CleanPlan {
    /// The directory of the source in the cache.
    pub cache_subdir: FilePath,
    /// The directories around it that may be empty then, from the inside out.
    pub prunable: Vec<FilePath>,
    /// The SyncTeX file next to the output.
    pub published_synctex: FilePath,
}

/// What is removed with what builds of one source left. `input_is_file` says whether the source
/// is there.
pub fn clean_generated_artifacts(
    input_is_file: bool,
    input_dir: &FilePath,
    cache_dir: &FilePath,
    output_file: &str,
    style: PathStyle,
) -> (r: Result<CleanPlan, FasterBeamerError>)
    ensures
        match r {
            Ok(plan) => {
                let subdir = joined(cache_dir@, cache_relative(input_dir@));
                &&& input_is_file
                &&& plan.cache_subdir@ == subdir
                &&& path_views(plan.prunable@) == directories_around(cache_dir@, subdir)
                &&& plan.published_synctex@ == with_extension(
                    parsed(style, output_file@),
                    "synctex.gz"@,
                )
            },
            Err(e) => !input_is_file && e == FasterBeamerError::InputFileNotExistent,
        },
{
    if !input_is_file {
        return Err(FasterBeamerError::InputFileNotExistent);
    }
    let cache_subdir = cache_path(cache_dir, input_dir);
    let prunable = prunable_dirs(cache_dir, &cache_subdir);
    let published_synctex = published_synctex(output_file, style);
    Ok(CleanPlan { cache_subdir, prunable, published_synctex })
}

// ---------------------------------------------------------------------------
// What is asked for
// ---------------------------------------------------------------------------

/// What a call asks for.
#[derive(Clone, Copy, Debug, PartialEq, Eq, Structural)]
pub enum Request {
    Build,
    /// What builds of one source left is removed.
    CleanInput,
    /// The whole cache is removed.
    CleanAll,
    /// The source is missing.
    InputRequired,
    /// The source is missing, and the call asks for more than to remove the cache.
    InputRequiredWithClean,
}

/// What is said where the source is missing from a call that asks for more than to remove the
/// cache.
pub const INPUT_REQUIRED_WITH_CLEAN: &'static str = "INPUT is required when --clean is combined with other arguments";

/// What a call asks for. The cache as a whole is removed only where nothing else is asked for.
pub open spec fn requested(clean: bool, has_input: bool, other_arguments: bool) -> Request {
    if has_input {
        if clean {
            Request::CleanInput
        } else {
            Request::Build
        }
    } else if !clean {
        Request::InputRequired
    } else if other_arguments {
        Request::InputRequiredWithClean
    } else {
        Request::CleanAll
    }
}

/// What a call asks for. The cache as a whole is removed only where nothing else is asked for.
pub fn request(clean: bool, has_input: bool, other_arguments: bool) -> (r: Request)
    ensures
        r == requested(clean, has_input, other_arguments),
{
    if has_input {
        if clean {
            Request::CleanInput
        } else {
            Request::Build
        }
    } else if !clean {
        Request::InputRequired
    } else if other_arguments {
        Request::InputRequiredWithClean
    } else {
        Request::CleanAll
    }
}

// ---------------------------------------------------------------------------
// What is removed, and when
// ---------------------------------------------------------------------------

/// A file of the cache is old thirty days after it was changed, and not before.
pub proof fn law_files_stay_for_thirty_days(now: u128, modified: u128)
    requires
        modified <= now,
    ensures
        is_old(Some(modified), cutoff_at(now)) <==> now - modified > 30 * 24 * 60 * 60
            * 1000000000,
        !is_old(None, cutoff_at(now)),
{
}

/// The cache is searched for old files once a day, and where it is not known when that was done.
pub proof fn law_cache_is_swept_once_a_day(age: u64)
    ensures
        sweep_due(Some(age)) <==> age >= 24 * 60 * 60,
        sweep_due(None),
{
}

/// Old files of other sources are removed, and directories of other sources are searched in turn,
/// those that hold the directory of the current source among them.
pub proof fn law_sweep_removes_what_is_old(
    path: PathView,
    active: PathView,
    is_file: bool,
    modified: u128,
    age: Option<u128>,
    cutoff: u128,
)
    requires
        !inside(path, active),
    ensures
        modified < cutoff ==> sweep(path, active, false, true, Some(modified), cutoff)
            == SweepAction::RemoveFile,
        sweep(path, active, true, is_file, age, cutoff) == SweepAction::Descend,
        sweep(path, active, false, false, age, cutoff) == SweepAction::Keep,
{
}

/// Every file that a build generates is one that cleaning up knows: sources of frames, dumped
/// preambles and their logs, and united documents.
pub proof fn law_generated_files_are_known(
    tex: Seq<char>,
    files: Seq<(Seq<char>, Seq<char>)>,
    key: Seq<char>,
    preamble: Seq<char>,
    engine: crate::latexcompile::LatexEngine,
    precompile: bool,
    options: Seq<Seq<char>>,
    millis: nat,
    suffix: Seq<char>,
    content: Option<Seq<char>>,
)
    ensures
        left_by_build(crate::document::frame_name(tex, files, key), content),
        left_by_build(
            crate::document::preamble_job(preamble, engine, precompile, options) + suffix,
            content,
        ),
        left_by_build(crate::united::united_job(millis) + suffix, content),
{
    let frame = crate::document::frame_name(tex, files, key);
    let a = crate::artifacts::FRAME_TEMP_PREFIX@;
    assert(frame.subrange(0, a.len() as int) =~= a);
    let job = crate::document::preamble_job(preamble, engine, precompile, options) + suffix;
    let b = crate::artifacts::PREAMBLE_TEMP_PREFIX@;
    assert(job.subrange(0, b.len() as int) =~= b);
    let united = crate::united::united_job(millis) + suffix;
    let c = crate::artifacts::UNITED_TEMP_PREFIX@;
    assert(united.subrange(0, c.len() as int) =~= c);
}

/// What is not generated is left alone: a file that starts with no prefix of generated files is
/// taken for one only where its name is a digest and an extension, and a source then only by what
/// it holds.
pub proof fn law_other_files_are_left_alone(name: Seq<char>, content: Option<Seq<char>>)
    requires
        !crate::search::starts_with(name, "faster-beamer-temp-"@),
        !crate::search::starts_with(name, "faster-beamer-preamble-"@),
        !crate::search::starts_with(name, "faster-beamer-united-"@),
        !ends_with(name, ".fmt"@),
        !ends_with(name, ".log"@),
    ensures
        left_by_build(name, content) ==> {
            &&& ends_with(name, ".tex"@)
            &&& digest_form(name.take(name.len() - 4))
            &&& content is Some
            &&& contains(content->0, "\\addtocounter{framenumber}"@)
            &&& contains(content->0, "\\end{document}"@)
        },
        content is None ==> !left_by_build(name, content),
{
    reveal_strlit(".tex");
}

/// What a call asks for: with a source it is built, or what builds of it left is removed; without
/// one, the whole cache is removed where nothing but that is asked for.
pub proof fn law_calls_ask_for_one_thing(clean: bool, others: bool)
    ensures
        requested(false, true, others) == Request::Build,
        requested(true, true, others) == Request::CleanInput,
        requested(false, false, others) == Request::InputRequired,
        requested(true, false, true) == Request::InputRequiredWithClean,
        requested(clean, false, others) == Request::CleanAll <==> clean && !others,
{
}

/// Each refusal to remove the cache has its reason, and the path of the cache is looked at first,
/// then who uses it, and what is there last.
pub proof fn law_refusals_have_their_reason(
    cache_dir: PathView,
    live_guards: Option<bool>,
    kind: CacheKind,
    resolved: Option<PathView>,
)
    ensures
        ({
            let result = clean_all(cache_dir, live_guards, kind, resolved);
            let safe = !climbs(cache_dir) && parent(cache_dir) is Some;
            &&& climbs(cache_dir) <==> result == Err::<Option<PathView>, CleanRefusal>(
                CleanRefusal::ParentComponent,
            )
            &&& !climbs(cache_dir) && parent(cache_dir) is None ==> result == Err::<
                Option<PathView>,
                CleanRefusal,
            >(CleanRefusal::FilesystemRoot)
            &&& safe && live_guards is None <==> result == Err::<Option<PathView>, CleanRefusal>(
                CleanRefusal::GuardsUnreadable,
            )
            &&& safe && live_guards == Some(true) <==> result == Err::<
                Option<PathView>,
                CleanRefusal,
            >(CleanRefusal::LiveGuards)
            &&& safe && live_guards == Some(false) && kind == CacheKind::Other <==> result == Err::<
                Option<PathView>,
                CleanRefusal,
            >(CleanRefusal::NotADirectory)
            &&& safe && live_guards == Some(false) && kind == CacheKind::Unreadable <==> result
                == Err::<Option<PathView>, CleanRefusal>(CleanRefusal::Unreadable)
            &&& safe && live_guards == Some(false) && kind == CacheKind::Directory
                && resolved is None <==> result == Err::<Option<PathView>, CleanRefusal>(
                CleanRefusal::Unresolved,
            )
        }),
{
}

/// All directories between a source and the cache are pruned, from the inside out: the first is the
/// one around the source, each other one is around the one in front of it, and behind the last comes
/// the cache, or nothing.
pub proof fn law_all_directories_up_to_the_cache_are_pruned(
    cache_dir: PathView,
    path: PathView,
    i: int,
)
    ensures
        ({
            let all = directories_around(cache_dir, path);
            &&& parent(path) is Some && !same_path(parent(path)->0, cache_dir) ==> all.len() > 0
                && all[0] == parent(path)->0
            &&& 0 <= i < all.len() - 1 ==> parent(all[i]) == Some(all[i + 1])
            &&& all.len() > 0 ==> parent(all.last()) is None || same_path(
                parent(all.last())->0,
                cache_dir,
            )
        }),
    decreases path.parts.len(),
{
    let all = directories_around(cache_dir, path);
    match parent(path) {
        None => {},
        Some(dir) => {
            if !same_path(dir, cache_dir) {
                let rest = directories_around(cache_dir, dir);
                law_all_directories_up_to_the_cache_are_pruned(cache_dir, dir, i - 1);
                assert(all =~= seq![dir] + rest);
                if 0 <= i < all.len() - 1 {
                    assert(all[i + 1] == rest[i]);
                    if i > 0 {
                        assert(all[i] == rest[i - 1]);
                    }
                }
                if rest.len() > 0 {
                    assert(all.last() == rest.last());
                }
            }
        },
    }
}

proof fn lemma_last_underscore(s: Seq<char>, to: int, at: int)
    requires
        0 <= at < to <= s.len(),
        s[at] == '_',
        forall|i: int| at < i < to ==> s[i] != '_',
    ensures
        last_underscore(s, to) == at,
    decreases to - at,
{
    if to - 1 > at {
        assert(s[to - 1] != '_');
        lemma_last_underscore(s, to - 1, at);
    }
}

proof fn lemma_flagged_digest(digest: Seq<char>, flag: Seq<char>)
    requires
        digest_form(digest),
        flag == "true"@ || flag == "false"@,
    ensures
        flagged_digest(digest.push('_') + flag),
{
    reveal_strlit("true");
    reveal_strlit("false");
    let stem = digest.push('_') + flag;
    assert forall|i: int| 32 < i < stem.len() implies stem[i] != '_' by {
        assert(stem[i] == flag[i - 33]);
    }
    lemma_last_underscore(stem, stem.len() as int, 32);
    assert(stem.skip(33) =~= flag);
    assert(stem.take(32) =~= digest);
}

/// Files that builds left before generated files had a prefix are known: sources of frames under a
/// digest, by what they hold, and dumped preambles and their logs under a digest and a truth value.
pub proof fn law_older_files_are_known(
    digest: Seq<char>,
    flag: Seq<char>,
    text: Seq<char>,
    content: Option<Seq<char>>,
)
    requires
        digest_form(digest),
        flag == "true"@ || flag == "false"@,
        contains(text, "\\addtocounter{framenumber}"@),
        contains(text, "\\end{document}"@),
    ensures
        left_by_build(digest + ".tex"@, Some(text)),
        left_by_build(digest.push('_') + flag + ".fmt"@, content),
        left_by_build(digest.push('_') + flag + ".log"@, content),
{
    let stem = digest.push('_') + flag;
    lemma_flagged_digest(digest, flag);
    let frame = digest + ".tex"@;
    assert(frame.skip(frame.len() - ".tex"@.len()) =~= ".tex"@);
    assert(frame.take(frame.len() - ".tex"@.len()) =~= digest);
    let format = stem + ".fmt"@;
    assert(format.skip(format.len() - ".fmt"@.len()) =~= ".fmt"@);
    assert(format.take(format.len() - ".fmt"@.len()) =~= stem);
    let log = stem + ".log"@;
    assert(log.skip(log.len() - ".log"@.len()) =~= ".log"@);
    assert(log.take(log.len() - ".log"@.len()) =~= stem);
}

/// What is said of the cache starts with the reason. The cache is named next, and what went wrong
/// stands at the end, where there is something to say of them.
pub proof fn law_refusals_name_the_cache(r: CleanRefusal, cache_dir: PathView, error: Seq<char>)
    ensures
        r.text().is_prefix_of(r.report_text(cache_dir, error)),
        r == CleanRefusal::ParentComponent || r == CleanRefusal::FilesystemRoot || r
            == CleanRefusal::NotADirectory ==> cache_dir.text.is_suffix_of(
            r.report_text(cache_dir, error),
        ),
        r == CleanRefusal::Unresolved || r == CleanRefusal::Unreadable ==> (r.text()
            + cache_dir.text).is_prefix_of(r.report_text(cache_dir, error)),
        r == CleanRefusal::Unresolved || r == CleanRefusal::Unreadable || r
            == CleanRefusal::GuardsUnreadable ==> error.is_suffix_of(
            r.report_text(cache_dir, error),
        ),
{
    let told = r.report_text(cache_dir, error);
    let n = r.text().len() as int;
    assert(told.take(n) =~= r.text());
    if r == CleanRefusal::Unresolved || r == CleanRefusal::Unreadable {
        assert(told.take(n + cache_dir.text.len()) =~= r.text() + cache_dir.text);
        assert(told.skip(told.len() - error.len()) =~= error);
    } else if r == CleanRefusal::GuardsUnreadable {
        assert(told.skip(told.len() - error.len()) =~= error);
    } else if r != CleanRefusal::LiveGuards {
        assert(told.skip(told.len() - cache_dir.text.len()) =~= cache_dir.text);
    }
}

}
