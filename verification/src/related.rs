//! The files that a LaTeX source names, and the files that those name in turn.
use crate::path_order::{has_path, has_same, is_sorted_set, path_parts, sorted_set};
use crate::path_parts::{PartView, PathStyle};
use crate::paths::{
    absolute, extension, joined, parent, parsed, path_views, same_path, with_extension, FilePath,
    PathView,
};
use crate::patterns::{
    capture_views, captures_fit, find_captures, group_text, read_group, regex_captures, span_fits,
    Groups, GRAPHICSPATH_ENTRY_PATTERN, GRAPHICSPATH_PATTERN, RELATED_FILE_PATTERN,
};
use crate::search::{trim, trimmed};
use crate::tex::{strip_tex_comments, without_comments};
use crate::text::{chars_of, is_text, owned, push_text, push_texts, string_of, texts};
use vstd::prelude::*;

verus! {

// ---------------------------------------------------------------------------
// What is known of files
// ---------------------------------------------------------------------------

/// What is known of a file.
#[derive(Clone, Debug, PartialEq, Eq)]
pub enum FileState {
    /// There is none.
    Missing,
    /// There is one, but it cannot be read as text.
    Present,
    /// There is one with this text.
    Text(String),
}

/// What is known of a file.
pub enum StateView {
    Missing,
    Present,
    Text(Seq<char>),
}

impl View for FileState {
    type V = StateView;

    open spec fn view(&self) -> StateView {
        match self {
            FileState::Missing => StateView::Missing,
            FileState::Present => StateView::Present,
            FileState::Text(t) => StateView::Text(t@),
        }
    }
}

/// The files of which something is known.
#[derive(Clone, Debug)]
pub struct FileTable {
    pub entries: Vec<(FilePath, FileState)>,
}

impl View for FileTable {
    type V = Seq<(PathView, StateView)>;

    open spec fn view(&self) -> Seq<(PathView, StateView)> {
        self.entries@.map_values(|e: (FilePath, FileState)| (e.0@, e.1@))
    }
}

/// What is known of the file at `path`, from entry `from` on.
pub open spec fn state_from(
    table: Seq<(PathView, StateView)>,
    path: PathView,
    from: int,
) -> Option<StateView>
    decreases table.len() - from,
{
    if from < 0 || from >= table.len() {
        None
    } else if same_path(table[from].0, path) {
        Some(table[from].1)
    } else {
        state_from(table, path, from + 1)
    }
}

/// What is known of the file at `path`.
pub open spec fn state_of(table: Seq<(PathView, StateView)>, path: PathView) -> Option<
    StateView,
> {
    state_from(table, path, 0)
}

impl FileTable {
    /// A table with nothing in it.
    pub fn new() -> (r: FileTable)
        ensures
            r@ == Seq::<(PathView, StateView)>::empty(),
    {
        let r = FileTable { entries: Vec::new() };
        assert(r@ =~= Seq::<(PathView, StateView)>::empty());
        r
    }

    /// Adds what is known of a file.
    pub fn add(&mut self, path: FilePath, state: FileState)
        ensures
            final(self)@ == old(self)@.push((path@, state@)),
    {
        let ghost before = self@;
        let ghost view = (path@, state@);
        self.entries.push((path, state));
        assert(self@ =~= before.push(view));
    }

    /// What is known of the file at `path`.
    pub fn state(&self, path: &FilePath) -> (r: Option<&FileState>)
        ensures
            match r {
                Some(s) => state_of(self@, path@) == Some(s@),
                None => state_of(self@, path@) is None,
            },
    {
        let mut i: usize = 0;
        while i < self.entries.len()
            invariant
                i <= self.entries.len(),
                state_from(self@, path@, i as int) == state_of(self@, path@),
            decreases self.entries.len() - i,
        {
            assert(self@[i as int] == (self.entries@[i as int].0@, self.entries@[i as int].1@));
            if self.entries[i].0.same_as(path) {
                return Some(&self.entries[i].1);
            }
            i += 1;
        }
        None
    }

    /// Whether there is a file at `path`, where that is known.
    pub fn has_file(&self, path: &FilePath) -> (r: Option<bool>)
        ensures
            r == existence(self@, path@),
    {
        match self.state(path) {
            None => None,
            Some(FileState::Missing) => Some(false),
            Some(_) => Some(true),
        }
    }
}

/// Whether there is a file at `path`, where that is known.
pub open spec fn existence(table: Seq<(PathView, StateView)>, path: PathView) -> Option<
    bool,
> {
    match state_of(table, path) {
        None => None,
        Some(StateView::Missing) => Some(false),
        Some(_) => Some(true),
    }
}

// ---------------------------------------------------------------------------
// References
// ---------------------------------------------------------------------------

/// Whether a character may stand in a path that is no macro.
pub open spec fn path_char(c: char) -> bool {
    c != '#' && c != '\\' && c != '{' && c != '}' && c != '\n' && c != '\r'
}

/// Whether a reference is a path as it stands.
pub open spec fn static_reference(raw: Seq<char>) -> bool {
    raw.len() > 0 && forall|i: int| 0 <= i < raw.len() ==> path_char(#[trigger] raw[i])
}

/// Whether a reference is a path as it stands.
pub fn is_static_path_reference(raw_path: &str) -> (r: bool)
    ensures
        r == static_reference(raw_path@),
{
    let chars = chars_of(raw_path);
    if chars.len() == 0 {
        return false;
    }
    let mut i: usize = 0;
    while i < chars.len()
        invariant
            i <= chars.len(),
            chars@ == raw_path@,
            forall|j: int| 0 <= j < i ==> path_char(#[trigger] raw_path@[j]),
        decreases chars.len() - i,
    {
        let c = chars[i];
        if c == '#' || c == '\\' || c == '{' || c == '}' || c == '\n' || c == '\r' {
            assert(!path_char(raw_path@[i as int]));
            return false;
        }
        i += 1;
    }
    true
}

/// Paths without those that came before.
pub open spec fn deduped(paths: Seq<PathView>) -> Seq<PathView>
    decreases paths.len(),
{
    if paths.len() == 0 {
        Seq::empty()
    } else {
        let front = deduped(paths.drop_last());
        if has_same(front, paths.last()) {
            front
        } else {
            front.push(paths.last())
        }
    }
}

/// Removes paths that came before. What came first stays first.
pub fn dedupe_paths(paths: &mut Vec<FilePath>)
    ensures
        path_views(final(paths)@) == deduped(path_views(old(paths)@)),
{
    let ghost all = path_views(paths@);
    let mut out: Vec<FilePath> = Vec::new();
    let mut i: usize = 0;
    assert(all.take(0) =~= Seq::<PathView>::empty());
    assert(path_views(out@) =~= Seq::<PathView>::empty());
    while i < paths.len()
        invariant
            i <= paths.len(),
            all == path_views(paths@),
            path_views(out@) == deduped(all.take(i as int)),
        decreases paths.len() - i,
    {
        assert(all.take(i + 1).drop_last() =~= all.take(i as int));
        assert(all.take(i + 1).last() == paths@[i as int]@);
        if !has_path(&out, &paths[i]) {
            push_path(&mut out, paths[i].copy());
        }
        i += 1;
    }
    assert(all.take(i as int) =~= all);
    *paths = out;
}

/// Appends a path.
pub fn push_path(out: &mut Vec<FilePath>, path: FilePath)
    ensures
        path_views(final(out)@) == path_views(old(out)@).push(path@),
        final(out)@.len() == old(out)@.len() + 1,
{
    let ghost before = out@;
    let ghost view = path@;
    out.push(path);
    assert(path_views(out@) =~= path_views(before).push(view));
}

/// Copies of paths.
pub fn copied_paths(v: &[FilePath]) -> (r: Vec<FilePath>)
    ensures
        path_views(r@) == path_views(v@),
{
    let mut out: Vec<FilePath> = Vec::new();
    let mut i: usize = 0;
    assert(path_views(out@) =~= path_views(v@).take(0));
    while i < v.len()
        invariant
            i <= v.len(),
            path_views(out@) == path_views(v@).take(i as int),
        decreases v.len() - i,
    {
        push_path(&mut out, v[i].copy());
        i += 1;
        assert(path_views(v@).take(i as int) =~= path_views(v@).take(i - 1).push(v@[i - 1]@));
    }
    assert(path_views(v@).take(i as int) =~= path_views(v@));
    out
}

/// Each path once, and all of them: removing repeated paths changes nothing else.
pub proof fn law_deduped_keeps_every_path(paths: Seq<PathView>)
    ensures
        path_parts(deduped(paths)).no_duplicates(),
        forall|p: Seq<PartView>| #[trigger]
            path_parts(deduped(paths)).contains(p) <==> path_parts(paths).contains(p),
    decreases paths.len(),
{
    if paths.len() > 0 {
        law_deduped_keeps_every_path(paths.drop_last());
        let front = path_parts(deduped(paths.drop_last()));
        let all = path_parts(deduped(paths));
        let given = path_parts(paths);
        assert(path_parts(paths.drop_last()) =~= given.drop_last());
        assert(all =~= if front.contains(given.last()) {
            front
        } else {
            front.push(given.last())
        });
        assert forall|p: Seq<PartView>| #[trigger] all.contains(p) <==> given.contains(p) by {
            assert(front.contains(p) <==> given.drop_last().contains(p));
            if given.contains(p) {
                let i = given.index_of(p);
                if i < given.len() - 1 {
                    assert(given.drop_last()[i] == p);
                    let j = front.index_of(p);
                    assert(all[j] == p);
                } else if !front.contains(p) {
                    assert(all[front.len() as int] == p);
                }
            }
            if all.contains(p) {
                let j = all.index_of(p);
                if j < front.len() {
                    assert(front[j] == p);
                    let i = given.drop_last().index_of(p);
                    assert(given[i] == p);
                } else {
                    assert(given[given.len() - 1] == p);
                }
            }
        }
        assert forall|i: int, j: int| 0 <= i < all.len() && 0 <= j < all.len() && i != j implies all[i] != all[j] by {
            if i < front.len() {
                assert(front.contains(front[i]));
            }
            if j < front.len() {
                assert(front.contains(front[j]));
            }
        }
    }
}

/// The path that a reference means, as seen from a directory.
pub open spec fn referenced(base: PathView, raw: Seq<char>) -> PathView {
    let path = parsed(base.style, raw);
    if absolute(path) {
        path
    } else {
        joined(base, path)
    }
}

fn reference_path(base: &FilePath, raw: &str) -> (r: FilePath)
    ensures
        r@ == referenced(base@, raw@),
{
    let candidate = FilePath::parse_as(raw, base.style);
    if candidate.is_absolute() {
        candidate
    } else {
        base.join(&candidate)
    }
}

/// The places for graphics behind the first `n` of the places that a source names.
pub open spec fn with_places(
    paths: Seq<PathView>,
    base: PathView,
    places: Seq<Seq<char>>,
    n: int,
) -> Seq<PathView>
    decreases n,
{
    if n <= 0 {
        paths
    } else {
        let before = with_places(paths, base, places, n - 1);
        if static_reference(trim(places[n - 1])) {
            before.push(referenced(base, trim(places[n - 1])))
        } else {
            before
        }
    }
}

/// Where graphics are looked for: in the inherited places, next to the source, and in the places
/// that the source names.
pub open spec fn search_places(
    inherited: Seq<PathView>,
    base: PathView,
    places: Seq<Seq<char>>,
) -> Seq<PathView> {
    let start = if has_same(inherited, base) {
        inherited
    } else {
        inherited.push(base)
    };
    deduped(with_places(start, base, places, places.len() as int))
}

/// Where graphics are looked for, where it is known which places the source names.
pub fn graphics_search_paths(
    places: &[String],
    base_dir: &FilePath,
    inherited_paths: &[FilePath],
) -> (r: Vec<FilePath>)
    ensures
        path_views(r@) == search_places(path_views(inherited_paths@), base_dir@, texts(places@)),
{
    let ghost all = texts(places@);
    let mut out = copied_paths(inherited_paths);
    if !has_path(inherited_paths, base_dir) {
        push_path(&mut out, base_dir.copy());
    }
    let ghost start = path_views(out@);
    let mut i: usize = 0;
    while i < places.len()
        invariant
            i <= places.len(),
            all == texts(places@),
            path_views(out@) == with_places(start, base_dir@, all, i as int),
        decreases places.len() - i,
    {
        assert(all[i as int] == places@[i as int]@);
        let chars = chars_of(places[i].as_str());
        let raw = string_of(&trimmed(&chars));
        if is_static_path_reference(raw.as_str()) {
            push_path(&mut out, reference_path(base_dir, raw.as_str()));
        }
        i += 1;
    }
    dedupe_paths(&mut out);
    out
}

/// The texts of a group in the first `n` of the matches.
pub open spec fn group_texts(text: Seq<char>, found: Seq<Groups>, group: int, n: int) -> Seq<Seq<char>> {
    Seq::new(n as nat, |i: int| group_text(text, found[i][group]))
}

/// The texts of a group in all matches of a pattern.
pub open spec fn all_groups(pattern: Seq<char>, text: Seq<char>, group: int) -> Seq<Seq<char>> {
    let found = regex_captures(pattern, text);
    group_texts(text, found, group, found.len() as int)
}

fn read_groups(found: &[Vec<Option<(usize, usize)>>], text: &str, group: usize) -> (r: Vec<String>)
    requires
        captures_fit(capture_views(found@), text@),
        forall|i: int| 0 <= i < found@.len() ==> (#[trigger] found@[i])@.len() > group,
    ensures
        texts(r@) == group_texts(
            text@,
            capture_views(found@),
            group as int,
            found@.len() as int,
        ),
{
    let chars = chars_of(text);
    let ghost all = capture_views(found@);
    let mut out: Vec<String> = Vec::new();
    let mut i: usize = 0;
    assert(texts(out@) =~= group_texts(text@, all, group as int, 0));
    while i < found.len()
        invariant
            i <= found.len(),
            chars@ == text@,
            all == capture_views(found@),
            captures_fit(all, text@),
            forall|i: int| 0 <= i < found@.len() ==> (#[trigger] found@[i])@.len() > group,
            texts(out@) == group_texts(text@, all, group as int, i as int),
        decreases found.len() - i,
    {
        assert(found@[i as int]@.len() > group);
        assert(all[i as int] == found@[i as int]@);
        assert(span_fits(all[i as int][group as int], text@));
        push_text(&mut out, read_group(&chars, found[i][group]));
        i += 1;
        assert(texts(out@) =~= group_texts(text@, all, group as int, i as int));
    }
    out
}

/// The places that lists of places name.
pub open spec fn places_in(lists: Seq<Seq<char>>) -> Seq<Seq<char>>
    decreases lists.len(),
{
    if lists.len() == 0 {
        Seq::empty()
    } else {
        places_in(lists.drop_last()) + all_groups(GRAPHICSPATH_ENTRY_PATTERN@, lists.last(), 1)
    }
}

/// The places for graphics that a source names.
pub open spec fn named_places(tex: Seq<char>) -> Seq<Seq<char>> {
    places_in(all_groups(GRAPHICSPATH_PATTERN@, tex, 1))
}

fn read_places(tex: &str) -> (r: Vec<String>)
    ensures
        texts(r@) == named_places(tex@),
{
    let found = find_captures(GRAPHICSPATH_PATTERN, tex);
    let lists = read_groups(&found, tex, 1);
    assert(capture_views(found@).len() == found@.len());
    let ghost all = texts(lists@);
    assert(all == all_groups(GRAPHICSPATH_PATTERN@, tex@, 1));
    let mut out: Vec<String> = Vec::new();
    let mut i: usize = 0;
    assert(all.take(0) =~= Seq::<Seq<char>>::empty());
    assert(texts(out@) =~= Seq::<Seq<char>>::empty());
    while i < lists.len()
        invariant
            i <= lists.len(),
            all == texts(lists@),
            texts(out@) == places_in(all.take(i as int)),
        decreases lists.len() - i,
    {
        let entries = find_captures(GRAPHICSPATH_ENTRY_PATTERN, lists[i].as_str());
        let places = read_groups(&entries, lists[i].as_str(), 1);
        assert(capture_views(entries@).len() == entries@.len());
        assert(texts(places@) == all_groups(GRAPHICSPATH_ENTRY_PATTERN@, all[i as int], 1));
        push_texts(&mut out, &places);
        i += 1;
        assert(all.take(i as int).drop_last() =~= all.take(i - 1));
        assert(all.take(i as int).last() == all[i - 1]);
    }
    assert(all.take(i as int) =~= all);
    out
}

/// Where graphics are looked for.
pub fn collect_graphics_paths(tex: &str, base_dir: &FilePath, inherited_paths: &[FilePath]) -> (r: Vec<
    FilePath,
>)
    ensures
        path_views(r@) == search_places(path_views(inherited_paths@), base_dir@, named_places(tex@)),
{
    let places = read_places(tex);
    graphics_search_paths(&places, base_dir, inherited_paths)
}

// ---------------------------------------------------------------------------
// Resolving references
// ---------------------------------------------------------------------------

/// The extensions that graphics are tried with, in their order.
pub open spec fn graphics_extension(i: int) -> Seq<char> {
    if i == 0 {
        "pdf"@
    } else if i == 1 {
        "png"@
    } else if i == 2 {
        "jpg"@
    } else if i == 3 {
        "jpeg"@
    } else if i == 4 {
        "eps"@
    } else {
        "svg"@
    }
}

fn extension_at(i: usize) -> (r: &'static str)
    ensures
        r@ == graphics_extension(i as int),
{
    if i == 0 {
        "pdf"
    } else if i == 1 {
        "png"
    } else if i == 2 {
        "jpg"
    } else if i == 3 {
        "jpeg"
    } else if i == 4 {
        "eps"
    } else {
        "svg"
    }
}

/// The file that a reference to a source means: the path itself where there is a file, else the
/// path with the extension of a source, where it has none. The path that has to be looked at
/// first, where that is not known.
pub open spec fn source_file(files: Seq<(PathView, StateView)>, path: PathView) -> Result<
    PathView,
    PathView,
> {
    match existence(files, path) {
        None => Err(path),
        Some(true) => Ok(path),
        Some(false) => if extension(path) is None {
            Ok(with_extension(path, "tex"@))
        } else {
            Ok(path)
        },
    }
}

/// The file that a reference to a source means, or the path that has to be looked at first.
pub fn resolve_tex_dependency(files: &FileTable, path: &FilePath) -> (r: Result<FilePath, FilePath>)
    ensures
        match r {
            Ok(p) => source_file(files@, path@) == Ok::<PathView, PathView>(p@),
            Err(p) => source_file(files@, path@) == Err::<PathView, PathView>(p@),
        },
{
    match files.has_file(path) {
        None => Err(path.copy()),
        Some(true) => Ok(path.copy()),
        Some(false) => {
            if path.extension().is_none() {
                Ok(path.with_extension("tex"))
            } else {
                Ok(path.copy())
            }
        },
    }
}

/// The first of the extensions, from number `i` on, with which there is a file.
pub open spec fn graphics_candidate(
    files: Seq<(PathView, StateView)>,
    path: PathView,
    i: int,
) -> Result<PathView, PathView>
    decreases 6 - i,
{
    if i >= 6 {
        Ok(path)
    } else {
        let candidate = with_extension(path, graphics_extension(i));
        match existence(files, candidate) {
            None => Err(candidate),
            Some(true) => Ok(candidate),
            Some(false) => graphics_candidate(files, path, i + 1),
        }
    }
}

/// The file that a path to graphics means: the path itself where there is a file or it has an
/// extension, else the path with the first extension with which there is one.
pub open spec fn graphics_file(files: Seq<(PathView, StateView)>, path: PathView) -> Result<
    PathView,
    PathView,
> {
    match existence(files, path) {
        None => Err(path),
        Some(true) => Ok(path),
        Some(false) => if extension(path) is Some {
            Ok(path)
        } else {
            graphics_candidate(files, path, 0)
        },
    }
}

/// The file that a path to graphics means, or the path that has to be looked at first.
pub fn resolve_graphics_dependency(files: &FileTable, path: &FilePath) -> (r: Result<
    FilePath,
    FilePath,
>)
    ensures
        match r {
            Ok(p) => graphics_file(files@, path@) == Ok::<PathView, PathView>(p@),
            Err(p) => graphics_file(files@, path@) == Err::<PathView, PathView>(p@),
        },
{
    match files.has_file(path) {
        None => {
            return Err(path.copy());
        },
        Some(true) => {
            return Ok(path.copy());
        },
        Some(false) => {},
    }
    if path.extension().is_some() {
        return Ok(path.copy());
    }
    let mut i: usize = 0;
    while i < 6
        invariant
            i <= 6,
            graphics_candidate(files@, path@, i as int) == graphics_candidate(files@, path@, 0),
            graphics_file(files@, path@) == graphics_candidate(files@, path@, 0),
        decreases 6 - i,
    {
        let candidate = path.with_extension(extension_at(i));
        match files.has_file(&candidate) {
            None => {
                return Err(candidate);
            },
            Some(true) => {
                return Ok(candidate);
            },
            Some(false) => {},
        }
        i += 1;
    }
    Ok(path.copy())
}

/// The file that a reference to graphics means, in the places from number `i` on.
pub open spec fn graphics_in_places(
    files: Seq<(PathView, StateView)>,
    candidate: PathView,
    places: Seq<PathView>,
    i: int,
) -> Result<Option<PathView>, PathView>
    decreases places.len() - i,
{
    if i < 0 || i >= places.len() {
        Ok(None)
    } else {
        match graphics_file(files, joined(places[i], candidate)) {
            Err(p) => Err(p),
            Ok(resolved) => match existence(files, resolved) {
                None => Err(resolved),
                Some(true) => Ok(Some(resolved)),
                Some(false) => graphics_in_places(files, candidate, places, i + 1),
            },
        }
    }
}

/// The file that a reference to graphics means: the first one in the places, else what it would
/// be in the first place.
pub open spec fn placed_graphics(
    files: Seq<(PathView, StateView)>,
    raw: Seq<char>,
    places: Seq<PathView>,
    style: PathStyle,
) -> Result<Option<PathView>, PathView> {
    let candidate = parsed(style, trim(raw));
    if absolute(candidate) {
        match graphics_file(files, candidate) {
            Ok(p) => Ok(Some(p)),
            Err(p) => Err(p),
        }
    } else {
        match graphics_in_places(files, candidate, places, 0) {
            Err(p) => Err(p),
            Ok(Some(p)) => Ok(Some(p)),
            Ok(None) => if places.len() == 0 {
                Ok(None)
            } else {
                match graphics_file(files, joined(places[0], candidate)) {
                    Ok(p) => Ok(Some(p)),
                    Err(p) => Err(p),
                }
            },
        }
    }
}

/// What a result with an optional path holds.
pub open spec fn lookup_view(r: Result<Option<FilePath>, FilePath>) -> Result<
    Option<PathView>,
    PathView,
> {
    match r {
        Ok(Some(p)) => Ok(Some(p@)),
        Ok(None) => Ok(None),
        Err(p) => Err(p@),
    }
}

/// The file that a reference to graphics means, or the path that has to be looked at first.
pub fn resolve_graphics_from_paths(
    files: &FileTable,
    raw_path: &str,
    graphics_paths: &[FilePath],
    style: PathStyle,
) -> (r: Result<Option<FilePath>, FilePath>)
    ensures
        lookup_view(r) == placed_graphics(files@, raw_path@, path_views(graphics_paths@), style),
{
    let chars = chars_of(raw_path);
    let raw = string_of(&trimmed(&chars));
    let candidate = FilePath::parse_as(raw.as_str(), style);
    let ghost places = path_views(graphics_paths@);
    if candidate.is_absolute() {
        return match resolve_graphics_dependency(files, &candidate) {
            Ok(p) => Ok(Some(p)),
            Err(p) => Err(p),
        };
    }
    let mut i: usize = 0;
    while i < graphics_paths.len()
        invariant
            i <= graphics_paths.len(),
            places == path_views(graphics_paths@),
            candidate@ == parsed(style, trim(raw_path@)),
            !absolute(candidate@),
            graphics_in_places(files@, candidate@, places, i as int) == graphics_in_places(
                files@,
                candidate@,
                places,
                0,
            ),
        decreases graphics_paths.len() - i,
    {
        assert(places[i as int] == graphics_paths@[i as int]@);
        let path = graphics_paths[i].join(&candidate);
        match resolve_graphics_dependency(files, &path) {
            Err(p) => {
                return Err(p);
            },
            Ok(resolved) => {
                match files.has_file(&resolved) {
                    None => {
                        return Err(resolved);
                    },
                    Some(true) => {
                        return Ok(Some(resolved));
                    },
                    Some(false) => {},
                }
            },
        }
        i += 1;
    }
    if graphics_paths.len() == 0 {
        return Ok(None);
    }
    assert(places[0] == graphics_paths@[0]@);
    let path = graphics_paths[0].join(&candidate);
    match resolve_graphics_dependency(files, &path) {
        Ok(p) => Ok(Some(p)),
        Err(p) => Err(p),
    }
}

/// Whether a command puts in another source.
pub open spec fn inputs_source(command: Seq<char>) -> bool {
    command == "input"@ || command == "include"@
}

/// The file that a command means, or none where its argument is no path as it stands.
pub open spec fn related_file(
    files: Seq<(PathView, StateView)>,
    command: Seq<char>,
    raw: Seq<char>,
    base: PathView,
    places: Seq<PathView>,
) -> Result<Option<PathView>, PathView> {
    if !static_reference(trim(raw)) {
        Ok(None)
    } else if command == "includegraphics"@ || command == "includepdf"@ {
        placed_graphics(files, raw, places, base.style)
    } else if inputs_source(command) {
        match source_file(files, referenced(base, trim(raw))) {
            Ok(p) => Ok(Some(p)),
            Err(p) => Err(p),
        }
    } else {
        Ok(Some(referenced(base, trim(raw))))
    }
}

fn is_source_command(command: &str) -> (r: bool)
    ensures
        r == inputs_source(command@),
{
    let chars = chars_of(command);
    is_text(&chars, "input") || is_text(&chars, "include")
}

/// The file that a command means, or the path that has to be looked at first.
pub fn resolve_related_file(
    files: &FileTable,
    command: &str,
    raw_path: &str,
    base_dir: &FilePath,
    graphics_paths: &[FilePath],
) -> (r: Result<Option<FilePath>, FilePath>)
    ensures
        lookup_view(r) == related_file(
            files@,
            command@,
            raw_path@,
            base_dir@,
            path_views(graphics_paths@),
        ),
{
    let chars = chars_of(raw_path);
    let raw = string_of(&trimmed(&chars));
    if !is_static_path_reference(raw.as_str()) {
        return Ok(None);
    }
    let name = chars_of(command);
    if is_text(&name, "includegraphics") || is_text(&name, "includepdf") {
        return resolve_graphics_from_paths(files, raw_path, graphics_paths, base_dir.style);
    }
    let path = reference_path(base_dir, raw.as_str());
    if is_source_command(command) {
        match resolve_tex_dependency(files, &path) {
            Ok(p) => Ok(Some(p)),
            Err(p) => Err(p),
        }
    } else {
        Ok(Some(path))
    }
}

// ---------------------------------------------------------------------------
// Following references
// ---------------------------------------------------------------------------

/// What was found so far: the files that are named, and the sources that were looked into.
#[verifier::ext_equal]
pub struct Walk {
    pub found: Seq<PathView>,
    pub visited: Seq<PathView>,
}

/// What is found with one more file.
pub open spec fn with_found(w: Walk, path: PathView) -> Walk {
    if has_same(w.found, path) {
        w
    } else {
        Walk { found: w.found.push(path), ..w }
    }
}

/// What one reference leads to.
#[verifier::ext_equal]
pub enum StepView {
    /// This was found.
    Done(Walk),
    /// This was found, and the source at this path, with this text, is looked into.
    Enter(Walk, PathView, Seq<char>),
    /// Something has to be found out about this path first.
    Unknown(PathView),
}

/// What one reference leads to. A source is looked into once only.
pub open spec fn reference_step(
    w: Walk,
    command: Seq<char>,
    argument: Seq<char>,
    base: PathView,
    places: Seq<PathView>,
    files: Seq<(PathView, StateView)>,
) -> StepView {
    if trim(argument).len() == 0 {
        StepView::Done(w)
    } else {
        match related_file(files, command, trim(argument), base, places) {
            Err(p) => StepView::Unknown(p),
            Ok(None) => StepView::Done(w),
            Ok(Some(path)) => {
                let known = with_found(w, path);
                if inputs_source(command) && !has_same(w.visited, path) {
                    let entered = Walk { visited: known.visited.push(path), ..known };
                    match state_of(files, path) {
                        None => StepView::Unknown(path),
                        Some(StateView::Text(content)) => StepView::Enter(entered, path, content),
                        Some(_) => StepView::Done(entered),
                    }
                } else {
                    StepView::Done(known)
                }
            },
        }
    }
}

/// The directory that the references of a source are seen from.
pub open spec fn base_for(path: PathView, base: PathView) -> PathView {
    match parent(path) {
        Some(dir) => dir,
        None => base,
    }
}

/// What is found behind a source, which may put in others down to `depth` levels.
pub open spec fn walk_source(
    tex: Seq<char>,
    base: PathView,
    inherited: Seq<PathView>,
    w: Walk,
    files: Seq<(PathView, StateView)>,
    depth: nat,
) -> Result<Walk, PathView>
    decreases depth, 1int, 0int,
{
    let text = without_comments(tex);
    walk_references(
        all_groups(RELATED_FILE_PATTERN@, text, 1),
        all_groups(RELATED_FILE_PATTERN@, text, 2),
        0,
        base,
        search_places(inherited, base, named_places(text)),
        w,
        files,
        depth,
    )
}

/// What is found behind the references of a source, from number `i` on.
pub open spec fn walk_references(
    commands: Seq<Seq<char>>,
    arguments: Seq<Seq<char>>,
    i: int,
    base: PathView,
    places: Seq<PathView>,
    w: Walk,
    files: Seq<(PathView, StateView)>,
    depth: nat,
) -> Result<Walk, PathView>
    decreases depth, 0int, commands.len() - i,
{
    if i < 0 || i >= commands.len() {
        Ok(w)
    } else {
        match reference_step(w, commands[i], arguments[i], base, places, files) {
            StepView::Unknown(p) => Err(p),
            StepView::Done(next) => walk_references(
                commands,
                arguments,
                i + 1,
                base,
                places,
                next,
                files,
                depth,
            ),
            StepView::Enter(next, path, content) => if depth == 0 {
                Ok(next)
            } else {
                match walk_source(
                    content,
                    base_for(path, base),
                    places,
                    next,
                    files,
                    (depth - 1) as nat,
                ) {
                    Err(p) => Err(p),
                    Ok(left) => walk_references(
                        commands,
                        arguments,
                        i + 1,
                        base,
                        places,
                        left,
                        files,
                        depth,
                    ),
                }
            },
        }
    }
}

/// What lists of paths hold, as what was found.
pub open spec fn walk_view(found: Seq<FilePath>, visited: Seq<FilePath>) -> Walk {
    Walk { found: path_views(found), visited: path_views(visited) }
}

/// What is left to be done with a reference.
enum ReferenceStep {
    Done,
    Enter(FilePath, String),
    Unknown(FilePath),
}

/// What a step leads to, where `w` was found.
spec fn step_view(step: ReferenceStep, w: Walk) -> StepView {
    match step {
        ReferenceStep::Done => StepView::Done(w),
        ReferenceStep::Enter(path, content) => StepView::Enter(w, path@, content@),
        ReferenceStep::Unknown(path) => StepView::Unknown(path@),
    }
}

/// Takes one reference into account, and says whether a source has to be looked into.
fn take_reference(
    command: &str,
    argument: &str,
    base_dir: &FilePath,
    graphics_paths: &[FilePath],
    found: &mut Vec<FilePath>,
    visited: &mut Vec<FilePath>,
    files: &FileTable,
) -> (r: ReferenceStep)
    ensures
        step_view(r, walk_view(final(found)@, final(visited)@)) == reference_step(
            walk_view(old(found)@, old(visited)@),
            command@,
            argument@,
            base_dir@,
            path_views(graphics_paths@),
            files@,
        ),
{
    let chars = chars_of(argument);
    let raw = string_of(&trimmed(&chars));
    if raw.as_str().is_empty() {
        return ReferenceStep::Done;
    }
    let path = match resolve_related_file(files, command, raw.as_str(), base_dir, graphics_paths) {
        Err(p) => {
            return ReferenceStep::Unknown(p);
        },
        Ok(None) => {
            return ReferenceStep::Done;
        },
        Ok(Some(path)) => path,
    };
    if !has_path(found, &path) {
        push_path(found, path.copy());
    }
    if is_source_command(command) && !has_path(visited, &path) {
        push_path(visited, path.copy());
        match files.state(&path) {
            None => ReferenceStep::Unknown(path),
            Some(FileState::Text(content)) => ReferenceStep::Enter(path, owned(content.as_str())),
            Some(_) => ReferenceStep::Done,
        }
    } else {
        ReferenceStep::Done
    }
}

/// Follows the references of a source, and of those it puts in.
pub fn collect_related_files_from_tex(
    tex: &str,
    base_dir: &FilePath,
    inherited_graphics_paths: &[FilePath],
    found: &mut Vec<FilePath>,
    visited: &mut Vec<FilePath>,
    files: &FileTable,
    depth: usize,
) -> (r: Result<(), FilePath>)
    ensures
        ({
            let walked = walk_source(
                tex@,
                base_dir@,
                path_views(inherited_graphics_paths@),
                walk_view(old(found)@, old(visited)@),
                files@,
                depth as nat,
            );
            match r {
                Ok(_) => walked == Ok::<Walk, PathView>(
                    walk_view(final(found)@, final(visited)@),
                ),
                Err(p) => walked == Err::<Walk, PathView>(p@),
            }
        }),
    decreases depth,
{
    let stripped = strip_tex_comments(tex);
    let graphics_paths = collect_graphics_paths(
        stripped.as_str(),
        base_dir,
        inherited_graphics_paths,
    );
    let captures = find_captures(RELATED_FILE_PATTERN, stripped.as_str());
    let commands = read_groups(&captures, stripped.as_str(), 1);
    let arguments = read_groups(&captures, stripped.as_str(), 2);
    assert(capture_views(captures@).len() == captures@.len());
    let ghost names = texts(commands@);
    let ghost raws = texts(arguments@);
    let ghost places = path_views(graphics_paths@);
    let ghost start = walk_view(found@, visited@);
    let ghost walked = walk_source(
        tex@,
        base_dir@,
        path_views(inherited_graphics_paths@),
        start,
        files@,
        depth as nat,
    );
    assert(names == all_groups(RELATED_FILE_PATTERN@, stripped@, 1));
    assert(raws == all_groups(RELATED_FILE_PATTERN@, stripped@, 2));
    assert(names.len() == raws.len());
    assert(walked == walk_references(names, raws, 0, base_dir@, places, start, files@, depth as nat));
    let mut i: usize = 0;
    while i < commands.len()
        invariant
            i <= commands.len(),
            commands@.len() == arguments@.len(),
            names == texts(commands@),
            raws == texts(arguments@),
            places == path_views(graphics_paths@),
            walked == walk_source(
                tex@,
                base_dir@,
                path_views(inherited_graphics_paths@),
                walk_view(old(found)@, old(visited)@),
                files@,
                depth as nat,
            ),
            walked == walk_references(
                names,
                raws,
                i as int,
                base_dir@,
                places,
                walk_view(found@, visited@),
                files@,
                depth as nat,
            ),
        decreases commands.len() - i,
    {
        assert(names[i as int] == commands@[i as int]@);
        assert(raws[i as int] == arguments@[i as int]@);
        match take_reference(
            commands[i].as_str(),
            arguments[i].as_str(),
            base_dir,
            &graphics_paths,
            found,
            visited,
            files,
        ) {
            ReferenceStep::Done => {},
            ReferenceStep::Unknown(path) => {
                return Err(path);
            },
            ReferenceStep::Enter(path, content) => {
                if depth == 0 {
                    return Ok(());
                }
                let next_base = match path.parent() {
                    Some(dir) => dir,
                    None => base_dir.copy(),
                };
                match collect_related_files_from_tex(
                    content.as_str(),
                    &next_base,
                    &graphics_paths,
                    found,
                    visited,
                    files,
                    depth - 1,
                ) {
                    Ok(_) => {},
                    Err(path) => {
                        return Err(path);
                    },
                }
            },
        }
        i += 1;
    }
    Ok(())
}

/// The files that a source names, directly or through others, where all that has to be known of
/// files is known. Else a path of which something has to be found out first.
pub open spec fn related_files(
    tex: Seq<char>,
    base: PathView,
    files: Seq<(PathView, StateView)>,
) -> Result<Seq<PathView>, PathView> {
    match walk_source(
        tex,
        base,
        seq![base],
        Walk { found: Seq::empty(), visited: Seq::empty() },
        files,
        files.len(),
    ) {
        Ok(w) => Ok(w.found),
        Err(p) => Err(p),
    }
}

/// The files that `tex` names, directly or through others, each once and in the order of paths.
/// Where something has to be found out about a path first, that path.
pub fn collect_related_files(tex: &str, base_dir: &FilePath, files: &FileTable) -> (r: Result<
    Vec<FilePath>,
    FilePath,
>)
    ensures
        match r {
            Ok(paths) => related_files(tex@, base_dir@, files@) is Ok && is_sorted_set(
                path_views(paths@),
                related_files(tex@, base_dir@, files@)->Ok_0,
            ),
            Err(p) => related_files(tex@, base_dir@, files@) == Err::<
                Seq<PathView>,
                PathView,
            >(p@),
        },
{
    let mut found: Vec<FilePath> = Vec::new();
    let mut visited: Vec<FilePath> = Vec::new();
    let inherited: Vec<FilePath> = vec![base_dir.copy()];
    assert(path_views(inherited@) =~= seq![base_dir@]);
    assert(walk_view(found@, visited@) =~= (Walk { found: Seq::empty(), visited: Seq::empty() }));
    assert(files@.len() == files.entries@.len());
    match collect_related_files_from_tex(
        tex,
        base_dir,
        &inherited,
        &mut found,
        &mut visited,
        files,
        files.entries.len(),
    ) {
        Ok(_) => Ok(sorted_set(&found)),
        Err(path) => Err(path),
    }
}

// ---------------------------------------------------------------------------
// Nothing is cut off
// ---------------------------------------------------------------------------

/// Whether all of `a` is in `b`.
spec fn within(a: Seq<PathView>, b: Seq<PathView>) -> bool {
    forall|p: Seq<PartView>| #[trigger] path_parts(a).contains(p) ==> path_parts(b).contains(p)
}

/// How many of the known sources were not looked into.
spec fn unvisited(files: Seq<(PathView, StateView)>, visited: Seq<PathView>) -> nat
    decreases files.len(),
{
    if files.len() == 0 {
        0
    } else if files.last().1 is Text && !has_same(visited, files.last().0) {
        unvisited(files.drop_last(), visited) + 1
    } else {
        unvisited(files.drop_last(), visited)
    }
}

proof fn lemma_unvisited_bound(files: Seq<(PathView, StateView)>, visited: Seq<PathView>)
    ensures
        unvisited(files, visited) <= files.len(),
    decreases files.len(),
{
    if files.len() > 0 {
        lemma_unvisited_bound(files.drop_last(), visited);
    }
}

proof fn lemma_unvisited_shrinks(
    files: Seq<(PathView, StateView)>,
    a: Seq<PathView>,
    b: Seq<PathView>,
)
    requires
        within(a, b),
    ensures
        unvisited(files, b) <= unvisited(files, a),
    decreases files.len(),
{
    if files.len() > 0 {
        lemma_unvisited_shrinks(files.drop_last(), a, b);
        assert(has_same(a, files.last().0) ==> has_same(b, files.last().0));
    }
}

proof fn lemma_within_push(a: Seq<PathView>, p: PathView)
    ensures
        within(a, a.push(p)),
        has_same(a.push(p), p),
{
    let before = path_parts(a);
    let after = path_parts(a.push(p));
    assert(after =~= before.push(p.parts));
    assert forall|q: Seq<PartView>| #[trigger] before.contains(q) implies after.contains(q) by {
        let i = before.index_of(q);
        assert(after[i] == q);
    }
    assert(after[a.len() as int] == p.parts);
}

proof fn lemma_visit_at(
    files: Seq<(PathView, StateView)>,
    visited: Seq<PathView>,
    path: PathView,
    k: int,
)
    requires
        0 <= k < files.len(),
        files[k].1 is Text,
        !has_same(visited, files[k].0),
        same_path(files[k].0, path),
    ensures
        unvisited(files, visited.push(path)) < unvisited(files, visited),
    decreases files.len(),
{
    let more = visited.push(path);
    lemma_within_push(visited, path);
    lemma_unvisited_shrinks(files.drop_last(), visited, more);
    if k < files.len() - 1 {
        lemma_visit_at(files.drop_last(), visited, path, k);
        assert(has_same(visited, files.last().0) ==> has_same(more, files.last().0));
    }
}

proof fn lemma_state_entry(
    files: Seq<(PathView, StateView)>,
    path: PathView,
    from: int,
) -> (k: int)
    requires
        0 <= from,
        state_from(files, path, from) is Some,
    ensures
        0 <= k < files.len(),
        same_path(files[k].0, path),
        state_from(files, path, from) == Some(files[k].1),
    decreases files.len() - from,
{
    if same_path(files[from].0, path) {
        from
    } else {
        lemma_state_entry(files, path, from + 1)
    }
}

proof fn lemma_step_grows(
    w: Walk,
    command: Seq<char>,
    argument: Seq<char>,
    base: PathView,
    places: Seq<PathView>,
    files: Seq<(PathView, StateView)>,
)
    ensures
        match reference_step(w, command, argument, base, places, files) {
            StepView::Done(next) => within(w.visited, next.visited) && unvisited(files, next.visited)
                <= unvisited(files, w.visited),
            StepView::Enter(next, _, _) => within(w.visited, next.visited) && unvisited(
                files,
                next.visited,
            ) < unvisited(files, w.visited),
            StepView::Unknown(_) => true,
        },
{
    if trim(argument).len() > 0 {
        match related_file(files, command, trim(argument), base, places) {
            Ok(Some(path)) => {
                lemma_within_push(w.visited, path);
                lemma_unvisited_shrinks(files, w.visited, w.visited.push(path));
                if inputs_source(command) && !has_same(w.visited, path) {
                    if state_of(files, path) matches Some(StateView::Text(_)) {
                        let k = lemma_state_entry(files, path, 0);
                        lemma_visit_at(files, w.visited, path, k);
                    }
                }
            },
            _ => {},
        }
    }
}

proof fn lemma_source_grows(
    tex: Seq<char>,
    base: PathView,
    inherited: Seq<PathView>,
    w: Walk,
    files: Seq<(PathView, StateView)>,
    depth: nat,
)
    ensures
        walk_source(tex, base, inherited, w, files, depth) matches Ok(left) ==> within(
            w.visited,
            left.visited,
        ),
    decreases depth, 1int, 0int,
{
    let text = without_comments(tex);
    lemma_references_grow(
        all_groups(RELATED_FILE_PATTERN@, text, 1),
        all_groups(RELATED_FILE_PATTERN@, text, 2),
        0,
        base,
        search_places(inherited, base, named_places(text)),
        w,
        files,
        depth,
    );
}

proof fn lemma_references_grow(
    commands: Seq<Seq<char>>,
    arguments: Seq<Seq<char>>,
    i: int,
    base: PathView,
    places: Seq<PathView>,
    w: Walk,
    files: Seq<(PathView, StateView)>,
    depth: nat,
)
    ensures
        walk_references(commands, arguments, i, base, places, w, files, depth) matches Ok(left)
            ==> within(w.visited, left.visited),
    decreases depth, 0int, commands.len() - i,
{
    if 0 <= i < commands.len() {
        lemma_step_grows(w, commands[i], arguments[i], base, places, files);
        match reference_step(w, commands[i], arguments[i], base, places, files) {
            StepView::Unknown(_) => {},
            StepView::Done(next) => {
                lemma_references_grow(
                    commands,
                    arguments,
                    i + 1,
                    base,
                    places,
                    next,
                    files,
                    depth,
                );
            },
            StepView::Enter(next, path, content) => {
                if depth > 0 {
                    let below = (depth - 1) as nat;
                    lemma_source_grows(content, base_for(path, base), places, next, files, below);
                    match walk_source(content, base_for(path, base), places, next, files, below) {
                        Ok(left) => {
                            lemma_references_grow(
                                commands,
                                arguments,
                                i + 1,
                                base,
                                places,
                                left,
                                files,
                                depth,
                            );
                        },
                        Err(_) => {},
                    }
                }
            },
        }
    }
}

proof fn lemma_source_depth(
    tex: Seq<char>,
    base: PathView,
    inherited: Seq<PathView>,
    w: Walk,
    files: Seq<(PathView, StateView)>,
    a: nat,
    b: nat,
)
    requires
        a >= unvisited(files, w.visited),
        b >= unvisited(files, w.visited),
    ensures
        walk_source(tex, base, inherited, w, files, a) == walk_source(
            tex,
            base,
            inherited,
            w,
            files,
            b,
        ),
    decreases a, 1int, 0int,
{
    let text = without_comments(tex);
    lemma_references_depth(
        all_groups(RELATED_FILE_PATTERN@, text, 1),
        all_groups(RELATED_FILE_PATTERN@, text, 2),
        0,
        base,
        search_places(inherited, base, named_places(text)),
        w,
        files,
        a,
        b,
    );
}

proof fn lemma_references_depth(
    commands: Seq<Seq<char>>,
    arguments: Seq<Seq<char>>,
    i: int,
    base: PathView,
    places: Seq<PathView>,
    w: Walk,
    files: Seq<(PathView, StateView)>,
    a: nat,
    b: nat,
)
    requires
        a >= unvisited(files, w.visited),
        b >= unvisited(files, w.visited),
    ensures
        walk_references(commands, arguments, i, base, places, w, files, a) == walk_references(
            commands,
            arguments,
            i,
            base,
            places,
            w,
            files,
            b,
        ),
    decreases a, 0int, commands.len() - i,
{
    if 0 <= i < commands.len() {
        lemma_step_grows(w, commands[i], arguments[i], base, places, files);
        match reference_step(w, commands[i], arguments[i], base, places, files) {
            StepView::Unknown(_) => {},
            StepView::Done(next) => {
                lemma_references_depth(
                    commands,
                    arguments,
                    i + 1,
                    base,
                    places,
                    next,
                    files,
                    a,
                    b,
                );
            },
            StepView::Enter(next, path, content) => {
                let x = (a - 1) as nat;
                let y = (b - 1) as nat;
                lemma_source_depth(content, base_for(path, base), places, next, files, x, y);
                lemma_source_grows(content, base_for(path, base), places, next, files, x);
                match walk_source(content, base_for(path, base), places, next, files, x) {
                    Ok(left) => {
                        lemma_unvisited_shrinks(files, next.visited, left.visited);
                        lemma_references_depth(
                            commands,
                            arguments,
                            i + 1,
                            base,
                            places,
                            left,
                            files,
                            a,
                            b,
                        );
                    },
                    Err(_) => {},
                }
            },
        }
    }
}

/// References are followed to their end: as a source is looked into once only, no more levels of
/// them can be found than files are known, however many are allowed for.
pub proof fn law_references_are_followed_to_their_end(
    tex: Seq<char>,
    base: PathView,
    inherited: Seq<PathView>,
    w: Walk,
    files: Seq<(PathView, StateView)>,
    depth: nat,
)
    requires
        depth >= files.len(),
    ensures
        walk_source(tex, base, inherited, w, files, depth) == walk_source(
            tex,
            base,
            inherited,
            w,
            files,
            files.len(),
        ),
{
    lemma_unvisited_bound(files, w.visited);
    lemma_source_depth(tex, base, inherited, w, files, depth, files.len());
}

// ---------------------------------------------------------------------------
// What references lead to
// ---------------------------------------------------------------------------

/// A reference is a path as it stands unless it is empty or holds a parameter, a macro, a brace or a
/// line end somewhere.
pub proof fn law_macros_are_no_paths(before: Seq<char>, c: char, behind: Seq<char>)
    ensures
        !static_reference(Seq::empty()),
        c == '#' || c == '\\' || c == '{' || c == '}' || c == '\n' || c == '\r'
            ==> !static_reference(before + seq![c] + behind),
        c != '#' && c != '\\' && c != '{' && c != '}' && c != '\n' && c != '\r' && (before.len() == 0
            || static_reference(before)) && (behind.len() == 0 || static_reference(behind))
            ==> static_reference(before + seq![c] + behind),
{
    let all = before + seq![c] + behind;
    assert(all[before.len() as int] == c);
    if !path_char(c) {
        assert(!path_char(all[before.len() as int]));
    } else if (before.len() == 0 || static_reference(before)) && (behind.len() == 0
        || static_reference(behind)) {
        assert forall|i: int| 0 <= i < all.len() implies path_char(#[trigger] all[i]) by {
            if i < before.len() {
                assert(path_char(before[i]));
            } else if i > before.len() {
                assert(path_char(behind[i - before.len() - 1]));
            }
        }
    }
}

/// What is known of a file is what was noted first of its path.
pub proof fn law_first_note_of_a_file_counts(
    before: Seq<(PathView, StateView)>,
    path: PathView,
    state: StateView,
    behind: Seq<(PathView, StateView)>,
)
    requires
        forall|i: int| 0 <= i < before.len() ==> !same_path((#[trigger] before[i]).0, path),
    ensures
        state_of(before.push((path, state)) + behind, path) == Some(state),
        state_of(before, path) is None,
        existence(before.push((path, state)) + behind, path) == Some(!(state is Missing)),
        existence(before, path) is None,
{
    lemma_state_after(before.push((path, state)) + behind, path, 0, before.len() as int);
    lemma_no_state(before, path, 0);
}

proof fn lemma_state_after(
    table: Seq<(PathView, StateView)>,
    path: PathView,
    from: int,
    at: int,
)
    requires
        0 <= from <= at < table.len(),
        forall|i: int| from <= i < at ==> !same_path((#[trigger] table[i]).0, path),
        same_path(table[at].0, path),
    ensures
        state_from(table, path, from) == Some(table[at].1),
    decreases at - from,
{
    if from < at {
        assert(!same_path(table[from].0, path));
        lemma_state_after(table, path, from + 1, at);
    }
}

proof fn lemma_no_state(table: Seq<(PathView, StateView)>, path: PathView, from: int)
    requires
        0 <= from <= table.len(),
        forall|i: int| from <= i < table.len() ==> !same_path((#[trigger] table[i]).0, path),
    ensures
        state_from(table, path, from) is None,
    decreases table.len() - from,
{
    if from < table.len() {
        assert(!same_path(table[from].0, path));
        lemma_no_state(table, path, from + 1);
    }
}

/// A relative reference is seen from the directory of the source, and an absolute one is taken as it
/// is.
pub proof fn law_references_are_seen_from_their_source(base: PathView, raw: Seq<char>)
    ensures
        absolute(parsed(base.style, raw)) ==> referenced(base, raw) == parsed(base.style, raw),
        !absolute(parsed(base.style, raw)) ==> referenced(base, raw) == joined(
            base,
            parsed(base.style, raw),
        ),
{
}

proof fn lemma_places_kept(
    paths: Seq<PathView>,
    base: PathView,
    places: Seq<Seq<char>>,
    n: int,
)
    requires
        0 <= n <= places.len(),
    ensures
        paths.len() <= with_places(paths, base, places, n).len(),
        with_places(paths, base, places, n).take(paths.len() as int) == paths,
    decreases n,
{
    if n > 0 {
        lemma_places_kept(paths, base, places, n - 1);
        assert(with_places(paths, base, places, n).take(paths.len() as int) =~= with_places(
            paths,
            base,
            places,
            n - 1,
        ).take(paths.len() as int));
    } else {
        assert(paths.take(paths.len() as int) =~= paths);
    }
}

proof fn lemma_place_named(
    paths: Seq<PathView>,
    base: PathView,
    places: Seq<Seq<char>>,
    n: int,
    k: int,
)
    requires
        0 <= k < n <= places.len(),
        static_reference(trim(places[k])),
    ensures
        has_same(with_places(paths, base, places, n), referenced(base, trim(places[k]))),
    decreases n,
{
    let all = with_places(paths, base, places, n);
    let before = with_places(paths, base, places, n - 1);
    let path = referenced(base, trim(places[k]));
    if k == n - 1 {
        assert(path_parts(all)[before.len() as int] == path.parts);
    } else {
        lemma_place_named(paths, base, places, n - 1, k);
        let i = path_parts(before).index_of(path.parts);
        assert(path_parts(all)[i] == path.parts);
    }
}

/// Graphics are looked for in all the inherited places, next to the source, and in every place that
/// the source names as a plain path.
pub proof fn law_graphics_are_looked_for_everywhere(
    inherited: Seq<PathView>,
    base: PathView,
    places: Seq<Seq<char>>,
    i: int,
    k: int,
)
    ensures
        has_same(search_places(inherited, base, places), base),
        0 <= i < inherited.len() ==> has_same(
            search_places(inherited, base, places),
            inherited[i],
        ),
        0 <= k < places.len() && static_reference(trim(places[k])) ==> has_same(
            search_places(inherited, base, places),
            referenced(base, trim(places[k])),
        ),
{
    let start = if has_same(inherited, base) {
        inherited
    } else {
        inherited.push(base)
    };
    let n = places.len() as int;
    let all = with_places(start, base, places, n);
    lemma_places_kept(start, base, places, n);
    law_deduped_keeps_every_path(all);
    assert(has_same(start, base)) by {
        if !has_same(inherited, base) {
            assert(path_parts(start)[inherited.len() as int] == base.parts);
        }
    }
    let b = path_parts(start).index_of(base.parts);
    assert(all.take(start.len() as int)[b] == all[b]);
    assert(path_parts(all)[b] == base.parts);
    if 0 <= i < inherited.len() {
        assert(start[i] == inherited[i]);
        assert(all.take(start.len() as int)[i] == all[i]);
        assert(path_parts(all)[i] == inherited[i].parts);
    }
    if 0 <= k < places.len() && static_reference(trim(places[k])) {
        lemma_place_named(start, base, places, n, k);
    }
}

/// A source that is named without an extension is looked for under its very name first, and then
/// with `.tex`. Any other source is the one that is named.
pub proof fn law_sources_are_named_with_or_without_extension(
    files: Seq<(PathView, StateView)>,
    path: PathView,
)
    ensures
        existence(files, path) == Some(true) ==> source_file(files, path) == Ok::<
            PathView,
            PathView,
        >(path),
        existence(files, path) == Some(false) && extension(path) is None ==> source_file(files, path)
            == Ok::<PathView, PathView>(with_extension(path, "tex"@)),
        existence(files, path) == Some(false) && extension(path) is Some ==> source_file(files, path)
            == Ok::<PathView, PathView>(path),
        existence(files, path) is None ==> source_file(files, path) == Err::<PathView, PathView>(
            path,
        ),
{
}

proof fn lemma_candidates(
    files: Seq<(PathView, StateView)>,
    path: PathView,
    from: int,
    at: int,
)
    requires
        0 <= from <= at < 6,
        existence(files, with_extension(path, graphics_extension(at))) == Some(true),
        forall|i: int|
            from <= i < at ==> existence(files, with_extension(path, #[trigger] graphics_extension(i)))
                == Some(false),
    ensures
        graphics_candidate(files, path, from) == Ok::<PathView, PathView>(
            with_extension(path, graphics_extension(at)),
        ),
    decreases at - from,
{
    if from < at {
        assert(existence(files, with_extension(path, graphics_extension(from))) == Some(false));
        lemma_candidates(files, path, from + 1, at);
    }
}

/// Graphics without an extension are looked for as PDF, PNG, JPEG under its two extensions, EPS and
/// SVG, in this order, and the first that is there is taken. A path that is a file, or that has an
/// extension, is taken as it is.
pub proof fn law_graphics_are_tried_in_order(files: Seq<(PathView, StateView)>, path: PathView, at: int)
    ensures
        existence(files, path) == Some(true) ==> graphics_file(files, path) == Ok::<
            PathView,
            PathView,
        >(path),
        existence(files, path) == Some(false) && extension(path) is Some ==> graphics_file(
            files,
            path,
        ) == Ok::<PathView, PathView>(path),
        existence(files, path) == Some(false) && extension(path) is None && 0 <= at < 6
            && existence(files, with_extension(path, graphics_extension(at))) == Some(true) && (
        forall|i: int|
            0 <= i < at ==> existence(files, with_extension(path, #[trigger] graphics_extension(i)))
                == Some(false)) ==> graphics_file(files, path) == Ok::<PathView, PathView>(
            with_extension(path, graphics_extension(at)),
        ),
        graphics_extension(0) == "pdf"@,
        graphics_extension(1) == "png"@,
        graphics_extension(2) == "jpg"@,
        graphics_extension(3) == "jpeg"@,
        graphics_extension(4) == "eps"@,
        graphics_extension(5) == "svg"@,
{
    if 0 <= at < 6 && existence(files, with_extension(path, graphics_extension(at))) == Some(true)
        && (forall|i: int|
        0 <= i < at ==> existence(files, with_extension(path, #[trigger] graphics_extension(i)))
            == Some(false)) {
        lemma_candidates(files, path, 0, at);
    }
}

proof fn lemma_places_searched(
    files: Seq<(PathView, StateView)>,
    candidate: PathView,
    places: Seq<PathView>,
    from: int,
    at: int,
)
    requires
        0 <= from <= at < places.len(),
        forall|i: int|
            from <= i < at ==> {
                let found = graphics_file(files, joined(#[trigger] places[i], candidate));
                found is Ok && existence(files, found->Ok_0) == Some(false)
            },
        graphics_file(files, joined(places[at], candidate)) is Ok,
        existence(files, graphics_file(files, joined(places[at], candidate))->Ok_0) == Some(true),
    ensures
        graphics_in_places(files, candidate, places, from) == Ok::<Option<PathView>, PathView>(
            Some(graphics_file(files, joined(places[at], candidate))->Ok_0),
        ),
    decreases at - from,
{
    if from < at {
        let found = graphics_file(files, joined(places[from], candidate));
        assert(found is Ok && existence(files, found->Ok_0) == Some(false));
        lemma_places_searched(files, candidate, places, from + 1, at);
    }
}

/// Graphics under a relative path are those of the first place that has them.
pub proof fn law_graphics_are_those_of_the_first_place(
    files: Seq<(PathView, StateView)>,
    raw: Seq<char>,
    places: Seq<PathView>,
    style: PathStyle,
    at: int,
)
    requires
        !absolute(parsed(style, trim(raw))),
        0 <= at < places.len(),
        forall|i: int|
            0 <= i < at ==> {
                let found = graphics_file(
                    files,
                    joined(#[trigger] places[i], parsed(style, trim(raw))),
                );
                found is Ok && existence(files, found->Ok_0) == Some(false)
            },
        graphics_file(files, joined(places[at], parsed(style, trim(raw)))) is Ok,
        existence(
            files,
            graphics_file(files, joined(places[at], parsed(style, trim(raw))))->Ok_0,
        ) == Some(true),
    ensures
        placed_graphics(files, raw, places, style) == Ok::<Option<PathView>, PathView>(
            Some(graphics_file(files, joined(places[at], parsed(style, trim(raw))))->Ok_0),
        ),
{
    lemma_places_searched(files, parsed(style, trim(raw)), places, 0, at);
}

/// What a command names: graphics are looked for in the places for graphics, and sources next to the
/// source. What is no plain path names nothing.
pub proof fn law_commands_name_files(
    files: Seq<(PathView, StateView)>,
    raw: Seq<char>,
    base: PathView,
    places: Seq<PathView>,
    command: Seq<char>,
)
    ensures
        !static_reference(trim(raw)) ==> related_file(files, command, raw, base, places) == Ok::<
            Option<PathView>,
            PathView,
        >(None),
        static_reference(trim(raw)) ==> related_file(files, "includegraphics"@, raw, base, places)
            == placed_graphics(files, raw, places, base.style),
        static_reference(trim(raw)) ==> related_file(files, "includepdf"@, raw, base, places)
            == placed_graphics(files, raw, places, base.style),
        static_reference(trim(raw)) && source_file(files, referenced(base, trim(raw))) is Ok
            ==> related_file(files, "input"@, raw, base, places) == Ok::<Option<PathView>, PathView>(
            Some(source_file(files, referenced(base, trim(raw)))->Ok_0),
        ) && related_file(files, "include"@, raw, base, places) == Ok::<Option<PathView>, PathView>(
            Some(source_file(files, referenced(base, trim(raw)))->Ok_0),
        ),
        inputs_source("input"@),
        inputs_source("include"@),
        !inputs_source("includegraphics"@),
        !inputs_source("includepdf"@),
{
    reveal_strlit("input");
    reveal_strlit("include");
    reveal_strlit("includegraphics");
    reveal_strlit("includepdf");
    assert("input"@.len() == 5);
    assert("include"@.len() == 7);
    assert("includegraphics"@.len() == 15);
    assert("includepdf"@.len() == 10);
}

proof fn lemma_same_kept(a: Seq<PathView>, b: Seq<PathView>, path: PathView)
    requires
        a.is_prefix_of(b),
        has_same(a, path),
    ensures
        has_same(b, path),
{
    let i = path_parts(a).index_of(path.parts);
    assert(a[i] == b[i]);
    assert(path_parts(b)[i] == path.parts);
}

proof fn lemma_step_adds(
    w: Walk,
    command: Seq<char>,
    argument: Seq<char>,
    base: PathView,
    places: Seq<PathView>,
    files: Seq<(PathView, StateView)>,
)
    ensures
        match reference_step(w, command, argument, base, places, files) {
            StepView::Done(next) => w.found.is_prefix_of(next.found) && w.visited.is_prefix_of(
                next.visited,
            ),
            StepView::Enter(next, _, _) => w.found.is_prefix_of(next.found)
                && w.visited.is_prefix_of(next.visited),
            StepView::Unknown(_) => true,
        },
{
}

proof fn lemma_source_walk_grows(
    tex: Seq<char>,
    base: PathView,
    inherited: Seq<PathView>,
    w: Walk,
    files: Seq<(PathView, StateView)>,
    depth: nat,
)
    requires
        walk_source(tex, base, inherited, w, files, depth) is Ok,
    ensures
        w.found.is_prefix_of(walk_source(tex, base, inherited, w, files, depth)->Ok_0.found),
    decreases depth, 1int, 0int,
{
    let text = without_comments(tex);
    lemma_walk_grows(
        all_groups(RELATED_FILE_PATTERN@, text, 1),
        all_groups(RELATED_FILE_PATTERN@, text, 2),
        0,
        base,
        search_places(inherited, base, named_places(text)),
        w,
        files,
        depth,
    );
}

proof fn lemma_walk_grows(
    commands: Seq<Seq<char>>,
    arguments: Seq<Seq<char>>,
    i: int,
    base: PathView,
    places: Seq<PathView>,
    w: Walk,
    files: Seq<(PathView, StateView)>,
    depth: nat,
)
    requires
        walk_references(commands, arguments, i, base, places, w, files, depth) is Ok,
    ensures
        w.found.is_prefix_of(
            walk_references(commands, arguments, i, base, places, w, files, depth)->Ok_0.found,
        ),
    decreases depth, 0int, commands.len() - i,
{
    if 0 <= i < commands.len() {
        lemma_step_adds(w, commands[i], arguments[i], base, places, files);
        match reference_step(w, commands[i], arguments[i], base, places, files) {
            StepView::Unknown(_) => {},
            StepView::Done(next) => {
                lemma_walk_grows(commands, arguments, i + 1, base, places, next, files, depth);
            },
            StepView::Enter(next, path, content) => {
                if depth > 0 {
                    let d = (depth - 1) as nat;
                    lemma_source_walk_grows(content, base_for(path, base), places, next, files, d);
                    let left = walk_source(
                        content,
                        base_for(path, base),
                        places,
                        next,
                        files,
                        d,
                    )->Ok_0;
                    lemma_walk_grows(commands, arguments, i + 1, base, places, left, files, depth);
                }
            },
        }
    }
}

proof fn lemma_reference_found(
    commands: Seq<Seq<char>>,
    arguments: Seq<Seq<char>>,
    i: int,
    k: int,
    base: PathView,
    places: Seq<PathView>,
    w: Walk,
    files: Seq<(PathView, StateView)>,
    depth: nat,
    path: PathView,
)
    requires
        0 <= i <= k < commands.len(),
        depth > 0,
        walk_references(commands, arguments, i, base, places, w, files, depth) is Ok,
        trim(arguments[k]).len() > 0,
        related_file(files, commands[k], trim(arguments[k]), base, places) == Ok::<
            Option<PathView>,
            PathView,
        >(Some(path)),
    ensures
        has_same(
            walk_references(commands, arguments, i, base, places, w, files, depth)->Ok_0.found,
            path,
        ),
    decreases k - i,
{
    let result = walk_references(commands, arguments, i, base, places, w, files, depth)->Ok_0;
    if i == k {
        let known = with_found(w, path);
        assert(has_same(known.found, path)) by {
            if !has_same(w.found, path) {
                assert(path_parts(known.found)[w.found.len() as int] == path.parts);
            }
        }
        match reference_step(w, commands[i], arguments[i], base, places, files) {
            StepView::Unknown(_) => {},
            StepView::Done(next) => {
                assert(next.found == known.found);
                lemma_walk_grows(commands, arguments, i + 1, base, places, next, files, depth);
                lemma_same_kept(next.found, result.found, path);
            },
            StepView::Enter(next, p, content) => {
                assert(next.found == known.found);
                let d = (depth - 1) as nat;
                lemma_source_walk_grows(content, base_for(p, base), places, next, files, d);
                let left = walk_source(content, base_for(p, base), places, next, files, d)->Ok_0;
                lemma_walk_grows(commands, arguments, i + 1, base, places, left, files, depth);
                lemma_same_kept(next.found, left.found, path);
                lemma_same_kept(left.found, result.found, path);
            },
        }
    } else {
        match reference_step(w, commands[i], arguments[i], base, places, files) {
            StepView::Unknown(_) => {},
            StepView::Done(next) => {
                lemma_reference_found(
                    commands,
                    arguments,
                    i + 1,
                    k,
                    base,
                    places,
                    next,
                    files,
                    depth,
                    path,
                );
            },
            StepView::Enter(next, p, content) => {
                let left = walk_source(
                    content,
                    base_for(p, base),
                    places,
                    next,
                    files,
                    (depth - 1) as nat,
                )->Ok_0;
                lemma_reference_found(
                    commands,
                    arguments,
                    i + 1,
                    k,
                    base,
                    places,
                    left,
                    files,
                    depth,
                    path,
                );
            },
        }
    }
}

/// Every file that a source names is found, whichever other files it names: what command number `k`
/// of the source means, seen from its directory and in its places for graphics, is among the files
/// that are found.
pub proof fn law_every_named_file_is_found(
    tex: Seq<char>,
    base: PathView,
    inherited: Seq<PathView>,
    w: Walk,
    files: Seq<(PathView, StateView)>,
    depth: nat,
    k: int,
    path: PathView,
)
    requires
        depth > 0,
        walk_source(tex, base, inherited, w, files, depth) is Ok,
        ({
            let text = without_comments(tex);
            let commands = all_groups(RELATED_FILE_PATTERN@, text, 1);
            let arguments = all_groups(RELATED_FILE_PATTERN@, text, 2);
            &&& 0 <= k < commands.len()
            &&& trim(arguments[k]).len() > 0
            &&& related_file(
                files,
                commands[k],
                trim(arguments[k]),
                base,
                search_places(inherited, base, named_places(text)),
            ) == Ok::<Option<PathView>, PathView>(Some(path))
        }),
    ensures
        has_same(walk_source(tex, base, inherited, w, files, depth)->Ok_0.found, path),
        w.found.is_prefix_of(walk_source(tex, base, inherited, w, files, depth)->Ok_0.found),
{
    let text = without_comments(tex);
    lemma_source_walk_grows(tex, base, inherited, w, files, depth);
    lemma_reference_found(
        all_groups(RELATED_FILE_PATTERN@, text, 1),
        all_groups(RELATED_FILE_PATTERN@, text, 2),
        0,
        k,
        base,
        search_places(inherited, base, named_places(text)),
        w,
        files,
        depth,
        path,
    );
}

/// A source that is put in and was not looked into before is looked into: what is found behind it,
/// from its own directory and in the places for graphics that it inherits, is found in the end.
pub proof fn law_sources_that_are_put_in_are_looked_into(
    commands: Seq<Seq<char>>,
    arguments: Seq<Seq<char>>,
    i: int,
    base: PathView,
    places: Seq<PathView>,
    w: Walk,
    files: Seq<(PathView, StateView)>,
    depth: nat,
    path: PathView,
    content: Seq<char>,
)
    requires
        0 <= i < commands.len(),
        depth > 0,
        walk_references(commands, arguments, i, base, places, w, files, depth) is Ok,
        commands[i] == "input"@ || commands[i] == "include"@,
        trim(arguments[i]).len() > 0,
        related_file(files, commands[i], trim(arguments[i]), base, places) == Ok::<
            Option<PathView>,
            PathView,
        >(Some(path)),
        !has_same(w.visited, path),
        state_of(files, path) == Some(StateView::Text(content)),
    ensures
        ({
            let next = Walk {
                visited: w.visited.push(path),
                found: with_found(w, path).found,
            };
            let inner = walk_source(
                content,
                base_for(path, base),
                places,
                next,
                files,
                (depth - 1) as nat,
            );
            &&& inner is Ok
            &&& inner->Ok_0.found.is_prefix_of(
                walk_references(
                    commands,
                    arguments,
                    i,
                    base,
                    places,
                    w,
                    files,
                    depth,
                )->Ok_0.found,
            )
        }),
{
    let next = Walk { visited: w.visited.push(path), found: with_found(w, path).found };
    assert(reference_step(w, commands[i], arguments[i], base, places, files) == StepView::Enter(
        next,
        path,
        content,
    ));
    let left = walk_source(
        content,
        base_for(path, base),
        places,
        next,
        files,
        (depth - 1) as nat,
    )->Ok_0;
    lemma_walk_grows(commands, arguments, i + 1, base, places, left, files, depth);
}

/// References of a source are seen from the directory that the source is in.
pub proof fn law_sources_are_seen_from_their_own_directory(path: PathView, base: PathView)
    ensures
        parent(path) is Some ==> base_for(path, base) == parent(path)->0,
        parent(path) is None ==> base_for(path, base) == base,
{
}

/// What is commented out names no files: sources that are the same but for their comments lead to
/// the same files.
pub proof fn law_comments_name_no_files(
    a: Seq<char>,
    b: Seq<char>,
    base: PathView,
    inherited: Seq<PathView>,
    w: Walk,
    files: Seq<(PathView, StateView)>,
    depth: nat,
)
    requires
        without_comments(a) == without_comments(b),
    ensures
        walk_source(a, base, inherited, w, files, depth) == walk_source(
            b,
            base,
            inherited,
            w,
            files,
            depth,
        ),
{
}

/// Every place that a source names is one where graphics are looked for, in whichever of its lists
/// of places it stands.
pub proof fn law_every_list_of_places_counts(lists: Seq<Seq<char>>, k: int, m: int)
    requires
        0 <= k < lists.len(),
        0 <= m < all_groups(GRAPHICSPATH_ENTRY_PATTERN@, lists[k], 1).len(),
    ensures
        places_in(lists).contains(all_groups(GRAPHICSPATH_ENTRY_PATTERN@, lists[k], 1)[m]),
    decreases lists.len(),
{
    let before = places_in(lists.drop_last());
    let entries = all_groups(GRAPHICSPATH_ENTRY_PATTERN@, lists[k], 1);
    if k < lists.len() - 1 {
        law_every_list_of_places_counts(lists.drop_last(), k, m);
        let i = before.index_of(entries[m]);
        assert(places_in(lists)[i] == entries[m]);
    } else {
        assert(places_in(lists)[before.len() + m] == entries[m]);
    }
}

}
