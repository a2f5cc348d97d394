//! Paths: how they are written, and the components that they are read as.
use crate::path_parts::{
    copy_component, first_prefix, is_separator, is_verbatim_prefix, lemma_plain_text, named,
    part_views, plain_text, prefix_len, prefix_length, push_components, push_named,
    read_components, same_component, separates, separator, separator_of, text_parts, verbatim,
    PartView, PathComponent, PathPrefix, PathStyle, PrefixView,
};
use crate::search::{ascii_digit, ascii_letter, is_digit, is_letter};
use crate::text::{chars_of, owned, push_all, string_of};
use vstd::prelude::*;

verus! {

/// A path: the text that it is written as, and its components from the outermost to the innermost.
/// Two paths are the same where their components are.
#[derive(Clone, Debug)]
pub struct FilePath {
    pub style: PathStyle,
    pub components: Vec<PathComponent>,
    pub text: String,
}

/// What a path holds.
#[verifier::ext_equal]
pub struct PathView {
    pub style: PathStyle,
    pub parts: Seq<PartView>,
    pub text: Seq<char>,
}

impl View for FilePath {
    type V = PathView;

    open spec fn view(&self) -> PathView {
        PathView { style: self.style, parts: part_views(self.components@), text: self.text@ }
    }
}

/// What the paths of a sequence hold.
pub open spec fn path_views(v: Seq<FilePath>) -> Seq<PathView> {
    v.map_values(|p: FilePath| p@)
}

/// What a path holds, where there is one.
pub open spec fn optional_path(p: Option<FilePath>) -> Option<PathView> {
    match p {
        Some(path) => Some(path@),
        None => None,
    }
}

// ---------------------------------------------------------------------------
// Names and extensions
// ---------------------------------------------------------------------------

/// The position of the dot in front of the extension of a file name: the last dot, where it is
/// not the first character. Without one, the length of the name.
pub open spec fn dot_index(name: Seq<char>, to: int) -> int
    decreases to,
{
    if to <= 1 || to > name.len() {
        name.len() as int
    } else if name[to - 1] == '.' {
        to - 1
    } else {
        dot_index(name, to - 1)
    }
}

/// A file name without its extension.
pub open spec fn stem(name: Seq<char>) -> Seq<char> {
    name.take(dot_index(name, name.len() as int))
}

/// The extension of a file name.
pub open spec fn name_extension(name: Seq<char>) -> Option<Seq<char>> {
    let dot = dot_index(name, name.len() as int);
    if dot < name.len() {
        Some(name.skip(dot + 1))
    } else {
        None
    }
}

/// A file name with another extension.
pub open spec fn name_with_extension(name: Seq<char>, ext: Seq<char>) -> Seq<char> {
    if ext.len() == 0 {
        stem(name)
    } else {
        stem(name).push('.') + ext
    }
}

fn find_dot(name: &[char]) -> (r: usize)
    ensures
        r == dot_index(name@, name@.len() as int),
        r <= name@.len(),
{
    let mut to: usize = name.len();
    while to > 1
        invariant
            to <= name.len(),
            dot_index(name@, to as int) == dot_index(name@, name@.len() as int),
        decreases to,
    {
        if name[to - 1] == '.' {
            return to - 1;
        }
        to -= 1;
    }
    name.len()
}

/// `name` with the extension `ext` in place of its own.
pub fn file_name_with_extension(name: &str, ext: &str) -> (r: String)
    ensures
        r@ == name_with_extension(name@, ext@),
{
    let chars = chars_of(name);
    let dot = find_dot(&chars);
    let mut out = String::new();
    push_all(&mut out, &chars[0..dot]);
    assert(out@ =~= stem(name@));
    if !ext.is_empty() {
        out.push('.');
        out.push_str(ext);
    }
    out
}

// ---------------------------------------------------------------------------
// Paths
// ---------------------------------------------------------------------------

/// The path that a text stands for.
pub open spec fn parsed(style: PathStyle, text: Seq<char>) -> PathView {
    PathView { style, parts: text_parts(style, text), text }
}

/// The path that is nothing but a name.
pub open spec fn lone_name(style: PathStyle, name: Seq<char>) -> PathView {
    PathView { style, parts: seq![PartView::Normal(name)], text: name }
}

/// The innermost component, where it is a name.
pub open spec fn file_name(path: PathView) -> Option<Seq<char>> {
    if path.parts.len() > 0 {
        match path.parts.last() {
            PartView::Normal(n) => Some(n),
            _ => None,
        }
    } else {
        None
    }
}

/// The prefix of a path, as a component.
pub open spec fn prefix_of(parts: Seq<PartView>) -> Seq<PartView> {
    if first_prefix(parts) is Some {
        parts.take(1)
    } else {
        Seq::empty()
    }
}

/// Whether a path starts at a root. On Windows it takes a prefix too.
pub open spec fn absolute(path: PathView) -> bool {
    match path.style {
        PathStyle::Unix => path.parts.len() > 0 && path.parts[0] is RootDir,
        PathStyle::Windows => match first_prefix(path.parts) {
            Some(PrefixView::Disk(_)) => path.parts.len() > 1 && path.parts[1] is RootDir,
            Some(_) => true,
            None => false,
        },
    }
}

/// Whether `path` is `base` or in it.
pub open spec fn inside(path: PathView, base: PathView) -> bool {
    &&& base.parts.len() <= path.parts.len()
    &&& path.parts.take(base.parts.len() as int) == base.parts
}

/// Whether two paths are the same.
pub open spec fn same_path(a: PathView, b: PathView) -> bool {
    a.parts == b.parts
}

/// The extension of the innermost name of a path.
pub open spec fn extension(path: PathView) -> Option<Seq<char>> {
    match file_name(path) {
        Some(name) => name_extension(name),
        None => None,
    }
}

// ---------------------------------------------------------------------------
// Components in the text of a path
// ---------------------------------------------------------------------------

/// Whether a character of a path separates its names.
pub open spec fn separates_in(path: PathView, c: char) -> bool {
    separates(path.style, verbatim(first_prefix(path.parts)), c)
}

/// Where the prefix of a path ends in its text.
pub open spec fn prefix_end(path: PathView) -> int {
    let n = prefix_len(first_prefix(path.parts)) as int;
    if n <= path.text.len() {
        n
    } else {
        path.text.len() as int
    }
}

/// Where the names of a path start in its text: behind its prefix, and behind a root or a leading
/// `.`.
pub open spec fn names_start(path: PathView) -> int {
    let n = prefix_end(path);
    if n < path.text.len() && (separates_in(path, path.text[n]) || (path.parts.len() > 0
        && path.parts[0] is CurDir)) {
        n + 1
    } else {
        n
    }
}

/// Where the last component of the first `to` characters of a path ends: trailing separators and
/// `.` belong to none.
pub open spec fn component_end(path: PathView, to: int) -> int
    decreases to,
{
    if to <= names_start(path) || to > path.text.len() || to <= 0 {
        to
    } else if separates_in(path, path.text[to - 1]) {
        component_end(path, to - 1)
    } else if !verbatim(first_prefix(path.parts)) && path.text[to - 1] == '.' && (to - 1
        <= names_start(path) || separates_in(path, path.text[to - 2])) {
        component_end(path, to - 1)
    } else {
        to
    }
}

/// Where the component that ends at `end` starts.
pub open spec fn component_start(path: PathView, end: int) -> int
    decreases end,
{
    if end <= names_start(path) || end > path.text.len() || end <= 0 || separates_in(
        path,
        path.text[end - 1],
    ) {
        end
    } else {
        component_start(path, end - 1)
    }
}

/// Where the innermost component of a path starts.
pub open spec fn last_start(path: PathView) -> int {
    component_start(path, component_end(path, path.text.len() as int))
}

/// How far the text goes of the path that a path is in: to the component before the innermost one.
pub open spec fn parent_end(path: PathView) -> int {
    let end = component_end(path, path.text.len() as int);
    if end > names_start(path) {
        let start = component_start(path, end);
        component_end(
            path,
            if start > names_start(path) {
                start - 1
            } else {
                start
            },
        )
    } else {
        prefix_end(path)
    }
}

/// Where the innermost `k` components of the first `to` characters of a path start.
pub open spec fn tail_start(path: PathView, to: int, k: nat) -> int
    decreases k,
{
    if k == 0 {
        to
    } else if component_end(path, to) <= names_start(path) {
        prefix_end(path)
    } else {
        tail_start(path, component_start(path, component_end(path, to)), (k - 1) as nat)
    }
}

/// The path that a path is in. A root is in none, and neither is the empty path.
pub open spec fn parent(path: PathView) -> Option<PathView> {
    if path.parts.len() > 0 && (path.parts.last() is CurDir || path.parts.last() is ParentDir
        || path.parts.last() is Normal) {
        Some(
            PathView {
                parts: path.parts.drop_last(),
                text: path.text.take(parent_end(path)),
                ..path
            },
        )
    } else {
        None
    }
}

/// The path below the first `n` components of a path.
pub open spec fn below(path: PathView, n: int) -> PathView {
    let end = component_end(path, path.text.len() as int);
    let start = tail_start(path, end, (path.parts.len() - n) as nat);
    PathView {
        parts: path.parts.skip(n),
        text: if n == 0 {
            path.text.take(end)
        } else if start <= end {
            path.text.subrange(start, end)
        } else {
            Seq::empty()
        },
        ..path
    }
}

/// A path whose innermost name has another extension.
pub open spec fn with_extension(path: PathView, ext: Seq<char>) -> PathView {
    match file_name(path) {
        Some(name) => PathView {
            parts: path.parts.drop_last() + named(
                name_with_extension(name, ext),
                verbatim(first_prefix(path.parts)),
            ),
            text: path.text.take(last_start(path)) + name_with_extension(name, ext),
            ..path
        },
        None => path,
    }
}

impl FilePath {
    fn prefix(&self) -> (r: Option<&PathPrefix>)
        ensures
            match r {
                Some(p) => first_prefix(self@.parts) == Some(p@),
                None => first_prefix(self@.parts) is None,
            },
    {
        if self.components.len() > 0 {
            assert(self@.parts[0] == self.components@[0]@);
            match &self.components[0] {
                PathComponent::Prefix(p) => Some(p),
                _ => None,
            }
        } else {
            None
        }
    }

    fn is_verbatim(&self) -> (r: bool)
        ensures
            r == verbatim(first_prefix(self@.parts)),
    {
        match self.prefix() {
            Some(p) => is_verbatim_prefix(p),
            None => false,
        }
    }

    fn end_of_prefix(&self, chars: &[char]) -> (r: usize)
        requires
            chars@ == self.text@,
        ensures
            r == prefix_end(self@),
            r <= chars@.len(),
    {
        match self.prefix() {
            Some(p) => prefix_length(p, chars.len()),
            None => 0,
        }
    }

    fn start_of_names(&self, chars: &[char]) -> (r: usize)
        requires
            chars@ == self.text@,
        ensures
            r == names_start(self@),
            r <= chars@.len(),
    {
        let n = self.end_of_prefix(chars);
        if n < chars.len() {
            if is_separator(self.style, self.is_verbatim(), chars[n]) {
                return n + 1;
            }
            if self.components.len() > 0 {
                assert(self@.parts[0] == self.components@[0]@);
                if let PathComponent::CurDir = &self.components[0] {
                    return n + 1;
                }
            }
        }
        n
    }

    fn end_of_component(&self, chars: &[char], to: usize) -> (r: usize)
        requires
            chars@ == self.text@,
            to <= chars@.len(),
        ensures
            r == component_end(self@, to as int),
            r <= to,
    {
        let start = self.start_of_names(chars);
        let is_verbatim = self.is_verbatim();
        let mut end: usize = to;
        while end > start
            invariant
                end <= to <= chars@.len(),
                chars@ == self.text@,
                start == names_start(self@),
                is_verbatim == verbatim(first_prefix(self@.parts)),
                component_end(self@, end as int) == component_end(self@, to as int),
            decreases end,
        {
            if is_separator(self.style, is_verbatim, chars[end - 1]) {
                end -= 1;
            } else if !is_verbatim && chars[end - 1] == '.' && (end - 1 <= start || is_separator(
                self.style,
                is_verbatim,
                chars[end - 2],
            )) {
                end -= 1;
            } else {
                return end;
            }
        }
        end
    }

    fn start_of_component(&self, chars: &[char], end: usize) -> (r: usize)
        requires
            chars@ == self.text@,
            end <= chars@.len(),
        ensures
            r == component_start(self@, end as int),
            r <= end,
    {
        let first = self.start_of_names(chars);
        let is_verbatim = self.is_verbatim();
        let mut start: usize = end;
        while start > first
            invariant
                start <= end <= chars@.len(),
                chars@ == self.text@,
                first == names_start(self@),
                is_verbatim == verbatim(first_prefix(self@.parts)),
                component_start(self@, start as int) == component_start(self@, end as int),
            decreases start,
        {
            if is_separator(self.style, is_verbatim, chars[start - 1]) {
                return start;
            }
            start -= 1;
        }
        start
    }

    fn start_of_tail(&self, chars: &[char], to: usize, k: usize) -> (r: usize)
        requires
            chars@ == self.text@,
            to <= chars@.len(),
        ensures
            r == tail_start(self@, to as int, k as nat),
    {
        let first = self.start_of_names(chars);
        let mut start: usize = to;
        let mut left: usize = k;
        while left > 0
            invariant
                start <= chars@.len(),
                chars@ == self.text@,
                first == names_start(self@),
                tail_start(self@, start as int, left as nat) == tail_start(
                    self@,
                    to as int,
                    k as nat,
                ),
            decreases left,
        {
            let end = self.end_of_component(chars, start);
            if end <= first {
                return self.end_of_prefix(chars);
            }
            start = self.start_of_component(chars, end);
            left -= 1;
        }
        start
    }

    /// The path that `text` stands for on Unix.
    pub fn parse(text: &str) -> (r: FilePath)
        ensures
            r@ == parsed(PathStyle::Unix, text@),
    {
        FilePath::parse_as(text, PathStyle::Unix)
    }

    /// The path that `text` stands for.
    pub fn parse_as(text: &str, style: PathStyle) -> (r: FilePath)
        ensures
            r@ == parsed(style, text@),
    {
        let chars = chars_of(text);
        let components = read_components(style, &chars);
        FilePath { style, components, text: owned(text) }
    }

    /// The path that is nothing but a name.
    pub fn lone(name: &str, style: PathStyle) -> (r: FilePath)
        ensures
            r@ == lone_name(style, name@),
    {
        let mut components: Vec<PathComponent> = Vec::new();
        push_name(&mut components, name);
        assert(part_views(components@) =~= seq![PartView::Normal(name@)]);
        FilePath { style, components, text: owned(name) }
    }

    /// A copy of the path.
    pub fn copy(&self) -> (r: FilePath)
        ensures
            r@ == self@,
    {
        let mut out: Vec<PathComponent> = Vec::new();
        push_components(&mut out, &self.components, 0, self.components.len());
        assert(part_views(out@) =~= self@.parts);
        FilePath { style: self.style, components: out, text: owned(self.text.as_str()) }
    }

    /// Whether two paths are the same.
    pub fn same_as(&self, other: &FilePath) -> (r: bool)
        ensures
            r == same_path(self@, other@),
    {
        assert(self@.parts.len() == self.components@.len());
        assert(other@.parts.len() == other.components@.len());
        self.components.len() == other.components.len() && self.is_inside(other)
    }

    /// Whether the path is `base` or in it.
    pub fn is_inside(&self, base: &FilePath) -> (r: bool)
        ensures
            r == inside(self@, base@),
            self@.parts.len() == base@.parts.len() ==> r == same_path(self@, base@),
    {
        let n = base.components.len();
        if n > self.components.len() {
            return false;
        }
        let mut i: usize = 0;
        while i < n
            invariant
                i <= n <= self.components@.len(),
                n == base.components@.len(),
                forall|j: int| 0 <= j < i ==> self@.parts[j] == #[trigger] base@.parts[j],
            decreases n - i,
        {
            if !same_component(&self.components[i], &base.components[i]) {
                assert(self@.parts[i as int] != base@.parts[i as int]);
                assert(self@.parts.take(n as int)[i as int] == self@.parts[i as int]);
                return false;
            }
            assert(self@.parts[i as int] == base@.parts[i as int]);
            i += 1;
        }
        assert(self@.parts.take(n as int) =~= base@.parts);
        assert(self@.parts.len() == base@.parts.len() ==> self@.parts =~= base@.parts);
        true
    }

    /// The innermost component, where it is a name.
    pub fn file_name(&self) -> (r: Option<&str>)
        ensures
            match r {
                Some(n) => file_name(self@) == Some(n@),
                None => file_name(self@) is None,
            },
    {
        let n = self.components.len();
        if n == 0 {
            return None;
        }
        assert(self@.parts.last() == self.components@[n - 1]@);
        match &self.components[n - 1] {
            PathComponent::Normal(name) => Some(name.as_str()),
            _ => None,
        }
    }

    /// The innermost component without its extension, where it is a name.
    pub fn file_stem(&self) -> (r: Option<String>)
        ensures
            match r {
                Some(n) => file_name(self@) is Some && n@ == stem(file_name(self@)->0),
                None => file_name(self@) is None,
            },
    {
        match self.file_name() {
            Some(name) => {
                let chars = chars_of(name);
                let dot = find_dot(&chars);
                let head = &chars[0..dot];
                assert(head@ =~= stem(name@));
                Some(string_of(head))
            },
            None => None,
        }
    }

    /// The path that the path is in.
    pub fn parent(&self) -> (r: Option<FilePath>)
        ensures
            match r {
                Some(p) => parent(self@) == Some(p@),
                None => parent(self@) is None,
            },
    {
        let n = self.components.len();
        if n == 0 {
            return None;
        }
        assert(self@.parts.last() == self.components@[n - 1]@);
        match &self.components[n - 1] {
            PathComponent::Prefix(_) => None,
            PathComponent::RootDir => None,
            _ => {
                let mut out: Vec<PathComponent> = Vec::new();
                push_components(&mut out, &self.components, 0, n - 1);
                assert(part_views(out@) =~= self@.parts.drop_last());
                let chars = chars_of(self.text.as_str());
                let first = self.start_of_names(&chars);
                let end = self.end_of_component(&chars, chars.len());
                let cut = if end > first {
                    let start = self.start_of_component(&chars, end);
                    let before: usize = if start > first {
                        start - 1
                    } else {
                        start
                    };
                    self.end_of_component(&chars, before)
                } else {
                    self.end_of_prefix(&chars)
                };
                let head = &chars[0..cut];
                assert(head@ =~= self.text@.take(parent_end(self@)));
                let path = FilePath { style: self.style, components: out, text: string_of(head) };
                Some(path)
            },
        }
    }

    /// Whether the path starts at a root.
    pub fn is_absolute(&self) -> (r: bool)
        ensures
            r == absolute(self@),
    {
        let n = self.components.len();
        match self.style {
            PathStyle::Unix => {
                if n == 0 {
                    return false;
                }
                assert(self@.parts[0] == self.components@[0]@);
                match &self.components[0] {
                    PathComponent::RootDir => true,
                    _ => false,
                }
            },
            PathStyle::Windows => match self.prefix() {
                Some(PathPrefix::Disk(_)) => {
                    if n < 2 {
                        return false;
                    }
                    assert(self@.parts[1] == self.components@[1]@);
                    match &self.components[1] {
                        PathComponent::RootDir => true,
                        _ => false,
                    }
                },
                Some(_) => true,
                None => false,
            },
        }
    }

    /// The path below `base`, where the path is in it.
    pub fn strip_prefix(&self, base: &FilePath) -> (r: Option<FilePath>)
        ensures
            match r {
                Some(p) => inside(self@, base@) && p@ == below(
                    self@,
                    base@.parts.len() as int,
                ),
                None => !inside(self@, base@),
            },
    {
        if !self.is_inside(base) {
            return None;
        }
        let n = base.components.len();
        let mut out: Vec<PathComponent> = Vec::new();
        push_components(&mut out, &self.components, n, self.components.len());
        assert(part_views(out@) =~= self@.parts.skip(n as int));
        let chars = chars_of(self.text.as_str());
        let end = self.end_of_component(&chars, chars.len());
        let start = self.start_of_tail(&chars, end, self.components.len() - n);
        let rest = if n == 0 {
            &chars[0..end]
        } else if start <= end {
            &chars[start..end]
        } else {
            &chars[0..0]
        };
        assert(rest@ =~= below(self@, n as int).text);
        Some(FilePath { style: self.style, components: out, text: string_of(rest) })
    }

    /// The path with the extension `ext` in place of the one of its innermost name.
    pub fn with_extension(&self, ext: &str) -> (r: FilePath)
        ensures
            r@ == with_extension(self@, ext@),
    {
        let n = self.components.len();
        match self.file_name() {
            Some(name) => {
                let renamed = file_name_with_extension(name, ext);
                let mut out: Vec<PathComponent> = Vec::new();
                push_components(&mut out, &self.components, 0, n - 1);
                assert(part_views(out@) =~= self@.parts.drop_last());
                let new_name = chars_of(renamed.as_str());
                push_named(&mut out, &new_name, self.is_verbatim());
                let chars = chars_of(self.text.as_str());
                let end = self.end_of_component(&chars, chars.len());
                let start = self.start_of_component(&chars, end);
                let head = &chars[0..start];
                assert(head@ =~= self.text@.take(last_start(self@)));
                let mut text = string_of(head);
                text.push_str(renamed.as_str());
                FilePath { style: self.style, components: out, text }
            },
            None => self.copy(),
        }
    }

    /// The extension of the innermost name of the path.
    pub fn extension(&self) -> (r: Option<String>)
        ensures
            match r {
                Some(e) => extension(self@) == Some(e@),
                None => extension(self@) is None,
            },
    {
        match self.file_name() {
            Some(name) => {
                let chars = chars_of(name);
                let dot = find_dot(&chars);
                if dot < chars.len() {
                    let tail = &chars[dot + 1..chars.len()];
                    assert(tail@ =~= name@.skip(dot + 1));
                    Some(string_of(tail))
                } else {
                    None
                }
            },
            None => None,
        }
    }
}

impl PartialEq for FilePath {
    fn eq(&self, other: &FilePath) -> (r: bool) {
        self.same_as(other)
    }
}

impl vstd::std_specs::cmp::PartialEqSpecImpl for FilePath {
    open spec fn obeys_eq_spec() -> bool {
        true
    }

    open spec fn eq_spec(&self, other: &FilePath) -> bool {
        same_path(self@, other@)
    }
}

// ---------------------------------------------------------------------------
// Joining paths
// ---------------------------------------------------------------------------

/// How a component is written.
pub open spec fn part_text(style: PathStyle, part: PartView) -> Seq<char> {
    match part {
        PartView::Prefix(_) => Seq::empty(),
        PartView::RootDir => seq![separator(style)],
        PartView::CurDir => "."@,
        PartView::ParentDir => ".."@,
        PartView::Normal(n) => n,
    }
}

/// Whether a separator goes between a component and the next one.
pub open spec fn needs_separator(part: PartView) -> bool {
    part is CurDir || part is ParentDir || part is Normal
}

/// How components without a prefix are written, with a separator between names.
pub open spec fn rendered(style: PathStyle, parts: Seq<PartView>) -> Seq<char>
    decreases parts.len(),
{
    if parts.len() == 0 {
        Seq::empty()
    } else if parts.len() > 1 && needs_separator(parts[parts.len() - 2]) {
        rendered(style, parts.drop_last()).push(separator(style)) + part_text(style, parts.last())
    } else {
        rendered(style, parts.drop_last()) + part_text(style, parts.last())
    }
}

/// How components behind a prefix are written.
pub open spec fn rendered_behind(style: PathStyle, parts: Seq<PartView>) -> Seq<char> {
    if parts.len() > 0 && !(parts[0] is RootDir) {
        seq![separator(style)] + rendered(style, parts)
    } else {
        rendered(style, parts)
    }
}

/// The components `more` behind the components `parts` of a verbatim path: `.` is left out, and
/// `..` takes the name before it away.
pub open spec fn folded(parts: Seq<PartView>, more: Seq<PartView>) -> Seq<PartView>
    decreases more.len(),
{
    if more.len() == 0 {
        parts
    } else {
        let before = folded(parts, more.drop_last());
        match more.last() {
            PartView::RootDir => seq![PartView::RootDir],
            PartView::CurDir => before,
            PartView::ParentDir => if before.len() > 0 && before.last() is Normal {
                before.drop_last()
            } else {
                before
            },
            _ => before.push(more.last()),
        }
    }
}

/// What goes between the text of a path and a relative path behind it.
pub open spec fn gap(path: PathView) -> Seq<char> {
    if path.text.len() == 0 || separates(path.style, false, path.text.last()) || (
    first_prefix(path.parts) matches Some(PrefixView::Disk(_)) && path.text.len() == 2) {
        Seq::empty()
    } else {
        seq![separator(path.style)]
    }
}

/// `other` as seen from `base`.
pub open spec fn joined(base: PathView, other: PathView) -> PathView {
    if absolute(other) || first_prefix(other.parts) is Some {
        PathView { style: base.style, ..other }
    } else if verbatim(first_prefix(base.parts)) && other.text.len() > 0 {
        let rest = folded(base.parts.skip(1), other.parts);
        PathView {
            parts: base.parts.take(1) + rest,
            text: base.text.take(prefix_end(base)) + rendered_behind(base.style, rest),
            ..base
        }
    } else if other.parts.len() > 0 && other.parts[0] is RootDir {
        PathView {
            parts: prefix_of(base.parts) + other.parts,
            text: base.text.take(prefix_end(base)) + other.text,
            ..base
        }
    } else {
        PathView {
            parts: if base.parts.len() > 0 && other.parts.len() > 0 && other.parts[0] is CurDir {
                base.parts + other.parts.skip(1)
            } else {
                base.parts + other.parts
            },
            text: base.text + gap(base) + other.text,
            ..base
        }
    }
}

/// The path of what is called `name` in a path.
pub open spec fn child(path: PathView, name: Seq<char>) -> PathView {
    joined(path, lone_name(path.style, name))
}

/// What is called `name` in a path has that name.
pub proof fn law_child_has_its_name(path: PathView, name: Seq<char>)
    ensures
        file_name(child(path, name)) == Some(name),
        child(path, name).parts == path.parts.push(PartView::Normal(name)),
{
    let parts = lone_name(path.style, name).parts;
    if verbatim(first_prefix(path.parts)) {
        assert(parts.drop_last() =~= Seq::<PartView>::empty());
        assert(folded(path.parts.skip(1), parts.drop_last()) == path.parts.skip(1));
    }
    assert(child(path, name).parts =~= path.parts.push(PartView::Normal(name)));
}

fn push_part_text(out: &mut String, c: &PathComponent, style: PathStyle)
    ensures
        final(out)@ == old(out)@ + part_text(style, c@),
{
    let ghost before = out@;
    match c {
        PathComponent::Prefix(_) => {
            assert(out@ =~= before + part_text(style, c@));
        },
        PathComponent::RootDir => out.push(separator_of(style)),
        PathComponent::CurDir => out.push_str("."),
        PathComponent::ParentDir => out.push_str(".."),
        PathComponent::Normal(n) => out.push_str(n.as_str()),
    }
    assert(out@ =~= before + part_text(style, c@));
}

fn render(components: &Vec<PathComponent>, style: PathStyle) -> (r: String)
    ensures
        r@ == rendered(style, part_views(components@)),
{
    let ghost all = part_views(components@);
    let mut out = String::new();
    let mut i: usize = 0;
    assert(all.take(0) =~= Seq::<PartView>::empty());
    while i < components.len()
        invariant
            i <= components.len(),
            all == part_views(components@),
            out@ == rendered(style, all.take(i as int)),
        decreases components.len() - i,
    {
        if i > 0 {
            let parted = match &components[i - 1] {
                PathComponent::Prefix(_) => false,
                PathComponent::RootDir => false,
                _ => true,
            };
            assert(parted == needs_separator(all[i - 1]));
            if parted {
                out.push(separator_of(style));
            }
        }
        push_part_text(&mut out, &components[i], style);
        i += 1;
        let ghost done = all.take(i as int);
        assert(done.drop_last() =~= all.take(i - 1));
        assert(done.last() == components@[i - 1]@);
        assert(out@ =~= rendered(style, done));
    }
    assert(all.take(i as int) =~= all);
    out
}

fn fold_into(rest: &mut Vec<PathComponent>, more: &Vec<PathComponent>)
    ensures
        part_views(final(rest)@) == folded(part_views(old(rest)@), part_views(more@)),
{
    let ghost start = part_views(rest@);
    let ghost all = part_views(more@);
    let mut i: usize = 0;
    assert(all.take(0) =~= Seq::<PartView>::empty());
    while i < more.len()
        invariant
            i <= more.len(),
            all == part_views(more@),
            part_views(rest@) == folded(start, all.take(i as int)),
        decreases more.len() - i,
    {
        let ghost before = rest@;
        let ghost done = all.take(i + 1);
        assert(done.drop_last() =~= all.take(i as int));
        assert(done.last() == more@[i as int]@);
        assert(part_views(rest@).len() == rest@.len());
        match &more[i] {
            PathComponent::RootDir => {
                let mut root: Vec<PathComponent> = Vec::new();
                root.push(PathComponent::RootDir);
                assert(part_views(root@) =~= seq![PartView::RootDir]);
                *rest = root;
            },
            PathComponent::CurDir => {},
            PathComponent::ParentDir => {
                let n = rest.len();
                if n > 0 {
                    assert(part_views(before).last() == before[n - 1]@);
                    let is_name = match &rest[n - 1] {
                        PathComponent::Normal(_) => true,
                        _ => false,
                    };
                    if is_name {
                        rest.pop();
                        assert(part_views(rest@) =~= part_views(before).drop_last());
                    }
                }
            },
            other => {
                let copy = copy_component(other);
                let ghost view = copy@;
                rest.push(copy);
                assert(part_views(rest@) =~= part_views(before).push(view));
            },
        }
        i += 1;
    }
    assert(all.take(i as int) =~= all);
}

impl FilePath {
    /// `other` as seen from the path.
    pub fn join(&self, other: &FilePath) -> (r: FilePath)
        ensures
            r@ == joined(self@, other@),
    {
        let n = self.components.len();
        let m = other.components.len();
        let has_prefix = other.prefix().is_some();
        if other.is_absolute() || has_prefix {
            let path = other.copy();
            return FilePath { style: self.style, components: path.components, text: path.text };
        }
        let chars = chars_of(self.text.as_str());
        let cut = self.end_of_prefix(&chars);
        let mut components: Vec<PathComponent> = Vec::new();
        if self.is_verbatim() && chars_of(other.text.as_str()).len() > 0 {
            let mut rest: Vec<PathComponent> = Vec::new();
            push_components(&mut rest, &self.components, 1, n);
            assert(part_views(rest@) =~= self@.parts.skip(1));
            fold_into(&mut rest, &other.components);
            push_components(&mut components, &self.components, 0, 1);
            let count = rest.len();
            push_components(&mut components, &rest, 0, count);
            assert(part_views(components@) =~= self@.parts.take(1) + part_views(rest@));
            let mut text = string_of(&chars[0..cut]);
            assert(text@ =~= self.text@.take(prefix_end(self@)));
            let parted = if count > 0 {
                assert(part_views(rest@)[0] == rest@[0]@);
                match &rest[0] {
                    PathComponent::RootDir => false,
                    _ => true,
                }
            } else {
                false
            };
            let ghost head = text@;
            let tail = render(&rest, self.style);
            if parted {
                text.push(separator_of(self.style));
            }
            text.push_str(tail.as_str());
            assert(text@ =~= head + rendered_behind(self.style, part_views(rest@)));
            return FilePath { style: self.style, components, text };
        }
        let mut start: usize = 0;
        let mut is_rooted = false;
        if m > 0 {
            assert(other@.parts[0] == other.components@[0]@);
            match &other.components[0] {
                PathComponent::RootDir => {
                    is_rooted = true;
                },
                PathComponent::CurDir => {
                    if n > 0 {
                        start = 1;
                    }
                },
                _ => {},
            }
        }
        if is_rooted {
            if self.prefix().is_some() {
                push_components(&mut components, &self.components, 0, 1);
            }
            assert(part_views(components@) =~= prefix_of(self@.parts));
            push_components(&mut components, &other.components, 0, m);
            assert(part_views(components@) =~= prefix_of(self@.parts) + other@.parts);
            let mut text = string_of(&chars[0..cut]);
            assert(text@ =~= self.text@.take(prefix_end(self@)));
            text.push_str(other.text.as_str());
            return FilePath { style: self.style, components, text };
        }
        push_components(&mut components, &self.components, 0, n);
        push_components(&mut components, &other.components, start, m);
        assert(part_views(components@) =~= joined(self@, other@).parts);
        let mut text = owned(self.text.as_str());
        let is_drive = match self.prefix() {
            Some(PathPrefix::Disk(_)) => true,
            _ => false,
        };
        let ghost before = text@;
        if chars.len() > 0 && !is_separator(self.style, false, chars[chars.len() - 1]) && !(is_drive
            && chars.len() == 2) {
            text.push(separator_of(self.style));
        }
        assert(text@ =~= before + gap(self@));
        text.push_str(other.text.as_str());
        FilePath { style: self.style, components, text }
    }

    /// The path of what is called `name` in the path.
    pub fn child(&self, name: &str) -> (r: FilePath)
        ensures
            r@ == child(self@, name@),
    {
        let other = FilePath::lone(name, self.style);
        self.join(&other)
    }
}

// ---------------------------------------------------------------------------
// Cache paths
// ---------------------------------------------------------------------------

/// A character that may stand in a name on every platform, or an underscore.
pub open spec fn portable_char(c: char) -> char {
    if ascii_letter(c) || ascii_digit(c) || c == '.' || c == '_' || c == '-' {
        c
    } else {
        '_'
    }
}

/// A name that may stand on every platform.
pub open spec fn portable_name(name: Seq<char>) -> Seq<char> {
    if name.len() == 0 {
        seq!['_']
    } else {
        name.map_values(|c: char| portable_char(c))
    }
}

/// The lower-case form of an ASCII letter; any other byte as it is.
pub open spec fn lower_byte(b: u8) -> char {
    crate::search::ascii_lower(b as char)
}

/// The place of what a text names, as seen from a place.
#[verifier::opaque]
pub open spec fn pushed(place: PathView, text: Seq<char>) -> PathView {
    joined(place, parsed(place.style, text))
}

/// Where what has a prefix is kept in the cache, as seen from a place.
pub open spec fn prefix_place(place: PathView, p: PrefixView) -> PathView {
    match p {
        PrefixView::Disk(d) => pushed(place, "drive_"@.push(lower_byte(d))),
        PrefixView::VerbatimDisk(d) => pushed(place, "drive_"@.push(lower_byte(d))),
        PrefixView::Unc(a, b) => pushed(
            pushed(pushed(place, "unc"@), portable_name(a)),
            portable_name(b),
        ),
        PrefixView::VerbatimUnc(a, b) => pushed(
            pushed(pushed(place, "unc"@), portable_name(a)),
            portable_name(b),
        ),
        PrefixView::DeviceNs(a) => pushed(pushed(place, "device"@), portable_name(a)),
        PrefixView::Verbatim(a) => pushed(pushed(place, "verbatim"@), portable_name(a)),
    }
}

/// Whether one of the components is a prefix.
pub open spec fn has_prefix(parts: Seq<PartView>) -> bool {
    exists|i: int| 0 <= i < parts.len() && parts[i] is Prefix
}

/// Where components are kept in the cache, one below the other.
pub open spec fn cache_place(style: PathStyle, parts: Seq<PartView>) -> PathView
    decreases parts.len(),
{
    if parts.len() == 0 {
        PathView { style, parts: Seq::empty(), text: Seq::empty() }
    } else {
        let place = cache_place(style, parts.drop_last());
        match parts.last() {
            PartView::Prefix(p) => prefix_place(place, p),
            PartView::RootDir => if has_prefix(parts.drop_last()) {
                place
            } else {
                pushed(place, "root"@)
            },
            PartView::CurDir => place,
            PartView::ParentDir => pushed(place, "parent"@),
            PartView::Normal(n) => pushed(place, n),
        }
    }
}

/// Where a path is kept in the cache, below the root of the cache.
pub open spec fn cache_relative(path: PathView) -> PathView {
    let place = cache_place(path.style, path.parts);
    if place.text.len() > 0 {
        place
    } else if exists|i: int| 0 <= i < path.parts.len() && path.parts[i] is RootDir {
        pushed(place, "root"@)
    } else {
        pushed(place, "relative"@)
    }
}

/// A name that may stand on every platform: ASCII letters, digits, `.`, `_` and `-` are kept,
/// anything else becomes an underscore, and so does the empty name.
pub fn sanitize_component(component: &str) -> (r: String)
    ensures
        r@ == portable_name(component@),
{
    let chars = chars_of(component);
    let mut out = String::new();
    let ghost all = component@.map_values(|c: char| portable_char(c));
    let mut i: usize = 0;
    while i < chars.len()
        invariant
            i <= chars.len(),
            chars@ == component@,
            all == component@.map_values(|c: char| portable_char(c)),
            out@ == all.take(i as int),
        decreases chars.len() - i,
    {
        let c = chars[i];
        if is_letter(c) || is_digit(c) || c == '.' || c == '_' || c == '-' {
            out.push(c);
        } else {
            out.push('_');
        }
        i += 1;
        assert(all.take(i as int) =~= all.take(i - 1).push(all[i - 1]));
    }
    assert(all.take(i as int) =~= all);
    if chars.len() == 0 {
        out.push('_');
        assert(out@ =~= seq!['_']);
    }
    out
}

fn push_name(out: &mut Vec<PathComponent>, name: &str)
    ensures
        part_views(final(out)@) == part_views(old(out)@).push(PartView::Normal(name@)),
{
    let ghost before = out@;
    let text = owned(name);
    out.push(PathComponent::Normal(text));
    assert(part_views(out@) =~= part_views(before).push(PartView::Normal(name@)));
}

impl FilePath {
    /// The path of what `text` names, as seen from the path.
    fn pushed(&self, text: &str) -> (r: FilePath)
        ensures
            r@ == pushed(self@, text@),
    {
        reveal(pushed);
        let other = FilePath::parse_as(text, self.style);
        self.join(&other)
    }

    fn pushed_drive(&self, letter: u8) -> (r: FilePath)
        ensures
            r@ == pushed(self@, "drive_"@.push(lower_byte(letter))),
    {
        let mut name = owned("drive_");
        name.push(crate::search::lower(letter as char));
        self.pushed(name.as_str())
    }

    fn pushed_share(&self, server: &str, share: &str) -> (r: FilePath)
        ensures
            r@ == pushed(
                pushed(pushed(self@, "unc"@), portable_name(server@)),
                portable_name(share@),
            ),
    {
        let place = self.pushed("unc");
        let place = place.pushed(sanitize_component(server).as_str());
        place.pushed(sanitize_component(share).as_str())
    }

    fn pushed_prefix(&self, prefix: &PathPrefix) -> (r: FilePath)
        ensures
            r@ == prefix_place(self@, prefix@),
    {
        match prefix {
            PathPrefix::Disk(letter) => self.pushed_drive(*letter),
            PathPrefix::VerbatimDisk(letter) => self.pushed_drive(*letter),
            PathPrefix::Unc(server, share) => self.pushed_share(server.as_str(), share.as_str()),
            PathPrefix::VerbatimUnc(server, share) => self.pushed_share(
                server.as_str(),
                share.as_str(),
            ),
            PathPrefix::DeviceNs(name) => {
                let place = self.pushed("device");
                place.pushed(sanitize_component(name.as_str()).as_str())
            },
            PathPrefix::Verbatim(name) => {
                let place = self.pushed("verbatim");
                place.pushed(sanitize_component(name.as_str()).as_str())
            },
        }
    }
}

/// Where `path` is kept in the cache, below the root of the cache.
pub fn cache_relative_path(path: &FilePath) -> (r: FilePath)
    ensures
        r@ == cache_relative(path@),
{
    let mut relative = FilePath {
        style: path.style,
        components: Vec::new(),
        text: String::new(),
    };
    let mut saw_prefix = false;
    let mut saw_root = false;
    let mut i: usize = 0;
    assert(path@.parts.take(0) =~= Seq::<PartView>::empty());
    assert(relative@ =~= cache_place(path.style, path@.parts.take(0)));
    while i < path.components.len()
        invariant
            i <= path.components.len(),
            relative@ == cache_place(path.style, path@.parts.take(i as int)),
            saw_prefix == has_prefix(path@.parts.take(i as int)),
            saw_root == exists|k: int| 0 <= k < i && path@.parts[k] is RootDir,
        decreases path.components.len() - i,
    {
        let ghost done = path@.parts.take(i + 1);
        assert(done.drop_last() =~= path@.parts.take(i as int));
        assert(done.last() == path.components@[i as int]@);
        assert(path@.parts[i as int] == path.components@[i as int]@);
        match &path.components[i] {
            PathComponent::Prefix(prefix) => {
                saw_prefix = true;
                assert(done[i as int] is Prefix);
                relative = relative.pushed_prefix(prefix);
            },
            PathComponent::RootDir => {
                saw_root = true;
                if !saw_prefix {
                    relative = relative.pushed("root");
                }
            },
            PathComponent::CurDir => {},
            PathComponent::ParentDir => {
                relative = relative.pushed("parent");
            },
            PathComponent::Normal(part) => {
                relative = relative.pushed(part.as_str());
            },
        }
        assert(saw_prefix == has_prefix(done)) by {
            if has_prefix(path@.parts.take(i as int)) {
                let k = choose|k: int| 0 <= k < i && path@.parts.take(i as int)[k] is Prefix;
                assert(done[k] is Prefix);
            }
            if has_prefix(done) && !(done[i as int] is Prefix) {
                let k = choose|k: int| 0 <= k < done.len() && done[k] is Prefix;
                assert(path@.parts.take(i as int)[k] is Prefix);
            }
        }
        i += 1;
    }
    assert(path@.parts.take(i as int) =~= path@.parts);
    if relative.text.as_str().is_empty() {
        if saw_root {
            relative = relative.pushed("root");
        } else {
            relative = relative.pushed("relative");
        }
    }
    relative
}

/// Where `path` is kept in the cache at `root`.
pub fn cache_path(root: &FilePath, path: &FilePath) -> (r: FilePath)
    ensures
        r@ == joined(root@, cache_relative(path@)),
{
    let relative = cache_relative_path(path);
    root.join(&relative)
}

/// The names that stand for a prefix in the cache.
pub open spec fn prefix_names(p: PrefixView) -> Seq<PartView> {
    match p {
        PrefixView::Disk(d) => seq![PartView::Normal("drive_"@.push(lower_byte(d)))],
        PrefixView::VerbatimDisk(d) => seq![PartView::Normal("drive_"@.push(lower_byte(d)))],
        PrefixView::Unc(a, b) => seq![PartView::Normal("unc"@)] + named(portable_name(a), false)
            + named(portable_name(b), false),
        PrefixView::VerbatimUnc(a, b) => seq![PartView::Normal("unc"@)] + named(
            portable_name(a),
            false,
        ) + named(portable_name(b), false),
        PrefixView::DeviceNs(a) => seq![PartView::Normal("device"@)] + named(
            portable_name(a),
            false,
        ),
        PrefixView::Verbatim(a) => seq![PartView::Normal("verbatim"@)] + named(
            portable_name(a),
            false,
        ),
    }
}

/// The names that stand for the components of a path in the cache.
pub open spec fn cache_names(parts: Seq<PartView>) -> Seq<PartView>
    decreases parts.len(),
{
    if parts.len() == 0 {
        Seq::empty()
    } else {
        cache_names(parts.drop_last()) + match parts.last() {
            PartView::Prefix(p) => prefix_names(p),
            PartView::RootDir => if has_prefix(parts.drop_last()) {
                Seq::empty()
            } else {
                seq![PartView::Normal("root"@)]
            },
            PartView::CurDir => Seq::empty(),
            PartView::ParentDir => seq![PartView::Normal("parent"@)],
            PartView::Normal(n) => seq![PartView::Normal(n)],
        }
    }
}

/// The names under which a path is kept in the cache, below the root of the cache.
pub open spec fn cache_parts(parts: Seq<PartView>) -> Seq<PartView> {
    if cache_names(parts).len() > 0 {
        cache_names(parts)
    } else if exists|i: int| 0 <= i < parts.len() && parts[i] is RootDir {
        seq![PartView::Normal("root"@)]
    } else {
        seq![PartView::Normal("relative"@)]
    }
}

/// Whether a component is a name that is read as one when it stands alone, or no name. On Windows,
/// `c:x` is not read as a name. Drives have letters.
pub open spec fn plain_part(style: PathStyle, part: PartView) -> bool {
    match part {
        PartView::Normal(n) => n.len() > 0 && text_parts(style, n) == seq![PartView::Normal(n)],
        PartView::Prefix(PrefixView::Disk(d)) => ascii_letter(d as char),
        PartView::Prefix(PrefixView::VerbatimDisk(d)) => ascii_letter(d as char),
        _ => true,
    }
}

/// Whether the names in a path are read as names when they stand alone.
pub open spec fn has_plain_names(path: PathView) -> bool {
    forall|i: int| 0 <= i < path.parts.len() ==> plain_part(path.style, #[trigger] path.parts[i])
}

/// What is kept in the cache one below the other: names, and `..` where a prefix holds it.
spec fn keeps(place: PathView, style: PathStyle, names: Seq<PartView>) -> bool {
    &&& place.style == style
    &&& place.parts == names
    &&& place.text.len() > 0 <==> names.len() > 0
    &&& forall|i: int| 0 <= i < names.len() ==> (#[trigger] names[i]) is Normal || names[i] is ParentDir
}

proof fn lemma_pushed(place: PathView, names: Seq<PartView>, text: Seq<char>)
    requires
        keeps(place, place.style, names),
        text.len() > 0,
        text_parts(place.style, text).len() == 1,
        ({
            let part = text_parts(place.style, text)[0];
            part is Normal || part is ParentDir || (part is CurDir && names.len() > 0)
        }),
    ensures
        ({
            let part = text_parts(place.style, text)[0];
            keeps(
                pushed(place, text),
                place.style,
                if part is CurDir {
                    names
                } else {
                    names.push(part)
                },
            )
        }),
{
    reveal(pushed);
    let part = text_parts(place.style, text)[0];
    let after = pushed(place, text);
    if names.len() > 0 {
        assert(names[0] is Normal || names[0] is ParentDir);
    }
    assert(first_prefix(place.parts) is None);
    if part is CurDir {
        assert(after.parts =~= names);
    } else {
        assert(after.parts =~= names.push(part));
    }
    assert(after.text.len() > 0);
}

proof fn lemma_pushed_plain(place: PathView, names: Seq<PartView>, text: Seq<char>)
    requires
        keeps(place, place.style, names),
        plain_text(text),
        text != "."@,
        text != ".."@,
    ensures
        keeps(pushed(place, text), place.style, names.push(PartView::Normal(text))),
{
    lemma_plain_text(place.style, text);
    lemma_pushed(place, names, text);
}

proof fn lemma_pushed_portable(place: PathView, names: Seq<PartView>, name: Seq<char>)
    requires
        keeps(place, place.style, names),
        names.len() > 0,
    ensures
        keeps(
            pushed(place, portable_name(name)),
            place.style,
            names + named(portable_name(name), false),
        ),
{
    let text = portable_name(name);
    assert(plain_text(text)) by {
        assert forall|i: int| 0 <= i < text.len() implies text[i] != '/' && text[i] != '\\'
            && text[i] != ':' by {
            if name.len() > 0 {
                assert(text[i] == portable_char(name[i]));
            }
        }
    }
    lemma_plain_text(place.style, text);
    lemma_pushed(place, names, text);
    let kept = named(text, false);
    if text == "."@ {
        assert(names + kept =~= names);
    } else {
        assert(names + kept =~= names.push(kept[0]));
    }
}

proof fn lemma_prefix_place(place: PathView, names: Seq<PartView>, p: PrefixView)
    requires
        keeps(place, place.style, names),
        plain_part(place.style, PartView::Prefix(p)),
    ensures
        keeps(prefix_place(place, p), place.style, names + prefix_names(p)),
{
    lemma_cache_words();
    match p {
        PrefixView::Disk(d) => {
            lemma_drive_word(d);
            lemma_pushed_plain(place, names, "drive_"@.push(lower_byte(d)));
        },
        PrefixView::VerbatimDisk(d) => {
            lemma_drive_word(d);
            lemma_pushed_plain(place, names, "drive_"@.push(lower_byte(d)));
        },
        PrefixView::Unc(a, b) => lemma_share_place(place, names, a, b),
        PrefixView::VerbatimUnc(a, b) => lemma_share_place(place, names, a, b),
        PrefixView::DeviceNs(a) => {
            lemma_pushed_plain(place, names, "device"@);
            let more = names.push(PartView::Normal("device"@));
            lemma_pushed_portable(pushed(place, "device"@), more, a);
            assert(more + named(portable_name(a), false) =~= names + prefix_names(p));
        },
        PrefixView::Verbatim(a) => {
            lemma_pushed_plain(place, names, "verbatim"@);
            let more = names.push(PartView::Normal("verbatim"@));
            lemma_pushed_portable(pushed(place, "verbatim"@), more, a);
            assert(more + named(portable_name(a), false) =~= names + prefix_names(p));
        },
    }
    if p is Disk || p is VerbatimDisk {
        assert(names + prefix_names(p) =~= names.push(prefix_names(p)[0]));
    }
}

proof fn lemma_share_place(place: PathView, names: Seq<PartView>, a: Seq<char>, b: Seq<char>)
    requires
        keeps(place, place.style, names),
    ensures
        keeps(
            prefix_place(place, PrefixView::Unc(a, b)),
            place.style,
            names + prefix_names(PrefixView::Unc(a, b)),
        ),
{
    lemma_cache_words();
    lemma_pushed_plain(place, names, "unc"@);
    let one = pushed(place, "unc"@);
    let first = names.push(PartView::Normal("unc"@));
    lemma_pushed_portable(one, first, a);
    let second = first + named(portable_name(a), false);
    lemma_pushed_portable(pushed(one, portable_name(a)), second, b);
    assert(second + named(portable_name(b), false) =~= names + prefix_names(PrefixView::Unc(a, b)));
}

/// The words that are used in the cache are names.
proof fn lemma_cache_words()
    ensures
        plain_text("root"@) && "root"@.len() == 4,
        plain_text("parent"@) && "parent"@.len() == 6,
        plain_text("relative"@) && "relative"@.len() == 8,
        plain_text("unc"@) && "unc"@.len() == 3,
        plain_text("device"@) && "device"@.len() == 6,
        plain_text("verbatim"@) && "verbatim"@.len() == 8,
        "."@.len() == 1 && ".."@.len() == 2,
{
    reveal_strlit("root");
    reveal_strlit("parent");
    reveal_strlit("relative");
    reveal_strlit("unc");
    reveal_strlit("device");
    reveal_strlit("verbatim");
    reveal_strlit(".");
    reveal_strlit("..");
}

proof fn lemma_drive_word(d: u8)
    requires
        ascii_letter(d as char),
    ensures
        plain_text("drive_"@.push(lower_byte(d))),
        "drive_"@.push(lower_byte(d)).len() == 7,
{
    reveal_strlit("drive_");
    lemma_lower_letter(d as char);
}

proof fn lemma_lower_letter(c: char)
    requires
        ascii_letter(c),
    ensures
        crate::search::ascii_lower(c) != '/',
        crate::search::ascii_lower(c) != '\\',
        crate::search::ascii_lower(c) != ':',
{
}

proof fn lemma_cache_place(path: PathView, n: int)
    requires
        has_plain_names(path),
        0 <= n <= path.parts.len(),
    ensures
        keeps(
            cache_place(path.style, path.parts.take(n)),
            path.style,
            cache_names(path.parts.take(n)),
        ),
    decreases n,
{
    if n > 0 {
        let parts = path.parts.take(n);
        let front = path.parts.take(n - 1);
        assert(parts.drop_last() =~= front);
        lemma_cache_place(path, n - 1);
        lemma_cache_words();
        let place = cache_place(path.style, front);
        let names = cache_names(front);
        assert(parts.last() == path.parts[n - 1]);
        assert(plain_part(path.style, path.parts[n - 1]));
        match parts.last() {
            PartView::Prefix(p) => lemma_prefix_place(place, names, p),
            PartView::RootDir => {
                if has_prefix(front) {
                    assert(names + Seq::<PartView>::empty() =~= names);
                } else {
                    lemma_pushed_plain(place, names, "root"@);
                    assert(names + seq![PartView::Normal("root"@)] =~= names.push(
                        PartView::Normal("root"@),
                    ));
                }
            },
            PartView::CurDir => {
                assert(names + Seq::<PartView>::empty() =~= names);
            },
            PartView::ParentDir => {
                lemma_pushed_plain(place, names, "parent"@);
                assert(names + seq![PartView::Normal("parent"@)] =~= names.push(
                    PartView::Normal("parent"@),
                ));
            },
            PartView::Normal(name) => {
                lemma_pushed(place, names, name);
                assert(names + seq![PartView::Normal(name)] =~= names.push(PartView::Normal(name)));
            },
        }
    } else {
        assert(path.parts.take(0) =~= Seq::<PartView>::empty());
    }
}

/// What a path is kept under in the cache: its prefix, its root and each `..` under names of their
/// own, and its names as they are.
pub proof fn law_cache_keeps_names(path: PathView)
    requires
        has_plain_names(path),
    ensures
        cache_relative(path).parts == cache_parts(path.parts),
        cache_relative(path).style == path.style,
        cache_relative(path).text.len() > 0,
{
    lemma_cache_place(path, path.parts.len() as int);
    assert(path.parts.take(path.parts.len() as int) =~= path.parts);
    lemma_cache_words();
    let place = cache_place(path.style, path.parts);
    let names = cache_names(path.parts);
    if names.len() == 0 {
        lemma_pushed_plain(place, names, "root"@);
        lemma_pushed_plain(place, names, "relative"@);
        assert(names.push(PartView::Normal("root"@)) =~= seq![PartView::Normal("root"@)]);
        assert(names.push(PartView::Normal("relative"@)) =~= seq![PartView::Normal("relative"@)]);
    }
}

proof fn lemma_cache_names(parts: Seq<PartView>)
    ensures
        forall|i: int|
            0 <= i < cache_names(parts).len() ==> (#[trigger] cache_names(parts)[i]) is Normal
                || cache_names(parts)[i] is ParentDir,
        !has_prefix(parts) ==> forall|i: int|
            0 <= i < cache_names(parts).len() ==> (#[trigger] cache_names(parts)[i]) is Normal,
    decreases parts.len(),
{
    if parts.len() > 0 {
        let front = parts.drop_last();
        lemma_cache_names(front);
        if has_prefix(front) {
            let k = choose|k: int| 0 <= k < front.len() && front[k] is Prefix;
            assert(parts[k] is Prefix);
        }
        if parts.last() is Prefix {
            assert(parts[parts.len() - 1] is Prefix);
        }
    }
}

proof fn lemma_folded_names(parts: Seq<PartView>, names: Seq<PartView>)
    requires
        forall|i: int| 0 <= i < names.len() ==> (#[trigger] names[i]) is Normal,
    ensures
        folded(parts, names) == parts + names,
    decreases names.len(),
{
    if names.len() > 0 {
        let front = names.drop_last();
        assert forall|i: int| 0 <= i < front.len() implies (#[trigger] front[i]) is Normal by {
            assert(names[i] is Normal);
        }
        lemma_folded_names(parts, front);
        assert(names[names.len() - 1] is Normal);
        assert(folded(parts, names) =~= parts + names);
    } else {
        assert(folded(parts, names) =~= parts + names);
    }
}

proof fn lemma_cache_parts(path: PathView)
    ensures
        cache_parts(path.parts).len() > 0,
        forall|i: int|
            0 <= i < cache_parts(path.parts).len() ==> (#[trigger] cache_parts(path.parts)[i]) is Normal
                || cache_parts(path.parts)[i] is ParentDir,
        !has_prefix(path.parts) ==> forall|i: int|
            0 <= i < cache_parts(path.parts).len() ==> (#[trigger] cache_parts(
                path.parts,
            )[i]) is Normal,
{
    lemma_cache_names(path.parts);
}

proof fn lemma_cache_joined(root: PathView, path: PathView)
    requires
        has_plain_names(path),
        verbatim(first_prefix(root.parts)) ==> !has_prefix(path.parts),
    ensures
        joined(root, cache_relative(path)).parts == root.parts + cache_parts(path.parts),
{
    lemma_cache_parts(path);
    law_cache_keeps_names(path);
    let relative = cache_relative(path);
    assert(relative.parts[0] is Normal || relative.parts[0] is ParentDir);
    assert(!(relative.parts[0] is RootDir));
    assert(first_prefix(relative.parts) is None);
    assert(!absolute(relative));
    if verbatim(first_prefix(root.parts)) {
        lemma_folded_names(root.parts.skip(1), relative.parts);
        assert(root.parts.take(1) + (root.parts.skip(1) + relative.parts) =~= root.parts
            + relative.parts);
    }
}

/// The cache never leaves its root: a path is kept strictly below it. Behind a verbatim root, `..`
/// takes names away, so there the path may not have a prefix, in which `..` can be a name.
pub proof fn law_cache_path_is_below_root(root: PathView, path: PathView)
    requires
        has_plain_names(path),
        verbatim(first_prefix(root.parts)) ==> !has_prefix(path.parts),
    ensures
        inside(joined(root, cache_relative(path)), root),
        joined(root, cache_relative(path)).parts.len() > root.parts.len(),
{
    lemma_cache_parts(path);
    lemma_cache_joined(root, path);
    assert(joined(root, cache_relative(path)).parts.take(root.parts.len() as int) =~= root.parts);
}

/// A path without a prefix is kept under plain names: no `..` is left that could lead elsewhere.
pub proof fn law_cache_names_are_plain(path: PathView)
    requires
        has_plain_names(path),
        !has_prefix(path.parts),
    ensures
        forall|i: int|
            0 <= i < cache_relative(path).parts.len() ==> (#[trigger] cache_relative(
                path,
            ).parts[i]) is Normal,
{
    lemma_cache_parts(path);
    law_cache_keeps_names(path);
}

/// Whether a path starts at the root and goes down from there by names alone, as paths that were
/// resolved do.
pub open spec fn resolved(path: PathView) -> bool {
    root_and_names(path.parts)
}

/// Whether components are a root and names.
pub open spec fn root_and_names(parts: Seq<PartView>) -> bool {
    &&& parts.len() > 0
    &&& parts[0] is RootDir
    &&& forall|i: int| 1 <= i < parts.len() ==> #[trigger] parts[i] is Normal
}

proof fn lemma_resolved_names(parts: Seq<PartView>)
    requires
        root_and_names(parts),
    ensures
        cache_names(parts) == seq![PartView::Normal("root"@)] + parts.skip(1),
    decreases parts.len(),
{
    let front = parts.drop_last();
    if parts.len() == 1 {
        assert(front =~= Seq::<PartView>::empty());
        assert(cache_names(front) =~= Seq::<PartView>::empty());
        assert(cache_names(parts) =~= seq![PartView::Normal("root"@)] + parts.skip(1));
    } else {
        assert forall|i: int| 1 <= i < front.len() implies #[trigger] front[i] is Normal by {
            assert(parts[i] is Normal);
        }
        lemma_resolved_names(front);
        assert(parts[parts.len() - 1] is Normal);
        assert(cache_names(parts) =~= seq![PartView::Normal("root"@)] + parts.skip(1));
    }
}

proof fn lemma_no_prefix(path: PathView)
    requires
        resolved(path),
    ensures
        !has_prefix(path.parts),
{
    if has_prefix(path.parts) {
        let k = choose|k: int| 0 <= k < path.parts.len() && path.parts[k] is Prefix;
        assert(k == 0 || path.parts[k] is Normal);
    }
}

/// Different directories are kept apart in the cache, and what is in one of them is kept in it.
pub proof fn law_cache_paths_are_kept_apart(root: PathView, a: PathView, b: PathView)
    requires
        resolved(a),
        resolved(b),
        has_plain_names(a),
        has_plain_names(b),
    ensures
        same_path(joined(root, cache_relative(a)), joined(root, cache_relative(b))) <==> same_path(
            a,
            b,
        ),
        inside(joined(root, cache_relative(a)), joined(root, cache_relative(b))) <==> inside(a, b),
{
    lemma_no_prefix(a);
    lemma_no_prefix(b);
    lemma_cache_joined(root, a);
    lemma_cache_joined(root, b);
    lemma_kept_apart(root.parts, a.parts, b.parts);
}

proof fn lemma_kept_apart(root: Seq<PartView>, a: Seq<PartView>, b: Seq<PartView>)
    requires
        root_and_names(a),
        root_and_names(b),
    ensures
        ({
            let ca = root + cache_parts(a);
            let cb = root + cache_parts(b);
            &&& ca == cb <==> a == b
            &&& (cb.len() <= ca.len() && ca.take(cb.len() as int) == cb) <==> (b.len() <= a.len()
                && a.take(b.len() as int) == b)
        }),
{
    lemma_resolved_names(a);
    lemma_resolved_names(b);
    let ca = root + cache_parts(a);
    let cb = root + cache_parts(b);
    let n = root.len() as int;
    assert(ca =~= root + (seq![PartView::Normal("root"@)] + a.skip(1)));
    assert(cb =~= root + (seq![PartView::Normal("root"@)] + b.skip(1)));
    assert forall|i: int| 1 <= i < a.len() implies #[trigger] a[i] == ca[n + i] by {}
    assert forall|i: int| 1 <= i < b.len() implies #[trigger] b[i] == cb[n + i] by {}
    if cb.len() <= ca.len() && ca.take(cb.len() as int) == cb {
        assert(b.len() <= a.len());
        assert forall|i: int| 0 <= i < b.len() implies a.take(b.len() as int)[i] == b[i] by {
            if i > 0 {
                assert(ca.take(cb.len() as int)[n + i] == cb[n + i]);
            }
        }
        assert(a.take(b.len() as int) =~= b);
    }
    if b.len() <= a.len() && a.take(b.len() as int) == b {
        assert(ca.take(cb.len() as int) =~= cb) by {
            assert forall|k: int| 0 <= k < cb.len() implies ca[k] == cb[k] by {
                if k > n {
                    assert(a.take(b.len() as int)[k - n] == b[k - n]);
                    assert(b[k - n] == cb[k]);
                    assert(a[k - n] == ca[k]);
                }
            }
        }
    }
    if ca == cb {
        assert(ca.take(cb.len() as int) =~= cb);
        assert(a.take(b.len() as int) =~= a);
    }
}

// ---------------------------------------------------------------------------
// What names and places are made of
// ---------------------------------------------------------------------------

proof fn lemma_dot_index(name: Seq<char>, to: int, at: int)
    requires
        0 < at < to <= name.len(),
        name[at] == '.',
        forall|i: int| at < i < to ==> name[i] != '.',
    ensures
        dot_index(name, to) == at,
    decreases to - at,
{
    if to - 1 > at {
        assert(name[to - 1] != '.');
        lemma_dot_index(name, to - 1, at);
    }
}

proof fn lemma_no_dot_index(name: Seq<char>, to: int)
    requires
        to <= name.len(),
        forall|i: int| 0 < i < to ==> name[i] != '.',
    ensures
        dot_index(name, to) == name.len(),
    decreases to,
{
    if to > 1 {
        assert(name[to - 1] != '.');
        lemma_no_dot_index(name, to - 1);
    }
}

/// The extension of a name stands behind its last dot, and what stands in front of that dot stays
/// when the extension is changed or taken off.
pub proof fn law_extensions_stand_behind_the_last_dot(
    base: Seq<char>,
    ext: Seq<char>,
    other: Seq<char>,
)
    requires
        base.len() > 0,
        !ext.contains('.'),
        other.len() > 0,
    ensures
        stem(base.push('.') + ext) == base,
        name_extension(base.push('.') + ext) == Some(ext),
        name_with_extension(base.push('.') + ext, other) == base.push('.') + other,
        name_with_extension(base.push('.') + ext, Seq::empty()) == base,
{
    let name = base.push('.') + ext;
    let at = base.len() as int;
    assert forall|i: int| at < i < name.len() implies name[i] != '.' by {
        assert(name[i] == ext[i - at - 1]);
        assert(ext.contains(ext[i - at - 1]));
    }
    lemma_dot_index(name, name.len() as int, at);
    assert(name.take(at) =~= base);
    assert(name.skip(at + 1) =~= ext);
}

/// A name without a dot behind its first character has no extension, and gets one put behind it.
pub proof fn law_names_without_a_dot_have_no_extension(name: Seq<char>, ext: Seq<char>)
    requires
        forall|i: int| 0 < i < name.len() ==> name[i] != '.',
        ext.len() > 0,
    ensures
        name_extension(name) is None,
        stem(name) == name,
        name_with_extension(name, ext) == name.push('.') + ext,
{
    lemma_no_dot_index(name, name.len() as int);
    assert(name.take(name.len() as int) =~= name);
}

/// A file stays where it is when its extension is changed.
pub proof fn law_files_stay_where_they_are(
    dir: PathView,
    base: Seq<char>,
    ext: Seq<char>,
    other: Seq<char>,
)
    requires
        base.len() > 0,
        !ext.contains('.'),
        other.len() > 0,
    ensures
        with_extension(child(dir, base.push('.') + ext), other).parts == dir.parts.push(
            PartView::Normal(base.push('.') + other),
        ),
        extension(child(dir, base.push('.') + ext)) == Some(ext),
        parent(child(dir, base.push('.') + ext)) is Some,
        same_path(parent(child(dir, base.push('.') + ext))->0, dir),
        inside(child(dir, base.push('.') + ext), dir),
        !inside(dir, child(dir, base.push('.') + ext)),
{
    let name = base.push('.') + ext;
    law_child_has_its_name(dir, name);
    law_extensions_stand_behind_the_last_dot(base, ext, other);
    reveal_strlit(".");
    reveal_strlit("..");
    assert((base.push('.') + other).len() > 2);
    let path = child(dir, name);
    assert(path.parts.drop_last() =~= dir.parts);
    assert(path.parts.take(dir.parts.len() as int) =~= dir.parts);
    assert(with_extension(path, other).parts =~= dir.parts.push(
        PartView::Normal(base.push('.') + other),
    ));
}

/// In the cache each name of a path is kept under itself, each `..` as `parent`, the root as `root`,
/// and `.` not at all. A drive is kept under its letter in lower case.
pub proof fn law_cache_names_tell_components_apart(parts: Seq<PartView>, name: Seq<char>)
    ensures
        cache_names(parts.push(PartView::Normal(name))) == cache_names(parts).push(
            PartView::Normal(name),
        ),
        cache_names(parts.push(PartView::ParentDir)) == cache_names(parts).push(
            PartView::Normal("parent"@),
        ),
        cache_names(parts.push(PartView::CurDir)) == cache_names(parts),
        !has_prefix(parts) ==> cache_names(parts.push(PartView::RootDir)) == cache_names(
            parts,
        ).push(PartView::Normal("root"@)),
        has_prefix(parts) ==> cache_names(parts.push(PartView::RootDir)) == cache_names(parts),
        prefix_names(PrefixView::Disk(67u8)) == seq![PartView::Normal("drive_c"@)],
        cache_parts(Seq::empty()) == seq![PartView::Normal("relative"@)],
{
    assert(parts.push(PartView::Normal(name)).drop_last() =~= parts);
    assert(parts.push(PartView::ParentDir).drop_last() =~= parts);
    assert(parts.push(PartView::CurDir).drop_last() =~= parts);
    assert(parts.push(PartView::RootDir).drop_last() =~= parts);
    assert(cache_names(parts) + Seq::empty() =~= cache_names(parts));
    reveal_strlit("drive_");
    reveal_strlit("drive_c");
    assert("drive_"@.push('c') =~= "drive_c"@);
    assert(prefix_names(PrefixView::Disk(67u8)) =~= seq![PartView::Normal("drive_c"@)]);
    assert(cache_names(Seq::<PartView>::empty()).len() == 0);
}

/// A name for every platform is as long as the name. ASCII letters, digits, `.`, `_` and `-` stay, and
/// any other character becomes an underscore.
pub proof fn law_portable_names_keep_what_they_can(name: Seq<char>, i: int)
    requires
        0 <= i < name.len(),
    ensures
        portable_name(name).len() == name.len(),
        'a' <= name[i] <= 'z' || 'A' <= name[i] <= 'Z' || '0' <= name[i] <= '9' || name[i] == '.'
            || name[i] == '_' || name[i] == '-' ==> portable_name(name)[i] == name[i],
        !('a' <= name[i] <= 'z' || 'A' <= name[i] <= 'Z' || '0' <= name[i] <= '9' || name[i] == '.'
            || name[i] == '_' || name[i] == '-') ==> portable_name(name)[i] == '_',
        portable_name(Seq::empty()) == seq!['_'],
{
}

/// A file in a directory is called by its name with another extension: what a name means, seen from
/// a directory, is in that directory, whatever the directory is.
pub proof fn law_renamed_files_are_in_the_directory(
    dir: PathView,
    base: Seq<char>,
    ext: Seq<char>,
    other: Seq<char>,
)
    requires
        base.len() > 0,
        !ext.contains('.'),
        other.len() > 0,
        plain_part(dir.style, PartView::Normal(base.push('.') + ext)),
    ensures
        joined(dir, with_extension(parsed(dir.style, base.push('.') + ext), other)).parts
            == dir.parts.push(PartView::Normal(base.push('.') + other)),
        file_name(joined(dir, with_extension(parsed(dir.style, base.push('.') + ext), other)))
            == Some(base.push('.') + other),
{
    let name = base.push('.') + ext;
    let changed = base.push('.') + other;
    let path = with_extension(parsed(dir.style, name), other);
    law_extensions_stand_behind_the_last_dot(base, ext, other);
    reveal_strlit(".");
    reveal_strlit("..");
    assert(changed.len() > 2);
    assert(parsed(dir.style, name).parts.drop_last() =~= Seq::<PartView>::empty());
    assert(path.parts =~= seq![PartView::Normal(changed)]);
    if verbatim(first_prefix(dir.parts)) {
        assert(path.parts.drop_last() =~= Seq::<PartView>::empty());
        assert(folded(dir.parts.skip(1), path.parts.drop_last()) == dir.parts.skip(1));
    }
    assert(joined(dir, path).parts =~= dir.parts.push(PartView::Normal(changed)));
}

/// A name without an extension gets one, in the directory that it is seen from.
pub proof fn law_extended_names_are_in_the_directory(dir: PathView, name: Seq<char>, ext: Seq<char>)
    requires
        forall|i: int| 0 < i < name.len() ==> name[i] != '.',
        ext.len() > 1,
        plain_part(dir.style, PartView::Normal(name)),
    ensures
        joined(dir, with_extension(parsed(dir.style, name), ext)).parts == dir.parts.push(
            PartView::Normal(name.push('.') + ext),
        ),
{
    let changed = name.push('.') + ext;
    let path = with_extension(parsed(dir.style, name), ext);
    law_names_without_a_dot_have_no_extension(name, ext);
    reveal_strlit(".");
    reveal_strlit("..");
    assert(changed.len() > 2);
    assert(parsed(dir.style, name).parts.drop_last() =~= Seq::<PartView>::empty());
    assert(path.parts =~= seq![PartView::Normal(changed)]);
    if verbatim(first_prefix(dir.parts)) {
        assert(path.parts.drop_last() =~= Seq::<PartView>::empty());
        assert(folded(dir.parts.skip(1), path.parts.drop_last()) == dir.parts.skip(1));
    }
    assert(joined(dir, path).parts =~= dir.parts.push(PartView::Normal(changed)));
}

}
