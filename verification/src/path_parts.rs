//! The components of paths, and how they are read from texts.
use crate::lines::{lemma_split_one, parts_of, split_on};
use crate::search::{ascii_letter, is_letter};
use crate::text::{chars_of, is_text, owned, same_text, string_of, views};
use vstd::prelude::*;

verus! {

/// How a platform writes paths.
#[derive(Clone, Copy, Debug, PartialEq, Eq, Structural)]
pub enum PathStyle {
    Unix,
    Windows,
}

/// The prefix of a Windows path.
#[derive(Clone, Debug, PartialEq, Eq)]
pub enum PathPrefix {
    Verbatim(String),
    VerbatimUnc(String, String),
    VerbatimDisk(u8),
    DeviceNs(String),
    Unc(String, String),
    Disk(u8),
}

/// A component of a path.
#[derive(Clone, Debug, PartialEq, Eq)]
pub enum PathComponent {
    Prefix(PathPrefix),
    RootDir,
    CurDir,
    ParentDir,
    Normal(String),
}

/// What a prefix holds.
pub enum PrefixView {
    Verbatim(Seq<char>),
    VerbatimUnc(Seq<char>, Seq<char>),
    VerbatimDisk(u8),
    DeviceNs(Seq<char>),
    Unc(Seq<char>, Seq<char>),
    Disk(u8),
}

/// What a component holds.
pub enum PartView {
    Prefix(PrefixView),
    RootDir,
    CurDir,
    ParentDir,
    Normal(Seq<char>),
}

impl View for PathPrefix {
    type V = PrefixView;

    open spec fn view(&self) -> PrefixView {
        match self {
            PathPrefix::Verbatim(a) => PrefixView::Verbatim(a@),
            PathPrefix::VerbatimUnc(a, b) => PrefixView::VerbatimUnc(a@, b@),
            PathPrefix::VerbatimDisk(d) => PrefixView::VerbatimDisk(*d),
            PathPrefix::DeviceNs(a) => PrefixView::DeviceNs(a@),
            PathPrefix::Unc(a, b) => PrefixView::Unc(a@, b@),
            PathPrefix::Disk(d) => PrefixView::Disk(*d),
        }
    }
}

impl View for PathComponent {
    type V = PartView;

    open spec fn view(&self) -> PartView {
        match self {
            PathComponent::Prefix(p) => PartView::Prefix(p@),
            PathComponent::RootDir => PartView::RootDir,
            PathComponent::CurDir => PartView::CurDir,
            PathComponent::ParentDir => PartView::ParentDir,
            PathComponent::Normal(n) => PartView::Normal(n@),
        }
    }
}

/// What the components of a sequence hold.
pub open spec fn part_views(v: Seq<PathComponent>) -> Seq<PartView> {
    v.map_values(|c: PathComponent| c@)
}

// ---------------------------------------------------------------------------
// Copies and comparison
// ---------------------------------------------------------------------------

fn copy_prefix(p: &PathPrefix) -> (r: PathPrefix)
    ensures
        r@ == p@,
{
    match p {
        PathPrefix::Verbatim(a) => PathPrefix::Verbatim(owned(a.as_str())),
        PathPrefix::VerbatimUnc(a, b) => PathPrefix::VerbatimUnc(
            owned(a.as_str()),
            owned(b.as_str()),
        ),
        PathPrefix::VerbatimDisk(d) => PathPrefix::VerbatimDisk(*d),
        PathPrefix::DeviceNs(a) => PathPrefix::DeviceNs(owned(a.as_str())),
        PathPrefix::Unc(a, b) => PathPrefix::Unc(owned(a.as_str()), owned(b.as_str())),
        PathPrefix::Disk(d) => PathPrefix::Disk(*d),
    }
}

/// A copy of a component.
pub fn copy_component(c: &PathComponent) -> (r: PathComponent)
    ensures
        r@ == c@,
{
    match c {
        PathComponent::Prefix(p) => PathComponent::Prefix(copy_prefix(p)),
        PathComponent::RootDir => PathComponent::RootDir,
        PathComponent::CurDir => PathComponent::CurDir,
        PathComponent::ParentDir => PathComponent::ParentDir,
        PathComponent::Normal(n) => PathComponent::Normal(owned(n.as_str())),
    }
}

fn same_prefix(a: &PathPrefix, b: &PathPrefix) -> (r: bool)
    ensures
        r == (a@ == b@),
{
    match (a, b) {
        (PathPrefix::Verbatim(x), PathPrefix::Verbatim(y)) => same_text(x.as_str(), y.as_str()),
        (PathPrefix::VerbatimUnc(x, s), PathPrefix::VerbatimUnc(y, t)) => same_text(
            x.as_str(),
            y.as_str(),
        ) && same_text(s.as_str(), t.as_str()),
        (PathPrefix::VerbatimDisk(x), PathPrefix::VerbatimDisk(y)) => *x == *y,
        (PathPrefix::DeviceNs(x), PathPrefix::DeviceNs(y)) => same_text(x.as_str(), y.as_str()),
        (PathPrefix::Unc(x, s), PathPrefix::Unc(y, t)) => same_text(x.as_str(), y.as_str())
            && same_text(s.as_str(), t.as_str()),
        (PathPrefix::Disk(x), PathPrefix::Disk(y)) => *x == *y,
        _ => false,
    }
}

/// Whether two components are the same.
pub fn same_component(a: &PathComponent, b: &PathComponent) -> (r: bool)
    ensures
        r == (a@ == b@),
{
    match (a, b) {
        (PathComponent::Prefix(x), PathComponent::Prefix(y)) => same_prefix(x, y),
        (PathComponent::RootDir, PathComponent::RootDir) => true,
        (PathComponent::CurDir, PathComponent::CurDir) => true,
        (PathComponent::ParentDir, PathComponent::ParentDir) => true,
        (PathComponent::Normal(x), PathComponent::Normal(y)) => same_text(x.as_str(), y.as_str()),
        _ => false,
    }
}

/// Appends the components of `from` from index `start` to index `end`.
pub fn push_components(
    out: &mut Vec<PathComponent>,
    from: &Vec<PathComponent>,
    start: usize,
    end: usize,
)
    requires
        start <= end <= from@.len(),
    ensures
        part_views(final(out)@) == part_views(old(out)@) + part_views(from@).subrange(
            start as int,
            end as int,
        ),
{
    let ghost before = part_views(out@);
    let ghost all = part_views(from@);
    let mut i: usize = start;
    assert(before + all.subrange(start as int, start as int) =~= before);
    while i < end
        invariant
            start <= i <= end <= from@.len(),
            all == part_views(from@),
            part_views(out@) == before + all.subrange(start as int, i as int),
        decreases end - i,
    {
        let c = copy_component(&from[i]);
        let ghost items = out@;
        let ghost view = c@;
        out.push(c);
        i += 1;
        assert(part_views(out@) =~= part_views(items).push(view));
        assert(part_views(out@) =~= before + all.subrange(start as int, i as int));
    }
}

// ---------------------------------------------------------------------------
// Separators
// ---------------------------------------------------------------------------

/// What a platform puts between two names.
pub open spec fn separator(style: PathStyle) -> char {
    match style {
        PathStyle::Unix => '/',
        PathStyle::Windows => '\\',
    }
}

/// Whether a character separates names. Windows takes a slash for a backslash, but not behind a
/// verbatim prefix.
pub open spec fn separates(style: PathStyle, verbatim: bool, c: char) -> bool {
    c == separator(style) || (style == PathStyle::Windows && !verbatim && c == '/')
}

/// The names in a text, as its separators part it.
pub open spec fn names_in(style: PathStyle, verbatim: bool, text: Seq<char>) -> Seq<Seq<char>> {
    split_on(
        text.map_values(
            |c: char|
                if separates(style, verbatim, c) {
                    separator(style)
                } else {
                    c
                },
        ),
        separator(style),
    )
}

/// What a platform puts between two names.
pub fn separator_of(style: PathStyle) -> (r: char)
    ensures
        r == separator(style),
{
    match style {
        PathStyle::Unix => '/',
        PathStyle::Windows => '\\',
    }
}

/// Whether a character separates names.
pub fn is_separator(style: PathStyle, verbatim: bool, c: char) -> (r: bool)
    ensures
        r == separates(style, verbatim, c),
{
    match style {
        PathStyle::Unix => c == '/',
        PathStyle::Windows => c == '\\' || (!verbatim && c == '/'),
    }
}

fn find_names(style: PathStyle, verbatim: bool, text: &[char]) -> (r: Vec<Vec<char>>)
    ensures
        views(r@) == names_in(style, verbatim, text@),
{
    let ghost all = text@.map_values(
        |c: char|
            if separates(style, verbatim, c) {
                separator(style)
            } else {
                c
            },
    );
    let mut plain: Vec<char> = Vec::new();
    let mut i: usize = 0;
    while i < text.len()
        invariant
            i <= text.len(),
            all == text@.map_values(
                |c: char|
                    if separates(style, verbatim, c) {
                        separator(style)
                    } else {
                        c
                    },
            ),
            plain@ == all.take(i as int),
        decreases text.len() - i,
    {
        if is_separator(style, verbatim, text[i]) {
            plain.push(separator_of(style));
        } else {
            plain.push(text[i]);
        }
        i += 1;
        assert(all.take(i as int) =~= all.take(i - 1).push(all[i - 1]));
    }
    assert(all.take(i as int) =~= all);
    parts_of(&plain, separator_of(style))
}

// ---------------------------------------------------------------------------
// Prefixes
// ---------------------------------------------------------------------------

/// Whether a slash or a backslash stands at a position.
pub open spec fn slash_at(text: Seq<char>, i: int) -> bool {
    i < text.len() && (text[i] == '\\' || text[i] == '/')
}

/// Whether a drive letter and a colon stand at a position.
pub open spec fn drive_at(text: Seq<char>, i: int) -> bool {
    i + 1 < text.len() && ascii_letter(text[i]) && text[i + 1] == ':'
}

/// The upper-case form of a drive letter.
pub open spec fn drive_letter(c: char) -> u8 {
    if 'a' <= c && c <= 'z' {
        (c as u8 - 32) as u8
    } else {
        c as u8
    }
}

/// The name at an index, or the empty name behind the last one.
pub open spec fn name_at(names: Seq<Seq<char>>, i: int) -> Seq<char> {
    if i < names.len() {
        names[i]
    } else {
        Seq::empty()
    }
}

/// The prefix that a text starts with on Windows: `\\?\UNC\server\share`, `\\?\C:`, `\\?\name`,
/// `\\.\name`, `\\server\share` or `C:`. A verbatim prefix has to be written with backslashes.
pub open spec fn windows_prefix(text: Seq<char>) -> Option<PrefixView> {
    if slash_at(text, 0) && slash_at(text, 1) {
        if text.len() >= 4 && text.take(4) == seq!['\\', '\\', '?', '\\'] {
            if text.len() >= 8 && text.subrange(4, 7) == seq!['U', 'N', 'C'] && slash_at(text, 7) {
                let names = names_in(PathStyle::Windows, true, text.skip(8));
                Some(PrefixView::VerbatimUnc(name_at(names, 0), name_at(names, 1)))
            } else if drive_at(text, 4) && (text.len() == 6 || slash_at(text, 6)) {
                Some(PrefixView::VerbatimDisk(drive_letter(text[4])))
            } else {
                let names = names_in(PathStyle::Windows, true, text.skip(4));
                Some(PrefixView::Verbatim(name_at(names, 0)))
            }
        } else if text.len() >= 4 && text[2] == '.' && slash_at(text, 3) {
            let names = names_in(PathStyle::Windows, false, text.skip(4));
            Some(PrefixView::DeviceNs(name_at(names, 0)))
        } else {
            let names = names_in(PathStyle::Windows, false, text.skip(2));
            if name_at(names, 0).len() > 0 && name_at(names, 1).len() > 0 {
                Some(PrefixView::Unc(names[0], names[1]))
            } else {
                None
            }
        }
    } else if drive_at(text, 0) {
        Some(PrefixView::Disk(drive_letter(text[0])))
    } else {
        None
    }
}

/// The prefix that a text starts with.
pub open spec fn text_prefix(style: PathStyle, text: Seq<char>) -> Option<PrefixView> {
    match style {
        PathStyle::Unix => None,
        PathStyle::Windows => windows_prefix(text),
    }
}

/// How many characters a server and a share take, with what stands between them.
pub open spec fn share_len(server: Seq<char>, share: Seq<char>) -> nat {
    if share.len() > 0 {
        server.len() + 1 + share.len()
    } else {
        server.len()
    }
}

/// How many characters a prefix takes.
pub open spec fn prefix_len(prefix: Option<PrefixView>) -> nat {
    match prefix {
        Some(PrefixView::Verbatim(a)) => 4 + a.len(),
        Some(PrefixView::VerbatimUnc(a, b)) => 8 + share_len(a, b),
        Some(PrefixView::VerbatimDisk(_)) => 6,
        Some(PrefixView::DeviceNs(a)) => 4 + a.len(),
        Some(PrefixView::Unc(a, b)) => 2 + share_len(a, b),
        Some(PrefixView::Disk(_)) => 2,
        None => 0,
    }
}

/// Whether what stands behind a prefix is taken word for word.
pub open spec fn verbatim(prefix: Option<PrefixView>) -> bool {
    match prefix {
        Some(PrefixView::Verbatim(_)) => true,
        Some(PrefixView::VerbatimUnc(_, _)) => true,
        Some(PrefixView::VerbatimDisk(_)) => true,
        _ => false,
    }
}

/// The prefix that a path starts with.
pub open spec fn first_prefix(parts: Seq<PartView>) -> Option<PrefixView> {
    if parts.len() > 0 {
        match parts[0] {
            PartView::Prefix(p) => Some(p),
            _ => None,
        }
    } else {
        None
    }
}

fn upper_letter(c: char) -> (r: u8)
    requires
        ascii_letter(c),
    ensures
        r == drive_letter(c),
{
    let n: u8 = c as u8;
    if 'a' <= c && c <= 'z' {
        n - 32
    } else {
        n
    }
}

fn is_slash_at(text: &[char], i: usize) -> (r: bool)
    ensures
        r == slash_at(text@, i as int),
{
    i < text.len() && (text[i] == '\\' || text[i] == '/')
}

fn is_drive_at(text: &[char], i: usize) -> (r: bool)
    requires
        i < usize::MAX,
    ensures
        r == drive_at(text@, i as int),
{
    i + 1 < text.len() && is_letter(text[i]) && text[i + 1] == ':'
}

fn name_text(names: &Vec<Vec<char>>, i: usize) -> (r: String)
    ensures
        r@ == name_at(views(names@), i as int),
{
    if i < names.len() {
        string_of(&names[i])
    } else {
        String::new()
    }
}

fn read_windows_prefix(text: &[char]) -> (r: Option<PathPrefix>)
    ensures
        match r {
            Some(p) => windows_prefix(text@) == Some(p@),
            None => windows_prefix(text@) is None,
        },
{
    if is_slash_at(text, 0) && is_slash_at(text, 1) {
        let is_verbatim = text.len() >= 4 && text[0] == '\\' && text[1] == '\\' && text[2] == '?'
            && text[3] == '\\';
        assert(is_verbatim == (text@.len() >= 4 && text@.take(4) =~= seq!['\\', '\\', '?', '\\']))
            by {
            if text@.len() >= 4 {
                assert(forall|i: int| 0 <= i < 4 ==> text@.take(4)[i] == text@[i]);
            }
        }
        if is_verbatim {
            let is_unc = text.len() >= 8 && text[4] == 'U' && text[5] == 'N' && text[6] == 'C'
                && is_slash_at(text, 7);
            assert(is_unc == (text@.len() >= 8 && text@.subrange(4, 7) =~= seq!['U', 'N', 'C']
                && slash_at(text@, 7))) by {
                if text@.len() >= 8 {
                    assert(forall|i: int| 0 <= i < 3 ==> text@.subrange(4, 7)[i] == text@[4 + i]);
                    assert(text@.subrange(4, 7)[0] == text@[4]);
                    assert(text@.subrange(4, 7)[1] == text@[5]);
                    assert(text@.subrange(4, 7)[2] == text@[6]);
                }
            }
            if is_unc {
                let rest = &text[8..text.len()];
                assert(rest@ =~= text@.skip(8));
                let names = find_names(PathStyle::Windows, true, rest);
                Some(PathPrefix::VerbatimUnc(name_text(&names, 0), name_text(&names, 1)))
            } else if is_drive_at(text, 4) && (text.len() == 6 || is_slash_at(text, 6)) {
                Some(PathPrefix::VerbatimDisk(upper_letter(text[4])))
            } else {
                let rest = &text[4..text.len()];
                assert(rest@ =~= text@.skip(4));
                let names = find_names(PathStyle::Windows, true, rest);
                Some(PathPrefix::Verbatim(name_text(&names, 0)))
            }
        } else if text.len() >= 4 && text[2] == '.' && is_slash_at(text, 3) {
            let rest = &text[4..text.len()];
            assert(rest@ =~= text@.skip(4));
            let names = find_names(PathStyle::Windows, false, rest);
            Some(PathPrefix::DeviceNs(name_text(&names, 0)))
        } else {
            let rest = &text[2..text.len()];
            assert(rest@ =~= text@.skip(2));
            let names = find_names(PathStyle::Windows, false, rest);
            assert(views(names@).len() == names@.len());
            if names.len() > 1 && names[0].len() > 0 && names[1].len() > 0 {
                Some(PathPrefix::Unc(name_text(&names, 0), name_text(&names, 1)))
            } else {
                None
            }
        }
    } else if is_drive_at(text, 0) {
        Some(PathPrefix::Disk(upper_letter(text[0])))
    } else {
        None
    }
}

/// The prefix that a text starts with.
pub fn read_prefix(style: PathStyle, text: &[char]) -> (r: Option<PathPrefix>)
    ensures
        prefix_view(r) == text_prefix(style, text@),
{
    match style {
        PathStyle::Unix => None,
        PathStyle::Windows => read_windows_prefix(text),
    }
}

/// What a prefix holds, where there is one.
pub open spec fn prefix_view(p: Option<PathPrefix>) -> Option<PrefixView> {
    match p {
        Some(prefix) => Some(prefix@),
        None => None,
    }
}

// ---------------------------------------------------------------------------
// Names
// ---------------------------------------------------------------------------

/// The component that a name in a path stands for. An empty name stands for none, and neither does
/// `.`, but where it is taken word for word.
pub open spec fn named(name: Seq<char>, verbatim: bool) -> Seq<PartView> {
    if name.len() == 0 {
        Seq::empty()
    } else if name == "."@ {
        if verbatim {
            seq![PartView::CurDir]
        } else {
            Seq::empty()
        }
    } else if name == ".."@ {
        seq![PartView::ParentDir]
    } else {
        seq![PartView::Normal(name)]
    }
}

/// The components that names in a path stand for.
pub open spec fn all_named(names: Seq<Seq<char>>, verbatim: bool) -> Seq<PartView>
    decreases names.len(),
{
    if names.len() == 0 {
        Seq::empty()
    } else {
        all_named(names.drop_last(), verbatim) + named(names.last(), verbatim)
    }
}

/// What a path starts with in front of its names: a root where one is written, or where a share or
/// a device is named, and `.` where a path without a prefix starts with it.
pub open spec fn first_parts(
    style: PathStyle,
    prefix: Option<PrefixView>,
    body: Seq<char>,
) -> Seq<PartView> {
    if body.len() > 0 && separates(style, verbatim(prefix), body[0]) {
        seq![PartView::RootDir]
    } else {
        match prefix {
            Some(PrefixView::Unc(_, _)) => seq![PartView::RootDir],
            Some(PrefixView::DeviceNs(_)) => seq![PartView::RootDir],
            Some(_) => Seq::empty(),
            None => if names_in(style, false, body)[0] == "."@ {
                seq![PartView::CurDir]
            } else {
                Seq::empty()
            },
        }
    }
}

/// The components of the path that a text stands for.
pub open spec fn text_parts(style: PathStyle, text: Seq<char>) -> Seq<PartView> {
    let prefix = text_prefix(style, text);
    let body = text.skip(prefix_len(prefix) as int);
    let names = names_in(style, verbatim(prefix), body);
    let head = match prefix {
        Some(p) => seq![PartView::Prefix(p)],
        None => Seq::empty(),
    };
    head + first_parts(style, prefix, body) + all_named(names, verbatim(prefix))
}

/// Appends what a name stands for.
pub fn push_named(out: &mut Vec<PathComponent>, name: &[char], is_verbatim: bool)
    ensures
        part_views(final(out)@) == part_views(old(out)@) + named(name@, is_verbatim),
{
    let ghost before = out@;
    if name.len() == 0 {
        assert(part_views(out@) =~= part_views(before) + named(name@, is_verbatim));
    } else if is_text(name, ".") {
        if is_verbatim {
            out.push(PathComponent::CurDir);
        }
        assert(part_views(out@) =~= part_views(before) + named(name@, is_verbatim));
    } else if is_text(name, "..") {
        out.push(PathComponent::ParentDir);
        assert(part_views(out@) =~= part_views(before) + named(name@, is_verbatim));
    } else {
        let text = string_of(name);
        out.push(PathComponent::Normal(text));
        assert(part_views(out@) =~= part_views(before) + named(name@, is_verbatim));
    }
}

fn share_length(server: &str, share: &str) -> (r: Option<usize>)
    ensures
        match r {
            Some(n) => n == share_len(server@, share@),
            None => share_len(server@, share@) > usize::MAX,
        },
{
    let a = chars_of(server);
    let b = chars_of(share);
    if b.len() > 0 {
        match a.len().checked_add(1) {
            Some(n) => n.checked_add(b.len()),
            None => None,
        }
    } else {
        Some(a.len())
    }
}

/// How many characters a prefix takes, or `limit` where it takes more.
pub fn prefix_length(prefix: &PathPrefix, limit: usize) -> (r: usize)
    ensures
        r == if prefix_len(Some(prefix@)) <= limit {
            prefix_len(Some(prefix@))
        } else {
            limit as nat
        },
{
    let length: Option<usize> = match prefix {
        PathPrefix::Verbatim(a) => chars_of(a.as_str()).len().checked_add(4),
        PathPrefix::VerbatimUnc(a, b) => match share_length(a.as_str(), b.as_str()) {
            Some(n) => n.checked_add(8),
            None => None,
        },
        PathPrefix::VerbatimDisk(_) => Some(6),
        PathPrefix::DeviceNs(a) => chars_of(a.as_str()).len().checked_add(4),
        PathPrefix::Unc(a, b) => match share_length(a.as_str(), b.as_str()) {
            Some(n) => n.checked_add(2),
            None => None,
        },
        PathPrefix::Disk(_) => Some(2),
    };
    match length {
        Some(n) => if n <= limit {
            n
        } else {
            limit
        },
        None => limit,
    }
}

/// Whether what stands behind a prefix is taken word for word.
pub fn is_verbatim_prefix(prefix: &PathPrefix) -> (r: bool)
    ensures
        r == verbatim(Some(prefix@)),
{
    match prefix {
        PathPrefix::Verbatim(_) => true,
        PathPrefix::VerbatimUnc(_, _) => true,
        PathPrefix::VerbatimDisk(_) => true,
        _ => false,
    }
}

proof fn lemma_first_names(s: Seq<char>, sep: char)
    ensures
        split_on(s, sep).len() >= 1,
        split_on(s, sep)[0].len() <= s.len(),
        split_on(s, sep).len() >= 2 ==> split_on(s, sep)[0].len() + 1 + split_on(s, sep)[1].len()
            <= s.len(),
        split_on(s, sep).len() == 1 ==> split_on(s, sep)[0].len() == s.len(),
    decreases s.len(),
{
    if s.len() > 0 {
        lemma_first_names(s.drop_last(), sep);
        let front = split_on(s.drop_last(), sep);
        assert(front.last() == front[front.len() - 1]);
    }
}

proof fn lemma_names_in(style: PathStyle, verbatim: bool, text: Seq<char>)
    ensures
        ({
            let names = names_in(style, verbatim, text);
            &&& names.len() >= 1
            &&& share_len(name_at(names, 0), name_at(names, 1)) <= text.len()
            &&& names[0].len() <= text.len()
        }),
{
    let plain = text.map_values(
        |c: char|
            if separates(style, verbatim, c) {
                separator(style)
            } else {
                c
            },
    );
    lemma_first_names(plain, separator(style));
}

/// A prefix is a part of the text that starts with it.
pub proof fn lemma_prefix_in_text(style: PathStyle, text: Seq<char>)
    ensures
        prefix_len(text_prefix(style, text)) <= text.len(),
{
    if style == PathStyle::Windows {
        if text.len() >= 8 {
            lemma_names_in(style, true, text.skip(8));
        }
        if text.len() >= 4 {
            lemma_names_in(style, true, text.skip(4));
            lemma_names_in(style, false, text.skip(4));
        }
        if text.len() >= 2 {
            lemma_names_in(style, false, text.skip(2));
        }
    }
}

/// Whether a text is one name, or `.` or `..`, on every platform.
pub open spec fn plain_text(text: Seq<char>) -> bool {
    &&& text.len() > 0
    &&& forall|i: int|
        0 <= i < text.len() ==> (#[trigger] text[i]) != '/' && text[i] != '\\' && text[i] != ':'
}

/// What a text that is one name is read as.
pub proof fn lemma_plain_text(style: PathStyle, text: Seq<char>)
    requires
        plain_text(text),
    ensures
        text_parts(style, text) == if text == "."@ {
            seq![PartView::CurDir]
        } else {
            named(text, false)
        },
{
    reveal_strlit(".");
    assert(text[0] != '/');
    let plain = text.map_values(
        |c: char|
            if separates(style, false, c) {
                separator(style)
            } else {
                c
            },
    );
    assert(plain =~= text);
    assert(!text.contains(separator(style)));
    lemma_split_one(text, separator(style));
    assert(names_in(style, false, text) == seq![text]);
    assert(seq![text].drop_last() =~= Seq::<Seq<char>>::empty());
    assert(all_named(seq![text].drop_last(), false) =~= Seq::<PartView>::empty());
    assert(all_named(seq![text], false) =~= named(text, false));
    assert(text_prefix(style, text) is None) by {
        if text.len() > 1 {
            assert(text[1] != ':');
        }
    }
    assert(text.skip(0) =~= text);
    assert(text_parts(style, text) =~= first_parts(style, None, text) + named(text, false));
}

/// The components of the path that a text stands for.
pub fn read_components(style: PathStyle, text: &[char]) -> (r: Vec<PathComponent>)
    ensures
        part_views(r@) == text_parts(style, text@),
{
    let ghost prefix = text_prefix(style, text@);
    proof {
        lemma_prefix_in_text(style, text@);
    }
    let mut out: Vec<PathComponent> = Vec::new();
    let mut start: usize = 0;
    let mut is_verbatim = false;
    let mut has_prefix = false;
    let mut names_root = false;
    assert(part_views(out@) =~= Seq::<PartView>::empty());
    match read_prefix(style, text) {
        Some(p) => {
            start = prefix_length(&p, text.len());
            is_verbatim = is_verbatim_prefix(&p);
            has_prefix = true;
            names_root = match &p {
                PathPrefix::Unc(_, _) => true,
                PathPrefix::DeviceNs(_) => true,
                _ => false,
            };
            out.push(PathComponent::Prefix(p));
            assert(part_views(out@) =~= seq![PartView::Prefix(prefix->0)]);
        },
        None => {},
    }
    let body = &text[start..text.len()];
    assert(body@ =~= text@.skip(prefix_len(prefix) as int));
    let names = find_names(style, is_verbatim, body);
    let ghost all = views(names@);
    let ghost head = part_views(out@);
    proof {
        lemma_names_in(style, is_verbatim, body@);
        assert(all[0] == names@[0]@);
    }
    if body.len() > 0 && is_separator(style, is_verbatim, body[0]) {
        out.push(PathComponent::RootDir);
        assert(part_views(out@) =~= head + seq![PartView::RootDir]);
    } else if names_root {
        out.push(PathComponent::RootDir);
        assert(part_views(out@) =~= head + seq![PartView::RootDir]);
    } else if !has_prefix && is_text(&names[0], ".") {
        out.push(PathComponent::CurDir);
        assert(part_views(out@) =~= head + seq![PartView::CurDir]);
    } else {
        assert(part_views(out@) =~= head + Seq::<PartView>::empty());
    }
    let ghost before = part_views(out@);
    assert(before =~= head + first_parts(style, prefix, body@));
    let mut i: usize = 0;
    assert(all.take(0) =~= Seq::<Seq<char>>::empty());
    assert(before + all_named(all.take(0), is_verbatim) =~= before);
    while i < names.len()
        invariant
            i <= names.len(),
            all == views(names@),
            part_views(out@) == before + all_named(all.take(i as int), is_verbatim),
        decreases names.len() - i,
    {
        push_named(&mut out, &names[i], is_verbatim);
        i += 1;
        assert(all.take(i as int).drop_last() =~= all.take(i - 1));
        assert(all.take(i as int).last() == names@[i - 1]@);
        assert(part_views(out@) =~= before + all_named(all.take(i as int), is_verbatim));
    }
    assert(all.take(i as int) =~= all);
    out
}

}
