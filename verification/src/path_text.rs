//! That the text of a path is read as its components, whatever the path was made of. This is stated
//! for Unix.
use crate::lines::{lemma_split_concat, lemma_split_one, split_on};
use crate::path_parts::{
    all_named, first_parts, first_prefix, named, separates, separator, text_parts, PartView,
    PathStyle, PrefixView,
};
use crate::paths::{
    absolute, below, cache_place, cache_relative, component_end, component_start, dot_index,
    file_name, has_plain_names, joined, lone_name, lower_byte, name_with_extension, names_start,
    parent, parsed, plain_part, portable_name, prefix_end, prefix_place, pushed, separates_in, stem,
    tail_start, with_extension, PathView,
};
use vstd::prelude::*;

verus! {

proof fn lemma_all_named_append(a: Seq<Seq<char>>, b: Seq<Seq<char>>)
    ensures
        all_named(a + b, false) == all_named(a, false) + all_named(b, false),
    decreases b.len(),
{
    if b.len() == 0 {
        assert(a + b =~= a);
        assert(all_named(a, false) + all_named(b, false) =~= all_named(a, false));
    } else {
        lemma_all_named_append(a, b.drop_last());
        assert((a + b).drop_last() =~= a + b.drop_last());
        assert(all_named(a + b, false) =~= all_named(a, false) + all_named(b, false));
    }
}

proof fn lemma_all_named_one(name: Seq<char>)
    ensures
        all_named(seq![name], false) == named(name, false),
{
    assert(seq![name].drop_last() =~= Seq::<Seq<char>>::empty());
    assert(all_named(seq![name].drop_last(), false) =~= Seq::<PartView>::empty());
    assert(all_named(seq![name], false) =~= named(name, false));
}

/// How a text is read on Unix.
proof fn lemma_unix_parts(text: Seq<char>)
    ensures
        text_parts(PathStyle::Unix, text) == (if text.len() > 0 && text[0] == '/' {
            seq![PartView::RootDir]
        } else if split_on(text, '/')[0] == "."@ {
            seq![PartView::CurDir]
        } else {
            Seq::<PartView>::empty()
        }) + all_named(split_on(text, '/'), false),
{
    let style = PathStyle::Unix;
    assert(text.skip(0) =~= text);
    assert(text.map_values(
        |c: char|
            if separates(style, false, c) {
                separator(style)
            } else {
                c
            },
    ) =~= text);
    assert(text_parts(style, text) =~= first_parts(style, None, text) + all_named(
        split_on(text, '/'),
        false,
    ));
}

// ---------------------------------------------------------------------------
// Texts of paths that were made of others
// ---------------------------------------------------------------------------

/// Whether the text of a path on Unix is read as its components.
pub open spec fn coherent(path: PathView) -> bool {
    path.style == PathStyle::Unix && path.parts == text_parts(PathStyle::Unix, path.text)
}

/// The components that a text is read as on Unix.
spec fn unix(text: Seq<char>) -> Seq<PartView> {
    text_parts(PathStyle::Unix, text)
}

/// The names of a text stand for no prefix, no root and no leading `.`.
proof fn lemma_named_parts(names: Seq<Seq<char>>)
    ensures
        forall|i: int|
            0 <= i < all_named(names, false).len() ==> (#[trigger] all_named(names, false)[i]) is Normal
                || all_named(names, false)[i] is ParentDir,
    decreases names.len(),
{
    if names.len() > 0 {
        lemma_named_parts(names.drop_last());
    }
}

proof fn lemma_no_unix_prefix(text: Seq<char>)
    ensures
        first_prefix(unix(text)) is None,
        unix(text).len() > 0 ==> (unix(text)[0] is RootDir <==> text[0] == '/'),
        unix(text).len() > 0 && text[0] != '/' ==> (unix(text)[0] is CurDir <==> split_on(
            text,
            '/',
        )[0] == "."@),
        text.len() == 0 ==> unix(text).len() == 0,
        text.len() > 0 ==> unix(text).len() > 0,
{
    reveal_strlit(".");
    lemma_unix_parts(text);
    lemma_named_parts(split_on(text, '/'));
    if text.len() == 0 {
        lemma_all_named_one(Seq::empty());
        assert(split_on(text, '/') =~= seq![Seq::<char>::empty()]);
    } else if text[0] != '/' {
        lemma_first_name(text);
        let names = split_on(text, '/');
        assert(names =~= seq![names[0]] + names.skip(1));
        lemma_all_named_append(seq![names[0]], names.skip(1));
        lemma_all_named_one(names[0]);
    }
}

/// The first name of a text that does not start with a slash is not empty.
proof fn lemma_first_name(text: Seq<char>)
    requires
        text.len() > 0,
        text[0] != '/',
    ensures
        split_on(text, '/').len() > 0,
        split_on(text, '/')[0].len() > 0,
        split_on(text, '/')[0][0] == text[0],
    decreases text.len(),
{
    let front = text.drop_last();
    if text.len() == 1 {
        assert(front =~= Seq::<char>::empty());
        assert(split_on(front, '/') =~= seq![Seq::<char>::empty()]);
        assert(split_on(text, '/') =~= seq![seq![text[0]]]);
    } else {
        lemma_first_name(front);
    }
}

/// What stands behind a slash is read name by name.
proof fn lemma_behind_slash(head: Seq<char>, tail: Seq<char>)
    requires
        head.len() > 0,
        head.last() == '/',
    ensures
        unix(head + tail) == unix(head) + all_named(split_on(tail, '/'), false),
{
    let front = head.drop_last();
    let empty = Seq::<char>::empty();
    assert(front.push('/') =~= head);
    lemma_split_concat(front, tail, '/');
    lemma_split_concat(front, empty, '/');
    assert(head + empty =~= head);
    assert(split_on(empty, '/') =~= seq![empty]);
    lemma_unix_parts(head);
    lemma_unix_parts(head + tail);
    let names = split_on(front, '/');
    lemma_all_named_append(names, split_on(tail, '/'));
    lemma_all_named_append(names, seq![empty]);
    lemma_all_named_one(empty);
    assert(all_named(split_on(head, '/'), false) =~= all_named(names, false));
    lemma_names_not_empty(front);
    assert((head + tail)[0] == head[0]);
    assert(split_on(head + tail, '/')[0] == names[0]);
    assert(split_on(head, '/')[0] == names[0]);
    assert(unix(head + tail) =~= unix(head) + all_named(split_on(tail, '/'), false));
}

proof fn lemma_names_not_empty(text: Seq<char>)
    ensures
        split_on(text, '/').len() > 0,
{
    lemma_split_concat(Seq::empty(), text, '/');
}

/// A slash at the end of a text changes nothing.
proof fn lemma_trailing_slash(text: Seq<char>)
    requires
        text.len() > 0,
    ensures
        unix(text.push('/')) == unix(text),
{
    let empty = Seq::<char>::empty();
    lemma_split_concat(text, empty, '/');
    assert(text.push('/') + empty =~= text.push('/'));
    assert(split_on(empty, '/') =~= seq![empty]);
    lemma_names_not_empty(text);
    lemma_unix_parts(text);
    lemma_unix_parts(text.push('/'));
    lemma_all_named_append(split_on(text, '/'), seq![empty]);
    lemma_all_named_one(empty);
    assert(split_on(text.push('/'), '/')[0] == split_on(text, '/')[0]);
    assert(all_named(split_on(text.push('/'), '/'), false) =~= all_named(
        split_on(text, '/'),
        false,
    ));
}

/// A path that is joined of two is written as it is read.
pub proof fn law_joined_text_is_read_back(base: PathView, other: PathView)
    requires
        coherent(base),
        coherent(other),
    ensures
        coherent(joined(base, other)),
{
    let path = joined(base, other);
    lemma_no_unix_prefix(base.text);
    lemma_no_unix_prefix(other.text);
    if !absolute(other) {
        let names = split_on(other.text, '/');
        lemma_unix_parts(other.text);
        lemma_named_parts(names);
        if base.text.len() == 0 {
            assert(path.text =~= other.text);
            assert(base.parts =~= Seq::<PartView>::empty());
            assert(path.parts =~= other.parts);
        } else {
            let head = if base.text.last() == '/' {
                base.text
            } else {
                base.text.push('/')
            };
            assert(path.text =~= head + other.text);
            lemma_trailing_slash(base.text);
            lemma_behind_slash(head, other.text);
            if other.parts.len() > 0 && other.parts[0] is CurDir {
                assert(other.text[0] != '/');
                assert(other.parts.skip(1) =~= all_named(names, false));
            } else {
                assert(other.parts =~= all_named(names, false)) by {
                    if other.text.len() == 0 {
                        assert(names =~= seq![Seq::<char>::empty()]);
                        reveal_strlit(".");
                    }
                }
            }
            assert(path.parts =~= unix(path.text));
        }
    }
}

/// Where the first slash of a text stands, from position `i` on.
spec fn slash_from(text: Seq<char>, i: int) -> int
    decreases text.len() - i,
{
    if i < 0 || i >= text.len() || text[i] == '/' {
        i
    } else {
        slash_from(text, i + 1)
    }
}

proof fn lemma_slash_from(text: Seq<char>, i: int)
    requires
        0 <= i <= text.len(),
    ensures
        i <= slash_from(text, i) <= text.len(),
        slash_from(text, i) < text.len() ==> text[slash_from(text, i)] == '/',
        forall|j: int| i <= j < slash_from(text, i) ==> text[j] != '/',
    decreases text.len() - i,
{
    if i < text.len() && text[i] != '/' {
        lemma_slash_from(text, i + 1);
    }
}

/// The first name of a text ends at its first slash.
proof fn lemma_first_name_ends(text: Seq<char>)
    ensures
        split_on(text, '/').len() > 0,
        split_on(text, '/')[0] == text.take(slash_from(text, 0)),
{
    lemma_slash_from(text, 0);
    let k = slash_from(text, 0);
    let name = text.take(k);
    assert(!name.contains('/'));
    lemma_split_one(name, '/');
    if k < text.len() {
        assert(text =~= name.push('/') + text.skip(k + 1));
        lemma_split_concat(name, text.skip(k + 1), '/');
    } else {
        assert(text =~= name);
    }
}

/// A text starts with `.` as a name exactly where nothing or a slash follows the dot.
proof fn lemma_leading_dot(text: Seq<char>)
    requires
        text.len() > 0,
    ensures
        split_on(text, '/')[0] == "."@ <==> text[0] == '.' && (text.len() == 1 || text[1] == '/'),
{
    reveal_strlit(".");
    lemma_first_name_ends(text);
    lemma_slash_from(text, 0);
    let k = slash_from(text, 0);
    if text[0] == '.' && (text.len() == 1 || text[1] == '/') {
        assert(k == 1) by {
            if k > 1 {
                assert(text[1] != '/');
            }
        }
        assert(text.take(k) =~= "."@);
    }
    if split_on(text, '/')[0] == "."@ {
        assert(text.take(k).len() == 1);
        assert(text.take(k)[0] == text[0]);
    }
}

/// Where the names of a path start.
proof fn lemma_names_start(path: PathView)
    requires
        coherent(path),
    ensures
        prefix_end(path) == 0,
        forall|c: char| #[trigger] separates_in(path, c) <==> c == '/',
        names_start(path) == if path.text.len() > 0 && (path.text[0] == '/' || (path.text[0] == '.'
            && (path.text.len() == 1 || path.text[1] == '/'))) {
            1int
        } else {
            0int
        },
{
    lemma_no_unix_prefix(path.text);
    if path.text.len() > 0 {
        lemma_leading_dot(path.text);
    }
}

/// Whether what stands from a position on are the separators and dots at the end of a path.
spec fn trailing(text: Seq<char>, to: int) -> bool {
    to == text.len() || text[to] == '/' || (to >= 1 && text[to - 1] == '/')
}

/// What is left out at the end of a path stands for nothing.
proof fn lemma_component_end_reads(path: PathView, to: int)
    requires
        coherent(path),
        0 <= to <= path.text.len(),
        trailing(path.text, to),
    ensures
        0 <= component_end(path, to) <= to,
        unix(path.text.take(component_end(path, to))) == unix(path.text.take(to)),
        ({
            let e = component_end(path, to);
            e > names_start(path) ==> path.text[e - 1] != '/' && !(path.text[e - 1] == '.' && (e - 1
                <= names_start(path) || path.text[e - 2] == '/'))
        }),
    decreases to,
{
    lemma_names_start(path);
    let text = path.text;
    let start = names_start(path);
    if to > start {
        let front = text.take(to - 1);
        assert(text.take(to) =~= front.push(text[to - 1]));
        if text[to - 1] == '/' {
            assert(to > 1);
            lemma_trailing_slash(front);
            lemma_component_end_reads(path, to - 1);
        } else if text[to - 1] == '.' && (to - 1 <= start || text[to - 2] == '/') {
            assert(to >= 2 && text[to - 2] == '/');
            assert(front.last() == '/');
            let dot = seq!['.'];
            reveal_strlit(".");
            assert(dot =~= "."@);
            assert(!dot.contains('/'));
            lemma_split_one(dot, '/');
            lemma_all_named_one(dot);
            lemma_behind_slash(front, dot);
            assert(front + dot =~= text.take(to));
            assert(unix(text.take(to)) =~= unix(front));
            lemma_component_end_reads(path, to - 1);
        }
    }
}

proof fn lemma_component_start_reads(path: PathView, end: int)
    requires
        coherent(path),
        names_start(path) <= end <= path.text.len(),
    ensures
        names_start(path) <= component_start(path, end) <= end,
        forall|j: int| component_start(path, end) <= j < end ==> path.text[j] != '/',
        component_start(path, end) == names_start(path) || path.text[component_start(path, end) - 1]
            == '/',
    decreases end,
{
    lemma_names_start(path);
    if end > names_start(path) && path.text[end - 1] != '/' {
        lemma_component_start_reads(path, end - 1);
    }
}

/// The components of the first characters of a path that end in a name: those of what stands before
/// the name, and the name.
proof fn lemma_name_before(path: PathView, to: int)
    requires
        coherent(path),
        0 <= to <= path.text.len(),
        trailing(path.text, to),
        component_end(path, to) > names_start(path),
    ensures
        ({
            let e = component_end(path, to);
            let s = component_start(path, e);
            let name = path.text.subrange(s, e);
            &&& 0 <= s < e <= to
            &&& s == 0 || path.text[s - 1] == '/'
            &&& !name.contains('/')
            &&& name != "."@
            &&& named(name, false).len() == 1
            &&& unix(path.text.take(to)) == unix(path.text.take(s)) + named(name, false)
        }),
{
    let text = path.text;
    let e = component_end(path, to);
    lemma_names_start(path);
    lemma_component_end_reads(path, to);
    lemma_component_start_reads(path, e);
    let s = component_start(path, e);
    let name = text.subrange(s, e);
    assert(text[e - 1] != '/');
    assert(s < e) by {
        if s == e {
            assert(text[s - 1] == '/');
        }
    }
    assert(s == 0 || text[s - 1] == '/');
    assert(!name.contains('/'));
    lemma_split_one(name, '/');
    lemma_all_named_one(name);
    reveal_strlit(".");
    assert(name != "."@) by {
        if name == "."@ {
            assert(name.len() == 1 && name[0] == '.');
            assert(text[e - 1] == name[0]);
        }
    }
    assert(text.take(e) =~= text.take(s) + name);
    if s == 0 {
        assert(text.take(s) =~= Seq::<char>::empty());
        assert(text.take(e) =~= name);
        lemma_no_unix_prefix(text.take(s));
        lemma_unix_parts(name);
        assert(name[0] == text[0]);
        assert(unix(name) =~= unix(text.take(s)) + named(name, false));
    } else {
        assert(text.take(s).last() == '/');
        lemma_behind_slash(text.take(s), name);
    }
}

/// What is left of the first characters of a path without names in them: nothing, a root, or `.`.
proof fn lemma_no_names(path: PathView, to: int)
    requires
        coherent(path),
        0 <= to <= path.text.len(),
        trailing(path.text, to),
        component_end(path, to) <= names_start(path),
    ensures
        unix(path.text.take(to)).len() <= 1,
        unix(path.text.take(to)).len() == 1 ==> unix(path.text.take(to))[0] is RootDir || unix(
            path.text.take(to),
        )[0] is CurDir,
{
    let text = path.text;
    let e = component_end(path, to);
    lemma_names_start(path);
    lemma_component_end_reads(path, to);
    let left = text.take(e);
    lemma_no_unix_prefix(left);
    if e == 1 {
        lemma_unix_parts(left);
        reveal_strlit(".");
        let empty = Seq::<char>::empty();
        if left[0] == '/' {
            assert(left =~= empty.push('/') + empty);
            lemma_split_concat(empty, empty, '/');
            assert(split_on(empty, '/') =~= seq![empty]);
            lemma_all_named_append(seq![empty], seq![empty]);
            lemma_all_named_one(empty);
        } else {
            assert(left =~= "."@);
            assert(!left.contains('/'));
            lemma_split_one(left, '/');
            lemma_all_named_one(left);
        }
    }
}

/// The path that a path is in is written as it is read.
pub proof fn law_parent_text_is_read_back(path: PathView)
    requires
        coherent(path),
        parent(path) is Some,
    ensures
        coherent(parent(path)->0),
{
    let text = path.text;
    let e = component_end(path, text.len() as int);
    lemma_names_start(path);
    assert(text.take(text.len() as int) =~= text);
    if e > names_start(path) {
        lemma_name_before(path, text.len() as int);
        let s = component_start(path, e);
        assert(path.parts.drop_last() =~= unix(text.take(s)));
        lemma_component_start_reads(path, e);
        if s > names_start(path) {
            assert(s > 1);
            assert(text.take(s) =~= text.take(s - 1).push('/'));
            lemma_trailing_slash(text.take(s - 1));
            lemma_component_end_reads(path, s - 1);
        }
    } else {
        lemma_no_names(path, text.len() as int);
        lemma_no_unix_prefix(text.take(0));
        assert(path.parts.drop_last() =~= unix(text.take(0)));
    }
}

/// A path with another extension is written as it is read, where the extension is no more than
/// that, and the name is not `.` without its own.
pub proof fn law_renamed_text_is_read_back(path: PathView, ext: Seq<char>)
    requires
        coherent(path),
        !ext.contains('/'),
        file_name(path) matches Some(name) ==> name_with_extension(name, ext) != "."@,
    ensures
        coherent(with_extension(path, ext)),
{
    if let Some(name) = file_name(path) {
        let text = path.text;
        let e = component_end(path, text.len() as int);
        assert(text.take(text.len() as int) =~= text);
        if e <= names_start(path) {
            lemma_no_names(path, text.len() as int);
        }
        lemma_name_before(path, text.len() as int);
        let s = component_start(path, e);
        let old_name = text.subrange(s, e);
        assert(path.parts.last() == named(old_name, false)[0]);
        assert(name == old_name);
        assert(path.parts.drop_last() =~= unix(text.take(s)));
        lemma_no_unix_prefix(text);
        let renamed = name_with_extension(name, ext);
        lemma_renamed(name, ext);
        lemma_split_one(renamed, '/');
        lemma_all_named_one(renamed);
        let new_text = text.take(s) + renamed;
        assert(with_extension(path, ext).text == new_text);
        if s == 0 {
            assert(text.take(s) =~= Seq::<char>::empty());
            assert(new_text =~= renamed);
            lemma_no_unix_prefix(text.take(s));
            lemma_unix_parts(renamed);
            assert(!(renamed[0] == '/')) by {
                assert(renamed.contains(renamed[0]));
            }
            assert(unix(new_text) =~= unix(text.take(s)) + named(renamed, false));
        } else {
            assert(text.take(s).last() == '/');
            lemma_behind_slash(text.take(s), renamed);
        }
    }
}

proof fn lemma_renamed(name: Seq<char>, ext: Seq<char>)
    requires
        name.len() > 0,
        !name.contains('/'),
        !ext.contains('/'),
    ensures
        name_with_extension(name, ext).len() > 0,
        !name_with_extension(name, ext).contains('/'),
{
    let renamed = name_with_extension(name, ext);
    lemma_dot_index(name, name.len() as int);
    let kept = stem(name);
    assert forall|i: int| 0 <= i < renamed.len() implies renamed[i] != '/' by {
        if i < kept.len() {
            assert(name.contains(name[i]));
        } else if i > kept.len() {
            assert(ext.contains(ext[i - kept.len() - 1]));
        }
    }
}

proof fn lemma_dot_index(name: Seq<char>, to: int)
    ensures
        dot_index(name, to) >= 1 || dot_index(name, to) == name.len(),
        dot_index(name, to) <= name.len(),
    decreases to,
{
    if 1 < to <= name.len() {
        lemma_dot_index(name, to - 1);
    }
}

/// Where a path is cut before its innermost components, the others are left.
proof fn lemma_tail_start(path: PathView, to: int, k: nat)
    requires
        coherent(path),
        0 <= to <= path.text.len(),
        trailing(path.text, to),
        k < unix(path.text.take(to)).len(),
    ensures
        ({
            let t = tail_start(path, to, k);
            let all = unix(path.text.take(to));
            let e = component_end(path, to);
            &&& 0 <= t <= to
            &&& unix(path.text.take(t)) == all.take(all.len() - k)
            &&& k > 0 ==> {
                &&& 0 < t < e
                &&& path.text[t - 1] == '/'
                &&& path.text[t] != '/'
                &&& !(path.text[t] == '.' && (t + 1 == e || path.text[t + 1] == '/'))
            }
        }),
    decreases k,
{
    let text = path.text;
    let all = unix(text.take(to));
    if k == 0 {
        assert(all.take(all.len() as int) =~= all);
    } else {
        let e = component_end(path, to);
        if e <= names_start(path) {
            lemma_no_names(path, to);
        }
        lemma_name_before(path, to);
        let s = component_start(path, e);
        let name = text.subrange(s, e);
        assert(unix(text.take(s)) =~= all.drop_last());
        if s == 0 {
            assert(text.take(s) =~= Seq::<char>::empty());
            lemma_no_unix_prefix(text.take(s));
        }
        lemma_tail_start(path, s, (k - 1) as nat);
        assert(all.drop_last().take(all.len() - 1 - (k - 1)) =~= all.take(all.len() - k));
        let t = tail_start(path, to, k);
        if k == 1 {
            assert(t == s);
            assert(name[0] == text[s]);
            assert(name.contains(name[0]));
            reveal_strlit(".");
            if text[t] == '.' && (t + 1 == e || text[t + 1] == '/') {
                if t + 1 < e {
                    assert(name[1] == text[t + 1]);
                    assert(name.contains(name[1]));
                }
                assert(name =~= "."@);
            }
        } else {
            lemma_names_start(path);
            lemma_component_end_reads(path, s);
            if t + 1 == e {
                assert(t + 1 <= component_end(path, s) <= s < e);
            }
        }
    }
}

/// The path below the first components of a path is written as it is read.
pub proof fn law_text_below_is_read_back(path: PathView, n: int)
    requires
        coherent(path),
        0 <= n <= path.parts.len(),
    ensures
        coherent(below(path, n)),
{
    let text = path.text;
    let len = text.len() as int;
    let e = component_end(path, len);
    assert(text.take(len) =~= text);
    lemma_component_end_reads(path, len);
    if n == 0 {
        assert(path.parts.skip(0) =~= path.parts);
    } else {
        let k = (path.parts.len() - n) as nat;
        if k == 0 {
            let empty = text.subrange(e, e);
            assert(empty =~= text.take(0));
            lemma_no_unix_prefix(empty);
            assert(path.parts.skip(n) =~= unix(empty));
        } else {
            lemma_end_is_end(path);
            lemma_tail_start(path, e, k);
            let t = tail_start(path, e, k);
            let rest = text.subrange(t, e);
            assert(text.take(e) =~= text.take(t) + rest);
            lemma_behind_slash(text.take(t), rest);
            lemma_unix_parts(rest);
            lemma_leading_dot(rest);
            assert(rest[0] == text[t]);
            if rest.len() > 1 {
                assert(rest[1] == text[t + 1]);
            }
            assert(unix(rest) =~= all_named(split_on(rest, '/'), false));
            assert(path.parts.skip(n) =~= unix(rest));
        }
    }
}

/// Where the innermost component of a path ends, nothing more can be left out.
proof fn lemma_end_is_end(path: PathView)
    requires
        coherent(path),
    ensures
        ({
            let e = component_end(path, path.text.len() as int);
            component_end(path, e) == e && trailing(path.text, e)
        }),
{
    lemma_end_of(path, path.text.len() as int);
}

proof fn lemma_end_of(path: PathView, to: int)
    requires
        coherent(path),
        0 <= to <= path.text.len(),
        trailing(path.text, to),
    ensures
        component_end(path, component_end(path, to)) == component_end(path, to),
        trailing(path.text, component_end(path, to)),
    decreases to,
{
    lemma_names_start(path);
    if to > names_start(path) && component_end(path, to) != to {
        lemma_end_of(path, to - 1);
    }
}

/// A name is written as it is read, where it is not read as something else.
pub proof fn law_lone_name_is_read_back(name: Seq<char>)
    requires
        name.len() > 0,
        name != "."@,
        name != ".."@,
        !name.contains('/'),
    ensures
        coherent(lone_name(PathStyle::Unix, name)),
{
    lemma_unix_parts(name);
    lemma_split_one(name, '/');
    lemma_all_named_one(name);
    assert(name.contains(name[0]));
    assert(unix(name) =~= seq![PartView::Normal(name)]);
}

proof fn lemma_pushed_is_read_back(place: PathView, text: Seq<char>)
    requires
        coherent(place),
    ensures
        coherent(pushed(place, text)),
{
    reveal(pushed);
    law_joined_text_is_read_back(place, parsed(place.style, text));
}

proof fn lemma_place_is_read_back(parts: Seq<PartView>)
    ensures
        coherent(cache_place(PathStyle::Unix, parts)),
    decreases parts.len(),
{
    if parts.len() > 0 {
        lemma_place_is_read_back(parts.drop_last());
        let place = cache_place(PathStyle::Unix, parts.drop_last());
        match parts.last() {
            PartView::Prefix(p) => lemma_prefix_is_read_back(place, p),
            PartView::RootDir => lemma_pushed_is_read_back(place, "root"@),
            PartView::CurDir => {},
            PartView::ParentDir => lemma_pushed_is_read_back(place, "parent"@),
            PartView::Normal(n) => lemma_pushed_is_read_back(place, n),
        }
    } else {
        lemma_no_unix_prefix(Seq::empty());
        assert(unix(Seq::empty()) =~= Seq::<PartView>::empty());
    }
}

proof fn lemma_prefix_is_read_back(place: PathView, p: PrefixView)
    requires
        coherent(place),
    ensures
        coherent(prefix_place(place, p)),
{
    match p {
        PrefixView::Disk(d) => lemma_pushed_is_read_back(place, "drive_"@.push(lower_byte(d))),
        PrefixView::VerbatimDisk(d) => lemma_pushed_is_read_back(
            place,
            "drive_"@.push(lower_byte(d)),
        ),
        PrefixView::Unc(a, b) => lemma_share_is_read_back(place, a, b),
        PrefixView::VerbatimUnc(a, b) => lemma_share_is_read_back(place, a, b),
        PrefixView::DeviceNs(a) => {
            lemma_pushed_is_read_back(place, "device"@);
            lemma_pushed_is_read_back(pushed(place, "device"@), portable_name(a));
        },
        PrefixView::Verbatim(a) => {
            lemma_pushed_is_read_back(place, "verbatim"@);
            lemma_pushed_is_read_back(pushed(place, "verbatim"@), portable_name(a));
        },
    }
}

proof fn lemma_share_is_read_back(place: PathView, a: Seq<char>, b: Seq<char>)
    requires
        coherent(place),
    ensures
        coherent(prefix_place(place, PrefixView::Unc(a, b))),
{
    let one = pushed(place, "unc"@);
    lemma_pushed_is_read_back(place, "unc"@);
    lemma_pushed_is_read_back(one, portable_name(a));
    lemma_pushed_is_read_back(pushed(one, portable_name(a)), portable_name(b));
}

/// Where a path is kept in the cache is written as it is read.
pub proof fn law_cache_text_is_read_back(path: PathView)
    requires
        path.style == PathStyle::Unix,
    ensures
        coherent(cache_relative(path)),
{
    lemma_place_is_read_back(path.parts);
    let place = cache_place(PathStyle::Unix, path.parts);
    lemma_pushed_is_read_back(place, "root"@);
    lemma_pushed_is_read_back(place, "relative"@);
}

proof fn lemma_names_have_no_slash(text: Seq<char>)
    ensures
        forall|i: int|
            0 <= i < split_on(text, '/').len() ==> !(#[trigger] split_on(text, '/')[i]).contains('/'),
    decreases text.len(),
{
    if text.len() > 0 {
        lemma_names_have_no_slash(text.drop_last());
        lemma_names_not_empty(text.drop_last());
        let front = split_on(text.drop_last(), '/');
        let names = split_on(text, '/');
        assert forall|i: int| 0 <= i < names.len() implies !(#[trigger] names[i]).contains('/') by {
            if i < front.len() - 1 {
                assert(names[i] == front[i]);
            } else if text.last() != '/' {
                assert(names[i] == front[i].push(text.last()));
                assert(!front[i].contains('/'));
                assert forall|j: int| 0 <= j < names[i].len() implies names[i][j] != '/' by {
                    if j < front[i].len() {
                        assert(front[i].contains(front[i][j]));
                    }
                }
            } else if i < front.len() {
                assert(names[i] == front[i]);
            }
        }
    } else {
        assert(split_on(text, '/') =~= seq![Seq::<char>::empty()]);
    }
}

proof fn lemma_named_are_plain(names: Seq<Seq<char>>)
    requires
        forall|i: int| 0 <= i < names.len() ==> !(#[trigger] names[i]).contains('/'),
    ensures
        forall|i: int|
            0 <= i < all_named(names, false).len() ==> plain_part(
                PathStyle::Unix,
                #[trigger] all_named(names, false)[i],
            ),
    decreases names.len(),
{
    if names.len() > 0 {
        let front = names.drop_last();
        assert forall|i: int| 0 <= i < front.len() implies !(#[trigger] front[i]).contains('/') by {
            assert(front[i] == names[i]);
        }
        lemma_named_are_plain(front);
        let last = names[names.len() - 1];
        assert(!last.contains('/'));
        if last.len() > 0 && last != "."@ && last != ".."@ {
            law_lone_name_is_read_back(last);
        }
        let before = all_named(front, false);
        let all = all_named(names, false);
        assert forall|i: int| 0 <= i < all.len() implies plain_part(
            PathStyle::Unix,
            #[trigger] all[i],
        ) by {
            if i < before.len() {
                assert(all[i] == before[i]);
            } else {
                assert(all[i] == named(last, false)[i - before.len()]);
            }
        }
    }
}

/// The names in a path on Unix are read as names when they stand alone.
pub proof fn law_names_on_unix_are_plain(path: PathView)
    requires
        coherent(path),
    ensures
        has_plain_names(path),
{
    let names = split_on(path.text, '/');
    lemma_unix_parts(path.text);
    lemma_names_have_no_slash(path.text);
    lemma_named_are_plain(names);
    let rest = all_named(names, false);
    assert forall|i: int| 0 <= i < path.parts.len() implies plain_part(
        path.style,
        #[trigger] path.parts[i],
    ) by {
        if path.parts.len() > rest.len() {
            if i > 0 {
                assert(path.parts[i] == rest[i - 1]);
            }
        } else {
            assert(path.parts[i] == rest[i]);
        }
    }
}

}
