//! The order of paths, and sorted lists of them.
use crate::path_parts::{PartView, PathComponent, PathPrefix, PrefixView};
use crate::paths::{path_views, same_path, FilePath, PathView};
use crate::text::chars_of;
use vstd::prelude::*;

verus! {

/// A text as numbers that end in zero, so that a shorter text comes before a longer one that
/// starts with it.
pub open spec fn text_key(text: Seq<char>) -> Seq<int> {
    text.map_values(|c: char| c as u32 + 1).push(0)
}

/// A prefix as numbers.
pub open spec fn prefix_key(p: PrefixView) -> Seq<int> {
    match p {
        PrefixView::Verbatim(a) => seq![1int] + text_key(a),
        PrefixView::VerbatimUnc(a, b) => seq![2int] + text_key(a) + text_key(b),
        PrefixView::VerbatimDisk(d) => seq![3int, d as int],
        PrefixView::DeviceNs(a) => seq![4int] + text_key(a),
        PrefixView::Unc(a, b) => seq![5int] + text_key(a) + text_key(b),
        PrefixView::Disk(d) => seq![6int, d as int],
    }
}

/// A component as numbers. Prefixes come first, and names last.
pub open spec fn part_key(p: PartView) -> Seq<int> {
    match p {
        PartView::Prefix(x) => seq![1int] + prefix_key(x),
        PartView::RootDir => seq![2int],
        PartView::CurDir => seq![3int],
        PartView::ParentDir => seq![4int],
        PartView::Normal(n) => seq![5int] + text_key(n),
    }
}

/// A path as numbers.
pub open spec fn path_key(parts: Seq<PartView>) -> Seq<int>
    decreases parts.len(),
{
    if parts.len() == 0 {
        Seq::empty()
    } else {
        path_key(parts.drop_last()) + part_key(parts.last())
    }
}

/// Whether the numbers `a` come before `b`, or are the same, from position `i` on: the first
/// difference decides.
pub open spec fn key_le(a: Seq<int>, b: Seq<int>, i: int) -> bool
    decreases a.len() - i,
{
    if i >= a.len() || i < 0 {
        true
    } else if i >= b.len() {
        false
    } else if a[i] != b[i] {
        a[i] < b[i]
    } else {
        key_le(a, b, i + 1)
    }
}

/// Whether a path comes before another one, or is the same: component by component, and names
/// character by character.
pub open spec fn path_le(a: Seq<PartView>, b: Seq<PartView>) -> bool {
    key_le(path_key(a), path_key(b), 0)
}

proof fn lemma_key_total(a: Seq<int>, b: Seq<int>, i: int)
    requires
        0 <= i,
    ensures
        key_le(a, b, i) || key_le(b, a, i),
    decreases a.len() - i,
{
    if i < a.len() && i < b.len() && a[i] == b[i] {
        lemma_key_total(a, b, i + 1);
    }
}

proof fn lemma_key_transitive(a: Seq<int>, b: Seq<int>, c: Seq<int>, i: int)
    requires
        0 <= i,
        key_le(a, b, i),
        key_le(b, c, i),
    ensures
        key_le(a, c, i),
    decreases a.len() - i,
{
    if i < a.len() && i < b.len() && i < c.len() && a[i] == b[i] && b[i] == c[i] {
        lemma_key_transitive(a, b, c, i + 1);
    }
}

proof fn lemma_key_antisymmetric(a: Seq<int>, b: Seq<int>, i: int)
    requires
        0 <= i <= a.len(),
        i <= b.len(),
        key_le(a, b, i),
        key_le(b, a, i),
    ensures
        a.len() == b.len(),
        forall|j: int| i <= j < a.len() ==> a[j] == b[j],
    decreases a.len() - i,
{
    if i < a.len() && i < b.len() {
        lemma_key_antisymmetric(a, b, i + 1);
    }
}

proof fn lemma_same_char(a: char, b: char)
    requires
        a as u32 == b as u32,
    ensures
        a == b,
{
}

/// The numbers of a text tell where they end.
proof fn lemma_text_key_front(a: Seq<char>, b: Seq<char>, x: Seq<int>, y: Seq<int>)
    requires
        text_key(a) + x == text_key(b) + y,
    ensures
        a == b,
        x == y,
{
    let ka = text_key(a) + x;
    let kb = text_key(b) + y;
    assert(ka[a.len() as int] == 0);
    assert(kb[b.len() as int] == 0);
    assert forall|i: int| 0 <= i < a.len() implies ka[i] == a[i] as u32 + 1 by {}
    assert forall|i: int| 0 <= i < b.len() implies kb[i] == b[i] as u32 + 1 by {}
    if a.len() < b.len() {
        assert(kb[a.len() as int] == b[a.len() as int] as u32 + 1);
        assert(false);
    }
    if b.len() < a.len() {
        assert(ka[b.len() as int] == a[b.len() as int] as u32 + 1);
        assert(false);
    }
    assert forall|i: int| 0 <= i < a.len() implies a[i] == b[i] by {
        assert(ka[i] == kb[i]);
        lemma_same_char(a[i], b[i]);
    }
    assert(a =~= b);
    let n = a.len() + 1;
    assert(ka.len() == kb.len());
    assert forall|i: int| 0 <= i < x.len() implies x[i] == y[i] by {
        assert(ka[n + i] == kb[n + i]);
    }
    assert(ka.len() == n + x.len());
    assert(kb.len() == n + y.len());
    assert(x =~= y);
}

/// The numbers of a prefix tell where they end.
proof fn lemma_prefix_key_front(p: PrefixView, q: PrefixView, x: Seq<int>, y: Seq<int>)
    requires
        prefix_key(p) + x == prefix_key(q) + y,
    ensures
        p == q,
        x == y,
{
    let kp = prefix_key(p) + x;
    let kq = prefix_key(q) + y;
    assert(kp[0] == kq[0]);
    let rest_p = kp.skip(1);
    let rest_q = kq.skip(1);
    match (p, q) {
        (PrefixView::Verbatim(a), PrefixView::Verbatim(b)) => {
            assert(rest_p =~= text_key(a) + x);
            assert(rest_q =~= text_key(b) + y);
            lemma_text_key_front(a, b, x, y);
        },
        (PrefixView::VerbatimUnc(a, c), PrefixView::VerbatimUnc(b, d)) => {
            assert(rest_p =~= text_key(a) + (text_key(c) + x));
            assert(rest_q =~= text_key(b) + (text_key(d) + y));
            lemma_text_key_front(a, b, text_key(c) + x, text_key(d) + y);
            lemma_text_key_front(c, d, x, y);
        },
        (PrefixView::VerbatimDisk(a), PrefixView::VerbatimDisk(b)) => {
            assert(kp[1] == kq[1]);
            assert(kp.skip(2) =~= x);
            assert(kq.skip(2) =~= y);
        },
        (PrefixView::DeviceNs(a), PrefixView::DeviceNs(b)) => {
            assert(rest_p =~= text_key(a) + x);
            assert(rest_q =~= text_key(b) + y);
            lemma_text_key_front(a, b, x, y);
        },
        (PrefixView::Unc(a, c), PrefixView::Unc(b, d)) => {
            assert(rest_p =~= text_key(a) + (text_key(c) + x));
            assert(rest_q =~= text_key(b) + (text_key(d) + y));
            lemma_text_key_front(a, b, text_key(c) + x, text_key(d) + y);
            lemma_text_key_front(c, d, x, y);
        },
        (PrefixView::Disk(a), PrefixView::Disk(b)) => {
            assert(kp[1] == kq[1]);
            assert(kp.skip(2) =~= x);
            assert(kq.skip(2) =~= y);
        },
        _ => {},
    }
}

/// The numbers of a component tell where they end.
proof fn lemma_part_key_front(p: PartView, q: PartView, x: Seq<int>, y: Seq<int>)
    requires
        part_key(p) + x == part_key(q) + y,
    ensures
        p == q,
        x == y,
{
    let kp = part_key(p) + x;
    let kq = part_key(q) + y;
    assert(kp[0] == kq[0]);
    let rest_p = kp.skip(1);
    let rest_q = kq.skip(1);
    match (p, q) {
        (PartView::Prefix(a), PartView::Prefix(b)) => {
            assert(rest_p =~= prefix_key(a) + x);
            assert(rest_q =~= prefix_key(b) + y);
            lemma_prefix_key_front(a, b, x, y);
        },
        (PartView::Normal(a), PartView::Normal(b)) => {
            assert(rest_p =~= text_key(a) + x);
            assert(rest_q =~= text_key(b) + y);
            lemma_text_key_front(a, b, x, y);
        },
        (PartView::RootDir, PartView::RootDir) => {
            assert(rest_p =~= x);
            assert(rest_q =~= y);
        },
        (PartView::CurDir, PartView::CurDir) => {
            assert(rest_p =~= x);
            assert(rest_q =~= y);
        },
        (PartView::ParentDir, PartView::ParentDir) => {
            assert(rest_p =~= x);
            assert(rest_q =~= y);
        },
        _ => {
            assert(part_key(p)[0] != part_key(q)[0]);
        },
    }
}

proof fn lemma_path_key_front(parts: Seq<PartView>)
    requires
        parts.len() > 0,
    ensures
        path_key(parts) == part_key(parts[0]) + path_key(parts.skip(1)),
    decreases parts.len(),
{
    if parts.len() == 1 {
        assert(parts.drop_last() =~= Seq::<PartView>::empty());
        assert(parts.skip(1) =~= Seq::<PartView>::empty());
        assert(path_key(parts) =~= part_key(parts[0]) + path_key(parts.skip(1)));
    } else {
        lemma_path_key_front(parts.drop_last());
        assert(parts.drop_last().skip(1) =~= parts.skip(1).drop_last());
        assert(path_key(parts) =~= part_key(parts[0]) + path_key(parts.skip(1)));
    }
}

proof fn lemma_path_key_injective(a: Seq<PartView>, b: Seq<PartView>)
    requires
        path_key(a) == path_key(b),
    ensures
        a == b,
    decreases a.len(),
{
    if a.len() > 0 {
        lemma_path_key_front(a);
    }
    if b.len() > 0 {
        lemma_path_key_front(b);
    }
    if a.len() == 0 || b.len() == 0 {
        assert(a =~= b);
    } else {
        lemma_part_key_front(a[0], b[0], path_key(a.skip(1)), path_key(b.skip(1)));
        lemma_path_key_injective(a.skip(1), b.skip(1));
        assert(a =~= seq![a[0]] + a.skip(1));
        assert(b =~= seq![b[0]] + b.skip(1));
    }
}

/// Of two paths one comes before the other, only one of them unless they are the same, and the
/// order can be chained.
pub proof fn law_path_order(a: Seq<PartView>, b: Seq<PartView>, c: Seq<PartView>)
    ensures
        path_le(a, b) || path_le(b, a),
        path_le(a, b) && path_le(b, a) ==> a == b,
        path_le(a, b) && path_le(b, c) ==> path_le(a, c),
{
    lemma_key_total(path_key(a), path_key(b), 0);
    if path_le(a, b) && path_le(b, a) {
        lemma_key_antisymmetric(path_key(a), path_key(b), 0);
        assert(path_key(a) =~= path_key(b));
        lemma_path_key_injective(a, b);
    }
    if path_le(a, b) && path_le(b, c) {
        lemma_key_transitive(path_key(a), path_key(b), path_key(c), 0);
    }
}

/// Numbers as mathematical ones.
spec fn ints(v: Seq<u64>) -> Seq<int> {
    v.map_values(|n: u64| n as int)
}

fn push_number(out: &mut Vec<u64>, n: u64)
    ensures
        ints(final(out)@) == ints(old(out)@) + seq![n as int],
{
    let ghost before = out@;
    out.push(n);
    assert(ints(out@) =~= ints(before) + seq![n as int]);
}

fn push_text_key(out: &mut Vec<u64>, text: &str)
    ensures
        ints(final(out)@) == ints(old(out)@) + text_key(text@),
{
    let chars = chars_of(text);
    let ghost before = ints(out@);
    let ghost all = text@.map_values(|c: char| c as u32 + 1);
    let mut i: usize = 0;
    assert(before + all.take(0) =~= before);
    while i < chars.len()
        invariant
            i <= chars.len(),
            chars@ == text@,
            all == text@.map_values(|c: char| c as u32 + 1),
            ints(out@) == before + all.take(i as int),
        decreases chars.len() - i,
    {
        let ghost items = out@;
        let c = chars[i];
        let n: u32 = c as u32;
        out.push(n as u64 + 1);
        i += 1;
        assert(ints(out@) =~= ints(items).push(all[i - 1]));
        assert(before + all.take(i as int) =~= (before + all.take(i - 1)).push(all[i - 1]));
    }
    assert(all.take(i as int) =~= all);
    let ghost items = out@;
    out.push(0);
    assert(ints(out@) =~= ints(items).push(0));
    assert(ints(out@) =~= before + text_key(text@));
}

fn push_prefix_key(out: &mut Vec<u64>, p: &PathPrefix)
    ensures
        ints(final(out)@) == ints(old(out)@) + prefix_key(p@),
{
    let ghost before = ints(out@);
    match p {
        PathPrefix::Verbatim(a) => {
            push_number(out, 1);
            push_text_key(out, a.as_str());
        },
        PathPrefix::VerbatimUnc(a, b) => {
            push_number(out, 2);
            push_text_key(out, a.as_str());
            push_text_key(out, b.as_str());
        },
        PathPrefix::VerbatimDisk(d) => {
            push_number(out, 3);
            push_number(out, *d as u64);
        },
        PathPrefix::DeviceNs(a) => {
            push_number(out, 4);
            push_text_key(out, a.as_str());
        },
        PathPrefix::Unc(a, b) => {
            push_number(out, 5);
            push_text_key(out, a.as_str());
            push_text_key(out, b.as_str());
        },
        PathPrefix::Disk(d) => {
            push_number(out, 6);
            push_number(out, *d as u64);
        },
    }
    assert(ints(out@) =~= before + prefix_key(p@));
}

fn key_of(path: &FilePath) -> (r: Vec<u64>)
    ensures
        ints(r@) == path_key(path@.parts),
{
    let mut out: Vec<u64> = Vec::new();
    let mut i: usize = 0;
    assert(path@.parts.take(0) =~= Seq::<PartView>::empty());
    assert(ints(out@) =~= Seq::<int>::empty());
    while i < path.components.len()
        invariant
            i <= path.components.len(),
            ints(out@) == path_key(path@.parts.take(i as int)),
        decreases path.components.len() - i,
    {
        let ghost before = ints(out@);
        let ghost part = path.components@[i as int]@;
        match &path.components[i] {
            PathComponent::Prefix(p) => {
                push_number(&mut out, 1);
                push_prefix_key(&mut out, p);
            },
            PathComponent::RootDir => push_number(&mut out, 2),
            PathComponent::CurDir => push_number(&mut out, 3),
            PathComponent::ParentDir => push_number(&mut out, 4),
            PathComponent::Normal(n) => {
                push_number(&mut out, 5);
                push_text_key(&mut out, n.as_str());
            },
        }
        assert(ints(out@) =~= before + part_key(part));
        i += 1;
        assert(path@.parts.take(i as int).drop_last() =~= path@.parts.take(i - 1));
        assert(path@.parts.take(i as int).last() == part);
    }
    assert(path@.parts.take(i as int) =~= path@.parts);
    out
}

/// Whether a path comes before another one, or is the same.
pub fn is_path_le(a: &FilePath, b: &FilePath) -> (r: bool)
    ensures
        r == path_le(a@.parts, b@.parts),
{
    let x = key_of(a);
    let y = key_of(b);
    let ghost p = ints(x@);
    let ghost q = ints(y@);
    let mut i: usize = 0;
    while i < x.len()
        invariant
            i <= x.len(),
            p == ints(x@),
            q == ints(y@),
            path_le(a@.parts, b@.parts) == key_le(p, q, 0),
            key_le(p, q, i as int) == key_le(p, q, 0),
        decreases x.len() - i,
    {
        assert(p[i as int] == x@[i as int]);
        if i >= y.len() {
            return false;
        }
        assert(q[i as int] == y@[i as int]);
        if x[i] != y[i] {
            return x[i] < y[i];
        }
        i += 1;
    }
    true
}

/// The components of paths.
pub open spec fn path_parts(paths: Seq<PathView>) -> Seq<Seq<PartView>> {
    paths.map_values(|p: PathView| p.parts)
}

/// Whether paths are sorted.
pub open spec fn sorted(paths: Seq<Seq<PartView>>) -> bool {
    forall|i: int, j: int| 0 <= i < j < paths.len() ==> path_le(#[trigger] paths[i], #[trigger] paths[j])
}

/// Whether a list of components is that of `paths` sorted, with every path once.
pub open spec fn are_sorted_parts(list: Seq<Seq<PartView>>, paths: Seq<Seq<PartView>>) -> bool {
    &&& sorted(list)
    &&& list.no_duplicates()
    &&& forall|p: Seq<PartView>| #[trigger] list.contains(p) <==> paths.contains(p)
}

/// Whether a path is one of `paths`.
pub open spec fn has_same(paths: Seq<PathView>, path: PathView) -> bool {
    path_parts(paths).contains(path.parts)
}

/// Whether `path` is the first of `paths` that are the same as it.
pub open spec fn is_first_of_its_like(paths: Seq<PathView>, path: PathView) -> bool {
    exists|k: int|
        0 <= k < paths.len() && #[trigger] paths[k] == path && forall|j: int|
            0 <= j < k ==> !same_path(#[trigger] paths[j], path)
}

/// Whether a list is `paths` sorted, with every path once. Of paths that are the same, the first
/// one is kept.
pub open spec fn is_sorted_set(list: Seq<PathView>, paths: Seq<PathView>) -> bool {
    &&& are_sorted_parts(path_parts(list), path_parts(paths))
    &&& forall|i: int| 0 <= i < list.len() ==> is_first_of_its_like(paths, #[trigger] list[i])
}

proof fn lemma_sorted_sets_agree(one: Seq<Seq<PartView>>, two: Seq<Seq<PartView>>, n: int)
    requires
        sorted(one),
        sorted(two),
        one.no_duplicates(),
        two.no_duplicates(),
        forall|p: Seq<PartView>| #[trigger] one.contains(p) <==> two.contains(p),
        0 <= n <= one.len(),
    ensures
        n <= two.len(),
        one.take(n) == two.take(n),
    decreases n,
{
    if n > 0 {
        let i = n - 1;
        lemma_sorted_sets_agree(one, two, i);
        assert forall|k: int| 0 <= k < i implies #[trigger] one[k] == two[k] by {
            assert(one.take(i)[k] == two.take(i)[k]);
        }
        assert(one.contains(one[i]));
        let j = choose|j: int| 0 <= j < two.len() && two[j] == one[i];
        assert(two[j] == one[i]);
        if j < i {
            assert(one[j] == one[i]);
        }
        if j > i {
            assert(two.contains(two[i]));
            assert(one.contains(two[i]));
            let k = choose|k: int| 0 <= k < one.len() && one[k] == two[i];
            assert(one[k] == two[i]);
            if k < i {
                assert(two[k] == two[i]);
            }
            if k > i {
                law_path_order(one[i], two[i], one[i]);
                assert(path_le(one[i], one[k]));
                assert(path_le(two[i], two[j]));
                assert(two[i] == two[j]);
            }
        }
        assert(one.take(n) =~= two.take(n));
    } else {
        assert(one.take(n) =~= two.take(n));
    }
}

/// There is only one way to sort paths with every path once.
pub proof fn law_sorted_sets_are_unique(
    one: Seq<PathView>,
    two: Seq<PathView>,
    paths: Seq<PathView>,
)
    requires
        is_sorted_set(one, paths),
        is_sorted_set(two, paths),
    ensures
        one == two,
{
    let a = path_parts(one);
    let b = path_parts(two);
    lemma_sorted_sets_agree(a, b, a.len() as int);
    lemma_sorted_sets_agree(b, a, b.len() as int);
    assert(a.take(a.len() as int) =~= a);
    assert(b.take(a.len() as int) =~= b);
    assert forall|i: int| 0 <= i < one.len() implies one[i] == two[i] by {
        assert(a[i] == one[i].parts && b[i] == two[i].parts);
        assert(is_first_of_its_like(paths, one[i]));
        assert(is_first_of_its_like(paths, two[i]));
        let j = choose|j: int|
            0 <= j < paths.len() && #[trigger] paths[j] == one[i] && forall|m: int|
                0 <= m < j ==> !same_path(#[trigger] paths[m], one[i]);
        let k = choose|k: int|
            0 <= k < paths.len() && #[trigger] paths[k] == two[i] && forall|m: int|
                0 <= m < k ==> !same_path(#[trigger] paths[m], two[i]);
        if j < k {
            assert(!same_path(paths[j], two[i]));
        }
        if k < j {
            assert(!same_path(paths[k], one[i]));
        }
    }
    assert(one =~= two);
}

proof fn lemma_first_stays_first(paths: Seq<PathView>, more: PathView, path: PathView)
    requires
        is_first_of_its_like(paths, path),
    ensures
        is_first_of_its_like(paths.push(more), path),
{
    let k = choose|k: int|
        0 <= k < paths.len() && #[trigger] paths[k] == path && forall|j: int|
            0 <= j < k ==> !same_path(#[trigger] paths[j], path);
    let all = paths.push(more);
    assert(all[k] == path);
    assert forall|j: int| 0 <= j < k implies !same_path(#[trigger] all[j], path) by {
        assert(all[j] == paths[j]);
    }
}

/// Whether a path is one of `paths`.
pub fn has_path(paths: &[FilePath], path: &FilePath) -> (r: bool)
    ensures
        r == has_same(path_views(paths@), path@),
{
    let ghost all = path_parts(path_views(paths@));
    let mut i: usize = 0;
    while i < paths.len()
        invariant
            i <= paths.len(),
            all == path_parts(path_views(paths@)),
            forall|j: int| 0 <= j < i ==> #[trigger] all[j] != path@.parts,
        decreases paths.len() - i,
    {
        assert(all[i as int] == paths@[i as int]@.parts);
        if paths[i].same_as(path) {
            assert(all.contains(path@.parts));
            return true;
        }
        i += 1;
    }
    false
}

/// Puts a path where it belongs in a sorted list, unless it is there.
fn insert_sorted(list: &mut Vec<FilePath>, path: &FilePath)
    requires
        sorted(path_parts(path_views(old(list)@))),
        path_parts(path_views(old(list)@)).no_duplicates(),
    ensures
        sorted(path_parts(path_views(final(list)@))),
        path_parts(path_views(final(list)@)).no_duplicates(),
        forall|p: Seq<PartView>| #[trigger]
            path_parts(path_views(final(list)@)).contains(p) <==> path_parts(
                path_views(old(list)@),
            ).contains(p) || p == path@.parts,
        forall|i: int|
            0 <= i < final(list)@.len() ==> path_views(old(list)@).contains(
                (#[trigger] final(list)@[i])@,
            ) || (final(list)@[i]@ == path@ && !has_same(path_views(old(list)@), path@)),
{
    let ghost held = path_views(list@);
    let ghost all = path_parts(held);
    if has_path(list, path) {
        assert forall|i: int| 0 <= i < list@.len() implies held.contains(
            (#[trigger] list@[i])@,
        ) by {
            assert(held[i] == list@[i]@);
        }
        return;
    }
    let mut k: usize = 0;
    while k < list.len() && is_path_le(&list[k], path)
        invariant
            k <= list.len(),
            all == path_parts(path_views(list@)),
            forall|j: int| 0 <= j < k ==> path_le(#[trigger] all[j], path@.parts),
        decreases list.len() - k,
    {
        assert(all[k as int] == list@[k as int]@.parts);
        k += 1;
    }
    let ghost own = path@.parts;
    let ghost items = list@;
    proof {
        if k < list@.len() {
            assert(all[k as int] == list@[k as int]@.parts);
            law_path_order(own, all[k as int], all[k as int]);
        }
    }
    let copy = path.copy();
    let ghost placed = copy;
    list.insert(k, copy);
    let ghost after = path_parts(path_views(list@));
    assert(list@ =~= items.insert(k as int, placed));
    assert(after =~= all.insert(k as int, own));
    proof {
        assert forall|i: int| 0 <= i < list@.len() implies held.contains((#[trigger] list@[i])@)
            || list@[i]@ == path@ by {
            if i < k {
                assert(held[i] == list@[i]@);
            } else if i > k {
                assert(held[i - 1] == list@[i]@);
            }
        }
        assert forall|i: int, j: int| 0 <= i < j < after.len() implies path_le(
            #[trigger] after[i],
            #[trigger] after[j],
        ) by {
            if j == k {
                assert(after[i] == all[i]);
            } else if i == k {
                assert(after[j] == all[j - 1]);
                if j - 1 > k {
                    assert(path_le(all[k as int], all[j - 1]));
                }
                law_path_order(own, all[k as int], all[j - 1]);
            } else {
                let a = if i < k {
                    i
                } else {
                    i - 1
                };
                let b = if j < k {
                    j
                } else {
                    j - 1
                };
                assert(after[i] == all[a] && after[j] == all[b]);
            }
        }
        assert forall|i: int, j: int| 0 <= i < after.len() && 0 <= j < after.len() && i != j implies #[trigger] after[i] != #[trigger] after[j] by {
            let a = if i < k {
                i
            } else {
                i - 1
            };
            let b = if j < k {
                j
            } else {
                j - 1
            };
            if i != k {
                assert(after[i] == all[a]);
            }
            if j != k {
                assert(after[j] == all[b]);
            }
            if i == k {
                assert(all.contains(all[b]));
            } else if j == k {
                assert(all.contains(all[a]));
            }
        }
        assert forall|p: Seq<PartView>| #[trigger] after.contains(p) <==> all.contains(p) || p
            == own by {
            if after.contains(p) {
                let i = after.index_of(p);
                if i < k {
                    assert(all[i] == p);
                } else if i > k {
                    assert(all[i - 1] == p);
                }
            }
            if all.contains(p) {
                let i = all.index_of(p);
                if i < k {
                    assert(after[i] == p);
                } else {
                    assert(after[i + 1] == p);
                }
            }
            if p == own {
                assert(after[k as int] == p);
            }
        }
    }
}

/// The paths sorted, with every path once.
pub fn sorted_set(paths: &[FilePath]) -> (r: Vec<FilePath>)
    ensures
        is_sorted_set(path_views(r@), path_views(paths@)),
{
    let ghost all = path_views(paths@);
    let mut out: Vec<FilePath> = Vec::new();
    let mut i: usize = 0;
    while i < paths.len()
        invariant
            i <= paths.len(),
            all == path_views(paths@),
            is_sorted_set(path_views(out@), all.take(i as int)),
        decreases paths.len() - i,
    {
        let ghost held = path_views(out@);
        let ghost before = path_parts(held);
        let ghost earlier = all.take(i as int);
        insert_sorted(&mut out, &paths[i]);
        i += 1;
        let ghost done = all.take(i as int);
        let ghost own = paths@[i - 1]@;
        assert(all[i - 1] == own);
        assert(done =~= earlier.push(own));
        proof {
            lemma_sorted_set_step(held, path_views(out@), earlier, own);
        }
    }
    assert(all.take(i as int) =~= all);
    out
}

proof fn lemma_sorted_set_step(
    held: Seq<PathView>,
    list: Seq<PathView>,
    earlier: Seq<PathView>,
    own: PathView,
)
    requires
        is_sorted_set(held, earlier),
        sorted(path_parts(list)),
        path_parts(list).no_duplicates(),
        forall|p: Seq<PartView>| #[trigger]
            path_parts(list).contains(p) <==> path_parts(held).contains(p) || p == own.parts,
        forall|i: int|
            0 <= i < list.len() ==> held.contains(#[trigger] list[i]) || (list[i] == own
                && !has_same(held, own)),
    ensures
        is_sorted_set(list, earlier.push(own)),
{
    let done = earlier.push(own);
    assert(path_parts(done) =~= path_parts(earlier).push(own.parts));
    assert forall|p: Seq<PartView>| #[trigger] path_parts(list).contains(p) <==> path_parts(
        done,
    ).contains(p) by {
        if path_parts(earlier).contains(p) {
            let k = path_parts(earlier).index_of(p);
            assert(path_parts(done)[k] == p);
        }
        if path_parts(done).contains(p) {
            let k = path_parts(done).index_of(p);
            if k < earlier.len() {
                assert(path_parts(earlier)[k] == p);
            }
        }
        if p == own.parts {
            assert(path_parts(done)[earlier.len() as int] == p);
        }
        assert(path_parts(held).contains(p) <==> path_parts(earlier).contains(p));
    }
    assert forall|i: int| 0 <= i < list.len() implies is_first_of_its_like(
        done,
        #[trigger] list[i],
    ) by {
        if held.contains(list[i]) {
            let k = held.index_of(list[i]);
            assert(is_first_of_its_like(earlier, held[k]));
            lemma_first_stays_first(earlier, own, list[i]);
        } else {
            assert(list[i] == own);
            assert forall|j: int| 0 <= j < earlier.len() implies !same_path(
                #[trigger] done[j],
                own,
            ) by {
                if same_path(done[j], own) {
                    assert(path_parts(earlier)[j] == own.parts);
                    assert(path_parts(earlier).contains(own.parts));
                    assert(path_parts(held).contains(own.parts));
                }
            }
            assert(done[earlier.len() as int] == own);
        }
    }
}

}
