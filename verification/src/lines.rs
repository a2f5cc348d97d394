//! Splitting text into lines and parts, and putting it together again.
use crate::search::{contains, lemma_first_match_exists, matches_at, starts_with};
use crate::text::{chars_of, copied, lemma_newlines_concat, newlines, string_of, texts, views};
use vstd::prelude::*;

verus! {

/// The lines of `s`, each with the newline that ends it. Only the last one may have none.
pub open spec fn chunks(s: Seq<char>) -> Seq<Seq<char>>
    decreases s.len(),
{
    if s.len() == 0 {
        Seq::empty()
    } else {
        let front = chunks(s.drop_last());
        if front.len() > 0 && front.last().last() != '\n' {
            front.update(front.len() - 1, front.last().push(s.last()))
        } else {
            front.push(seq![s.last()])
        }
    }
}

/// A line without the newline that ends it, or the carriage return and newline.
pub open spec fn line_body(chunk: Seq<char>) -> Seq<char> {
    if chunk.len() > 0 && chunk.last() == '\n' {
        let body = chunk.drop_last();
        if body.len() > 0 && body.last() == '\r' {
            body.drop_last()
        } else {
            body
        }
    } else {
        chunk
    }
}

/// The lines of `s` without their line ends.
pub open spec fn lines(s: Seq<char>) -> Seq<Seq<char>> {
    chunks(s).map_values(|c: Seq<char>| line_body(c))
}

/// The texts `parts` one after the other.
pub open spec fn concat(parts: Seq<Seq<char>>) -> Seq<char>
    decreases parts.len(),
{
    if parts.len() == 0 {
        Seq::empty()
    } else {
        concat(parts.drop_last()) + parts.last()
    }
}

/// The texts `parts` one after the other, with `sep` between two neighbours.
pub open spec fn join(parts: Seq<Seq<char>>, sep: Seq<char>) -> Seq<char>
    decreases parts.len(),
{
    if parts.len() == 0 {
        Seq::empty()
    } else if parts.len() == 1 {
        parts[0]
    } else {
        join(parts.drop_last(), sep) + sep + parts.last()
    }
}

/// The parts of `s` between the characters `sep`: one more than there are separators.
pub open spec fn split_on(s: Seq<char>, sep: char) -> Seq<Seq<char>>
    decreases s.len(),
{
    if s.len() == 0 {
        seq![Seq::<char>::empty()]
    } else {
        let front = split_on(s.drop_last(), sep);
        if s.last() == sep {
            front.push(Seq::empty())
        } else {
            front.update(front.len() - 1, front.last().push(s.last()))
        }
    }
}

/// The chunks of a text are not empty, hold no newline but at their end, and all but the last
/// one end in a newline. Together they are the text.
pub proof fn lemma_chunks(s: Seq<char>)
    ensures
        concat(chunks(s)) == s,
        forall|i: int| 0 <= i < chunks(s).len() ==> (#[trigger] chunks(s)[i]).len() > 0,
        forall|i: int, j: int|
            0 <= i < chunks(s).len() && 0 <= j < chunks(s)[i].len() - 1 ==> #[trigger] chunks(
                s,
            )[i][j] != '\n',
        forall|i: int|
            0 <= i < chunks(s).len() - 1 ==> (#[trigger] chunks(s)[i]).last() == '\n',
        s.len() > 0 ==> chunks(s).len() > 0 && chunks(s).last().last() == s.last(),
        chunks(s).len() <= s.len(),
    decreases s.len(),
{
    if s.len() > 0 {
        let front = chunks(s.drop_last());
        lemma_chunks(s.drop_last());
        let all = chunks(s);
        if front.len() > 0 && front.last().last() != '\n' {
            assert(all.drop_last() =~= front.drop_last());
            assert(concat(all) =~= concat(front.drop_last()) + front.last().push(s.last()));
            assert(concat(front) == concat(front.drop_last()) + front.last());
            assert(concat(all) =~= s.drop_last().push(s.last()));
        } else {
            assert(all.drop_last() =~= front);
            assert(concat(all) =~= s.drop_last().push(s.last()));
        }
        assert(s.drop_last().push(s.last()) =~= s);
    }
}

/// Text that starts on a fresh line keeps its own lines.
pub proof fn lemma_chunks_concat(a: Seq<char>, b: Seq<char>)
    requires
        a.len() > 0 ==> a.last() == '\n',
    ensures
        chunks(a + b) == chunks(a) + chunks(b),
    decreases b.len(),
{
    if b.len() == 0 {
        assert(a + b =~= a);
        assert(chunks(a) + chunks(b) =~= chunks(a));
    } else {
        assert((a + b).drop_last() =~= a + b.drop_last());
        lemma_chunks_concat(a, b.drop_last());
        lemma_chunks(a);
        lemma_chunks(b.drop_last());
        let front_b = chunks(b.drop_last());
        let front = chunks((a + b).drop_last());
        assert(front == chunks(a) + front_b);
        if front_b.len() == 0 {
            assert(front =~= chunks(a));
        } else {
            assert(front.last() == front_b.last());
        }
        assert(chunks(a + b) =~= chunks(a) + chunks(b));
    }
}

/// One line, with or without a newline, is one chunk.
pub proof fn lemma_chunks_single(s: Seq<char>)
    requires
        s.len() > 0,
        forall|j: int| 0 <= j < s.len() - 1 ==> s[j] != '\n',
    ensures
        chunks(s) == seq![s],
    decreases s.len(),
{
    if s.len() == 1 {
        assert(s.drop_last() =~= Seq::<char>::empty());
        assert(chunks(s.drop_last()) =~= Seq::<Seq<char>>::empty());
        assert(seq![s.last()] =~= s);
        assert(chunks(s) =~= seq![s]);
    } else {
        lemma_chunks_single(s.drop_last());
        assert(s.drop_last().last() != '\n');
        assert(s.drop_last().push(s.last()) =~= s);
        assert(chunks(s) =~= seq![s]);
    }
}

/// One part is its own concatenation.
pub proof fn lemma_concat_one(part: Seq<char>)
    ensures
        concat(seq![part]) == part,
{
    assert(seq![part].drop_last() =~= Seq::<Seq<char>>::empty());
    assert(concat(seq![part].drop_last()) =~= Seq::<char>::empty());
    assert(concat(seq![part]) =~= part);
}

/// Concatenation spreads over appended sequences of parts.
pub proof fn lemma_concat_append(a: Seq<Seq<char>>, b: Seq<Seq<char>>)
    ensures
        concat(a + b) == concat(a) + concat(b),
    decreases b.len(),
{
    if b.len() == 0 {
        assert(a + b =~= a);
        assert(concat(a) + concat(b) =~= concat(a));
    } else {
        assert((a + b).drop_last() =~= a + b.drop_last());
        lemma_concat_append(a, b.drop_last());
        assert(concat(a + b) =~= concat(a) + concat(b));
    }
}

/// The number of characters of the first `n` parts.
pub open spec fn offset(parts: Seq<Seq<char>>, n: int) -> nat {
    concat(parts.take(n)).len()
}

/// The offset of the part behind part `n`.
pub proof fn lemma_offset_step(parts: Seq<Seq<char>>, n: int)
    requires
        0 <= n < parts.len(),
    ensures
        offset(parts, n + 1) == offset(parts, n) + parts[n].len(),
        offset(parts, 0) == 0,
{
    assert(parts.take(n + 1).drop_last() =~= parts.take(n));
    assert(parts.take(0) =~= Seq::<Seq<char>>::empty());
}

/// No offset is behind the end of the text.
pub proof fn lemma_offset_bound(parts: Seq<Seq<char>>, n: int)
    requires
        0 <= n <= parts.len(),
    ensures
        offset(parts, n) <= concat(parts).len(),
{
    assert(parts.take(n) + parts.skip(n) =~= parts);
    lemma_concat_append(parts.take(n), parts.skip(n));
}

/// Whether `parts` are lines: none is empty, a newline stands at an end only, and all but the last
/// end in one.
pub open spec fn are_chunks(parts: Seq<Seq<char>>) -> bool {
    &&& forall|i: int| 0 <= i < parts.len() ==> (#[trigger] parts[i]).len() > 0
    &&& forall|i: int, j: int|
        0 <= i < parts.len() && 0 <= j < parts[i].len() - 1 ==> #[trigger] parts[i][j] != '\n'
    &&& forall|i: int| 0 <= i < parts.len() - 1 ==> (#[trigger] parts[i]).last() == '\n'
}

/// Lines put together and split again are the same lines.
pub proof fn law_chunks_of_concat(parts: Seq<Seq<char>>)
    requires
        are_chunks(parts),
    ensures
        chunks(concat(parts)) == parts,
    decreases parts.len(),
{
    if parts.len() == 0 {
        assert(chunks(concat(parts)) =~= parts);
    } else {
        let front = parts.drop_last();
        let last = parts.last();
        assert forall|i: int| 0 <= i < front.len() implies (#[trigger] front[i]).len() > 0
            && front[i].last() == '\n' by {
            assert(front[i] == parts[i]);
        }
        assert forall|i: int, j: int|
            0 <= i < front.len() && 0 <= j < front[i].len() - 1 implies #[trigger] front[i][j]
            != '\n' by {
            assert(front[i][j] == parts[i][j]);
        }
        law_chunks_of_concat(front);
        if front.len() > 0 {
            assert(concat(front) == concat(front.drop_last()) + front.last());
            assert(concat(front).last() == '\n');
        }
        assert forall|j: int| 0 <= j < last.len() - 1 implies last[j] != '\n' by {
            assert(parts[parts.len() - 1][j] == last[j]);
        }
        assert(parts[parts.len() - 1].len() > 0);
        lemma_chunks_concat(concat(front), last);
        lemma_chunks_single(last);
        assert(front + seq![last] =~= parts);
    }
}

/// A text without separators is one part.
pub proof fn lemma_split_one(s: Seq<char>, sep: char)
    requires
        !s.contains(sep),
    ensures
        split_on(s, sep) == seq![s],
    decreases s.len(),
{
    if s.len() == 0 {
        assert(s =~= Seq::<char>::empty());
    } else {
        assert(s.contains(s.last()));
        assert forall|c: char| s.drop_last().contains(c) implies s.contains(c) by {
            let i = s.drop_last().index_of(c);
            assert(s[i] == c);
        }
        lemma_split_one(s.drop_last(), sep);
        assert(s.drop_last().push(s.last()) =~= s);
        assert(split_on(s, sep) =~= seq![s]);
    }
}

/// A separator splits a text into what stands before it and what stands behind it.
pub proof fn lemma_split_concat(a: Seq<char>, b: Seq<char>, sep: char)
    ensures
        split_on(a.push(sep) + b, sep) == split_on(a, sep) + split_on(b, sep),
        split_on(b, sep).len() > 0,
    decreases b.len(),
{
    let all = a.push(sep) + b;
    if b.len() == 0 {
        assert(all =~= a.push(sep));
        assert(all.drop_last() =~= a);
        assert(split_on(all, sep) =~= split_on(a, sep) + split_on(b, sep));
    } else {
        lemma_split_concat(a, b.drop_last(), sep);
        assert(all.drop_last() =~= a.push(sep) + b.drop_last());
        assert(split_on(all, sep) =~= split_on(a, sep) + split_on(b, sep));
    }
}

/// Parts without separators, joined and split again, are the same parts.
pub proof fn law_split_of_join(parts: Seq<Seq<char>>, sep: char)
    requires
        parts.len() > 0,
        forall|i: int| 0 <= i < parts.len() ==> !(#[trigger] parts[i]).contains(sep),
    ensures
        split_on(join(parts, seq![sep]), sep) == parts,
    decreases parts.len(),
{
    assert(!parts[parts.len() - 1].contains(sep));
    lemma_split_one(parts.last(), sep);
    if parts.len() == 1 {
        assert(parts =~= seq![parts[0]]);
    } else {
        let front = parts.drop_last();
        assert forall|i: int| 0 <= i < front.len() implies !(#[trigger] front[i]).contains(sep) by {
            assert(front[i] == parts[i]);
        }
        law_split_of_join(front, sep);
        lemma_split_concat(join(front, seq![sep]), parts.last(), sep);
        assert(join(front, seq![sep]) + seq![sep] =~= join(front, seq![sep]).push(sep));
        assert(front + seq![parts.last()] =~= parts);
    }
}

/// A longer text keeps the lines it has, and may add to the last one.
pub proof fn lemma_chunks_longer(a: Seq<char>, b: Seq<char>, k: int)
    requires
        0 <= k < chunks(a).len(),
    ensures
        k < chunks(a + b).len(),
        starts_with(chunks(a + b)[k], chunks(a)[k]),
    decreases b.len(),
{
    if b.len() == 0 {
        assert(a + b =~= a);
        let line = chunks(a)[k];
        assert(line.subrange(0, line.len() as int) =~= line);
    } else {
        lemma_chunks_longer(a, b.drop_last(), k);
        assert((a + b).drop_last() =~= a + b.drop_last());
        let front = chunks(a + b.drop_last());
        let all = chunks(a + b);
        let line = chunks(a)[k];
        if all[k] != front[k] {
            assert(all[k] == front[k].push((a + b).last()));
            assert(all[k].subrange(0, line.len() as int) =~= front[k].subrange(
                0,
                line.len() as int,
            ));
        }
    }
}

/// Where the last line of a text starts.
spec fn line_start(s: Seq<char>) -> int
    decreases s.len(),
{
    if s.len() == 0 || s.last() == '\n' {
        s.len() as int
    } else {
        line_start(s.drop_last())
    }
}

proof fn lemma_line_start(s: Seq<char>)
    ensures
        0 <= line_start(s) <= s.len(),
        line_start(s) > 0 ==> s[line_start(s) - 1] == '\n',
        forall|j: int| line_start(s) <= j < s.len() ==> s[j] != '\n',
    decreases s.len(),
{
    if s.len() > 0 && s.last() != '\n' {
        lemma_line_start(s.drop_last());
        assert forall|j: int| line_start(s) <= j < s.len() implies s[j] != '\n' by {
            if j < s.len() - 1 {
                assert(s.drop_last()[j] == s[j]);
            }
        }
    }
}

/// A text without newlines in front goes with the first line.
proof fn lemma_chunks_behind(head: Seq<char>, s: Seq<char>)
    requires
        s.len() > 0,
        forall|j: int| 0 <= j < head.len() ==> head[j] != '\n',
    ensures
        chunks(s).len() > 0,
        chunks(head + s) == chunks(s).update(0, head + chunks(s)[0]),
    decreases s.len(),
{
    let all = head + s;
    if s.len() == 1 {
        lemma_chunks_single(s);
        assert forall|j: int| 0 <= j < all.len() - 1 implies all[j] != '\n' by {
            assert(all[j] == head[j]);
        }
        lemma_chunks_single(all);
        assert(chunks(all) =~= chunks(s).update(0, head + chunks(s)[0]));
    } else {
        let front = s.drop_last();
        lemma_chunks_behind(head, front);
        lemma_chunks(front);
        assert(all.drop_last() =~= head + front);
        let longer = chunks(head + front);
        assert(chunks(front)[0].len() > 0);
        assert(longer.last().last() == chunks(front).last().last());
        assert(all.last() == s.last());
        if chunks(front).last().last() != '\n' && chunks(front).len() == 1 {
            assert((head + chunks(front)[0]).push(s.last()) =~= head + chunks(front)[0].push(
                s.last(),
            ));
        }
        assert(chunks(all) =~= chunks(s).update(0, head + chunks(s)[0]));
    }
}

/// Every newline ends a line, and what stands behind the last one is a line too.
pub proof fn lemma_line_count(s: Seq<char>)
    ensures
        chunks(s).len() == newlines(s) + if s.len() > 0 && s.last() != '\n' {
            1nat
        } else {
            0nat
        },
    decreases s.len(),
{
    if s.len() > 0 {
        lemma_line_count(s.drop_last());
        lemma_chunks(s.drop_last());
    }
}

/// A character stands on one of the lines of its text.
pub proof fn lemma_line_of_character(s: Seq<char>, q: int)
    requires
        0 <= q < s.len(),
    ensures
        newlines(s.take(q)) < chunks(s).len(),
{
    lemma_line_count(s);
    assert(s =~= s.take(q) + s.skip(q));
    lemma_newlines_concat(s.take(q), s.skip(q));
    if s.last() == '\n' {
        assert(s.skip(q).last() == '\n');
    }
}

/// The lines of a piece of a text are found in the lines of the text, from the line on that the
/// piece starts at.
pub proof fn law_lines_of_a_piece(before: Seq<char>, piece: Seq<char>, behind: Seq<char>, k: int)
    requires
        0 <= k < chunks(piece).len(),
    ensures
        newlines(before) + k < chunks(before + piece + behind).len(),
        contains(chunks(before + piece + behind)[newlines(before) + k], chunks(piece)[k]),
{
    let start = line_start(before);
    lemma_line_start(before);
    let above = before.take(start);
    let head = before.skip(start);
    let rest = piece + behind;
    assert(before =~= above + head);
    assert(before + piece + behind =~= above + (head + rest));
    lemma_chunks_concat(above, head + rest);
    lemma_line_count(above);
    lemma_newlines_concat(above, head);
    lemma_line_start(head);
    assert(newlines(head) == 0) by {
        lemma_line_count(head);
        if head.len() > 0 {
            assert forall|j: int| 0 <= j < head.len() - 1 implies head[j] != '\n' by {
                assert(head[j] == before[start + j]);
            }
            assert(head.last() == before[before.len() - 1]);
            lemma_chunks_single(head);
        }
    }
    lemma_chunks(piece);
    if piece.len() == 0 {
        assert(chunks(piece).len() == 0);
    }
    assert forall|j: int| 0 <= j < head.len() implies head[j] != '\n' by {
        assert(head[j] == before[start + j]);
    }
    lemma_chunks_behind(head, rest);
    lemma_chunks_longer(piece, behind, k);
    let line = chunks(piece)[k];
    let found = chunks(rest)[k];
    let whole = chunks(head + rest)[k];
    let at = if k == 0 {
        head.len() as int
    } else {
        0
    };
    assert(whole.subrange(at, at + line.len()) =~= found.subrange(0, line.len() as int));
    assert(matches_at(whole, line, at));
    lemma_first_match_exists(whole, line, 0, at);
    assert(chunks(above + (head + rest))[newlines(before) + k] == whole);
}

/// The lines of a text with their newlines.
pub fn chunks_of(s: &[char]) -> (r: Vec<Vec<char>>)
    ensures
        views(r@) == chunks(s@),
{
    let mut out: Vec<Vec<char>> = Vec::new();
    let mut cur: Vec<char> = Vec::new();
    let mut i: usize = 0;
    assert(s@.take(0) =~= Seq::<char>::empty());
    while i < s.len()
        invariant
            i <= s.len(),
            cur@.len() == 0 ==> chunks(s@.take(i as int)) == views(out@) && (out@.len() > 0
                ==> out@.last()@.last() == '\n'),
            cur@.len() > 0 ==> chunks(s@.take(i as int)) == views(out@).push(cur@)
                && cur@.last() != '\n',
        decreases s.len() - i,
    {
        let c = s[i];
        let ghost front = chunks(s@.take(i as int));
        assert(s@.take(i + 1).drop_last() =~= s@.take(i as int));
        let ghost cur_before = cur@;
        cur.push(c);
        proof {
            if cur_before.len() > 0 {
                assert(front.last() == cur_before);
                assert(chunks(s@.take(i + 1)) =~= views(out@).push(cur@));
            } else {
                assert(cur@ =~= seq![c]);
                assert(front.len() > 0 ==> front.last() == out@.last()@);
                assert(chunks(s@.take(i + 1)) =~= views(out@).push(cur@));
            }
        }
        if c == '\n' {
            let ghost done = cur@;
            out.push(cur);
            assert(views(out@) =~= views(out@.drop_last()).push(done));
            cur = Vec::new();
        }
        i += 1;
    }
    assert(s@.take(i as int) =~= s@);
    if cur.len() > 0 {
        let ghost before = out@;
        out.push(cur);
        assert(views(out@) =~= views(before).push(out@.last()@));
    }
    out
}

/// The length of a line without its line end.
pub fn body_len(chunk: &[char]) -> (r: usize)
    ensures
        r <= chunk@.len(),
        chunk@.take(r as int) == line_body(chunk@),
{
    let n = chunk.len();
    if n > 0 && chunk[n - 1] == '\n' {
        if n > 1 && chunk[n - 2] == '\r' {
            assert(chunk@.take(n - 2) =~= line_body(chunk@));
            n - 2
        } else {
            assert(chunk@.take(n - 1) =~= line_body(chunk@));
            n - 1
        }
    } else {
        assert(chunk@.take(n as int) =~= chunk@);
        n
    }
}

/// The lines of a text without their line ends.
pub fn lines_of(s: &[char]) -> (r: Vec<Vec<char>>)
    ensures
        views(r@) == lines(s@),
{
    let parts = chunks_of(s);
    let mut out: Vec<Vec<char>> = Vec::new();
    let mut i: usize = 0;
    while i < parts.len()
        invariant
            i <= parts.len(),
            views(parts@) == chunks(s@),
            views(out@) == lines(s@).take(i as int),
        decreases parts.len() - i,
    {
        let part = &parts[i];
        let n = body_len(part);
        let body = copied(&part[0..n]);
        assert(body@ == line_body(part@));
        assert(views(parts@)[i as int] == part@);
        let ghost before = out@;
        out.push(body);
        i += 1;
        assert(views(out@) =~= views(before).push(body@));
        assert(lines(s@).take(i as int) =~= lines(s@).take(i - 1).push(body@));
    }
    assert(views(parts@).len() == parts@.len());
    assert(lines(s@).take(i as int) =~= lines(s@));
    out
}

/// How many lines a text has. A text without characters has none.
pub fn logical_line_count(text: &str) -> (r: usize)
    ensures
        r == chunks(text@).len(),
{
    let chars = chars_of(text);
    count_lines(&chars)
}

/// How many lines a text has.
pub fn count_lines(s: &[char]) -> (r: usize)
    ensures
        r == chunks(s@).len(),
{
    let parts = chunks_of(s);
    assert(views(parts@).len() == parts@.len());
    parts.len()
}

/// The parts of a text between two separators.
pub fn parts_of(s: &[char], sep: char) -> (r: Vec<Vec<char>>)
    ensures
        views(r@) == split_on(s@, sep),
        r@.len() > 0,
{
    let mut out: Vec<Vec<char>> = Vec::new();
    let mut cur: Vec<char> = Vec::new();
    let mut i: usize = 0;
    assert(s@.take(0) =~= Seq::<char>::empty());
    assert(views(out@).push(cur@) =~= split_on(s@.take(0), sep));
    while i < s.len()
        invariant
            i <= s.len(),
            split_on(s@.take(i as int), sep) == views(out@).push(cur@),
        decreases s.len() - i,
    {
        let c = s[i];
        assert(s@.take(i + 1).drop_last() =~= s@.take(i as int));
        let ghost before = out@;
        let ghost cur_before = cur@;
        if c == sep {
            out.push(cur);
            assert(views(out@) =~= views(before).push(cur_before));
            cur = Vec::new();
            assert(split_on(s@.take(i + 1), sep) =~= views(out@).push(cur@));
        } else {
            cur.push(c);
            assert(split_on(s@.take(i + 1), sep) =~= views(out@).push(cur@));
        }
        i += 1;
    }
    assert(s@.take(i as int) =~= s@);
    let ghost before = out@;
    let ghost last = cur@;
    out.push(cur);
    assert(views(out@) =~= views(before).push(last));
    out
}

/// The texts of `parts` with `sep` between two neighbours.
pub fn join_texts(parts: &[String], sep: &str) -> (r: String)
    ensures
        r@ == join(texts(parts@), sep@),
{
    let mut out = String::new();
    let mut i: usize = 0;
    assert(texts(parts@).take(0) =~= Seq::<Seq<char>>::empty());
    while i < parts.len()
        invariant
            i <= parts.len(),
            out@ == join(texts(parts@).take(i as int), sep@),
        decreases parts.len() - i,
    {
        if i > 0 {
            out.push_str(sep);
        }
        out.push_str(parts[i].as_str());
        i += 1;
        let ghost done = texts(parts@).take(i as int);
        assert(done.drop_last() =~= texts(parts@).take(i - 1));
        assert(done.last() == parts@[i - 1]@);
        assert(out@ =~= join(done, sep@));
    }
    assert(texts(parts@).take(i as int) =~= texts(parts@));
    out
}

/// The lines of `text` as strings, without their line ends.
pub fn line_strings(text: &str) -> (r: Vec<String>)
    ensures
        texts(r@) == lines(text@),
{
    let chars = chars_of(text);
    let parts = lines_of(&chars);
    let mut out: Vec<String> = Vec::new();
    let mut i: usize = 0;
    while i < parts.len()
        invariant
            i <= parts.len(),
            views(parts@) == lines(text@),
            texts(out@) == lines(text@).take(i as int),
        decreases parts.len() - i,
    {
        let line = string_of(&parts[i]);
        assert(views(parts@)[i as int] == line@);
        let ghost before = out@;
        let ghost l = line@;
        out.push(line);
        i += 1;
        assert(texts(out@) =~= texts(before).push(l));
        assert(lines(text@).take(i as int) =~= lines(text@).take(i - 1).push(l));
    }
    assert(views(parts@).len() == parts@.len());
    assert(lines(text@).take(i as int) =~= lines(text@));
    out
}

}
