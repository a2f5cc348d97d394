//! SyncTeX files: reading them, moving their records to the source, and merging those of the
//! frames into one.
use crate::gzip::{gunzip, gunzipped, gzip, gzipped};
use crate::lines::{
    chunks, join, join_texts, law_split_of_join, lemma_chunks, lemma_split_concat, lemma_split_one,
    line_body, line_strings, lines, parts_of, split_on,
};
use crate::numbers::{
    decimal, law_decimal_round_trip, lemma_decimal, parse_number, push_decimal, read_u32,
    read_usize,
};
use crate::path_parts::PathStyle;
use crate::paths::{file_name, parsed, FilePath};
use crate::latexcompile::{tex_path, tex_path_arg};
use crate::search::{first_index, has_prefix, index_of, prefix_len, starts_with};
use crate::sync_map::{mapped_line, FrameSyncTexMap, SyncMapView};
use crate::text::{
    chars_of, copied_texts, owned, push_all, push_text, push_texts, same_text, string_of, texts,
    views,
};
use std::collections::HashMap;
use vstd::prelude::*;
use vstd::std_specs::hash::group_hash_axioms;

verus! {

broadcast use group_hash_axioms;

// ---------------------------------------------------------------------------
// Lines of a SyncTeX file
// ---------------------------------------------------------------------------

/// The input file that a line names: its tag and its path.
pub open spec fn input_line(line: Seq<char>) -> Option<(u32, Seq<char>)> {
    if starts_with(line, "Input:"@) {
        let rest = line.skip("Input:"@.len() as int);
        let colon = first_index(rest, ':', 0);
        match parse_number(rest.take(colon), u32::MAX as nat) {
            Some(tag) => if colon < rest.len() {
                Some((tag as u32, rest.skip(colon + 1)))
            } else {
                None
            },
            None => None,
        }
    } else {
        None
    }
}

/// The input file that `line` names: its tag and its path.
pub fn parse_synctex_input_line(line: &str) -> (r: Option<(u32, String)>)
    ensures
        match r {
            Some((tag, path)) => input_line(line@) == Some((tag, path@)),
            None => input_line(line@) is None,
        },
{
    let chars = chars_of(line);
    match prefix_len(&chars, "Input:") {
        Some(n) => {
            let rest = &chars[n..chars.len()];
            assert(rest@ =~= line@.skip("Input:"@.len() as int));
            let colon = index_of(rest, ':');
            let number = &rest[0..colon];
            assert(number@ =~= rest@.take(colon as int));
            match read_u32(number) {
                Some(tag) => {
                    if colon < rest.len() {
                        let path = &rest[colon + 1..rest.len()];
                        assert(path@ =~= rest@.skip(colon + 1));
                        Some((tag, string_of(path)))
                    } else {
                        None
                    }
                },
                None => None,
            }
        },
        None => None,
    }
}

/// The number behind the mark `mark` at the start of a line.
pub open spec fn marked_page(line: Seq<char>, mark: char) -> Option<nat> {
    if line.len() > 0 && line[0] == mark {
        parse_number(line.skip(1), usize::MAX as nat)
    } else {
        None
    }
}

fn page_behind(line: &str, mark: char) -> (r: Option<usize>)
    ensures
        match r {
            Some(n) => marked_page(line@, mark) == Some(n as nat),
            None => marked_page(line@, mark) is None,
        },
{
    let chars = chars_of(line);
    if chars.len() > 0 && chars[0] == mark {
        let rest = &chars[1..chars.len()];
        assert(rest@ =~= line@.skip(1));
        read_usize(rest)
    } else {
        None
    }
}

/// The page that `line` opens.
pub fn synctex_page_open(line: &str) -> (r: Option<usize>)
    ensures
        match r {
            Some(n) => marked_page(line@, '{') == Some(n as nat),
            None => marked_page(line@, '{') is None,
        },
{
    page_behind(line, '{')
}

/// The page that `line` closes.
pub fn synctex_page_close(line: &str) -> (r: Option<usize>)
    ensures
        match r {
            Some(n) => marked_page(line@, '}') == Some(n as nat),
            None => marked_page(line@, '}') is None,
        },
{
    page_behind(line, '}')
}

/// Whether a record of this kind links to a place in an input file.
pub open spec fn links(c: char) -> bool {
    c == '[' || c == '(' || c == 'x' || c == 'k' || c == 'g' || c == '$' || c == 'v' || c == 'h'
        || c == 'r'
}

fn is_link(c: char) -> (r: bool)
    ensures
        r == links(c),
{
    c == '[' || c == '(' || c == 'x' || c == 'k' || c == 'g' || c == '$' || c == 'v' || c == 'h'
        || c == 'r'
}

/// Where the link of a record ends: the first colon behind its first character.
pub open spec fn link_end(line: Seq<char>) -> int {
    first_index(line.skip(1), ':', 0)
}

/// Whether a line is a record with a link.
pub open spec fn has_link(line: Seq<char>) -> bool {
    line.len() > 0 && links(line[0]) && link_end(line) < line.skip(1).len()
}

/// The parts of a link: the tag of an input file, a line, and perhaps a column.
pub open spec fn link_parts(line: Seq<char>) -> Seq<Seq<char>> {
    split_on(line.skip(1).take(link_end(line)), ',')
}

/// The record of `line` with other parts in its link.
pub open spec fn relinked(line: Seq<char>, parts: Seq<Seq<char>>) -> Seq<char> {
    seq![line[0]] + join(parts, ","@) + line.skip(1).skip(link_end(line))
}

fn relink(chars: &[char], colon: usize, parts: &[String]) -> (r: String)
    requires
        has_link(chars@),
        colon == link_end(chars@),
        colon < chars@.len() - 1,
    ensures
        r@ == relinked(chars@, texts(parts@)),
{
    let mut out = String::new();
    out.push(chars[0]);
    let link = join_texts(parts, ",");
    out.push_str(link.as_str());
    let tail = &chars[colon + 1..chars.len()];
    assert(tail@ =~= chars@.skip(1).skip(colon as int));
    push_all(&mut out, tail);
    assert(out@ =~= relinked(chars@, texts(parts@)));
    out
}

/// The parts of the link of a record, and where the link ends.
fn read_link(chars: &[char]) -> (r: Option<(usize, Vec<Vec<char>>)>)
    ensures
        match r {
            Some((colon, parts)) => {
                &&& has_link(chars@)
                &&& colon == link_end(chars@)
                &&& colon < chars@.len() - 1
                &&& views(parts@) == link_parts(chars@)
                &&& parts@.len() > 0
            },
            None => !has_link(chars@),
        },
{
    if chars.len() == 0 || !is_link(chars[0]) {
        return None;
    }
    let rest = &chars[1..chars.len()];
    assert(rest@ =~= chars@.skip(1));
    let colon = index_of(rest, ':');
    if colon >= rest.len() {
        return None;
    }
    let link = &rest[0..colon];
    assert(link@ =~= rest@.take(colon as int));
    let parts = parts_of(link, ',');
    Some((colon, parts))
}

// ---------------------------------------------------------------------------
// From a generated file to its source
// ---------------------------------------------------------------------------

/// Whether an input path names the file `name`, wherever it is.
pub open spec fn input_matches(path: Seq<char>, name: Seq<char>, style: PathStyle) -> bool {
    path == name || file_name(parsed(style, path)) == Some(name)
}

/// Whether an input path names the file `temp_file_name`, wherever it is.
pub fn synctex_input_matches(path: &str, temp_file_name: &str, style: PathStyle) -> (r: bool)
    ensures
        r == input_matches(path@, temp_file_name@, style),
{
    if same_text(path, temp_file_name) {
        return true;
    }
    let file = FilePath::parse_as(path, style);
    match file.file_name() {
        Some(name) => same_text(name, temp_file_name),
        None => false,
    }
}

/// The link of a record that points into the generated file, moved to the source. Of what stands
/// behind the line only the column is kept.
pub open spec fn remapped_link(line: Seq<char>, tag: u32, map: SyncMapView) -> Option<Seq<char>> {
    let parts = link_parts(line);
    if has_link(line) && parse_number(parts[0], u32::MAX as nat) == Some(tag as nat) && parts.len()
        > 1 {
        match parse_number(parts[1], usize::MAX as nat) {
            Some(n) => Some(
                relinked(
                    line,
                    seq![decimal(tag as nat), decimal(mapped_line(map.segments, n))]
                        + parts.subrange(
                        2,
                        if parts.len() > 2 {
                            3
                        } else {
                            2
                        },
                    ),
                ),
            ),
            None => None,
        }
    } else {
        None
    }
}

/// The record of `line` moved to the source, where it points into the generated file.
pub fn remap_synctex_link_line(line: &str, temp_tag: u32, sync_map: &FrameSyncTexMap) -> (r: Option<
    String,
>)
    requires
        sync_map.wf(),
    ensures
        match r {
            Some(text) => remapped_link(line@, temp_tag, sync_map@) == Some(text@),
            None => remapped_link(line@, temp_tag, sync_map@) is None,
        },
{
    let chars = chars_of(line);
    match read_link(&chars) {
        None => None,
        Some((colon, parts)) => {
            let ghost all = views(parts@);
            assert(all[0] == parts@[0]@);
            let tag = match read_u32(&parts[0]) {
                Some(tag) => tag,
                None => {
                    return None;
                },
            };
            if tag != temp_tag || parts.len() < 2 {
                return None;
            }
            assert(all[1] == parts@[1]@);
            let line_no = match read_usize(&parts[1]) {
                Some(n) => n,
                None => {
                    return None;
                },
            };
            let mapped = sync_map.map_temp_line(line_no);
            let mut link: Vec<String> = Vec::new();
            assert(texts(link@) =~= Seq::<Seq<char>>::empty());
            push_text(&mut link, crate::numbers::decimal_string(tag as u128));
            push_text(&mut link, crate::numbers::decimal_string(mapped));
            if parts.len() > 2 {
                assert(all[2] == parts@[2]@);
                push_text(&mut link, string_of(&parts[2]));
            }
            assert(texts(link@) =~= seq![
                decimal(tag as nat),
                decimal(mapped_line(sync_map@.segments, line_no as nat)),
            ] + all.subrange(
                2,
                if all.len() > 2 {
                    3
                } else {
                    2
                },
            ));
            Some(relink(&chars, colon, &link))
        },
    }
}

/// A line that names an input file.
pub open spec fn input_text(tag: u32, path: Seq<char>) -> Seq<char> {
    "Input:"@ + decimal(tag as nat) + ":"@ + path
}

fn input_string(tag: u32, path: &str) -> (r: String)
    ensures
        r@ == input_text(tag, path@),
{
    let mut out = owned("Input:");
    push_decimal(&mut out, tag as u128);
    out.push_str(":");
    out.push_str(path);
    out
}

/// Whether a line names the generated file as an input.
pub open spec fn names_temp_file(line: Seq<char>, map: SyncMapView) -> bool {
    match input_line(line) {
        Some((tag, path)) => input_matches(path, map.temp_file_name, map.source_file.style),
        None => false,
    }
}

/// The tag of the generated file behind the lines: the last line that names it decides.
pub open spec fn temp_tag(all: Seq<Seq<char>>, map: SyncMapView) -> Option<u32>
    decreases all.len(),
{
    if all.len() == 0 {
        None
    } else if names_temp_file(all.last(), map) {
        Some((input_line(all.last())->0).0)
    } else {
        temp_tag(all.drop_last(), map)
    }
}

/// What becomes of a line, where `tag` is the tag of the generated file.
pub open spec fn remapped_line(line: Seq<char>, tag: Option<u32>, map: SyncMapView) -> Seq<char> {
    if names_temp_file(line, map) {
        input_text((input_line(line)->0).0, tex_path(map.source_file))
    } else {
        match tag {
            Some(t) => match remapped_link(line, t, map) {
                Some(text) => text,
                None => line,
            },
            None => line,
        }
    }
}

/// What becomes of the lines: each is moved by the tag that is known where it stands.
pub open spec fn remapped_lines(all: Seq<Seq<char>>, map: SyncMapView) -> Seq<Seq<char>> {
    Seq::new(all.len(), |i: int| remapped_line(all[i], temp_tag(all.take(i), map), map))
}

/// A SyncTeX file with its records moved from the generated file to the source.
pub open spec fn remapped(content: Seq<char>, map: SyncMapView) -> Seq<char> {
    let text = join(remapped_lines(lines(content), map), "\n"@);
    if content.len() > 0 && content.last() == '\n' {
        text + "\n"@
    } else {
        text
    }
}

/// A path as SyncTeX writes it: with `/` for every backslash.
pub fn synctex_path(path: &FilePath) -> (r: String)
    ensures
        r@ == tex_path(path@),
{
    tex_path_arg(path)
}

/// The SyncTeX file `content` with its records moved from the generated file to the source.
pub fn remap_synctex_contents(content: &str, sync_map: &FrameSyncTexMap) -> (r: String)
    requires
        sync_map.wf(),
    ensures
        r@ == remapped(content@, sync_map@),
{
    let all = line_strings(content);
    let ghost lines = texts(all@);
    let ghost target = remapped_lines(lines, sync_map@);
    let mut known: Option<u32> = None;
    let mut out: Vec<String> = Vec::new();
    let mut i: usize = 0;
    assert(lines.take(0) =~= Seq::<Seq<char>>::empty());
    assert(texts(out@) =~= target.take(0));
    while i < all.len()
        invariant
            i <= all.len(),
            sync_map.wf(),
            lines == texts(all@),
            target == remapped_lines(lines, sync_map@),
            known == temp_tag(lines.take(i as int), sync_map@),
            texts(out@) == target.take(i as int),
        decreases all.len() - i,
    {
        let line = all[i].as_str();
        let ghost tag_before = known;
        assert(lines[i as int] == line@);
        assert(lines.take(i + 1).drop_last() =~= lines.take(i as int));
        assert(target.take(i + 1) =~= target.take(i as int).push(target[i as int]));
        let mut moved: Option<String> = None;
        if let Some((tag, path)) = parse_synctex_input_line(line) {
            let style = sync_map.source_file.style;
            if synctex_input_matches(path.as_str(), sync_map.temp_file_name.as_str(), style) {
                known = Some(tag);
                let source = synctex_path(&sync_map.source_file);
                moved = Some(input_string(tag, source.as_str()));
            }
        }
        match moved {
            Some(text) => push_text(&mut out, text),
            None => {
                let rewritten = match known {
                    Some(tag) => remap_synctex_link_line(line, tag, sync_map),
                    None => None,
                };
                match rewritten {
                    Some(text) => push_text(&mut out, text),
                    None => push_text(&mut out, owned(line)),
                }
            },
        }
        i += 1;
    }
    assert(target.take(i as int) =~= target);
    let mut text = join_texts(&out, "\n");
    let chars = chars_of(content);
    if chars.len() > 0 && chars[chars.len() - 1] == '\n' {
        text.push_str("\n");
    }
    text
}

/// A file that does not name the generated file as an input keeps its lines.
pub proof fn law_foreign_lines_are_kept(all: Seq<Seq<char>>, map: SyncMapView)
    requires
        forall|i: int| 0 <= i < all.len() ==> !names_temp_file(#[trigger] all[i], map),
    ensures
        remapped_lines(all, map) == all,
{
    assert forall|i: int| 0 <= i < all.len() implies remapped_lines(all, map)[i] == all[i] by {
        lemma_no_temp_tag(all.take(i), map);
        assert(!names_temp_file(all[i], map));
    }
    assert(remapped_lines(all, map) =~= all);
}

proof fn lemma_no_temp_tag(all: Seq<Seq<char>>, map: SyncMapView)
    requires
        forall|i: int| 0 <= i < all.len() ==> !names_temp_file(#[trigger] all[i], map),
    ensures
        temp_tag(all, map) is None,
    decreases all.len(),
{
    if all.len() > 0 {
        assert(!names_temp_file(all[all.len() - 1], map));
        assert forall|i: int| 0 <= i < all.drop_last().len() implies !names_temp_file(
            #[trigger] all.drop_last()[i],
            map,
        ) by {
            assert(!names_temp_file(all[i], map));
        }
        lemma_no_temp_tag(all.drop_last(), map);
    }
}

// ---------------------------------------------------------------------------
// Parsing
// ---------------------------------------------------------------------------

/// A SyncTeX file in its parts.
#[derive(Clone, Debug)]
pub struct ParsedSyncTex {
    pub header_lines: Vec<String>,
    pub input_lines: Vec<(u32, String)>,
    pub content_lines: Vec<String>,
    pub record_count: usize,
}

/// What the parts of a SyncTeX file hold.
#[verifier::ext_equal]
pub struct SyncTexView {
    pub header: Seq<Seq<char>>,
    pub inputs: Seq<(u32, Seq<char>)>,
    pub content: Seq<Seq<char>>,
    pub records: nat,
}

/// What tags and paths hold.
pub open spec fn entries(v: Seq<(u32, String)>) -> Seq<(u32, Seq<char>)> {
    v.map_values(|e: (u32, String)| (e.0, e.1@))
}

impl View for ParsedSyncTex {
    type V = SyncTexView;

    open spec fn view(&self) -> SyncTexView {
        SyncTexView {
            header: texts(self.header_lines@),
            inputs: entries(self.input_lines@),
            content: texts(self.content_lines@),
            records: self.record_count as nat,
        }
    }
}

/// The first line, from `from` on, that is `text`. Without one, how many lines there are.
pub open spec fn find_line(all: Seq<Seq<char>>, text: Seq<char>, from: int) -> int
    decreases all.len() - from,
{
    if 0 <= from < all.len() && all[from] != text {
        find_line(all, text, from + 1)
    } else {
        from
    }
}

fn line_position(all: &[String], text: &str) -> (r: usize)
    ensures
        r == find_line(texts(all@), text@, 0),
        r <= all@.len(),
{
    let ghost lines = texts(all@);
    let mut i: usize = 0;
    while i < all.len() && !same_text(all[i].as_str(), text)
        invariant
            i <= all.len(),
            lines == texts(all@),
            find_line(lines, text@, i as int) == find_line(lines, text@, 0),
        decreases all.len() - i,
    {
        assert(lines[i as int] == all@[i as int]@);
        i += 1;
    }
    assert(i < all.len() ==> lines[i as int] == all@[i as int]@);
    i
}

/// The number that a line gives as the count of records.
pub open spec fn count_in(line: Seq<char>) -> Option<nat> {
    if starts_with(line, "Count:"@) {
        parse_number(line.skip("Count:"@.len() as int), usize::MAX as nat)
    } else {
        None
    }
}

/// The count of records: the first one that can be read from line `from` on, or zero.
pub open spec fn record_count(all: Seq<Seq<char>>, from: int) -> nat
    decreases all.len() - from,
{
    if from < 0 || from >= all.len() {
        0
    } else {
        match count_in(all[from]) {
            Some(n) => n,
            None => record_count(all, from + 1),
        }
    }
}

/// The count of records behind the line `postamble_idx`.
pub fn parse_synctex_record_count(all: &[String], postamble_idx: usize) -> (r: usize)
    requires
        postamble_idx < all@.len(),
    ensures
        r == record_count(texts(all@), postamble_idx + 1),
{
    let ghost lines = texts(all@);
    assert(all@.len() == all.len());
    let mut i: usize = postamble_idx + 1;
    while i < all.len()
        invariant
            i <= all.len(),
            lines == texts(all@),
            record_count(lines, i as int) == record_count(lines, postamble_idx + 1),
        decreases all.len() - i,
    {
        let chars = chars_of(all[i].as_str());
        assert(lines[i as int] == chars@);
        if let Some(n) = prefix_len(&chars, "Count:") {
            let rest = &chars[n..chars.len()];
            assert(rest@ =~= chars@.skip("Count:"@.len() as int));
            if let Some(count) = read_usize(rest) {
                return count;
            }
        }
        i += 1;
    }
    0
}

/// The input files that lines name, in their order.
pub open spec fn inputs_of(all: Seq<Seq<char>>) -> Seq<(u32, Seq<char>)>
    decreases all.len(),
{
    if all.len() == 0 {
        Seq::empty()
    } else {
        match input_line(all.last()) {
            Some(entry) => inputs_of(all.drop_last()).push(entry),
            None => inputs_of(all.drop_last()),
        }
    }
}

fn push_entry(out: &mut Vec<(u32, String)>, tag: u32, path: String)
    ensures
        entries(final(out)@) == entries(old(out)@).push((tag, path@)),
{
    let ghost before = out@;
    let ghost view = path@;
    out.push((tag, path));
    assert(entries(out@) =~= entries(before).push((tag, view)));
}

fn collect_inputs(all: &[String]) -> (r: Vec<(u32, String)>)
    ensures
        entries(r@) == inputs_of(texts(all@)),
{
    let ghost lines = texts(all@);
    let mut out: Vec<(u32, String)> = Vec::new();
    let mut i: usize = 0;
    assert(lines.take(0) =~= Seq::<Seq<char>>::empty());
    assert(entries(out@) =~= Seq::<(u32, Seq<char>)>::empty());
    while i < all.len()
        invariant
            i <= all.len(),
            lines == texts(all@),
            entries(out@) == inputs_of(lines.take(i as int)),
        decreases all.len() - i,
    {
        if let Some((tag, path)) = parse_synctex_input_line(all[i].as_str()) {
            push_entry(&mut out, tag, path);
        }
        i += 1;
        assert(lines.take(i as int).drop_last() =~= lines.take(i - 1));
        assert(lines.take(i as int).last() == all@[i - 1]@);
    }
    assert(lines.take(i as int) =~= lines);
    out
}

/// The parts of a SyncTeX file, or what is wrong with it.
pub open spec fn document(content: Seq<char>) -> Result<SyncTexView, Seq<char>> {
    let all = lines(content);
    let start = find_line(all, "Content:"@, 0);
    let end = find_line(all, "Postamble:"@, 0);
    if start >= all.len() {
        Err("SyncTeX file has no Content section"@)
    } else if end >= all.len() {
        Err("SyncTeX file has no Postamble section"@)
    } else if end <= start {
        Err("SyncTeX Postamble appears before Content"@)
    } else if inputs_of(all.take(end)).len() == 0 {
        Err("SyncTeX file has no Input lines"@)
    } else {
        Ok(
            SyncTexView {
                header: all.take(start),
                inputs: inputs_of(all.take(end)),
                content: all.subrange(start + 1, end),
                records: record_count(all, end + 1),
            },
        )
    }
}

/// The parts of the SyncTeX file `content`, or what is wrong with it.
pub fn parse_synctex_document(content: &str) -> (r: Result<ParsedSyncTex, String>)
    ensures
        match r {
            Ok(parsed) => document(content@) == Ok::<SyncTexView, Seq<char>>(parsed@),
            Err(text) => document(content@) == Err::<SyncTexView, Seq<char>>(text@),
        },
{
    let all = line_strings(content);
    let ghost lines = texts(all@);
    let start = line_position(&all, "Content:");
    let end = line_position(&all, "Postamble:");
    if start >= all.len() {
        return Err(owned("SyncTeX file has no Content section"));
    }
    if end >= all.len() {
        return Err(owned("SyncTeX file has no Postamble section"));
    }
    if end <= start {
        return Err(owned("SyncTeX Postamble appears before Content"));
    }
    let front = &all[0..end];
    assert(texts(front@) =~= lines.take(end as int));
    let input_lines = collect_inputs(front);
    assert(entries(input_lines@).len() == input_lines@.len());
    if input_lines.len() == 0 {
        return Err(owned("SyncTeX file has no Input lines"));
    }
    let header = &all[0..start];
    assert(texts(header@) =~= lines.take(start as int));
    let body = &all[start + 1..end];
    assert(texts(body@) =~= lines.subrange(start + 1, end as int));
    let record_count = parse_synctex_record_count(&all, end);
    Ok(
        ParsedSyncTex {
            header_lines: copied_texts(header),
            input_lines,
            content_lines: copied_texts(body),
            record_count,
        },
    )
}

// ---------------------------------------------------------------------------
// Rewriting content
// ---------------------------------------------------------------------------

/// The record of a line with the tag of its input file replaced by the one that `tags` gives.
/// What is no record with a tag stays as it is.
pub open spec fn global_line(line: Seq<char>, tags: Map<u32, u32>) -> Result<Seq<char>, Seq<char>> {
    if !has_link(line) {
        Ok(line)
    } else {
        match parse_number(link_parts(line)[0], u32::MAX as nat) {
            None => Ok(line),
            Some(tag) => if tags.contains_key(tag as u32) {
                Ok(relinked(line, link_parts(line).update(0, decimal(tags[tag as u32] as nat))))
            } else {
                Err("SyncTeX record references unknown input tag "@ + decimal(tag))
            },
        }
    }
}

/// The record of `line` with the tag of its input file replaced by the one that `tag_map` gives.
pub fn remap_synctex_global_tag(line: &str, tag_map: &HashMap<u32, u32>) -> (r: Result<
    String,
    String,
>)
    ensures
        match r {
            Ok(text) => global_line(line@, tag_map@) == Ok::<Seq<char>, Seq<char>>(text@),
            Err(text) => global_line(line@, tag_map@) == Err::<Seq<char>, Seq<char>>(text@),
        },
{
    let chars = chars_of(line);
    match read_link(&chars) {
        None => Ok(owned(line)),
        Some((colon, parts)) => {
            let ghost all = views(parts@);
            assert(all[0] == parts@[0]@);
            let tag = match read_u32(&parts[0]) {
                Some(tag) => tag,
                None => {
                    return Ok(owned(line));
                },
            };
            match tag_map.get(&tag) {
                None => {
                    let mut text = owned("SyncTeX record references unknown input tag ");
                    push_decimal(&mut text, tag as u128);
                    Err(text)
                },
                Some(global_tag) => {
                    let mut link: Vec<String> = Vec::new();
                    assert(texts(link@) =~= Seq::<Seq<char>>::empty());
                    push_text(&mut link, crate::numbers::decimal_string(*global_tag as u128));
                    let ghost target = all.update(0, decimal(*global_tag as nat));
                    assert(texts(link@) =~= target.take(1));
                    let mut i: usize = 1;
                    while i < parts.len()
                        invariant
                            1 <= i <= parts.len(),
                            all == views(parts@),
                            target == all.update(0, decimal(*global_tag as nat)),
                            texts(link@) == target.take(i as int),
                        decreases parts.len() - i,
                    {
                        assert(all[i as int] == parts@[i as int]@);
                        push_text(&mut link, string_of(&parts[i]));
                        i += 1;
                        assert(target.take(i as int) =~= target.take(i - 1).push(target[i - 1]));
                    }
                    assert(target.take(i as int) =~= target);
                    Ok(relink(&chars, colon, &link))
                },
            }
        },
    }
}

/// The page that a line opens or closes, with the mark it does that with.
pub open spec fn page_line(line: Seq<char>) -> Option<(char, nat)> {
    match marked_page(line, '{') {
        Some(n) => Some(('{', n)),
        None => match marked_page(line, '}') {
            Some(n) => Some(('}', n)),
            None => None,
        },
    }
}

/// The number of the page that a line opens or closes, or zero.
pub open spec fn page_number(line: Seq<char>) -> nat {
    match page_line(line) {
        Some((_, n)) => n,
        None => 0,
    }
}

/// What becomes of a line of the content: pages are numbered on from `offset`, and tags replaced.
pub open spec fn shifted_line(line: Seq<char>, offset: nat, tags: Map<u32, u32>) -> Result<
    Seq<char>,
    Seq<char>,
> {
    match page_line(line) {
        Some((mark, n)) => if n == 0 {
            Ok(line)
        } else {
            Ok(seq![mark] + decimal(offset + n))
        },
        None => global_line(line, tags),
    }
}

/// What becomes of the lines of the content. Lines that name input files are left out, and the
/// first line that cannot be rewritten ends the attempt.
pub open spec fn shifted_lines(all: Seq<Seq<char>>, offset: nat, tags: Map<u32, u32>) -> Result<
    Seq<Seq<char>>,
    Seq<char>,
>
    decreases all.len(),
{
    if all.len() == 0 {
        Ok(Seq::empty())
    } else {
        match shifted_lines(all.drop_last(), offset, tags) {
            Err(e) => Err(e),
            Ok(out) => if input_line(all.last()) is Some {
                Ok(out)
            } else {
                match shifted_line(all.last(), offset, tags) {
                    Err(e) => Err(e),
                    Ok(line) => Ok(out.push(line)),
                }
            },
        }
    }
}

/// How many pages lines of content have: the largest number of a page among them.
pub open spec fn page_count(all: Seq<Seq<char>>) -> nat
    decreases all.len(),
{
    if all.len() == 0 {
        0
    } else {
        let front = page_count(all.drop_last());
        if input_line(all.last()) is None && page_number(all.last()) > front {
            page_number(all.last())
        } else {
            front
        }
    }
}

/// The rewritten content and how many pages it has. Content without pages is refused.
pub open spec fn shifted_content(all: Seq<Seq<char>>, offset: nat, tags: Map<u32, u32>) -> Result<
    (Seq<Seq<char>>, nat),
    Seq<char>,
> {
    match shifted_lines(all, offset, tags) {
        Err(e) => Err(e),
        Ok(out) => if page_count(all) == 0 {
            Err("SyncTeX content has no page sheet records"@)
        } else {
            Ok((out, page_count(all)))
        },
    }
}

fn page_string(mark: char, number: u128) -> (r: String)
    ensures
        r@ == seq![mark] + decimal(number as nat),
{
    let mut out = String::new();
    out.push(mark);
    push_decimal(&mut out, number);
    assert(out@ =~= seq![mark] + decimal(number as nat));
    out
}

proof fn lemma_failed_line(all: Seq<Seq<char>>, offset: nat, tags: Map<u32, u32>, n: int)
    requires
        0 <= n <= all.len(),
        shifted_lines(all.take(n), offset, tags) is Err,
    ensures
        shifted_lines(all, offset, tags) == shifted_lines(all.take(n), offset, tags),
    decreases all.len() - n,
{
    if n < all.len() {
        assert(all.take(n + 1).drop_last() =~= all.take(n));
        lemma_failed_line(all, offset, tags, n + 1);
    } else {
        assert(all.take(n) =~= all);
    }
}

/// The lines of the content with their pages numbered on from `page_offset` and their tags
/// replaced, and how many pages they have.
pub fn rewrite_synctex_content_lines(
    content_lines: &[String],
    page_offset: u128,
    tag_map: &HashMap<u32, u32>,
) -> (r: Result<(Vec<String>, usize), String>)
    requires
        page_offset + usize::MAX <= u128::MAX,
    ensures
        match r {
            Ok((out, pages)) => shifted_content(texts(content_lines@), page_offset as nat, tag_map@)
                == Ok::<(Seq<Seq<char>>, nat), Seq<char>>((texts(out@), pages as nat)),
            Err(text) => shifted_content(texts(content_lines@), page_offset as nat, tag_map@)
                == Err::<(Seq<Seq<char>>, nat), Seq<char>>(text@),
        },
{
    let ghost all = texts(content_lines@);
    let ghost offset = page_offset as nat;
    let ghost tags = tag_map@;
    let mut out: Vec<String> = Vec::new();
    let mut pages: usize = 0;
    let mut i: usize = 0;
    assert(all.take(0) =~= Seq::<Seq<char>>::empty());
    assert(texts(out@) =~= Seq::<Seq<char>>::empty());
    while i < content_lines.len()
        invariant
            i <= content_lines.len(),
            page_offset + usize::MAX <= u128::MAX,
            all == texts(content_lines@),
            offset == page_offset,
            tags == tag_map@,
            shifted_lines(all.take(i as int), offset, tags) == Ok::<Seq<Seq<char>>, Seq<char>>(
                texts(out@),
            ),
            pages == page_count(all.take(i as int)),
        decreases content_lines.len() - i,
    {
        let line = content_lines[i].as_str();
        let ghost done = all.take(i + 1);
        assert(done.drop_last() =~= all.take(i as int));
        assert(done.last() == line@);
        if parse_synctex_input_line(line).is_none() {
            let open = synctex_page_open(line);
            let close = synctex_page_close(line);
            match (open, close) {
                (Some(n), _) => {
                    if n == 0 {
                        push_text(&mut out, owned(line));
                    } else {
                        if n > pages {
                            pages = n;
                        }
                        push_text(&mut out, page_string('{', page_offset + n as u128));
                    }
                },
                (None, Some(n)) => {
                    if n == 0 {
                        push_text(&mut out, owned(line));
                    } else {
                        if n > pages {
                            pages = n;
                        }
                        push_text(&mut out, page_string('}', page_offset + n as u128));
                    }
                },
                (None, None) => {
                    match remap_synctex_global_tag(line, tag_map) {
                        Ok(text) => push_text(&mut out, text),
                        Err(text) => {
                            proof {
                                lemma_failed_line(all, offset, tags, i + 1);
                            }
                            return Err(text);
                        },
                    }
                },
            }
        }
        i += 1;
    }
    assert(all.take(i as int) =~= all);
    if pages == 0 {
        Err(owned("SyncTeX content has no page sheet records"))
    } else {
        Ok((out, pages))
    }
}

// ---------------------------------------------------------------------------
// Merging
// ---------------------------------------------------------------------------

/// The lines that name input files.
pub open spec fn input_texts(inputs: Seq<(u32, Seq<char>)>) -> Seq<Seq<char>> {
    inputs.map_values(|e: (u32, Seq<char>)| input_text(e.0, e.1))
}

/// A header so far: its lines, whether the input files were named, and whether the output was.
#[verifier::ext_equal]
pub struct HeaderView {
    pub lines: Seq<Seq<char>>,
    pub named_inputs: bool,
    pub named_output: bool,
}

/// The header with its input files named, where they were not yet.
pub open spec fn with_inputs(h: HeaderView, inputs: Seq<(u32, Seq<char>)>) -> HeaderView {
    if h.named_inputs {
        h
    } else {
        HeaderView { lines: h.lines + input_texts(inputs), named_inputs: true, ..h }
    }
}

/// The header behind one more line: in place of the first line that names an input file or the
/// output, all the input files are named; other lines that name input files are left out, and
/// the output is replaced.
pub open spec fn header_step(
    h: HeaderView,
    line: Seq<char>,
    inputs: Seq<(u32, Seq<char>)>,
    output: Seq<char>,
) -> HeaderView {
    if input_line(line) is Some {
        with_inputs(h, inputs)
    } else if starts_with(line, "Output:"@) {
        let named = with_inputs(h, inputs);
        HeaderView { lines: named.lines.push("Output:"@ + output), named_output: true, ..named }
    } else {
        HeaderView { lines: h.lines.push(line), ..h }
    }
}

/// The header behind the lines `all`, which follow `before`.
pub open spec fn header_lines(
    before: Seq<Seq<char>>,
    all: Seq<Seq<char>>,
    inputs: Seq<(u32, Seq<char>)>,
    output: Seq<char>,
) -> HeaderView
    decreases all.len(),
{
    if all.len() == 0 {
        HeaderView { lines: before, named_inputs: false, named_output: false }
    } else {
        header_step(
            header_lines(before, all.drop_last(), inputs, output),
            all.last(),
            inputs,
            output,
        )
    }
}

/// The header of a merged file: it names every input file, and its own output.
pub open spec fn merged_header(
    before: Seq<Seq<char>>,
    all: Seq<Seq<char>>,
    inputs: Seq<(u32, Seq<char>)>,
    output: Seq<char>,
) -> Seq<Seq<char>> {
    let named = with_inputs(header_lines(before, all, inputs, output), inputs);
    if named.named_output {
        named.lines
    } else {
        named.lines.push("Output:"@ + output)
    }
}

fn push_inputs(out: &mut Vec<String>, inputs: &[(u32, String)])
    ensures
        texts(final(out)@) == texts(old(out)@) + input_texts(entries(inputs@)),
{
    let ghost before = texts(out@);
    let ghost all = input_texts(entries(inputs@));
    let mut i: usize = 0;
    assert(before + all.take(0) =~= before);
    while i < inputs.len()
        invariant
            i <= inputs.len(),
            all == input_texts(entries(inputs@)),
            texts(out@) == before + all.take(i as int),
        decreases inputs.len() - i,
    {
        let text = input_string(inputs[i].0, inputs[i].1.as_str());
        assert(entries(inputs@)[i as int] == (inputs@[i as int].0, inputs@[i as int].1@));
        push_text(out, text);
        i += 1;
        assert(before + all.take(i as int) =~= (before + all.take(i - 1)).push(all[i - 1]));
    }
    assert(all.take(i as int) =~= all);
}

/// Appends the header of a merged file, made from `header_lines`, for the file `output_file`.
pub fn append_merged_synctex_header(
    merged_lines: &mut Vec<String>,
    header_lines: &[String],
    input_lines: &[(u32, String)],
    output_file: &FilePath,
)
    ensures
        texts(final(merged_lines)@) == merged_header(
            texts(old(merged_lines)@),
            texts(header_lines@),
            entries(input_lines@),
            tex_path(output_file@),
        ),
{
    let ghost before = texts(merged_lines@);
    let ghost all = texts(header_lines@);
    let ghost inputs = entries(input_lines@);
    let output = synctex_path(output_file);
    let mut output_line = owned("Output:");
    output_line.push_str(output.as_str());
    let ghost named = output@;
    let mut inserted_inputs = false;
    let mut wrote_output = false;
    let mut i: usize = 0;
    assert(all.take(0) =~= Seq::<Seq<char>>::empty());
    while i < header_lines.len()
        invariant
            i <= header_lines.len(),
            all == texts(header_lines@),
            inputs == entries(input_lines@),
            output_line@ == "Output:"@ + named,
            self::header_lines(before, all.take(i as int), inputs, named) == (HeaderView {
                lines: texts(merged_lines@),
                named_inputs: inserted_inputs,
                named_output: wrote_output,
            }),
        decreases header_lines.len() - i,
    {
        let line = header_lines[i].as_str();
        assert(all.take(i + 1).drop_last() =~= all.take(i as int));
        assert(all.take(i + 1).last() == line@);
        let chars = chars_of(line);
        if parse_synctex_input_line(line).is_some() {
            if !inserted_inputs {
                push_inputs(merged_lines, input_lines);
                inserted_inputs = true;
            }
        } else if has_prefix(&chars, "Output:") {
            if !inserted_inputs {
                push_inputs(merged_lines, input_lines);
                inserted_inputs = true;
            }
            push_text(merged_lines, owned(output_line.as_str()));
            wrote_output = true;
        } else {
            push_text(merged_lines, owned(line));
        }
        i += 1;
    }
    assert(all.take(i as int) =~= all);
    if !inserted_inputs {
        push_inputs(merged_lines, input_lines);
    }
    if !wrote_output {
        push_text(merged_lines, output_line);
    }
}

/// The first of the input files, from `from` on, with the path `path`. Without one, how many
/// there are.
pub open spec fn find_path(inputs: Seq<(u32, Seq<char>)>, path: Seq<char>, from: int) -> int
    decreases inputs.len() - from,
{
    if 0 <= from < inputs.len() && inputs[from].1 != path {
        find_path(inputs, path, from + 1)
    } else {
        from
    }
}

/// The tag of the input file at position `i` of a merged file: files are counted from one, in
/// numbers of the width of a tag.
pub open spec fn tag_at(i: int) -> u32 {
    ((i + 1) % 0x1_0000_0000) as u32
}

/// The input files known behind `more`, and the tags that stand for those of `more`.
pub open spec fn registered(inputs: Seq<(u32, Seq<char>)>, more: Seq<(u32, Seq<char>)>) -> (
    Seq<(u32, Seq<char>)>,
    Map<u32, u32>,
)
    decreases more.len(),
{
    if more.len() == 0 {
        (inputs, Map::empty())
    } else {
        let (known, tags) = registered(inputs, more.drop_last());
        let (tag, path) = more.last();
        let at = find_path(known, path, 0);
        if at < known.len() {
            (known, tags.insert(tag, known[at].0))
        } else {
            (known.push((tag_at(known.len() as int), path)), tags.insert(tag, tag_at(known.len() as int)))
        }
    }
}

fn path_position(inputs: &[(u32, String)], path: &str) -> (r: usize)
    ensures
        r == find_path(entries(inputs@), path@, 0),
        r <= inputs@.len(),
{
    let ghost all = entries(inputs@);
    let mut i: usize = 0;
    while i < inputs.len() && !same_text(inputs[i].1.as_str(), path)
        invariant
            i <= inputs.len(),
            all == entries(inputs@),
            find_path(all, path@, i as int) == find_path(all, path@, 0),
        decreases inputs.len() - i,
    {
        assert(all[i as int].1 == inputs@[i as int].1@);
        i += 1;
    }
    assert(i < inputs.len() ==> all[i as int].1 == inputs@[i as int].1@);
    i
}

fn register_inputs(inputs: &mut Vec<(u32, String)>, more: &[(u32, String)]) -> (r: HashMap<u32, u32>)
    ensures
        registered(entries(old(inputs)@), entries(more@)) == (entries(final(inputs)@), r@),
{
    let ghost before = entries(inputs@);
    let ghost all = entries(more@);
    let mut tags: HashMap<u32, u32> = HashMap::new();
    let mut i: usize = 0;
    assert(all.take(0) =~= Seq::<(u32, Seq<char>)>::empty());
    while i < more.len()
        invariant
            i <= more.len(),
            all == entries(more@),
            registered(before, all.take(i as int)) == (entries(inputs@), tags@),
        decreases more.len() - i,
    {
        let local_tag = more[i].0;
        let path = more[i].1.as_str();
        assert(all.take(i + 1).drop_last() =~= all.take(i as int));
        assert(all.take(i + 1).last() == (local_tag, path@));
        let at = path_position(inputs, path);
        assert(entries(inputs@).len() == inputs@.len());
        if at < inputs.len() {
            let global_tag = inputs[at].0;
            assert(entries(inputs@)[at as int].0 == global_tag);
            tags.insert(local_tag, global_tag);
        } else {
            let global_tag: u32 = ((inputs.len() as u128 + 1) % 0x1_0000_0000u128) as u32;
            push_entry(inputs, global_tag, owned(path));
            tags.insert(local_tag, global_tag);
        }
        i += 1;
    }
    assert(all.take(i as int) =~= all);
    tags
}

/// What was merged so far.
#[verifier::ext_equal]
pub struct MergeView {
    pub header: Option<Seq<Seq<char>>>,
    pub inputs: Seq<(u32, Seq<char>)>,
    pub lines: Seq<Seq<char>>,
    pub pages: nat,
    pub records: nat,
}

/// What is merged behind one more parsed file.
pub open spec fn merge_parsed(m: MergeView, doc: SyncTexView) -> Result<MergeView, Seq<char>> {
    let (inputs, tags) = registered(m.inputs, doc.inputs);
    match shifted_content(doc.content, m.pages, tags) {
        Err(e) => Err(e),
        Ok((lines, pages)) => Ok(
            MergeView {
                header: match m.header {
                    Some(h) => Some(h),
                    None => Some(doc.header),
                },
                inputs,
                lines: m.lines + lines,
                pages: m.pages + pages,
                records: m.records + doc.records,
            },
        ),
    }
}

/// What is merged behind one more file: its records are moved to the source first.
pub open spec fn merge_step(
    m: MergeView,
    content: Result<Seq<char>, Seq<char>>,
    map: SyncMapView,
) -> Result<MergeView, Seq<char>> {
    match content {
        Err(e) => Err(e),
        Ok(text) => match document(remapped(text, map)) {
            Err(e) => Err(e),
            Ok(doc) => merge_parsed(m, doc),
        },
    }
}

/// What is merged of all files. The first one that cannot be used ends the attempt.
pub open spec fn merged(sidecars: Seq<(Result<Seq<char>, Seq<char>>, SyncMapView)>) -> Result<
    MergeView,
    Seq<char>,
>
    decreases sidecars.len(),
{
    if sidecars.len() == 0 {
        Ok(
            MergeView {
                header: None,
                inputs: Seq::empty(),
                lines: Seq::empty(),
                pages: 0,
                records: 0,
            },
        )
    } else {
        match merged(sidecars.drop_last()) {
            Err(e) => Err(e),
            Ok(m) => merge_step(m, sidecars.last().0, sidecars.last().1),
        }
    }
}

/// The lines of a merged file.
pub open spec fn merged_lines(m: MergeView, header: Seq<Seq<char>>, output: Seq<char>) -> Seq<
    Seq<char>,
> {
    merged_header(Seq::empty(), header, m.inputs, output).push("Content:"@) + m.lines + seq![
        "Postamble:"@,
        "Count:"@ + decimal(m.records),
        "!0"@,
        "Post scriptum:"@,
    ]
}

/// The merged file and how many pages it has, or why there is none.
pub open spec fn merged_file(
    sidecars: Seq<(Result<Seq<char>, Seq<char>>, SyncMapView)>,
    output: Seq<char>,
) -> Result<(Seq<char>, nat), Seq<char>> {
    match merged(sidecars) {
        Err(e) => Err(e),
        Ok(m) => match m.header {
            None => Err("there are no frame SyncTeX files"@),
            Some(header) => Ok((join(merged_lines(m, header, output), "\n"@) + "\n"@, m.pages)),
        },
    }
}

/// The SyncTeX file of a frame, as far as it could be read, and how its lines map to the source.
#[derive(Debug)]
pub struct FrameSidecar {
    pub content: Result<String, String>,
    pub sync_map: FrameSyncTexMap,
}

impl FrameSidecar {
    /// What is known of the file.
    pub open spec fn parts(&self) -> (Result<Seq<char>, Seq<char>>, SyncMapView) {
        (
            match self.content {
                Ok(text) => Ok(text@),
                Err(text) => Err(text@),
            },
            self.sync_map@,
        )
    }
}

/// What is known of files.
pub open spec fn sidecar_views(v: Seq<FrameSidecar>) -> Seq<
    (Result<Seq<char>, Seq<char>>, SyncMapView),
> {
    v.map_values(|s: FrameSidecar| s.parts())
}

proof fn lemma_failed_merge(
    sidecars: Seq<(Result<Seq<char>, Seq<char>>, SyncMapView)>,
    n: int,
)
    requires
        0 <= n <= sidecars.len(),
        merged(sidecars.take(n)) is Err,
    ensures
        merged(sidecars) == merged(sidecars.take(n)),
    decreases sidecars.len() - n,
{
    if n < sidecars.len() {
        assert(sidecars.take(n + 1).drop_last() =~= sidecars.take(n));
        lemma_failed_merge(sidecars, n + 1);
    } else {
        assert(sidecars.take(n) =~= sidecars);
    }
}

proof fn lemma_room(i: int, a: int, b: int)
    requires
        0 <= i < usize::MAX,
        0 <= a <= i * usize::MAX,
        0 <= b <= usize::MAX,
    ensures
        a + b <= (i + 1) * usize::MAX,
        a + b <= u128::MAX,
        a + usize::MAX <= u128::MAX,
{
    assert(a + usize::MAX <= (i + 1) * usize::MAX) by (nonlinear_arith)
        requires
            a <= i * usize::MAX,
    ;
    assert((i + 1) * usize::MAX <= usize::MAX * usize::MAX) by (nonlinear_arith)
        requires
            0 <= i < usize::MAX,
    ;
    assert(usize::MAX * usize::MAX <= u128::MAX) by (nonlinear_arith)
        requires
            0 <= usize::MAX <= 0xffff_ffff_ffff_ffff,
    ;
}

/// Merges the SyncTeX files of the frames into one for `output_file`, and counts its pages.
pub fn build_merged_frame_synctex(sidecars: &[FrameSidecar], output_file: &FilePath) -> (r: Result<
    (String, u128),
    String,
>)
    requires
        forall|i: int| 0 <= i < sidecars@.len() ==> (#[trigger] sidecars@[i]).sync_map.wf(),
    ensures
        match r {
            Ok((text, pages)) => merged_file(sidecar_views(sidecars@), tex_path(output_file@))
                == Ok::<(Seq<char>, nat), Seq<char>>((text@, pages as nat)),
            Err(text) => merged_file(sidecar_views(sidecars@), tex_path(output_file@)) == Err::<
                (Seq<char>, nat),
                Seq<char>,
            >(text@),
        },
{
    let ghost all = sidecar_views(sidecars@);
    let mut header: Option<Vec<String>> = None;
    let mut inputs: Vec<(u32, String)> = Vec::new();
    let mut lines: Vec<String> = Vec::new();
    let mut pages: u128 = 0;
    let mut records: u128 = 0;
    let mut i: usize = 0;
    assert(all.take(0) =~= Seq::<(Result<Seq<char>, Seq<char>>, SyncMapView)>::empty());
    assert(entries(inputs@) =~= Seq::<(u32, Seq<char>)>::empty());
    assert(texts(lines@) =~= Seq::<Seq<char>>::empty());
    assert(sidecars@.len() == sidecars.len());
    while i < sidecars.len()
        invariant
            i <= sidecars.len(),
            all == sidecar_views(sidecars@),
            forall|i: int| 0 <= i < sidecars@.len() ==> (#[trigger] sidecars@[i]).sync_map.wf(),
            pages <= i * usize::MAX,
            records <= i * usize::MAX,
            merged(all.take(i as int)) == Ok::<MergeView, Seq<char>>(
                (MergeView {
                    header: match header {
                        Some(h) => Some(texts(h@)),
                        None => None,
                    },
                    inputs: entries(inputs@),
                    lines: texts(lines@),
                    pages: pages as nat,
                    records: records as nat,
                }),
            ),
        decreases sidecars.len() - i,
    {
        let sidecar = &sidecars[i];
        assert(sidecars@[i as int].sync_map.wf());
        let ghost done = all.take(i + 1);
        assert(done.drop_last() =~= all.take(i as int));
        assert(done.last() == sidecar.parts());
        let content = match &sidecar.content {
            Ok(content) => content,
            Err(text) => {
                proof {
                    lemma_failed_merge(all, i + 1);
                }
                return Err(owned(text.as_str()));
            },
        };
        let moved = remap_synctex_contents(content.as_str(), &sidecar.sync_map);
        let doc = match parse_synctex_document(moved.as_str()) {
            Ok(doc) => doc,
            Err(text) => {
                proof {
                    lemma_failed_merge(all, i + 1);
                }
                return Err(text);
            },
        };
        let tags = register_inputs(&mut inputs, &doc.input_lines);
        proof {
            lemma_room(i as int, pages as int, 0);
            lemma_room(i as int, records as int, doc.record_count as int);
        }
        match rewrite_synctex_content_lines(&doc.content_lines, pages, &tags) {
            Ok((out, count)) => {
                proof {
                    lemma_room(i as int, pages as int, count as int);
                }
                push_texts(&mut lines, &out);
                pages = pages + count as u128;
                records = records + doc.record_count as u128;
                if header.is_none() {
                    header = Some(doc.header_lines);
                }
            },
            Err(text) => {
                proof {
                    lemma_failed_merge(all, i + 1);
                }
                return Err(text);
            },
        }
        i += 1;
    }
    assert(all.take(i as int) =~= all);
    match header {
        None => Err(owned("there are no frame SyncTeX files")),
        Some(header_lines) => {
            let mut out: Vec<String> = Vec::new();
            assert(texts(out@) =~= Seq::<Seq<char>>::empty());
            append_merged_synctex_header(&mut out, &header_lines, &inputs, output_file);
            push_text(&mut out, owned("Content:"));
            push_texts(&mut out, &lines);
            let ghost body = texts(out@);
            push_text(&mut out, owned("Postamble:"));
            let mut count = owned("Count:");
            push_decimal(&mut count, records);
            push_text(&mut out, count);
            push_text(&mut out, owned("!0"));
            push_text(&mut out, owned("Post scriptum:"));
            assert(texts(out@) =~= body + seq![
                "Postamble:"@,
                "Count:"@ + decimal(records as nat),
                "!0"@,
                "Post scriptum:"@,
            ]);
            let mut text = join_texts(&out, "\n");
            text.push_str("\n");
            Ok((text, pages))
        },
    }
}

// ---------------------------------------------------------------------------
// What merging keeps
// ---------------------------------------------------------------------------

/// How many pages a file has, and how many records it counts.
pub open spec fn sheet_counts(sidecar: (Result<Seq<char>, Seq<char>>, SyncMapView)) -> (nat, nat) {
    match sidecar.0 {
        Err(_) => (0, 0),
        Ok(text) => match document(remapped(text, sidecar.1)) {
            Err(_) => (0, 0),
            Ok(doc) => (page_count(doc.content), doc.records),
        },
    }
}

/// The sums of the counts.
pub open spec fn total_counts(sidecars: Seq<(Result<Seq<char>, Seq<char>>, SyncMapView)>) -> (
    nat,
    nat,
)
    decreases sidecars.len(),
{
    if sidecars.len() == 0 {
        (0, 0)
    } else {
        let front = total_counts(sidecars.drop_last());
        let last = sheet_counts(sidecars.last());
        (front.0 + last.0, front.1 + last.1)
    }
}

/// A merged file has as many pages as its parts together, and counts as many records.
pub proof fn law_merged_counts_add_up(
    sidecars: Seq<(Result<Seq<char>, Seq<char>>, SyncMapView)>,
)
    requires
        merged(sidecars) is Ok,
    ensures
        merged(sidecars)->Ok_0.pages == total_counts(sidecars).0,
        merged(sidecars)->Ok_0.records == total_counts(sidecars).1,
    decreases sidecars.len(),
{
    if sidecars.len() > 0 {
        law_merged_counts_add_up(sidecars.drop_last());
    }
}

/// Whether input files are listed as in a merged file: none twice, and each under the tag that
/// belongs to its position.
pub open spec fn well_listed(inputs: Seq<(u32, Seq<char>)>) -> bool {
    &&& forall|i: int| 0 <= i < inputs.len() ==> (#[trigger] inputs[i]).0 == tag_at(i)
    &&& forall|i: int, j: int|
        0 <= i < j < inputs.len() ==> (#[trigger] inputs[i]).1 != (#[trigger] inputs[j]).1
}

proof fn lemma_find_path(inputs: Seq<(u32, Seq<char>)>, path: Seq<char>, from: int)
    requires
        0 <= from <= inputs.len(),
    ensures
        from <= find_path(inputs, path, from) <= inputs.len(),
        find_path(inputs, path, from) < inputs.len() ==> inputs[find_path(inputs, path, from)].1
            == path,
        forall|i: int|
            from <= i < find_path(inputs, path, from) ==> (#[trigger] inputs[i]).1 != path,
    decreases inputs.len() - from,
{
    if from < inputs.len() && inputs[from].1 != path {
        lemma_find_path(inputs, path, from + 1);
    }
}

/// Files that are registered go to the end of the list and leave the others where they are. The
/// tag that stands for a local one is that of the file that the local one was given for last.
pub proof fn law_registered_files_are_listed(
    inputs: Seq<(u32, Seq<char>)>,
    more: Seq<(u32, Seq<char>)>,
    i: int,
)
    requires
        well_listed(inputs),
        0 <= i < more.len(),
        forall|j: int| i < j < more.len() ==> (#[trigger] more[j]).0 != more[i].0,
    ensures
        ({
            let (known, tags) = registered(inputs, more);
            &&& well_listed(known)
            &&& known.len() >= inputs.len()
            &&& known.take(inputs.len() as int) == inputs
            &&& tags.contains_key(more[i].0)
            &&& exists|k: int|
                0 <= k < known.len() && #[trigger] known[k] == (tags[more[i].0], more[i].1)
        }),
    decreases more.len(),
{
    lemma_registered(inputs, more);
    let (known, tags) = registered(inputs, more);
    let front = more.drop_last();
    let (before, tags_before) = registered(inputs, front);
    lemma_registered(inputs, front);
    let (tag, path) = more.last();
    lemma_find_path(before, path, 0);
    let at = find_path(before, path, 0);
    if i == more.len() - 1 {
        assert(known[at] == (tags[tag], path));
    } else {
        assert(more[more.len() - 1].0 != more[i].0);
        assert forall|j: int| i < j < front.len() implies (#[trigger] front[j]).0 != front[i].0 by {
            assert(more[j].0 != more[i].0);
        }
        law_registered_files_are_listed(inputs, front, i);
        let k = choose|k: int|
            0 <= k < before.len() && #[trigger] before[k] == (tags_before[more[i].0], more[i].1);
        assert(known[k] == before[k]);
    }
}

proof fn lemma_registered(inputs: Seq<(u32, Seq<char>)>, more: Seq<(u32, Seq<char>)>)
    requires
        well_listed(inputs),
    ensures
        well_listed(registered(inputs, more).0),
        registered(inputs, more).0.len() >= inputs.len(),
        registered(inputs, more).0.take(inputs.len() as int) == inputs,
    decreases more.len(),
{
    if more.len() == 0 {
        assert(inputs.take(inputs.len() as int) =~= inputs);
    } else {
        lemma_registered(inputs, more.drop_last());
        let (known, tags) = registered(inputs, more.drop_last());
        let (tag, path) = more.last();
        lemma_find_path(known, path, 0);
        let after = registered(inputs, more).0;
        assert(after.take(inputs.len() as int) =~= known.take(inputs.len() as int));
    }
}

/// A merged file lists every input file once, and its tags tell the files apart as long as there
/// are enough of them.
pub proof fn law_merged_inputs_are_listed_once(
    sidecars: Seq<(Result<Seq<char>, Seq<char>>, SyncMapView)>,
)
    requires
        merged(sidecars) is Ok,
    ensures
        well_listed(merged(sidecars)->Ok_0.inputs),
        merged(sidecars)->Ok_0.inputs.len() < 0x1_0000_0000 ==> forall|i: int, j: int|
            0 <= i < j < merged(sidecars)->Ok_0.inputs.len() ==> (#[trigger] merged(
                sidecars,
            )->Ok_0.inputs[i]).0 != (#[trigger] merged(sidecars)->Ok_0.inputs[j]).0,
    decreases sidecars.len(),
{
    if sidecars.len() > 0 {
        law_merged_inputs_are_listed_once(sidecars.drop_last());
        let m = merged(sidecars.drop_last())->Ok_0;
        match sidecars.last().0 {
            Ok(text) => {
                match document(remapped(text, sidecars.last().1)) {
                    Ok(doc) => {
                        lemma_registered(m.inputs, doc.inputs);
                    },
                    Err(_) => {},
                }
            },
            Err(_) => {},
        }
    }
}

// ---------------------------------------------------------------------------
// Lines of texts that are put together
// ---------------------------------------------------------------------------

/// Whether a text holds no newline.
pub open spec fn one_line(s: Seq<char>) -> bool {
    !s.contains('\n')
}

/// Whether none of the texts holds a newline.
pub open spec fn all_one_line(all: Seq<Seq<char>>) -> bool {
    forall|i: int| 0 <= i < all.len() ==> one_line(#[trigger] all[i])
}

proof fn lemma_one_line_part(s: Seq<char>, from: int, to: int)
    requires
        one_line(s),
        0 <= from <= to <= s.len(),
    ensures
        one_line(s.subrange(from, to)),
{
    let part = s.subrange(from, to);
    if part.contains('\n') {
        let i = part.index_of('\n');
        assert(s[from + i] == '\n');
    }
}

proof fn lemma_one_line_concat(a: Seq<char>, b: Seq<char>)
    requires
        one_line(a),
        one_line(b),
    ensures
        one_line(a + b),
{
    if (a + b).contains('\n') {
        let i = (a + b).index_of('\n');
        if i < a.len() {
            assert(a[i] == '\n');
        } else {
            assert(b[i - a.len()] == '\n');
        }
    }
}

proof fn lemma_decimal_holds(n: nat, c: char)
    requires
        !crate::search::ascii_digit(c),
    ensures
        !decimal(n).contains(c),
        decimal(n).len() > 0,
{
    lemma_decimal(n);
    if decimal(n).contains(c) {
        let i = decimal(n).index_of(c);
        assert(crate::search::ascii_digit(decimal(n)[i]));
    }
}

proof fn lemma_lines_are_one_line(s: Seq<char>)
    ensures
        all_one_line(lines(s)),
{
    lemma_chunks(s);
    assert forall|i: int| 0 <= i < lines(s).len() implies one_line(#[trigger] lines(s)[i]) by {
        let chunk = chunks(s)[i];
        let body = line_body(chunk);
        assert(lines(s)[i] == body);
        if body.contains('\n') {
            let j = body.index_of('\n');
            assert(body[j] == chunk[j]);
            if j < chunk.len() - 1 {
                assert(chunks(s)[i][j] != '\n');
            }
        }
    }
}

proof fn lemma_join_push(parts: Seq<Seq<char>>, last: Seq<char>, sep: Seq<char>)
    requires
        parts.len() > 0,
    ensures
        join(parts.push(last), sep) == join(parts, sep) + sep + last,
{
    assert(parts.push(last).drop_last() =~= parts);
}

proof fn lemma_join_front(first: Seq<char>, parts: Seq<Seq<char>>, sep: Seq<char>)
    requires
        parts.len() > 0,
    ensures
        join(seq![first] + parts, sep) == first + sep + join(parts, sep),
    decreases parts.len(),
{
    let all = seq![first] + parts;
    assert(all.drop_last() =~= seq![first] + parts.drop_last());
    if parts.len() == 1 {
        assert(all.drop_last() =~= seq![first]);
        assert(join(all.drop_last(), sep) == first);
        assert(all.last() == parts[0]);
    } else {
        lemma_join_front(first, parts.drop_last(), sep);
        assert(join(all, sep) =~= first + sep + join(parts, sep));
    }
}

proof fn lemma_join_of_split(s: Seq<char>, sep: char)
    ensures
        join(split_on(s, sep), seq![sep]) == s,
        split_on(s, sep).len() > 0,
    decreases s.len(),
{
    if s.len() == 0 {
        assert(s =~= Seq::<char>::empty());
    } else {
        let before = s.drop_last();
        let front = split_on(before, sep);
        lemma_join_of_split(before, sep);
        if s.last() == sep {
            lemma_join_push(front, Seq::empty(), seq![sep]);
            assert(join(front.push(Seq::empty()), seq![sep]) =~= s);
        } else {
            let all = split_on(s, sep);
            assert(all.drop_last() =~= front.drop_last());
            assert(join(all, seq![sep]) =~= join(front, seq![sep]).push(s.last()));
            assert(before.push(s.last()) =~= s);
        }
    }
}

proof fn lemma_joined_lines(all: Seq<Seq<char>>)
    requires
        all.len() > 0,
        all_one_line(all),
    ensures
        split_on(join(all, "\n"@), '\n') == all,
        split_on(join(all, "\n"@) + "\n"@, '\n') == all.push(Seq::empty()),
{
    reveal_strlit("\n");
    assert("\n"@ =~= seq!['\n']);
    law_split_of_join(all, '\n');
    let longer = all.push(Seq::<char>::empty());
    assert forall|i: int| 0 <= i < longer.len() implies !(#[trigger] longer[i]).contains('\n') by {
        if i < all.len() {
            assert(one_line(all[i]));
        }
    }
    law_split_of_join(longer, '\n');
    lemma_join_push(all, Seq::empty(), "\n"@);
    assert(join(longer, "\n"@) =~= join(all, "\n"@) + "\n"@);
}

proof fn lemma_first_index(s: Seq<char>, c: char, from: int, at: int)
    requires
        0 <= from <= at <= s.len(),
        forall|i: int| from <= i < at ==> #[trigger] s[i] != c,
        at < s.len() ==> s[at] == c,
    ensures
        first_index(s, c, from) == at,
    decreases at - from,
{
    if from < at {
        assert(s[from] != c);
        lemma_first_index(s, c, from + 1, at);
    }
}

// ---------------------------------------------------------------------------
// How lines are read
// ---------------------------------------------------------------------------

/// A line that names an input file gives back the tag and the path that it was written with.
pub proof fn law_input_lines_are_read_back(tag: u32, path: Seq<char>)
    ensures
        input_line("Input:"@ + decimal(tag as nat) + ":"@ + path) == Some((tag, path)),
        input_text(tag, path) == "Input:"@ + decimal(tag as nat) + ":"@ + path,
{
    reveal_strlit("Input:");
    reveal_strlit(":");
    let line = "Input:"@ + decimal(tag as nat) + ":"@ + path;
    let rest = line.skip(6);
    let n = decimal(tag as nat).len() as int;
    assert(line.subrange(0, 6) =~= "Input:"@);
    assert(rest =~= decimal(tag as nat) + ":"@ + path);
    lemma_decimal_holds(tag as nat, ':');
    assert forall|i: int| 0 <= i < n implies #[trigger] rest[i] != ':' by {
        assert(rest[i] == decimal(tag as nat)[i]);
        assert(decimal(tag as nat).contains(decimal(tag as nat)[i]));
    }
    lemma_first_index(rest, ':', 0, n);
    assert(rest.take(n) =~= decimal(tag as nat));
    assert(rest.skip(n + 1) =~= path);
    law_decimal_round_trip(tag as nat, u32::MAX as nat);
}

/// A line that opens or closes a page is the mark and the number of the page. It names no input
/// file, and is no record with a link.
pub proof fn law_page_lines_are_read_back(number: usize)
    ensures
        page_line(seq!['{'] + decimal(number as nat)) == Some(('{', number as nat)),
        page_line(seq!['}'] + decimal(number as nat)) == Some(('}', number as nat)),
        input_line(seq!['{'] + decimal(number as nat)) is None,
        input_line(seq!['}'] + decimal(number as nat)) is None,
{
    reveal_strlit("Input:");
    law_decimal_round_trip(number as nat, usize::MAX as nat);
    let open = seq!['{'] + decimal(number as nat);
    let close = seq!['}'] + decimal(number as nat);
    assert(open.skip(1) =~= decimal(number as nat));
    assert(close.skip(1) =~= decimal(number as nat));
    if starts_with(open, "Input:"@) {
        assert(open.subrange(0, 6)[0] == open[0]);
    }
    if starts_with(close, "Input:"@) {
        assert(close.subrange(0, 6)[0] == close[0]);
    }
}

/// A record of one of these kinds starts with a link: the tag of an input file, and what follows it
/// up to the first colon.
proof fn lemma_link(c: char, tag: nat, more: Seq<char>, tail: Seq<char>)
    requires
        links(c),
        more.len() > 0 ==> more[0] == ',',
        !more.contains(':'),
    ensures
        ({
            let line = seq![c] + decimal(tag) + more + seq![':'] + tail;
            &&& has_link(line)
            &&& link_end(line) == decimal(tag).len() + more.len()
            &&& line.skip(1).take(link_end(line)) == decimal(tag) + more
            &&& line.skip(1).skip(link_end(line)) == seq![':'] + tail
            &&& line[0] == c
            &&& link_parts(line) == (if more.len() > 0 {
                seq![decimal(tag)] + split_on(more.skip(1), ',')
            } else {
                seq![decimal(tag)]
            })
            &&& input_line(line) is None
            &&& page_line(line) is None
        }),
{
    reveal_strlit("Input:");
    let digits = decimal(tag);
    let line = seq![c] + digits + more + seq![':'] + tail;
    let rest = line.skip(1);
    let n = (digits.len() + more.len()) as int;
    assert(rest =~= digits + more + seq![':'] + tail);
    lemma_decimal_holds(tag, ':');
    lemma_decimal_holds(tag, ',');
    assert forall|i: int| 0 <= i < n implies #[trigger] rest[i] != ':' by {
        if i < digits.len() {
            assert(rest[i] == digits[i]);
            assert(digits.contains(digits[i]));
        } else {
            assert(rest[i] == more[i - digits.len()]);
            assert(more.contains(more[i - digits.len()]));
        }
    }
    lemma_first_index(rest, ':', 0, n);
    assert(rest.take(n) =~= digits + more);
    assert(rest.skip(n) =~= seq![':'] + tail);
    lemma_split_one(digits, ',');
    if more.len() > 0 {
        lemma_split_concat(digits, more.skip(1), ',');
        assert(digits + more =~= digits.push(',') + more.skip(1));
    } else {
        assert(digits + more =~= digits);
    }
    if starts_with(line, "Input:"@) {
        assert(line.subrange(0, 6)[0] == line[0]);
    }
}

/// A record with another tag in its link is the same record with that tag.
#[verifier::rlimit(40)]
proof fn lemma_relinked(c: char, tag: nat, other: nat, more: Seq<char>, tail: Seq<char>)
    requires
        links(c),
        more.len() > 0 ==> more[0] == ',',
        !more.contains(':'),
    ensures
        ({
            let line = seq![c] + decimal(tag) + more + seq![':'] + tail;
            relinked(line, link_parts(line).update(0, decimal(other))) == seq![c] + decimal(other)
                + more + seq![':'] + tail
        }),
{
    reveal_strlit(",");
    assert(","@ =~= seq![',']);
    lemma_link(c, tag, more, tail);
    let line = seq![c] + decimal(tag) + more + seq![':'] + tail;
    let parts = link_parts(line).update(0, decimal(other));
    if more.len() > 0 {
        let rest = split_on(more.skip(1), ',');
        lemma_join_of_split(more.skip(1), ',');
        assert(parts =~= seq![decimal(other)] + rest);
        lemma_join_front(decimal(other), rest, ","@);
        assert(join(parts, ","@) =~= decimal(other) + more);
    } else {
        assert(parts =~= seq![decimal(other)]);
        assert(join(parts, ","@) =~= decimal(other) + more);
    }
    assert(relinked(line, parts) =~= seq![c] + decimal(other) + more + seq![':'] + tail);
}

// ---------------------------------------------------------------------------
// Where records lead
// ---------------------------------------------------------------------------

proof fn lemma_last_temp_tag(all: Seq<Seq<char>>, map: SyncMapView, j: int, i: int)
    requires
        0 <= j < i <= all.len(),
        names_temp_file(all[j], map),
        forall|k: int| j < k < i ==> !names_temp_file(#[trigger] all[k], map),
    ensures
        temp_tag(all.take(i), map) == Some((input_line(all[j])->0).0),
    decreases i,
{
    let front = all.take(i);
    assert(front.last() == all[i - 1]);
    if j < i - 1 {
        assert(!names_temp_file(all[i - 1], map));
        assert(front.drop_last() =~= all.take(i - 1));
        lemma_last_temp_tag(all, map, j, i - 1);
    }
}

proof fn lemma_remapped_text(content: Seq<char>, map: SyncMapView, i: int)
    requires
        0 <= i < lines(content).len(),
        one_line(tex_path(map.source_file)),
    ensures
        i < split_on(remapped(content, map), '\n').len(),
        split_on(remapped(content, map), '\n')[i] == remapped_lines(lines(content), map)[i],
{
    let all = remapped_lines(lines(content), map);
    lemma_lines_are_one_line(content);
    assert forall|k: int| 0 <= k < all.len() implies one_line(#[trigger] all[k]) by {
        assert(one_line(lines(content)[k]));
        lemma_remapped_line(lines(content)[k], temp_tag(lines(content).take(k), map), map);
    }
    lemma_joined_lines(all);
}

proof fn lemma_split_is_one_line(s: Seq<char>, sep: char)
    requires
        one_line(s),
    ensures
        all_one_line(split_on(s, sep)),
        split_on(s, sep).len() > 0,
    decreases s.len(),
{
    if s.len() > 0 {
        let n = s.len() - 1;
        lemma_one_line_part(s, 0, n);
        assert(s.subrange(0, n) =~= s.drop_last());
        lemma_split_is_one_line(s.drop_last(), sep);
        let front = split_on(s.drop_last(), sep);
        let all = split_on(s, sep);
        assert(s.contains(s[n]));
        assert forall|i: int| 0 <= i < all.len() implies one_line(#[trigger] all[i]) by {
            if i < front.len() {
                assert(one_line(front[i]));
            }
            if all[i].contains('\n') {
                let j = all[i].index_of('\n');
                if i < front.len() && j < front[i].len() {
                    assert(front[i][j] == '\n');
                }
            }
        }
    }
}

proof fn lemma_join_is_one_line(parts: Seq<Seq<char>>, sep: Seq<char>)
    requires
        all_one_line(parts),
        one_line(sep),
    ensures
        one_line(join(parts, sep)),
    decreases parts.len(),
{
    if parts.len() == 1 {
        assert(one_line(parts[0]));
    } else if parts.len() > 1 {
        let front = parts.drop_last();
        assert forall|i: int| 0 <= i < front.len() implies one_line(#[trigger] front[i]) by {
            assert(one_line(parts[i]));
        }
        lemma_join_is_one_line(front, sep);
        assert(one_line(parts[parts.len() - 1]));
        lemma_one_line_concat(join(front, sep), sep);
        lemma_one_line_concat(join(front, sep) + sep, parts.last());
    }
}

proof fn lemma_relinked_is_one_line(line: Seq<char>, parts: Seq<Seq<char>>)
    requires
        has_link(line),
        one_line(line),
        all_one_line(parts),
    ensures
        one_line(relinked(line, parts)),
{
    reveal_strlit(",");
    assert(one_line(","@));
    lemma_join_is_one_line(parts, ","@);
    assert(line.contains(line[0]));
    lemma_link_end(line);
    lemma_one_line_part(line, link_end(line) + 1, line.len() as int);
    assert(line.skip(1).skip(link_end(line)) =~= line.subrange(
        link_end(line) + 1,
        line.len() as int,
    ));
    assert(one_line(seq![line[0]]));
    lemma_one_line_concat(seq![line[0]], join(parts, ","@));
    lemma_one_line_concat(
        seq![line[0]] + join(parts, ","@),
        line.skip(1).skip(link_end(line)),
    );
}

proof fn lemma_index_in(s: Seq<char>, c: char, from: int)
    requires
        0 <= from <= s.len(),
    ensures
        from <= first_index(s, c, from) <= s.len(),
    decreases s.len() - from,
{
    if from < s.len() && s[from] != c {
        lemma_index_in(s, c, from + 1);
    }
}

proof fn lemma_link_end(line: Seq<char>)
    requires
        line.len() > 0,
    ensures
        0 <= link_end(line) <= line.len() - 1,
{
    lemma_index_in(line.skip(1), ':', 0);
}

proof fn lemma_link_parts_are_one_line(line: Seq<char>)
    requires
        has_link(line),
        one_line(line),
    ensures
        all_one_line(link_parts(line)),
        link_parts(line).len() > 0,
{
    lemma_link_end(line);
    lemma_one_line_part(line, 1, 1 + link_end(line));
    assert(line.skip(1).take(link_end(line)) =~= line.subrange(1, 1 + link_end(line)));
    lemma_split_is_one_line(line.skip(1).take(link_end(line)), ',');
}

proof fn lemma_remapped_line(line: Seq<char>, tag: Option<u32>, map: SyncMapView)
    requires
        one_line(line),
        one_line(tex_path(map.source_file)),
    ensures
        one_line(remapped_line(line, tag, map)),
{
    if names_temp_file(line, map) {
        let n = (input_line(line)->0).0 as nat;
        reveal_strlit("Input:");
        reveal_strlit(":");
        lemma_decimal_holds(n, '\n');
        lemma_one_line_concat("Input:"@, decimal(n));
        lemma_one_line_concat("Input:"@ + decimal(n), ":"@);
        lemma_one_line_concat("Input:"@ + decimal(n) + ":"@, tex_path(map.source_file));
    } else if tag is Some && remapped_link(line, tag->0, map) is Some {
        lemma_link_parts_are_one_line(line);
        let parts = link_parts(line);
        let n = parse_number(parts[1], usize::MAX as nat)->0;
        let to = if parts.len() > 2 {
            3int
        } else {
            2
        };
        let others = seq![decimal(tag->0 as nat), decimal(mapped_line(map.segments, n))]
            + parts.subrange(2, to);
        lemma_decimal_holds(tag->0 as nat, '\n');
        lemma_decimal_holds(mapped_line(map.segments, n), '\n');
        assert forall|i: int| 0 <= i < others.len() implies one_line(#[trigger] others[i]) by {
            if i >= 2 {
                assert(others[i] == parts[i]);
            }
        }
        lemma_relinked_is_one_line(line, others);
    }
}

proof fn lemma_link_text(digits: Seq<char>, column: Seq<char>)
    requires
        !digits.contains(':'),
        !column.contains(':'),
    ensures
        !(seq![','] + digits + column).contains(':'),
{
    let more = seq![','] + digits + column;
    if more.contains(':') {
        let k = more.index_of(':');
        if 1 <= k < 1 + digits.len() {
            assert(digits[k - 1] == ':');
        } else if k >= 1 + digits.len() {
            assert(column[k - 1 - digits.len()] == ':');
        }
    }
}

proof fn lemma_join_of_parts(a: Seq<char>, b: Seq<char>, column: Seq<char>)
    requires
        column.len() > 0 ==> column[0] == ',',
    ensures
        join(
            seq![a, b] + (if column.len() > 0 {
                seq![column.skip(1)]
            } else {
                Seq::empty()
            }),
            ","@,
        ) == a + seq![','] + b + column,
{
    reveal_strlit(",");
    assert(","@ =~= seq![',']);
    if column.len() > 0 {
        let last = column.skip(1);
        assert(seq![a, b] + seq![last] =~= seq![a] + seq![b, last]);
        assert(seq![b, last] =~= seq![b] + seq![last]);
        lemma_join_front(b, seq![last], ","@);
        lemma_join_front(a, seq![b, last], ","@);
        assert(a + ","@ + (b + ","@ + last) =~= a + seq![','] + b + column);
    } else {
        assert(seq![a, b] + Seq::<Seq<char>>::empty() =~= seq![a] + seq![b]);
        lemma_join_front(a, seq![b], ","@);
        assert(a + ","@ + b =~= a + seq![','] + b + column);
    }
}

proof fn lemma_link_of_three(digits: Seq<char>, column: Seq<char>)
    requires
        !digits.contains(','),
        column.len() > 0 ==> column[0] == ',' && !column.skip(1).contains(','),
    ensures
        split_on(digits + column, ',') == seq![digits] + (if column.len() > 0 {
            seq![column.skip(1)]
        } else {
            Seq::empty()
        }),
{
    lemma_split_one(digits, ',');
    if column.len() > 0 {
        lemma_split_concat(digits, column.skip(1), ',');
        lemma_split_one(column.skip(1), ',');
        assert(digits + column =~= digits.push(',') + column.skip(1));
    } else {
        assert(digits + column =~= digits);
        assert(seq![digits] + Seq::<Seq<char>>::empty() =~= seq![digits]);
    }
}

#[verifier::rlimit(40)]
proof fn lemma_moved_link(
    c: char,
    tag: u32,
    number: usize,
    column: Seq<char>,
    tail: Seq<char>,
    map: SyncMapView,
)
    requires
        links(c),
        column.len() > 0 ==> column[0] == ',' && !column.skip(1).contains(','),
        !column.contains(':'),
    ensures
        ({
            let line = seq![c] + decimal(tag as nat) + (seq![','] + decimal(number as nat) + column)
                + seq![':'] + tail;
            &&& !names_temp_file(line, map)
            &&& remapped_link(line, tag, map) == Some(
                seq![c] + decimal(tag as nat) + seq![','] + decimal(
                    mapped_line(map.segments, number as nat),
                ) + column + seq![':'] + tail,
            )
        }),
{
    let digits = decimal(number as nat);
    let more = seq![','] + digits + column;
    let line = seq![c] + decimal(tag as nat) + more + seq![':'] + tail;
    let mapped = decimal(mapped_line(map.segments, number as nat));
    law_decimal_round_trip(tag as nat, u32::MAX as nat);
    law_decimal_round_trip(number as nat, usize::MAX as nat);
    lemma_decimal_holds(number as nat, ':');
    lemma_decimal_holds(number as nat, ',');
    lemma_link_text(digits, column);
    lemma_link(c, tag as nat, more, tail);
    assert(more.skip(1) =~= digits + column);
    lemma_link_of_three(digits, column);
    lemma_join_of_parts(decimal(tag as nat), mapped, column);
    let parts = link_parts(line);
    let last = if column.len() > 0 {
        seq![column.skip(1)]
    } else {
        Seq::<Seq<char>>::empty()
    };
    assert(parts =~= seq![decimal(tag as nat), digits] + last);
    let to = if parts.len() > 2 {
        3int
    } else {
        2
    };
    assert(parts.subrange(2, to) =~= last);
    let others = seq![decimal(tag as nat), mapped] + parts.subrange(2, to);
    assert(relinked(line, others) =~= seq![c] + decimal(tag as nat) + seq![','] + mapped + column
        + seq![':'] + tail);
}

/// Records of the generated file lead to the source. Behind the line that names the generated file
/// under a tag, a record with this tag and a line of the generated file becomes the same record with
/// the line of the source that it comes from. Its column and what follows the link stay.
pub proof fn law_records_are_moved_to_the_source(
    content: Seq<char>,
    map: SyncMapView,
    j: int,
    i: int,
    c: char,
    tag: u32,
    number: usize,
    column: Seq<char>,
    tail: Seq<char>,
)
    requires
        0 <= j < i < lines(content).len(),
        one_line(tex_path(map.source_file)),
        names_temp_file(lines(content)[j], map),
        (input_line(lines(content)[j])->0).0 == tag,
        forall|k: int| j < k < i ==> !names_temp_file(#[trigger] lines(content)[k], map),
        c == '[' || c == '(' || c == 'x' || c == 'k' || c == 'g' || c == '$' || c == 'v' || c == 'h'
            || c == 'r',
        column.len() > 0 ==> column[0] == ',' && !column.skip(1).contains(','),
        !column.contains(':'),
        lines(content)[i] == seq![c] + decimal(tag as nat) + seq![','] + decimal(number as nat)
            + column + seq![':'] + tail,
    ensures
        split_on(remapped(content, map), '\n')[i] == seq![c] + decimal(tag as nat) + seq![',']
            + decimal(mapped_line(map.segments, number as nat)) + column + seq![':'] + tail,
        split_on(remapped(content, map), '\n')[j] == "Input:"@ + decimal(tag as nat) + ":"@
            + tex_path(map.source_file),
{
    let all = lines(content);
    let more = seq![','] + decimal(number as nat) + column;
    lemma_remapped_text(content, map, i);
    lemma_remapped_text(content, map, j);
    lemma_last_temp_tag(all, map, j, i);
    lemma_moved_link(c, tag, number, column, tail, map);
    assert(all[i] =~= seq![c] + decimal(tag as nat) + more + seq![':'] + tail);
}

/// Records of other files stay as they are, and so does every line that neither names an input file
/// nor is a record. The file keeps its number of lines, and whether it ends in a newline.
pub proof fn law_other_lines_are_kept(content: Seq<char>, map: SyncMapView, i: int, tag: u32)
    requires
        0 <= i < lines(content).len(),
        one_line(tex_path(map.source_file)),
        !names_temp_file(lines(content)[i], map),
        temp_tag(lines(content).take(i), map) == Some(tag) ==> !has_link(lines(content)[i])
            || parse_number(link_parts(lines(content)[i])[0], u32::MAX as nat) != Some(tag as nat),
        temp_tag(lines(content).take(i), map) is Some ==> temp_tag(lines(content).take(i), map)
            == Some(tag),
    ensures
        split_on(remapped(content, map), '\n')[i] == lines(content)[i],
        split_on(remapped(content, map), '\n').len() == lines(content).len() + if content.last()
            == '\n' {
            1int
        } else {
            0
        },
{
    lemma_remapped_text(content, map, i);
    let all = remapped_lines(lines(content), map);
    lemma_lines_are_one_line(content);
    assert forall|k: int| 0 <= k < all.len() implies one_line(#[trigger] all[k]) by {
        assert(one_line(lines(content)[k]));
        lemma_remapped_line(lines(content)[k], temp_tag(lines(content).take(k), map), map);
    }
    lemma_joined_lines(all);
    lemma_chunks(content);
}

// ---------------------------------------------------------------------------
// Where the lines of a merged file come from
// ---------------------------------------------------------------------------

/// How many of the lines name no input file.
pub open spec fn kept_count(all: Seq<Seq<char>>) -> nat
    decreases all.len(),
{
    if all.len() == 0 {
        0
    } else {
        kept_count(all.drop_last()) + if input_line(all.last()) is None {
            1nat
        } else {
            0nat
        }
    }
}

/// The parts of the file of a frame, with its records moved to the source.
pub open spec fn moved_parts(sidecar: (Result<Seq<char>, Seq<char>>, SyncMapView)) -> Result<
    SyncTexView,
    Seq<char>,
> {
    match sidecar.0 {
        Ok(text) => document(remapped(text, sidecar.1)),
        Err(e) => Err(e),
    }
}

/// How many lines of content the files have together, without those that name input files.
pub open spec fn lines_before(sidecars: Seq<(Result<Seq<char>, Seq<char>>, SyncMapView)>) -> nat
    decreases sidecars.len(),
{
    if sidecars.len() == 0 {
        0
    } else {
        lines_before(sidecars.drop_last()) + kept_count(moved_parts(sidecars.last())->Ok_0.content)
    }
}

/// How many pages the files have together: the largest number of a page in each of them.
pub open spec fn pages_before(sidecars: Seq<(Result<Seq<char>, Seq<char>>, SyncMapView)>) -> nat
    decreases sidecars.len(),
{
    if sidecars.len() == 0 {
        0
    } else {
        pages_before(sidecars.drop_last()) + page_count(moved_parts(sidecars.last())->Ok_0.content)
    }
}

/// The page count of a file is the largest number of a page that it opens or closes.
pub proof fn law_page_count_is_the_largest_page(all: Seq<Seq<char>>, i: int, number: usize)
    requires
        0 <= i < all.len(),
        all[i] == seq!['{'] + decimal(number as nat) || all[i] == seq!['}'] + decimal(
            number as nat,
        ),
    ensures
        number <= page_count(all),
    decreases all.len(),
{
    law_page_lines_are_read_back(number);
    if i < all.len() - 1 {
        law_page_count_is_the_largest_page(all.drop_last(), i, number);
    }
}

/// A file that has pages opens or closes the page that its page count names. Gives the line.
pub proof fn law_page_count_is_a_page(all: Seq<Seq<char>>) -> (i: int)
    requires
        page_count(all) > 0,
    ensures
        0 <= i < all.len(),
        marked_page(all[i], '{') == Some(page_count(all)) || marked_page(all[i], '}') == Some(
            page_count(all),
        ),
    decreases all.len(),
{
    if input_line(all.last()) is None && page_number(all.last()) > page_count(all.drop_last()) {
        all.len() - 1
    } else {
        law_page_count_is_a_page(all.drop_last())
    }
}

proof fn lemma_shifted(
    all: Seq<Seq<char>>,
    offset: nat,
    tags: Map<u32, u32>,
    i: int,
)
    requires
        shifted_lines(all, offset, tags) is Ok,
        0 <= i < all.len(),
    ensures
        shifted_lines(all, offset, tags)->Ok_0.len() == kept_count(all),
        input_line(all[i]) is None ==> {
            &&& kept_count(all.take(i)) < kept_count(all)
            &&& shifted_line(all[i], offset, tags) == Ok::<Seq<char>, Seq<char>>(
                shifted_lines(all, offset, tags)->Ok_0[kept_count(all.take(i)) as int],
            )
        },
    decreases all.len(),
{
    let front = all.drop_last();
    lemma_shifted_len(front, offset, tags);
    if i < all.len() - 1 {
        lemma_shifted(front, offset, tags, i);
        assert(front.take(i) =~= all.take(i));
    } else {
        assert(all.take(i) =~= front);
    }
}

proof fn lemma_shifted_len(all: Seq<Seq<char>>, offset: nat, tags: Map<u32, u32>)
    requires
        shifted_lines(all, offset, tags) is Ok,
    ensures
        shifted_lines(all, offset, tags)->Ok_0.len() == kept_count(all),
    decreases all.len(),
{
    if all.len() > 0 {
        lemma_shifted_len(all.drop_last(), offset, tags);
    }
}

/// What a merge is made of, up to file `k` and from there on.
proof fn lemma_merged_part(
    sidecars: Seq<(Result<Seq<char>, Seq<char>>, SyncMapView)>,
    k: int,
)
    requires
        merged(sidecars) is Ok,
        0 <= k < sidecars.len(),
    ensures
        ({
            let m = merged(sidecars)->Ok_0;
            let before = merged(sidecars.take(k))->Ok_0;
            let parts = moved_parts(sidecars[k]);
            let (inputs, tags) = registered(before.inputs, parts->Ok_0.inputs);
            let shifted = shifted_lines(parts->Ok_0.content, before.pages, tags);
            &&& merged(sidecars.take(k)) is Ok
            &&& parts is Ok
            &&& shifted is Ok
            &&& page_count(parts->Ok_0.content) > 0
            &&& before.pages == pages_before(sidecars.take(k))
            &&& before.lines.len() == lines_before(sidecars.take(k))
            &&& m.lines.len() == lines_before(sidecars)
            &&& m.pages == pages_before(sidecars)
            &&& before.lines.len() + shifted->Ok_0.len() <= m.lines.len()
            &&& m.lines.subrange(
                before.lines.len() as int,
                (before.lines.len() + shifted->Ok_0.len()) as int,
            ) == shifted->Ok_0
            &&& well_listed(before.inputs)
            &&& well_listed(m.inputs)
            &&& inputs.len() <= m.inputs.len()
            &&& m.inputs.take(inputs.len() as int) == inputs
        }),
    decreases sidecars.len(),
{
    lemma_merged_sizes(sidecars);
    let front = sidecars.drop_last();
    let last = sidecars.len() - 1;
    assert(merged(front) is Ok);
    law_merged_inputs_are_listed_once(front);
    law_merged_inputs_are_listed_once(sidecars);
    let m = merged(sidecars)->Ok_0;
    let fm = merged(front)->Ok_0;
    let doc = moved_parts(sidecars[last])->Ok_0;
    assert(moved_parts(sidecars[last]) is Ok);
    let (inputs, tags) = registered(fm.inputs, doc.inputs);
    let out = shifted_lines(doc.content, fm.pages, tags)->Ok_0;
    assert(m.lines == fm.lines + out);
    lemma_registered(fm.inputs, doc.inputs);
    if k == last {
        assert(sidecars.take(k) =~= front);
        lemma_merged_sizes(front);
        assert(m.lines.subrange(fm.lines.len() as int, (fm.lines.len() + out.len()) as int) =~= out);
        assert(inputs.take(inputs.len() as int) =~= inputs);
    } else {
        lemma_merged_part(front, k);
        assert(front.take(k) =~= sidecars.take(k));
        assert(front[k] == sidecars[k]);
        let before = merged(sidecars.take(k))->Ok_0;
        let kdoc = moved_parts(sidecars[k])->Ok_0;
        let (kinputs, ktags) = registered(before.inputs, kdoc.inputs);
        let kout = shifted_lines(kdoc.content, before.pages, ktags)->Ok_0;
        let a = before.lines.len() as int;
        let b = a + kout.len();
        assert(m.lines.subrange(a, b) =~= fm.lines.subrange(a, b));
        assert(m.inputs.take(kinputs.len() as int) =~= fm.inputs.take(kinputs.len() as int)) by {
            assert(m.inputs.take(fm.inputs.len() as int) == fm.inputs);
            assert forall|i: int| 0 <= i < kinputs.len() implies m.inputs[i] == fm.inputs[i] by {
                assert(m.inputs.take(fm.inputs.len() as int)[i] == m.inputs[i]);
            }
        }
    }
}

proof fn lemma_merged_sizes(sidecars: Seq<(Result<Seq<char>, Seq<char>>, SyncMapView)>)
    requires
        merged(sidecars) is Ok,
    ensures
        merged(sidecars)->Ok_0.pages == pages_before(sidecars),
        merged(sidecars)->Ok_0.lines.len() == lines_before(sidecars),
        merged(sidecars)->Ok_0.header is Some <==> sidecars.len() > 0,
    decreases sidecars.len(),
{
    if sidecars.len() > 0 {
        let front = sidecars.drop_last();
        lemma_merged_sizes(front);
        let fm = merged(front)->Ok_0;
        let doc = moved_parts(sidecars.last())->Ok_0;
        let tags = registered(fm.inputs, doc.inputs).1;
        lemma_shifted_len(doc.content, fm.pages, tags);
    }
}

/// Whether the lines of `block` stand in `all` one behind the other.
pub open spec fn listed_in(all: Seq<Seq<char>>, block: Seq<Seq<char>>) -> bool {
    exists|at: int|
        0 <= at && at + block.len() <= all.len() && #[trigger] all.subrange(at, at + block.len())
            == block
}

proof fn lemma_listed_longer(all: Seq<Seq<char>>, more: Seq<Seq<char>>, block: Seq<Seq<char>>)
    requires
        listed_in(all, block),
    ensures
        listed_in(all + more, block),
{
    let at = choose|at: int|
        0 <= at && at + block.len() <= all.len() && #[trigger] all.subrange(at, at + block.len())
            == block;
    assert((all + more).subrange(at, at + block.len()) =~= all.subrange(at, at + block.len()));
}

/// Whether lines can stand in the header of a merged file: none is the start of the content.
spec fn header_wf(all: Seq<Seq<char>>) -> bool {
    all_one_line(all) && forall|i: int| 0 <= i < all.len() ==> #[trigger] all[i] != "Content:"@
}

proof fn lemma_input_texts_wf(inputs: Seq<(u32, Seq<char>)>)
    requires
        forall|i: int| 0 <= i < inputs.len() ==> one_line((#[trigger] inputs[i]).1),
    ensures
        header_wf(input_texts(inputs)),
{
    reveal_strlit("Input:");
    reveal_strlit(":");
    reveal_strlit("Content:");
    let all = input_texts(inputs);
    assert forall|i: int| 0 <= i < all.len() implies one_line(#[trigger] all[i]) && all[i]
        != "Content:"@ by {
        let (tag, path) = inputs[i];
        assert(one_line(inputs[i].1));
        assert(all[i] == input_text(tag, path));
        lemma_decimal_holds(tag as nat, '\n');
        lemma_one_line_concat("Input:"@, decimal(tag as nat));
        lemma_one_line_concat("Input:"@ + decimal(tag as nat), ":"@);
        lemma_one_line_concat("Input:"@ + decimal(tag as nat) + ":"@, path);
        assert(all[i][0] == 'I');
    }
}

proof fn lemma_header_concat(a: Seq<Seq<char>>, b: Seq<Seq<char>>)
    requires
        header_wf(a),
        header_wf(b),
    ensures
        header_wf(a + b),
{
    let all = a + b;
    assert forall|i: int| 0 <= i < all.len() implies one_line(#[trigger] all[i]) && all[i]
        != "Content:"@ by {
        if i < a.len() {
            assert(one_line(a[i]) && a[i] != "Content:"@);
        } else {
            assert(one_line(b[i - a.len()]) && b[i - a.len()] != "Content:"@);
        }
    }
}

proof fn lemma_output_line_wf(output: Seq<char>)
    requires
        one_line(output),
    ensures
        header_wf(seq!["Output:"@ + output]),
{
    reveal_strlit("Output:");
    reveal_strlit("Content:");
    lemma_one_line_concat("Output:"@, output);
    assert(("Output:"@ + output)[0] == 'O');
}

proof fn lemma_header(
    all: Seq<Seq<char>>,
    inputs: Seq<(u32, Seq<char>)>,
    output: Seq<char>,
)
    requires
        header_wf(all),
        forall|i: int| 0 <= i < inputs.len() ==> one_line((#[trigger] inputs[i]).1),
        one_line(output),
    ensures
        ({
            let h = header_lines(Seq::empty(), all, inputs, output);
            &&& header_wf(h.lines)
            &&& h.named_inputs ==> listed_in(h.lines, input_texts(inputs))
            &&& h.named_output ==> h.lines.contains("Output:"@ + output)
        }),
    decreases all.len(),
{
    if all.len() > 0 {
        let front = all.drop_last();
        let line = all[all.len() - 1];
        assert forall|i: int| 0 <= i < front.len() implies one_line(#[trigger] front[i]) && front[i]
            != "Content:"@ by {
            assert(one_line(all[i]) && all[i] != "Content:"@);
        }
        lemma_header(front, inputs, output);
        lemma_input_texts_wf(inputs);
        lemma_output_line_wf(output);
        let h = header_lines(Seq::empty(), front, inputs, output);
        let named = with_inputs(h, inputs);
        lemma_named(h, inputs);
        let out = header_lines(Seq::empty(), all, inputs, output);
        if input_line(line) is Some {
            lemma_contains_longer(h.lines, named.lines, "Output:"@ + output, h.named_output);
        } else if starts_with(line, "Output:"@) {
            lemma_header_concat(named.lines, seq!["Output:"@ + output]);
            assert(named.lines.push("Output:"@ + output) =~= named.lines + seq!["Output:"@ + output]);
            lemma_listed_longer(named.lines, seq!["Output:"@ + output], input_texts(inputs));
            assert(out.lines[named.lines.len() as int] == "Output:"@ + output);
        } else {
            assert(header_wf(seq![line]));
            lemma_header_concat(h.lines, seq![line]);
            assert(h.lines.push(line) =~= h.lines + seq![line]);
            if h.named_inputs {
                lemma_listed_longer(h.lines, seq![line], input_texts(inputs));
            }
            lemma_contains_longer(h.lines, out.lines, "Output:"@ + output, h.named_output);
        }
    }
}

proof fn lemma_contains_longer(a: Seq<Seq<char>>, b: Seq<Seq<char>>, line: Seq<char>, known: bool)
    requires
        known ==> a.contains(line),
        a.len() <= b.len(),
        forall|i: int| 0 <= i < a.len() ==> #[trigger] b[i] == a[i],
    ensures
        known ==> b.contains(line),
{
    if known {
        let i = a.index_of(line);
        assert(b[i] == line);
    }
}

proof fn lemma_named(h: HeaderView, inputs: Seq<(u32, Seq<char>)>)
    requires
        header_wf(h.lines),
        header_wf(input_texts(inputs)),
        h.named_inputs ==> listed_in(h.lines, input_texts(inputs)),
    ensures
        header_wf(with_inputs(h, inputs).lines),
        listed_in(with_inputs(h, inputs).lines, input_texts(inputs)),
        h.lines.len() <= with_inputs(h, inputs).lines.len(),
        forall|i: int|
            0 <= i < h.lines.len() ==> #[trigger] with_inputs(h, inputs).lines[i] == h.lines[i],
        with_inputs(h, inputs).named_output == h.named_output,
{
    if !h.named_inputs {
        let block = input_texts(inputs);
        let all = h.lines + block;
        let at = h.lines.len() as int;
        lemma_header_concat(h.lines, block);
        assert(all.subrange(at, at + block.len()) =~= block);
    }
}

proof fn lemma_merged_header(
    header: Seq<Seq<char>>,
    inputs: Seq<(u32, Seq<char>)>,
    output: Seq<char>,
)
    requires
        header_wf(header),
        forall|i: int| 0 <= i < inputs.len() ==> one_line((#[trigger] inputs[i]).1),
        one_line(output),
    ensures
        ({
            let all = merged_header(Seq::empty(), header, inputs, output);
            &&& header_wf(all)
            &&& listed_in(all, input_texts(inputs))
            &&& all.contains("Output:"@ + output)
        }),
{
    lemma_header(header, inputs, output);
    lemma_input_texts_wf(inputs);
    lemma_output_line_wf(output);
    let h = header_lines(Seq::empty(), header, inputs, output);
    lemma_named(h, inputs);
    let named = with_inputs(h, inputs);
    lemma_contains_longer(h.lines, named.lines, "Output:"@ + output, h.named_output);
    if !named.named_output {
        let line = "Output:"@ + output;
        lemma_header_concat(named.lines, seq![line]);
        assert(named.lines.push(line) =~= named.lines + seq![line]);
        lemma_listed_longer(named.lines, seq![line], input_texts(inputs));
        assert(named.lines.push(line)[named.lines.len() as int] == line);
    }
}

proof fn lemma_inputs_are_one_line(all: Seq<Seq<char>>)
    requires
        all_one_line(all),
    ensures
        forall|i: int| 0 <= i < inputs_of(all).len() ==> one_line((#[trigger] inputs_of(all)[i]).1),
    decreases all.len(),
{
    if all.len() > 0 {
        let front = all.drop_last();
        assert forall|i: int| 0 <= i < front.len() implies one_line(#[trigger] front[i]) by {
            assert(one_line(all[i]));
        }
        lemma_inputs_are_one_line(front);
        let line = all[all.len() - 1];
        assert(one_line(line));
        if input_line(line) is Some {
            let path = (input_line(line)->0).1;
            let rest = line.skip("Input:"@.len() as int);
            lemma_index_in(rest, ':', 0);
            let colon = first_index(rest, ':', 0);
            let from = "Input:"@.len() as int + colon + 1;
            lemma_one_line_part(line, from, line.len() as int);
            assert(path =~= line.subrange(from, line.len() as int));
        }
        assert forall|i: int| 0 <= i < inputs_of(all).len() implies one_line(
            (#[trigger] inputs_of(all)[i]).1,
        ) by {
            if i < inputs_of(front).len() {
                assert(one_line(inputs_of(front)[i].1));
                assert(inputs_of(all)[i] == inputs_of(front)[i]);
            }
        }
    }
}

proof fn lemma_find_line(all: Seq<Seq<char>>, text: Seq<char>, from: int, at: int)
    requires
        0 <= from <= at <= all.len(),
        forall|i: int| from <= i < at ==> #[trigger] all[i] != text,
        at < all.len() ==> all[at] == text,
    ensures
        find_line(all, text, from) == at,
    decreases at - from,
{
    if from < at {
        assert(all[from] != text);
        lemma_find_line(all, text, from + 1, at);
    }
}

proof fn lemma_found_line(all: Seq<Seq<char>>, text: Seq<char>, from: int)
    requires
        0 <= from <= all.len(),
    ensures
        from <= find_line(all, text, from) <= all.len(),
        forall|i: int| from <= i < find_line(all, text, from) ==> #[trigger] all[i] != text,
    decreases all.len() - from,
{
    if from < all.len() && all[from] != text {
        lemma_found_line(all, text, from + 1);
    }
}

proof fn lemma_document_is_one_line(content: Seq<char>)
    requires
        document(content) is Ok,
    ensures
        header_wf(document(content)->Ok_0.header),
        all_one_line(document(content)->Ok_0.content),
        forall|i: int|
            0 <= i < document(content)->Ok_0.inputs.len() ==> one_line(
                (#[trigger] document(content)->Ok_0.inputs[i]).1,
            ),
{
    lemma_lines_are_one_line(content);
    let all = lines(content);
    let start = find_line(all, "Content:"@, 0);
    let end = find_line(all, "Postamble:"@, 0);
    lemma_found_line(all, "Content:"@, 0);
    lemma_found_line(all, "Postamble:"@, 0);
    let doc = document(content)->Ok_0;
    assert forall|i: int| 0 <= i < doc.header.len() implies one_line(#[trigger] doc.header[i])
        && doc.header[i] != "Content:"@ by {
        assert(one_line(all[i]));
        assert(all[i] != "Content:"@);
    }
    assert forall|i: int| 0 <= i < doc.content.len() implies one_line(#[trigger] doc.content[i]) by {
        assert(one_line(all[start + 1 + i]));
    }
    let front = all.take(end);
    assert forall|i: int| 0 <= i < front.len() implies one_line(#[trigger] front[i]) by {
        assert(one_line(all[i]));
    }
    lemma_inputs_are_one_line(front);
}

proof fn lemma_shifted_is_one_line(all: Seq<Seq<char>>, offset: nat, tags: Map<u32, u32>)
    requires
        shifted_lines(all, offset, tags) is Ok,
        all_one_line(all),
    ensures
        all_one_line(shifted_lines(all, offset, tags)->Ok_0),
    decreases all.len(),
{
    if all.len() > 0 {
        let front = all.drop_last();
        let line = all[all.len() - 1];
        assert forall|i: int| 0 <= i < front.len() implies one_line(#[trigger] front[i]) by {
            assert(one_line(all[i]));
        }
        lemma_shifted_is_one_line(front, offset, tags);
        assert(one_line(line));
        let out = shifted_lines(all, offset, tags)->Ok_0;
        let before = shifted_lines(front, offset, tags)->Ok_0;
        if input_line(line) is None {
            let shifted = shifted_line(line, offset, tags)->Ok_0;
            assert(one_line(shifted)) by {
                match page_line(line) {
                    Some((mark, n)) => {
                        lemma_decimal_holds(offset + n, '\n');
                        assert(line.contains(line[0]));
                        assert(one_line(seq![mark]));
                        lemma_one_line_concat(seq![mark], decimal(offset + n));
                    },
                    None => {
                        if has_link(line) {
                            lemma_link_parts_are_one_line(line);
                            let parts = link_parts(line);
                            let tag = parse_number(parts[0], u32::MAX as nat);
                            if tag is Some {
                                let other = decimal(tags[tag->0 as u32] as nat);
                                lemma_decimal_holds(tags[tag->0 as u32] as nat, '\n');
                                let others = parts.update(0, other);
                                assert forall|i: int| 0 <= i < others.len() implies one_line(
                                    #[trigger] others[i],
                                ) by {
                                    assert(one_line(parts[i]));
                                }
                                lemma_relinked_is_one_line(line, others);
                            }
                        }
                    },
                }
            }
            assert forall|i: int| 0 <= i < out.len() implies one_line(#[trigger] out[i]) by {
                if i < before.len() {
                    assert(one_line(before[i]));
                }
            }
        }
    }
}

proof fn lemma_registered_is_one_line(
    inputs: Seq<(u32, Seq<char>)>,
    more: Seq<(u32, Seq<char>)>,
)
    requires
        forall|i: int| 0 <= i < inputs.len() ==> one_line((#[trigger] inputs[i]).1),
        forall|i: int| 0 <= i < more.len() ==> one_line((#[trigger] more[i]).1),
    ensures
        forall|i: int|
            0 <= i < registered(inputs, more).0.len() ==> one_line(
                (#[trigger] registered(inputs, more).0[i]).1,
            ),
    decreases more.len(),
{
    if more.len() > 0 {
        let front = more.drop_last();
        assert forall|i: int| 0 <= i < front.len() implies one_line((#[trigger] front[i]).1) by {
            assert(one_line(more[i].1));
        }
        lemma_registered_is_one_line(inputs, front);
        assert(one_line(more[more.len() - 1].1));
        let known = registered(inputs, front).0;
        let all = registered(inputs, more).0;
        assert forall|i: int| 0 <= i < all.len() implies one_line((#[trigger] all[i]).1) by {
            if i < known.len() {
                assert(one_line(known[i].1));
                assert(all[i] == known[i]);
            }
        }
    }
}

proof fn lemma_merged_is_one_line(sidecars: Seq<(Result<Seq<char>, Seq<char>>, SyncMapView)>)
    requires
        merged(sidecars) is Ok,
    ensures
        ({
            let m = merged(sidecars)->Ok_0;
            &&& all_one_line(m.lines)
            &&& m.header is Some ==> header_wf(m.header->0)
            &&& forall|i: int| 0 <= i < m.inputs.len() ==> one_line((#[trigger] m.inputs[i]).1)
        }),
    decreases sidecars.len(),
{
    if sidecars.len() > 0 {
        let front = sidecars.drop_last();
        lemma_merged_is_one_line(front);
        let fm = merged(front)->Ok_0;
        let last = sidecars.last();
        lemma_document_is_one_line(remapped(last.0->Ok_0, last.1));
        let doc = moved_parts(last)->Ok_0;
        let (inputs, tags) = registered(fm.inputs, doc.inputs);
        lemma_registered_is_one_line(fm.inputs, doc.inputs);
        lemma_shifted_is_one_line(doc.content, fm.pages, tags);
        let out = shifted_lines(doc.content, fm.pages, tags)->Ok_0;
        let m = merged(sidecars)->Ok_0;
        assert(m.lines == fm.lines + out);
        assert forall|i: int| 0 <= i < m.lines.len() implies one_line(#[trigger] m.lines[i]) by {
            if i < fm.lines.len() {
                assert(one_line(fm.lines[i]));
            } else {
                assert(one_line(out[i - fm.lines.len()]));
            }
        }
    }
}

/// The lines of a merged file: behind its header, which lists the input files and names the output,
/// the content of the files, and at its end the count of records.
proof fn lemma_merged_text(
    sidecars: Seq<(Result<Seq<char>, Seq<char>>, SyncMapView)>,
    output: Seq<char>,
)
    requires
        merged_file(sidecars, output) is Ok,
        one_line(output),
    ensures
        ({
            let m = merged(sidecars)->Ok_0;
            let all = split_on((merged_file(sidecars, output)->Ok_0).0, '\n');
            let at = find_line(all, "Content:"@, 0);
            let end = at + 1 + m.lines.len();
            &&& merged(sidecars) is Ok
            &&& sidecars.len() > 0
            &&& 0 <= at
            &&& all.len() == end + 5
            &&& all[at] == "Content:"@
            &&& all.subrange(at + 1, end) == m.lines
            &&& all[end] == "Postamble:"@
            &&& all[end + 1] == "Count:"@ + decimal(m.records)
            &&& listed_in(all.take(at), input_texts(m.inputs))
            &&& all.take(at).contains("Output:"@ + output)
        }),
{
    let m = merged(sidecars)->Ok_0;
    lemma_merged_sizes(sidecars);
    lemma_merged_is_one_line(sidecars);
    let header = m.header->0;
    lemma_merged_header(header, m.inputs, output);
    let head = merged_header(Seq::empty(), header, m.inputs, output);
    let lines = merged_lines(m, header, output);
    let tail = seq!["Postamble:"@, "Count:"@ + decimal(m.records), "!0"@, "Post scriptum:"@];
    reveal_strlit("Content:");
    reveal_strlit("Postamble:");
    reveal_strlit("Count:");
    reveal_strlit("!0");
    reveal_strlit("Post scriptum:");
    lemma_decimal_holds(m.records, '\n');
    lemma_one_line_concat("Count:"@, decimal(m.records));
    let n = head.len() as int;
    let end = n + 1 + m.lines.len();
    assert forall|i: int| 0 <= i < lines.len() implies one_line(#[trigger] lines[i]) by {
        if i < n {
            assert(lines[i] == head[i]);
            assert(one_line(head[i]));
        } else if i == n {
            assert(lines[i] == "Content:"@);
        } else if i < end {
            assert(lines[i] == m.lines[i - n - 1]);
        } else {
            assert(lines[i] == tail[i - end]);
        }
    }
    lemma_joined_lines(lines);
    let all = split_on((merged_file(sidecars, output)->Ok_0).0, '\n');
    assert(all == lines.push(Seq::empty()));
    assert forall|i: int| 0 <= i < n implies #[trigger] all[i] != "Content:"@ by {
        assert(all[i] == head[i]);
    }
    lemma_find_line(all, "Content:"@, 0, n);
    assert(all.subrange(n + 1, end) =~= m.lines);
    assert(all.take(n) =~= head);
    assert(all[end] == tail[0]);
    assert(all[end + 1] == tail[1]);
}

/// Line `i` of the content of frame `k` stands in the merged file behind the lines of the frames in
/// front of it. Gives where.
pub open spec fn merged_place(
    sidecars: Seq<(Result<Seq<char>, Seq<char>>, SyncMapView)>,
    text: Seq<char>,
    k: int,
    i: int,
) -> int {
    find_line(split_on(text, '\n'), "Content:"@, 0) + 1 + lines_before(sidecars.take(k))
        + kept_count(moved_parts(sidecars[k])->Ok_0.content.take(i))
}

proof fn lemma_merged_place(
    sidecars: Seq<(Result<Seq<char>, Seq<char>>, SyncMapView)>,
    output: Seq<char>,
    k: int,
    i: int,
)
    requires
        merged_file(sidecars, output) is Ok,
        one_line(output),
        0 <= k < sidecars.len(),
        0 <= i < moved_parts(sidecars[k])->Ok_0.content.len(),
        input_line(moved_parts(sidecars[k])->Ok_0.content[i]) is None,
    ensures
        ({
            let text = (merged_file(sidecars, output)->Ok_0).0;
            let before = merged(sidecars.take(k))->Ok_0;
            let doc = moved_parts(sidecars[k])->Ok_0;
            let tags = registered(before.inputs, doc.inputs).1;
            let at = merged_place(sidecars, text, k, i);
            &&& moved_parts(sidecars[k]) is Ok
            &&& 0 <= at < split_on(text, '\n').len()
            &&& shifted_line(doc.content[i], pages_before(sidecars.take(k)), tags) == Ok::<
                Seq<char>,
                Seq<char>,
            >(split_on(text, '\n')[at])
        }),
{
    lemma_merged_text(sidecars, output);
    lemma_merged_part(sidecars, k);
    let text = (merged_file(sidecars, output)->Ok_0).0;
    let all = split_on(text, '\n');
    let m = merged(sidecars)->Ok_0;
    let before = merged(sidecars.take(k))->Ok_0;
    let doc = moved_parts(sidecars[k])->Ok_0;
    let tags = registered(before.inputs, doc.inputs).1;
    let out = shifted_lines(doc.content, before.pages, tags)->Ok_0;
    lemma_shifted(doc.content, before.pages, tags, i);
    let start = find_line(all, "Content:"@, 0) + 1;
    let kept = kept_count(doc.content.take(i)) as int;
    let a = before.lines.len() as int;
    assert(m.lines.subrange(a, a + out.len())[kept] == m.lines[a + kept]);
    assert(all.subrange(start, start + m.lines.len())[a + kept] == all[start + a + kept]);
}

/// The pages of a merged file are numbered through: where the file of frame `k` opens or closes a
/// page, the merged file opens or closes, in the same place of the order, the page of that number
/// behind all pages of the frames in front of it.
pub proof fn law_merged_pages_are_numbered_through(
    sidecars: Seq<(Result<Seq<char>, Seq<char>>, SyncMapView)>,
    output: Seq<char>,
    k: int,
    i: int,
    mark: char,
    number: usize,
)
    requires
        merged_file(sidecars, output) is Ok,
        one_line(output),
        0 <= k < sidecars.len(),
        0 <= i < moved_parts(sidecars[k])->Ok_0.content.len(),
        mark == '{' || mark == '}',
        number > 0,
        moved_parts(sidecars[k])->Ok_0.content[i] == seq![mark] + decimal(number as nat),
    ensures
        ({
            let (text, pages) = merged_file(sidecars, output)->Ok_0;
            let at = merged_place(sidecars, text, k, i);
            &&& split_on(text, '\n')[at] == seq![mark] + decimal(
                pages_before(sidecars.take(k)) + number as nat,
            )
            &&& 0 < pages_before(sidecars.take(k)) + number <= pages_before(sidecars.take(k + 1))
            &&& pages_before(sidecars.take(k + 1)) <= pages
            &&& pages == pages_before(sidecars)
        }),
{
    law_page_lines_are_read_back(number);
    lemma_merged_place(sidecars, output, k, i);
    lemma_merged_sizes(sidecars);
    law_page_count_is_the_largest_page(
        moved_parts(sidecars[k])->Ok_0.content,
        i,
        number,
    );
    assert(sidecars.take(k + 1).drop_last() =~= sidecars.take(k));
    assert(sidecars.take(k + 1).last() == sidecars[k]);
    lemma_pages_grow(sidecars, k + 1);
}

proof fn lemma_pages_grow(sidecars: Seq<(Result<Seq<char>, Seq<char>>, SyncMapView)>, k: int)
    requires
        0 <= k <= sidecars.len(),
    ensures
        pages_before(sidecars.take(k)) <= pages_before(sidecars),
    decreases sidecars.len() - k,
{
    if k < sidecars.len() {
        assert(sidecars.take(k + 1).drop_last() =~= sidecars.take(k));
        lemma_pages_grow(sidecars, k + 1);
    } else {
        assert(sidecars.take(k) =~= sidecars);
    }
}

/// No two frames open a page of the same number: a page of a later frame has a larger number than
/// every page of an earlier one.
pub proof fn law_merged_pages_do_not_clash(
    sidecars: Seq<(Result<Seq<char>, Seq<char>>, SyncMapView)>,
    output: Seq<char>,
    k: int,
    i: int,
    number: usize,
    later: int,
    j: int,
    other: usize,
)
    requires
        merged_file(sidecars, output) is Ok,
        one_line(output),
        0 <= k < later < sidecars.len(),
        0 <= i < moved_parts(sidecars[k])->Ok_0.content.len(),
        0 <= j < moved_parts(sidecars[later])->Ok_0.content.len(),
        number > 0,
        other > 0,
        moved_parts(sidecars[k])->Ok_0.content[i] == seq!['{'] + decimal(number as nat),
        moved_parts(sidecars[later])->Ok_0.content[j] == seq!['{'] + decimal(other as nat),
    ensures
        ({
            let text = (merged_file(sidecars, output)->Ok_0).0;
            let first = split_on(text, '\n')[merged_place(sidecars, text, k, i)];
            let second = split_on(text, '\n')[merged_place(sidecars, text, later, j)];
            exists|a: nat, b: nat|
                a < b && first == seq!['{'] + #[trigger] decimal(a) && second == seq!['{']
                    + #[trigger] decimal(b)
        }),
{
    law_merged_pages_are_numbered_through(sidecars, output, k, i, '{', number);
    law_merged_pages_are_numbered_through(sidecars, output, later, j, '{', other);
    assert(sidecars.take(later).take(k + 1) =~= sidecars.take(k + 1));
    lemma_pages_grow(sidecars.take(later), k + 1);
    let a = pages_before(sidecars.take(k)) + number as nat;
    let b = pages_before(sidecars.take(later)) + other as nat;
    assert(a < b);
    let text = (merged_file(sidecars, output)->Ok_0).0;
    assert(split_on(text, '\n')[merged_place(sidecars, text, k, i)] == seq!['{'] + decimal(a));
    assert(split_on(text, '\n')[merged_place(sidecars, text, later, j)] == seq!['{'] + decimal(b));
}

/// Where every frame has one page, page `k + 1` of the merged file is that of frame `k`.
pub proof fn law_single_pages_are_counted_by_their_frames(
    sidecars: Seq<(Result<Seq<char>, Seq<char>>, SyncMapView)>,
    output: Seq<char>,
    k: int,
    i: int,
)
    requires
        merged_file(sidecars, output) is Ok,
        one_line(output),
        0 <= k < sidecars.len(),
        forall|m: int|
            0 <= m < sidecars.len() ==> page_count(
                moved_parts(#[trigger] sidecars[m])->Ok_0.content,
            ) == 1,
        0 <= i < moved_parts(sidecars[k])->Ok_0.content.len(),
        moved_parts(sidecars[k])->Ok_0.content[i] == seq!['{'] + decimal(1),
    ensures
        ({
            let (text, pages) = merged_file(sidecars, output)->Ok_0;
            &&& split_on(text, '\n')[merged_place(sidecars, text, k, i)] == seq!['{'] + decimal(
                (k + 1) as nat,
            )
            &&& pages == sidecars.len()
        }),
{
    law_merged_pages_are_numbered_through(sidecars, output, k, i, '{', 1);
    lemma_single_pages(sidecars, k);
    lemma_single_pages(sidecars, sidecars.len() as int);
    assert(sidecars.take(sidecars.len() as int) =~= sidecars);
}

proof fn lemma_single_pages(sidecars: Seq<(Result<Seq<char>, Seq<char>>, SyncMapView)>, k: int)
    requires
        0 <= k <= sidecars.len(),
        forall|m: int|
            0 <= m < sidecars.len() ==> page_count(
                moved_parts(#[trigger] sidecars[m])->Ok_0.content,
            ) == 1,
    ensures
        pages_before(sidecars.take(k)) == k,
    decreases k,
{
    if k > 0 {
        lemma_single_pages(sidecars, k - 1);
        assert(sidecars.take(k).drop_last() =~= sidecars.take(k - 1));
        assert(sidecars.take(k).last() == sidecars[k - 1]);
    }
}

/// Records keep the file that they point into. Where a record of frame `k` has a tag that its file
/// gives to a path, and gives to no other path later, the merged file holds the same record under
/// another tag, and lists this tag with the path. Line, column and what follows the link stay.
pub proof fn law_merged_records_keep_their_file(
    sidecars: Seq<(Result<Seq<char>, Seq<char>>, SyncMapView)>,
    output: Seq<char>,
    k: int,
    i: int,
    c: char,
    named: int,
    more: Seq<char>,
    tail: Seq<char>,
) -> (tag: u32)
    requires
        merged_file(sidecars, output) is Ok,
        one_line(output),
        0 <= k < sidecars.len(),
        0 <= i < moved_parts(sidecars[k])->Ok_0.content.len(),
        c == '[' || c == '(' || c == 'x' || c == 'k' || c == 'g' || c == '$' || c == 'v' || c == 'h'
            || c == 'r',
        more.len() > 0 ==> more[0] == ',',
        !more.contains(':'),
        ({
            let doc = moved_parts(sidecars[k])->Ok_0;
            &&& 0 <= named < doc.inputs.len()
            &&& forall|j: int|
                named < j < doc.inputs.len() ==> (#[trigger] doc.inputs[j]).0
                    != doc.inputs[named].0
            &&& doc.content[i] == seq![c] + decimal(doc.inputs[named].0 as nat) + more + seq![':']
                + tail
        }),
    ensures
        ({
            let text = (merged_file(sidecars, output)->Ok_0).0;
            let all = split_on(text, '\n');
            let path = moved_parts(sidecars[k])->Ok_0.inputs[named].1;
            &&& all[merged_place(sidecars, text, k, i)] == seq![c] + decimal(tag as nat) + more
                + seq![':'] + tail
            &&& all.take(find_line(all, "Content:"@, 0)).contains(
                "Input:"@ + decimal(tag as nat) + ":"@ + path,
            )
        }),
{
    let doc = moved_parts(sidecars[k])->Ok_0;
    let (local, path) = doc.inputs[named];
    lemma_link(c, local as nat, more, tail);
    lemma_merged_place(sidecars, output, k, i);
    lemma_merged_part(sidecars, k);
    lemma_merged_text(sidecars, output);
    let m = merged(sidecars)->Ok_0;
    let before = merged(sidecars.take(k))->Ok_0;
    law_registered_files_are_listed(before.inputs, doc.inputs, named);
    let (inputs, tags) = registered(before.inputs, doc.inputs);
    let tag = tags[local];
    law_decimal_round_trip(local as nat, u32::MAX as nat);
    lemma_relinked(c, local as nat, tag as nat, more, tail);
    let text = (merged_file(sidecars, output)->Ok_0).0;
    let all = split_on(text, '\n');
    let head = all.take(find_line(all, "Content:"@, 0));
    let at = choose|at: int| 0 <= at < inputs.len() && #[trigger] inputs[at] == (tag, path);
    assert(m.inputs.take(inputs.len() as int)[at] == m.inputs[at]);
    let block = input_texts(m.inputs);
    let start = choose|start: int|
        0 <= start && start + block.len() <= head.len() && #[trigger] head.subrange(
            start,
            start + block.len(),
        ) == block;
    assert(head.subrange(start, start + block.len())[at] == head[start + at]);
    law_input_lines_are_read_back(tag, path);
    assert(block[at] == input_text(tag, path));
    assert(head[start + at] == "Input:"@ + decimal(tag as nat) + ":"@ + path);
    tag
}

/// A merged file names its own output, holds every line of content once, and counts the records of
/// all frames together.
pub proof fn law_merged_file_is_complete(
    sidecars: Seq<(Result<Seq<char>, Seq<char>>, SyncMapView)>,
    output: Seq<char>,
)
    requires
        merged_file(sidecars, output) is Ok,
        one_line(output),
    ensures
        ({
            let all = split_on((merged_file(sidecars, output)->Ok_0).0, '\n');
            let at = find_line(all, "Content:"@, 0);
            let end = at + 1 + lines_before(sidecars);
            &&& all.len() == end + 5
            &&& all.take(at).contains("Output:"@ + output)
            &&& all[end] == "Postamble:"@
            &&& all[end + 1] == "Count:"@ + decimal(total_counts(sidecars).1)
        }),
{
    lemma_merged_text(sidecars, output);
    lemma_merged_sizes(sidecars);
    law_merged_counts_add_up(sidecars);
}

/// A merge needs the files of all frames: it fails where there is none, and where one of them could
/// not be read, has no parts, or has no pages. A failure is that of the first file that fails.
pub proof fn law_merging_needs_every_file(
    sidecars: Seq<(Result<Seq<char>, Seq<char>>, SyncMapView)>,
    output: Seq<char>,
    k: int,
)
    ensures
        sidecars.len() == 0 ==> merged_file(sidecars, output) is Err,
        0 <= k < sidecars.len() && (sidecars[k].0 is Err || moved_parts(sidecars[k]) is Err
            || page_count(moved_parts(sidecars[k])->Ok_0.content) == 0) ==> merged_file(
            sidecars,
            output,
        ) is Err,
{
    if merged(sidecars) is Ok && 0 <= k < sidecars.len() {
        lemma_merged_part(sidecars, k);
    }
}

// ---------------------------------------------------------------------------
// Files on disk
// ---------------------------------------------------------------------------

/// What became of reading a SyncTeX file, told with its path: `decoded` is what came of
/// decompressing it.
pub fn decoded_contents(synctex_file: &FilePath, decoded: Result<String, String>) -> (r: Result<
    String,
    String,
>)
    ensures
        match decoded {
            Ok(text) => r is Ok && r->Ok_0@ == text@,
            Err(text) => r is Err && r->Err_0@ == "failed to decode "@
                + synctex_file@.text + ": "@ + text@,
        },
{
    match decoded {
        Ok(text) => Ok(text),
        Err(text) => {
            let mut out = owned("failed to decode ");
            out.push_str(synctex_file.text.as_str());
            out.push_str(": ");
            out.push_str(text.as_str());
            Err(out)
        },
    }
}

/// The text of the SyncTeX file at `synctex_file`, where `read` is what came of reading its bytes.
pub fn read_synctex_contents(synctex_file: &FilePath, read: &Result<Vec<u8>, String>) -> (r: Result<
    String,
    String,
>)
    ensures
        match read {
            Err(text) => r is Err && r->Err_0@ == "failed to read "@ + synctex_file@.text + ": "@ + text@,
            Ok(bytes) => match gunzipped(bytes@) {
                Some(text) => r is Ok && r->Ok_0@ == text,
                None => r is Err && starts_with(
                    r->Err_0@,
                    "failed to decode "@ + synctex_file@.text + ": "@,
                ),
            },
        },
{
    match read {
        Err(text) => {
            let mut out = owned("failed to read ");
            out.push_str(synctex_file.text.as_str());
            out.push_str(": ");
            out.push_str(text.as_str());
            Err(out)
        },
        Ok(bytes) => {
            let r = decoded_contents(synctex_file, gunzip(bytes));
            proof {
                let head = "failed to decode "@ + synctex_file@.text + ": "@;
                assert(r is Err ==> r->Err_0@.subrange(0, head.len() as int) =~= head);
            }
            r
        },
    }
}

/// Why a SyncTeX file could not be rewritten.
#[derive(Clone, Debug)]
pub enum SyncTexFailure {
    Decode(String),
    Encode(String),
}

/// The bytes of a SyncTeX file with its records moved to the source.
pub fn rewrite_synctex(bytes: &[u8], sync_map: &FrameSyncTexMap) -> (r: Result<
    Vec<u8>,
    SyncTexFailure,
>)
    requires
        sync_map.wf(),
    ensures
        match r {
            Ok(out) => {
                let moved = remapped(gunzipped(bytes@)->0, sync_map@);
                &&& gunzipped(bytes@) is Some
                &&& gzipped(moved) == Some(out@)
                &&& gunzipped(out@) == Some(moved)
            },
            Err(SyncTexFailure::Decode(_)) => gunzipped(bytes@) is None,
            Err(SyncTexFailure::Encode(_)) => gunzipped(bytes@) is Some && gzipped(
                remapped(gunzipped(bytes@)->0, sync_map@),
            ) is None,
        },
{
    let content = match gunzip(bytes) {
        Ok(content) => content,
        Err(text) => {
            return Err(SyncTexFailure::Decode(text));
        },
    };
    let moved = remap_synctex_contents(content.as_str(), sync_map);
    match gzip(moved.as_str()) {
        Ok(out) => Ok(out),
        Err(text) => Err(SyncTexFailure::Encode(text)),
    }
}

}
