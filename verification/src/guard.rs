//! One process watches a document: what it leaves on disk, and what a second call makes of it.
use crate::digest::{digest_of, text_digest};
use crate::lines::{
    concat, join, join_texts, law_chunks_of_concat, law_split_of_join, line_body, lines, lines_of,
    split_on,
};
use crate::numbers::{decimal, law_decimal_round_trip, lemma_decimal, parse_number, push_decimal, read_u32};
use crate::path_parts::PathStyle;
use crate::paths::{child, parsed, FilePath, PathView};
use crate::search::{
    ends_with, matches_at, prefix_len, replace_text, replaced, replaced_from, skip_space,
    skip_space_back, starts_with, suffix_start, trim, trimmed, whitespace,
};
use crate::text::{chars_of, is_text, owned, push_all, same_text, slices, string_of, texts, views};
use vstd::prelude::*;

verus! {

/// What came of handing a build over to the process that watches the document.
#[derive(Clone, Copy, Debug, PartialEq, Eq, Structural)]
pub enum RedirectResult {
    Redirected,
    DifferentOptions,
    NoGuard,
    IoError,
}

/// The mark of a process that watches a document. It goes with the process.
#[derive(Clone, Debug)]
pub struct GuardRegistration {
    pub metadata_path: FilePath,
}

/// What a process that watches a document leaves on disk.
#[derive(Clone, Debug, PartialEq, Eq)]
pub struct GuardMetadata {
    pub pid: u32,
    pub input_path: String,
    pub fingerprint: String,
    pub addr: String,
}

/// What the metadata holds.
pub struct MetadataView {
    pub pid: u32,
    pub input_path: Seq<char>,
    pub fingerprint: Seq<char>,
    pub addr: Seq<char>,
}

impl View for GuardMetadata {
    type V = MetadataView;

    open spec fn view(&self) -> MetadataView {
        MetadataView {
            pid: self.pid,
            input_path: self.input_path@,
            fingerprint: self.fingerprint@,
            addr: self.addr@,
        }
    }
}

// ---------------------------------------------------------------------------
// The fingerprint of an invocation
// ---------------------------------------------------------------------------

/// What a call of the program asks for.
pub struct Invocation {
    pub build_mode: Seq<char>,
    pub output_file: Seq<char>,
    pub correct_frame_numbers: bool,
    pub use_tree_sitter: bool,
    pub multi_pass: Seq<char>,
    pub bibliography: Seq<char>,
    pub engine: Seq<char>,
    pub precompile_preamble: bool,
    pub no_precompile_preamble: bool,
    pub force_recompile: bool,
    pub parallel: bool,
    pub jobs: Seq<char>,
    pub compiler_options: Seq<Seq<char>>,
}

/// How a truth value is written.
pub open spec fn bool_text(b: bool) -> Seq<char> {
    if b {
        "true"@
    } else {
        "false"@
    }
}

/// The text, or the empty text where there is none.
pub open spec fn text_or_empty(s: Option<&str>) -> Seq<char> {
    match s {
        Some(t) => t@,
        None => ""@,
    }
}

/// The compiler options as lines of a fingerprint.
pub open spec fn option_parts(options: Seq<Seq<char>>) -> Seq<Seq<char>> {
    options.map_values(|o: Seq<char>| "compiler_option="@ + o)
}

/// The lines of a fingerprint before the compiler options.
pub open spec fn fixed_parts(i: Invocation) -> Seq<Seq<char>> {
    seq![
        "mode="@ + i.build_mode,
        "output="@ + i.output_file,
        "frame_numbers="@ + bool_text(i.correct_frame_numbers),
        "tree_sitter="@ + bool_text(i.use_tree_sitter),
        "multi_pass="@ + i.multi_pass,
        "bibliography="@ + i.bibliography,
        "engine="@ + i.engine,
        "precompile_preamble="@ + bool_text(i.precompile_preamble),
        "no_precompile_preamble="@ + bool_text(i.no_precompile_preamble),
        "force_recompile="@ + bool_text(i.force_recompile),
        "parallel="@ + bool_text(i.parallel),
        "jobs="@ + i.jobs,
    ]
}

/// The lines of a fingerprint.
pub open spec fn fingerprint_parts(i: Invocation) -> Seq<Seq<char>> {
    fixed_parts(i) + option_parts(i.compiler_options)
}

/// The fingerprint of a call.
pub open spec fn fingerprint(i: Invocation) -> Seq<char> {
    join(fingerprint_parts(i), "\n"@)
}

fn keyed(key: &str, value: &str) -> (r: String)
    ensures
        r@ == key@ + value@,
{
    let mut out = owned(key);
    out.push_str(value);
    out
}

fn keyed_bool(key: &str, value: bool) -> (r: String)
    ensures
        r@ == key@ + bool_text(value),
{
    if value {
        keyed(key, "true")
    } else {
        keyed(key, "false")
    }
}

fn keyed_optional(key: &str, value: Option<&str>) -> (r: String)
    ensures
        r@ == key@ + text_or_empty(value),
{
    match value {
        Some(text) => keyed(key, text),
        None => keyed(key, ""),
    }
}

/// The fingerprint of a call: one line for each thing it asks for.
pub fn invocation_fingerprint(
    build_mode: &str,
    output_file: &str,
    correct_frame_numbers: bool,
    use_tree_sitter: bool,
    multi_pass: Option<&str>,
    bibliography: Option<&str>,
    engine: &str,
    precompile_preamble: bool,
    no_precompile_preamble: bool,
    force_recompile: bool,
    parallel: bool,
    jobs: Option<&str>,
    compiler_options: Vec<&str>,
) -> (r: String)
    ensures
        r@ == fingerprint(
            (Invocation {
                build_mode: build_mode@,
                output_file: output_file@,
                correct_frame_numbers,
                use_tree_sitter,
                multi_pass: text_or_empty(multi_pass),
                bibliography: text_or_empty(bibliography),
                engine: engine@,
                precompile_preamble,
                no_precompile_preamble,
                force_recompile,
                parallel,
                jobs: text_or_empty(jobs),
                compiler_options: slices(compiler_options@),
            }),
        ),
{
    let ghost call = Invocation {
        build_mode: build_mode@,
        output_file: output_file@,
        correct_frame_numbers,
        use_tree_sitter,
        multi_pass: text_or_empty(multi_pass),
        bibliography: text_or_empty(bibliography),
        engine: engine@,
        precompile_preamble,
        no_precompile_preamble,
        force_recompile,
        parallel,
        jobs: text_or_empty(jobs),
        compiler_options: slices(compiler_options@),
    };
    let mut parts: Vec<String> = vec![
        keyed("mode=", build_mode),
        keyed("output=", output_file),
        keyed_bool("frame_numbers=", correct_frame_numbers),
        keyed_bool("tree_sitter=", use_tree_sitter),
        keyed_optional("multi_pass=", multi_pass),
        keyed_optional("bibliography=", bibliography),
        keyed("engine=", engine),
        keyed_bool("precompile_preamble=", precompile_preamble),
        keyed_bool("no_precompile_preamble=", no_precompile_preamble),
        keyed_bool("force_recompile=", force_recompile),
        keyed_bool("parallel=", parallel),
        keyed_optional("jobs=", jobs),
    ];
    let ghost fixed = fixed_parts(call);
    let ghost tail = option_parts(call.compiler_options);
    assert(texts(parts@) =~= fixed);
    let mut i: usize = 0;
    assert(fixed + tail.take(0) =~= fixed);
    while i < compiler_options.len()
        invariant
            i <= compiler_options.len(),
            tail == option_parts(slices(compiler_options@)),
            texts(parts@) == fixed + tail.take(i as int),
        decreases compiler_options.len() - i,
    {
        let part = keyed("compiler_option=", compiler_options[i]);
        let ghost before = parts@;
        let ghost view = part@;
        parts.push(part);
        i += 1;
        assert(texts(parts@) =~= texts(before).push(view));
        assert(texts(parts@) =~= fixed + tail.take(i as int));
    }
    assert(tail.take(i as int) =~= tail);
    join_texts(&parts, "\n")
}

/// Whether no text of a call holds a newline.
pub open spec fn single_lines(i: Invocation) -> bool {
    &&& !i.build_mode.contains('\n')
    &&& !i.output_file.contains('\n')
    &&& !i.multi_pass.contains('\n')
    &&& !i.bibliography.contains('\n')
    &&& !i.engine.contains('\n')
    &&& !i.jobs.contains('\n')
    &&& forall|k: int|
        0 <= k < i.compiler_options.len() ==> !(#[trigger] i.compiler_options[k]).contains('\n')
}

proof fn lemma_no_newline(key: Seq<char>, value: Seq<char>)
    requires
        !key.contains('\n'),
        !value.contains('\n'),
    ensures
        !(key + value).contains('\n'),
{
    if (key + value).contains('\n') {
        let k = (key + value).index_of('\n');
        if k < key.len() {
            assert(key[k] == '\n');
        } else {
            assert(value[k - key.len()] == '\n');
        }
    }
}

proof fn lemma_bool_text(b: bool)
    ensures
        !bool_text(b).contains('\n'),
        bool_text(true) != bool_text(false),
{
    reveal_strlit("true");
    reveal_strlit("false");
    assert("true"@.len() != "false"@.len());
}

proof fn lemma_fingerprint_parts(i: Invocation)
    requires
        single_lines(i),
    ensures
        split_on(fingerprint(i), '\n') == fingerprint_parts(i),
{
    let parts = fingerprint_parts(i);
    reveal_strlit("mode=");
    reveal_strlit("output=");
    reveal_strlit("frame_numbers=");
    reveal_strlit("tree_sitter=");
    reveal_strlit("multi_pass=");
    reveal_strlit("bibliography=");
    reveal_strlit("engine=");
    reveal_strlit("precompile_preamble=");
    reveal_strlit("no_precompile_preamble=");
    reveal_strlit("force_recompile=");
    reveal_strlit("parallel=");
    reveal_strlit("jobs=");
    reveal_strlit("compiler_option=");
    reveal_strlit("\n");
    lemma_bool_text(true);
    lemma_bool_text(false);
    lemma_no_newline("mode="@, i.build_mode);
    lemma_no_newline("output="@, i.output_file);
    lemma_no_newline("frame_numbers="@, bool_text(i.correct_frame_numbers));
    lemma_no_newline("tree_sitter="@, bool_text(i.use_tree_sitter));
    lemma_no_newline("multi_pass="@, i.multi_pass);
    lemma_no_newline("bibliography="@, i.bibliography);
    lemma_no_newline("engine="@, i.engine);
    lemma_no_newline("precompile_preamble="@, bool_text(i.precompile_preamble));
    lemma_no_newline("no_precompile_preamble="@, bool_text(i.no_precompile_preamble));
    lemma_no_newline("force_recompile="@, bool_text(i.force_recompile));
    lemma_no_newline("parallel="@, bool_text(i.parallel));
    lemma_no_newline("jobs="@, i.jobs);
    assert forall|k: int| 0 <= k < parts.len() implies !(#[trigger] parts[k]).contains('\n') by {
        if k >= 12 {
            let o = i.compiler_options[k - 12];
            assert(parts[k] == "compiler_option="@ + o);
            lemma_no_newline("compiler_option="@, o);
        } else {
            assert(parts[k] == fixed_parts(i)[k]);
        }
    }
    law_split_of_join(parts, '\n');
    assert("\n"@ =~= seq!['\n']);
}

proof fn lemma_same_value(key: Seq<char>, a: Seq<char>, b: Seq<char>)
    requires
        key + a == key + b,
    ensures
        a == b,
{
    assert(a =~= (key + a).skip(key.len() as int));
    assert(b =~= (key + b).skip(key.len() as int));
}

/// Two calls have one fingerprint only where they ask for the same: none of the texts may hold a
/// newline, and an option left out counts as an empty one.
pub proof fn law_fingerprint_tells_calls_apart(a: Invocation, b: Invocation)
    requires
        single_lines(a),
        single_lines(b),
        fingerprint(a) == fingerprint(b),
    ensures
        a == b,
{
    lemma_fingerprint_parts(a);
    lemma_fingerprint_parts(b);
    let x = fingerprint_parts(a);
    let y = fingerprint_parts(b);
    assert(x == y);
    assert forall|k: int| 0 <= k < 12 implies #[trigger] fixed_parts(a)[k] == fixed_parts(b)[k] by {
        assert(fixed_parts(a)[k] == x[k]);
        assert(fixed_parts(b)[k] == y[k]);
    }
    let p = fixed_parts(a);
    let q = fixed_parts(b);
    assert(p[0] == q[0] && p[1] == q[1] && p[2] == q[2] && p[3] == q[3] && p[4] == q[4]);
    assert(p[5] == q[5] && p[6] == q[6] && p[7] == q[7] && p[8] == q[8] && p[9] == q[9]);
    assert(p[10] == q[10] && p[11] == q[11]);
    lemma_bool_text(true);
    lemma_same_value("mode="@, a.build_mode, b.build_mode);
    lemma_same_value("output="@, a.output_file, b.output_file);
    lemma_same_value(
        "frame_numbers="@,
        bool_text(a.correct_frame_numbers),
        bool_text(b.correct_frame_numbers),
    );
    lemma_same_value("tree_sitter="@, bool_text(a.use_tree_sitter), bool_text(b.use_tree_sitter));
    lemma_same_value("multi_pass="@, a.multi_pass, b.multi_pass);
    lemma_same_value("bibliography="@, a.bibliography, b.bibliography);
    lemma_same_value("engine="@, a.engine, b.engine);
    lemma_same_value(
        "precompile_preamble="@,
        bool_text(a.precompile_preamble),
        bool_text(b.precompile_preamble),
    );
    lemma_same_value(
        "no_precompile_preamble="@,
        bool_text(a.no_precompile_preamble),
        bool_text(b.no_precompile_preamble),
    );
    lemma_same_value(
        "force_recompile="@,
        bool_text(a.force_recompile),
        bool_text(b.force_recompile),
    );
    lemma_same_value("parallel="@, bool_text(a.parallel), bool_text(b.parallel));
    lemma_same_value("jobs="@, a.jobs, b.jobs);
    assert(x.len() == 12 + a.compiler_options.len());
    assert(y.len() == 12 + b.compiler_options.len());
    assert forall|k: int| 0 <= k < a.compiler_options.len() implies #[trigger] a.compiler_options[k]
        == b.compiler_options[k] by {
        assert(x[k + 12] == "compiler_option="@ + a.compiler_options[k]);
        assert(y[k + 12] == "compiler_option="@ + b.compiler_options[k]);
        lemma_same_value("compiler_option="@, a.compiler_options[k], b.compiler_options[k]);
    }
    assert(a.compiler_options =~= b.compiler_options);
}

// ---------------------------------------------------------------------------
// Metadata on disk
// ---------------------------------------------------------------------------

/// The value of a line behind its key.
pub open spec fn value(line: Seq<char>, key: Seq<char>) -> Seq<char> {
    line.skip(key.len() as int)
}

/// A text on one line: `\n` stands for a newline.
pub open spec fn one_line(text: Seq<char>) -> Seq<char> {
    replaced(text, "\n"@, "\\n"@)
}

/// A text that was written on one line.
pub open spec fn many_lines(text: Seq<char>) -> Seq<char> {
    replaced(text, "\\n"@, "\n"@)
}

/// The lines of the metadata.
pub open spec fn metadata_lines(m: MetadataView) -> Seq<Seq<char>> {
    seq![
        "pid="@ + decimal(m.pid as nat) + "\n"@,
        "input="@ + m.input_path + "\n"@,
        "fingerprint="@ + one_line(m.fingerprint) + "\n"@,
        "addr="@ + m.addr + "\n"@,
    ]
}

/// The metadata as text.
pub open spec fn metadata_text(m: MetadataView) -> Seq<char> {
    concat(metadata_lines(m))
}

/// What was read of the metadata so far.
pub struct MetadataFields {
    pub pid: Option<nat>,
    pub input_path: Option<Seq<char>>,
    pub fingerprint: Option<Seq<char>>,
    pub addr: Option<Seq<char>>,
}

/// What is known behind a line. A later line for the same thing replaces an earlier one, and a
/// number that cannot be read takes back one that was read.
pub open spec fn read_field(f: MetadataFields, line: Seq<char>) -> MetadataFields {
    if starts_with(line, "pid="@) {
        MetadataFields { pid: parse_number(value(line, "pid="@), u32::MAX as nat), ..f }
    } else if starts_with(line, "input="@) {
        MetadataFields { input_path: Some(value(line, "input="@)), ..f }
    } else if starts_with(line, "fingerprint="@) {
        MetadataFields { fingerprint: Some(many_lines(value(line, "fingerprint="@))), ..f }
    } else if starts_with(line, "addr="@) {
        MetadataFields { addr: Some(value(line, "addr="@)), ..f }
    } else {
        f
    }
}

/// What is known behind all the lines.
pub open spec fn read_fields(all: Seq<Seq<char>>) -> MetadataFields
    decreases all.len(),
{
    if all.len() == 0 {
        MetadataFields { pid: None, input_path: None, fingerprint: None, addr: None }
    } else {
        read_field(read_fields(all.drop_last()), all.last())
    }
}

/// The metadata that a text holds, where nothing of it is missing.
pub open spec fn metadata(content: Seq<char>) -> Option<MetadataView> {
    let f = read_fields(lines(content));
    match (f.pid, f.input_path, f.fingerprint, f.addr) {
        (Some(pid), Some(input_path), Some(fingerprint), Some(addr)) => Some(
            MetadataView { pid: pid as u32, input_path, fingerprint, addr },
        ),
        _ => None,
    }
}

/// The metadata as text.
pub fn render_metadata(metadata: &GuardMetadata) -> (r: String)
    ensures
        r@ == metadata_text(metadata@),
{
    let mut out = String::new();
    out.push_str("pid=");
    push_decimal(&mut out, metadata.pid as u128);
    out.push_str("\ninput=");
    out.push_str(metadata.input_path.as_str());
    out.push_str("\nfingerprint=");
    let fingerprint = chars_of(metadata.fingerprint.as_str());
    let newline = chars_of("\n");
    let mark = chars_of("\\n");
    let escaped = replace_text(&fingerprint, &newline, &mark);
    push_all(&mut out, &escaped);
    out.push_str("\naddr=");
    out.push_str(metadata.addr.as_str());
    out.push_str("\n");
    proof {
        let all = metadata_lines(metadata@);
        reveal_strlit("input=");
        reveal_strlit("\ninput=");
        reveal_strlit("fingerprint=");
        reveal_strlit("\nfingerprint=");
        reveal_strlit("addr=");
        reveal_strlit("\naddr=");
        reveal_strlit("\n");
        assert("\ninput="@ =~= "\n"@ + "input="@);
        assert("\nfingerprint="@ =~= "\n"@ + "fingerprint="@);
        assert("\naddr="@ =~= "\n"@ + "addr="@);
        reveal_with_fuel(concat, 5);
        assert(concat(all) =~= all[0] + all[1] + all[2] + all[3]);
        assert(out@ =~= all[0] + all[1] + all[2] + all[3]);
    }
    out
}

/// The metadata that `content` holds, where nothing of it is missing.
pub fn parse_metadata(content: &str) -> (r: Option<GuardMetadata>)
    ensures
        match r {
            Some(m) => metadata(content@) == Some(m@),
            None => metadata(content@) is None,
        },
{
    let chars = chars_of(content);
    let all = lines_of(&chars);
    let ghost lines = views(all@);
    let newline = chars_of("\n");
    let mark = chars_of("\\n");
    let mut pid: Option<u32> = None;
    let mut input_path: Option<String> = None;
    let mut fingerprint: Option<String> = None;
    let mut addr: Option<String> = None;
    let mut i: usize = 0;
    assert(lines.take(0) =~= Seq::<Seq<char>>::empty());
    while i < all.len()
        invariant
            i <= all.len(),
            lines == views(all@),
            newline@ == "\n"@,
            mark@ == "\\n"@,
            ({
                let f = read_fields(lines.take(i as int));
                &&& f.pid == match pid {
                    Some(n) => Some(n as nat),
                    None => None,
                }
                &&& f.input_path == match input_path {
                    Some(t) => Some(t@),
                    None => None,
                }
                &&& f.fingerprint == match fingerprint {
                    Some(t) => Some(t@),
                    None => None,
                }
                &&& f.addr == match addr {
                    Some(t) => Some(t@),
                    None => None,
                }
            }),
        decreases all.len() - i,
    {
        let line = &all[i];
        assert(lines.take(i + 1).drop_last() =~= lines.take(i as int));
        assert(lines.take(i + 1).last() == line@);
        if let Some(n) = prefix_len(line, "pid=") {
            let rest = &line[n..line.len()];
            assert(rest@ =~= value(line@, "pid="@));
            pid = read_u32(rest);
        } else if let Some(n) = prefix_len(line, "input=") {
            let rest = &line[n..line.len()];
            assert(rest@ =~= value(line@, "input="@));
            input_path = Some(string_of(rest));
        } else if let Some(n) = prefix_len(line, "fingerprint=") {
            let rest = &line[n..line.len()];
            assert(rest@ =~= value(line@, "fingerprint="@));
            let text = replace_text(rest, &mark, &newline);
            fingerprint = Some(string_of(&text));
        } else if let Some(n) = prefix_len(line, "addr=") {
            let rest = &line[n..line.len()];
            assert(rest@ =~= value(line@, "addr="@));
            addr = Some(string_of(rest));
        }
        i += 1;
    }
    assert(lines.take(i as int) =~= lines);
    match (pid, input_path, fingerprint, addr) {
        (Some(pid), Some(input_path), Some(fingerprint), Some(addr)) => Some(
            GuardMetadata { pid, input_path, fingerprint, addr },
        ),
        _ => None,
    }
}

/// Whether metadata can be told from its text: the texts stand on one line each, and a
/// fingerprint holds no backslash in front of an `n`.
pub open spec fn plain_metadata(m: MetadataView) -> bool {
    &&& !m.input_path.contains('\n')
    &&& !m.addr.contains('\n')
    &&& m.input_path.len() > 0 ==> m.input_path.last() != '\r'
    &&& m.fingerprint.len() > 0 ==> m.fingerprint.last() != '\r'
    &&& m.addr.len() > 0 ==> m.addr.last() != '\r'
    &&& forall|i: int|
        0 <= i < m.fingerprint.len() - 1 && #[trigger] m.fingerprint[i] == '\\'
            ==> m.fingerprint[i + 1] != 'n'
}

/// What stands behind a position does not depend on what stands before it.
proof fn lemma_replaced_shift(s: Seq<char>, p: Seq<char>, to: Seq<char>, i: int, k: int)
    requires
        p.len() > 0,
        0 <= i <= s.len(),
        0 <= k,
    ensures
        replaced_from(s, p, to, i + k) == replaced_from(s.skip(i), p, to, k),
    decreases s.len() - i - k,
{
    let t = s.skip(i);
    if i + k < s.len() {
        if i + k + p.len() <= s.len() {
            assert(s.subrange(i + k, i + k + p.len()) =~= t.subrange(k, k + p.len()));
        }
        assert(matches_at(s, p, i + k) == matches_at(t, p, k));
        if matches_at(s, p, i + k) {
            lemma_replaced_shift(s, p, to, i, k + p.len());
        } else {
            lemma_replaced_shift(s, p, to, i, k + 1);
        }
    }
}

/// A text written on one line holds no newline and can be read back.
proof fn lemma_one_line(f: Seq<char>, i: int)
    requires
        0 <= i <= f.len(),
        forall|i: int| 0 <= i < f.len() - 1 && #[trigger] f[i] == '\\' ==> f[i + 1] != 'n',
    ensures
        ({
            let e = replaced_from(f, "\n"@, "\\n"@, i);
            &&& replaced_from(e, "\\n"@, "\n"@, 0) == f.skip(i)
            &&& !e.contains('\n')
            &&& i < f.len() ==> e.len() > 0 && e[0] == if f[i] == '\n' {
                '\\'
            } else {
                f[i]
            }
            &&& i < f.len() ==> e.last() == if f.last() == '\n' {
                'n'
            } else {
                f.last()
            }
            &&& i == f.len() ==> e.len() == 0
        }),
    decreases f.len() - i,
{
    let one = "\n"@;
    let two = "\\n"@;
    reveal_strlit("\n");
    reveal_strlit("\\n");
    let e = replaced_from(f, one, two, i);
    if i < f.len() {
        lemma_one_line(f, i + 1);
        let rest = replaced_from(f, one, two, i + 1);
        assert(f.subrange(i, i + 1) =~= seq![f[i]]);
        assert(one =~= seq!['\n']);
        if matches_at(f, one, i) {
            assert(f.subrange(i, i + 1)[0] == one[0]);
            assert(f[i] == '\n');
        }
        if f[i] == '\n' {
            assert(matches_at(f, one, i));
            assert(e == two + rest);
            assert(e.skip(2) =~= rest);
            lemma_replaced_shift(e, two, one, 2, 0);
            assert(e.subrange(0, 2) =~= two);
            assert(matches_at(e, two, 0));
            assert(replaced_from(e, two, one, 0) =~= one + replaced_from(rest, two, one, 0));
            assert(one + f.skip(i + 1) =~= f.skip(i));
            if e.contains('\n') {
                let k = e.index_of('\n');
                assert(k >= 2);
                assert(rest[k - 2] == '\n');
            }
        } else {
            assert(e == seq![f[i]] + rest);
            assert(e.skip(1) =~= rest);
            lemma_replaced_shift(e, two, one, 1, 0);
            if matches_at(e, two, 0) {
                assert(e.subrange(0, 2)[0] == e[0]);
                assert(e.subrange(0, 2)[1] == e[1]);
                assert(e[0] == '\\' && e[1] == 'n');
                assert(rest[0] == 'n');
                assert(i + 1 < f.len());
                assert(f[i + 1] == 'n');
            }
            assert(replaced_from(e, two, one, 0) =~= seq![f[i]] + replaced_from(rest, two, one, 0));
            assert(seq![f[i]] + f.skip(i + 1) =~= f.skip(i));
            if e.contains('\n') {
                let k = e.index_of('\n');
                assert(k >= 1);
                assert(rest[k - 1] == '\n');
            }
        }
        if i + 1 == f.len() {
            assert(f.last() == f[i]);
            assert(rest.len() == 0);
        }
    } else {
        assert(f.skip(i) =~= Seq::<char>::empty());
        assert(!e.contains('\n'));
    }
}

proof fn lemma_metadata_line(key: Seq<char>, v: Seq<char>)
    requires
        key.len() > 0,
        key.last() == '=',
        !key.contains('\n'),
        !v.contains('\n'),
        v.len() > 0 ==> v.last() != '\r',
    ensures
        ({
            let line = key + v + "\n"@;
            &&& line.len() > 0
            &&& line.last() == '\n'
            &&& forall|j: int| 0 <= j < line.len() - 1 ==> line[j] != '\n'
            &&& line_body(line) == key + v
            &&& starts_with(key + v, key)
            &&& value(key + v, key) == v
        }),
{
    reveal_strlit("\n");
    let line = key + v + "\n"@;
    assert forall|j: int| 0 <= j < line.len() - 1 implies line[j] != '\n' by {
        if j < key.len() {
            assert(line[j] == key[j]);
        } else {
            assert(line[j] == v[j - key.len()]);
        }
    }
    assert(line.drop_last() =~= key + v);
    assert((key + v).last() != '\r');
    assert((key + v).subrange(0, key.len() as int) =~= key);
    assert(value(key + v, key) =~= v);
}

/// What a watching process writes, another one reads back.
pub proof fn law_metadata_round_trip(m: MetadataView)
    requires
        plain_metadata(m),
    ensures
        metadata(metadata_text(m)) == Some(m),
{
    let all = metadata_lines(m);
    let number = decimal(m.pid as nat);
    let mark = one_line(m.fingerprint);
    reveal_strlit("\n");
    reveal_strlit("\\n");
    reveal_strlit("pid=");
    reveal_strlit("input=");
    reveal_strlit("fingerprint=");
    reveal_strlit("addr=");
    lemma_decimal(m.pid as nat);
    law_decimal_round_trip(m.pid as nat, u32::MAX as nat);
    assert(!number.contains('\n'));
    lemma_one_line(m.fingerprint, 0);
    assert(m.fingerprint.skip(0) =~= m.fingerprint);
    lemma_metadata_line("pid="@, number);
    lemma_metadata_line("input="@, m.input_path);
    lemma_metadata_line("fingerprint="@, mark);
    lemma_metadata_line("addr="@, m.addr);
    assert forall|i: int, j: int|
        0 <= i < all.len() && 0 <= j < all[i].len() - 1 implies #[trigger] all[i][j] != '\n' by {
        assert(i == 0 || i == 1 || i == 2 || i == 3);
    }
    law_chunks_of_concat(all);
    let read = lines(metadata_text(m));
    let a = "pid="@ + number;
    let b = "input="@ + m.input_path;
    let c = "fingerprint="@ + mark;
    let d = "addr="@ + m.addr;
    assert(read =~= seq![a, b, c, d]);
    assert(b[0] == 'i' && c[0] == 'f' && d[0] == 'a');
    lemma_other_key(b, "pid="@);
    lemma_other_key(c, "pid="@);
    lemma_other_key(c, "input="@);
    lemma_other_key(d, "pid="@);
    lemma_other_key(d, "input="@);
    lemma_other_key(d, "fingerprint="@);
    assert(read.drop_last() =~= seq![a, b, c]);
    assert(seq![a, b, c].drop_last() =~= seq![a, b]);
    assert(seq![a, b].drop_last() =~= seq![a]);
    assert(seq![a].drop_last() =~= Seq::<Seq<char>>::empty());
    let f1 = read_fields(seq![a]);
    assert(f1 == read_field(read_fields(seq![a].drop_last()), a));
    let f2 = read_fields(seq![a, b]);
    assert(f2 == read_field(f1, b));
    let f3 = read_fields(seq![a, b, c]);
    assert(f3 == read_field(f2, c));
    assert(read_fields(read) == read_field(f3, d));
}

proof fn lemma_other_key(line: Seq<char>, key: Seq<char>)
    requires
        line.len() > 0,
        key.len() > 0,
        line[0] != key[0],
    ensures
        !starts_with(line, key),
{
    if starts_with(line, key) {
        assert(line.subrange(0, key.len() as int)[0] == line[0]);
    }
}

// ---------------------------------------------------------------------------
// Handing a build over
// ---------------------------------------------------------------------------

/// What was found where the metadata for a document would be.
#[derive(Clone, Debug)]
pub enum GuardLookup {
    NoCacheDir,
    Missing,
    Unreadable,
    Content(String),
}

/// What to do next with a build that another process may take over.
#[derive(Clone, Debug)]
pub enum GuardStep {
    /// Nothing more is to be done.
    Finish(RedirectResult),
    /// The metadata is of no use: it is removed, and no process watches the document.
    Discard,
    /// The process that listens at this address is asked for a build.
    Contact(String),
}

/// What a step holds.
pub enum GuardStepView {
    Finish(RedirectResult),
    Discard,
    Contact(Seq<char>),
}

impl View for GuardStep {
    type V = GuardStepView;

    open spec fn view(&self) -> GuardStepView {
        match self {
            GuardStep::Finish(r) => GuardStepView::Finish(*r),
            GuardStep::Discard => GuardStepView::Discard,
            GuardStep::Contact(a) => GuardStepView::Contact(a@),
        }
    }
}

/// What follows from the text of the metadata.
pub open spec fn step_for(content: Seq<char>, input_path: Seq<char>, call: Seq<char>) -> GuardStepView {
    match metadata(content) {
        None => GuardStepView::Discard,
        Some(m) => if m.input_path != input_path || m.fingerprint != call {
            GuardStepView::Finish(RedirectResult::DifferentOptions)
        } else {
            GuardStepView::Contact(m.addr)
        },
    }
}

/// What to do once the metadata for a document was looked up.
pub fn redirect_step(lookup: &GuardLookup, input_path: &str, fingerprint: &str) -> (r: GuardStep)
    ensures
        r@ == match lookup {
            GuardLookup::NoCacheDir => GuardStepView::Finish(RedirectResult::NoGuard),
            GuardLookup::Missing => GuardStepView::Finish(RedirectResult::NoGuard),
            GuardLookup::Unreadable => GuardStepView::Finish(RedirectResult::IoError),
            GuardLookup::Content(content) => step_for(content@, input_path@, fingerprint@),
        },
{
    match lookup {
        GuardLookup::NoCacheDir => GuardStep::Finish(RedirectResult::NoGuard),
        GuardLookup::Missing => GuardStep::Finish(RedirectResult::NoGuard),
        GuardLookup::Unreadable => GuardStep::Finish(RedirectResult::IoError),
        GuardLookup::Content(content) => {
            match parse_metadata(content.as_str()) {
                None => GuardStep::Discard,
                Some(metadata) => {
                    if !same_text(metadata.input_path.as_str(), input_path) || !same_text(
                        metadata.fingerprint.as_str(),
                        fingerprint,
                    ) {
                        GuardStep::Finish(RedirectResult::DifferentOptions)
                    } else {
                        GuardStep::Contact(metadata.addr)
                    }
                },
            }
        },
    }
}

/// What came of asking for a build, and whether the metadata is to be removed.
pub open spec fn reply_result(reply: Option<Seq<char>>) -> (RedirectResult, bool) {
    match reply {
        None => (RedirectResult::NoGuard, true),
        Some(text) => if trim(text) == "ok"@ {
            (RedirectResult::Redirected, false)
        } else {
            (RedirectResult::IoError, false)
        },
    }
}

/// What came of asking for a build: `reply` is what the process at the address answered, where it
/// could be reached. The second part says whether the metadata is to be removed.
pub fn redirect_result(reply: Option<&str>) -> (r: (RedirectResult, bool))
    ensures
        r == reply_result(crate::text::optional_text(reply)),
{
    match reply {
        None => (RedirectResult::NoGuard, true),
        Some(text) => {
            let chars = chars_of(text);
            let answer = trimmed(&chars);
            if is_text(&answer, "ok") {
                (RedirectResult::Redirected, false)
            } else {
                (RedirectResult::IoError, false)
            }
        },
    }
}

/// What is sent to ask for a build.
pub const REBUILD_REQUEST: &'static str = "rebuild\n";

/// What is sent back once a build was asked for.
pub const REBUILD_ANSWER: &'static str = "ok\n";

/// Whether a request asks for a build.
pub open spec fn asks_for_build(request: Seq<char>) -> bool {
    trim(request) == "rebuild"@
}

/// Whether `request` asks for a build.
pub fn is_rebuild_request(request: &str) -> (r: bool)
    ensures
        r == asks_for_build(request@),
{
    let chars = chars_of(request);
    let text = trimmed(&chars);
    is_text(&text, "rebuild")
}

/// A document that is watched with the same options is found again at the address that was
/// registered, and one that is watched with other options is not.
pub proof fn law_registered_guard_is_found(m: MetadataView, input_path: Seq<char>, call: Seq<char>)
    requires
        plain_metadata(m),
    ensures
        step_for(metadata_text(m), input_path, call) == (if m.input_path == input_path
            && m.fingerprint == call {
            GuardStepView::Contact(m.addr)
        } else {
            GuardStepView::Finish(RedirectResult::DifferentOptions)
        }),
{
    law_metadata_round_trip(m);
}

/// What comes of handing a build over, and how many builds the watcher is asked for. `file` is the
/// text of the metadata, where it is there, and `watcher` the address that a watcher listens at. It
/// answers each request for a build, and what is sent arrives.
pub open spec fn handed_over(
    file: Option<Seq<char>>,
    watcher: Option<Seq<char>>,
    input_path: Seq<char>,
    call: Seq<char>,
) -> (RedirectResult, nat) {
    match file {
        None => (RedirectResult::NoGuard, 0),
        Some(content) => match step_for(content, input_path, call) {
            GuardStepView::Finish(result) => (result, 0),
            GuardStepView::Discard => (RedirectResult::NoGuard, 0),
            GuardStepView::Contact(addr) => if watcher != Some(addr) {
                (reply_result(None).0, 0)
            } else if asks_for_build(REBUILD_REQUEST@) {
                (reply_result(Some(REBUILD_ANSWER@)).0, 1)
            } else {
                (reply_result(Some(Seq::empty())).0, 0)
            },
        },
    }
}

proof fn lemma_line_is_trimmed(line: Seq<char>)
    requires
        line.len() > 0,
        !whitespace(line[0]),
        !whitespace(line.last()),
    ensures
        trim(line.push('\n')) == line,
{
    let all = line.push('\n');
    assert(all[0] == line[0]);
    assert(whitespace('\n'));
    assert(skip_space(all, 0) == 0);
    assert(skip_space_back(all, line.len() as int) == line.len());
    assert(all.subrange(0, line.len() as int) =~= line);
}

/// While a watcher is registered, a call with its options is handed over and asks for one build, and
/// a call with others is told so and asks for none. Once its metadata is gone, there is no watcher.
pub proof fn law_registered_watcher_takes_builds_over(m: MetadataView, call: Seq<char>)
    requires
        plain_metadata(m),
    ensures
        handed_over(Some(metadata_text(m)), Some(m.addr), m.input_path, call) == (if call
            == m.fingerprint {
            (RedirectResult::Redirected, 1nat)
        } else {
            (RedirectResult::DifferentOptions, 0nat)
        }),
        handed_over(None, Some(m.addr), m.input_path, call) == (RedirectResult::NoGuard, 0nat),
{
    law_registered_guard_is_found(m, m.input_path, call);
    reveal_strlit("rebuild");
    reveal_strlit("rebuild\n");
    reveal_strlit("ok");
    reveal_strlit("ok\n");
    assert("rebuild\n"@ =~= "rebuild"@.push('\n'));
    assert("ok\n"@ =~= "ok"@.push('\n'));
    assert(!whitespace('r') && !whitespace('d') && !whitespace('o') && !whitespace('k'));
    lemma_line_is_trimmed("rebuild"@);
    lemma_line_is_trimmed("ok"@);
}

// ---------------------------------------------------------------------------
// Where the metadata is kept
// ---------------------------------------------------------------------------

/// Where the cache is: where it was asked for, else under the cache directory of the user.
pub open spec fn cache_dir_parts(
    configured: Option<Seq<char>>,
    user_cache: Option<PathView>,
    style: PathStyle,
) -> Option<PathView> {
    match configured {
        Some(text) => Some(parsed(style, text)),
        None => match user_cache {
            Some(dir) => Some(child(dir, "faster-beamer"@)),
            None => None,
        },
    }
}

/// Where the cache is: where it was asked for, else under the cache directory of the user.
pub fn configured_cache_dir(
    configured: Option<&str>,
    user_cache: Option<&FilePath>,
    style: PathStyle,
) -> (r: Option<FilePath>)
    ensures
        (match r {
            Some(dir) => Some(dir@),
            None => None,
        }) == cache_dir_parts(
            crate::text::optional_text(configured),
            match user_cache {
                Some(dir) => Some(dir@),
                None => None,
            },
            style,
        ),
{
    match configured {
        Some(text) => Some(FilePath::parse_as(text, style)),
        None => match user_cache {
            Some(dir) => Some(dir.child("faster-beamer")),
            None => None,
        },
    }
}

/// Where metadata is kept, in the cache.
pub open spec fn guard_dir_parts(cache_dir: PathView) -> PathView {
    child(cache_dir, "guards"@)
}

/// Where metadata is kept, in the cache.
pub fn guard_dir(cache_dir: &FilePath) -> (r: FilePath)
    ensures
        r@ == guard_dir_parts(cache_dir@),
{
    cache_dir.child("guards")
}

/// The name of the metadata file for a document whose path has the digest `digest`.
pub fn guard_file_name(digest: &str) -> (r: String)
    ensures
        r@ == digest@ + ".guard"@,
{
    keyed(digest, ".guard")
}

/// Where the metadata for the document at `input_path` is kept.
pub fn guard_metadata_path(cache_dir: &FilePath, input_path: &str) -> (r: FilePath)
    ensures
        r@ == child(
            guard_dir_parts(cache_dir@),
            text_digest(input_path@) + ".guard"@,
        ),
{
    let digest = digest_of(input_path);
    let name = guard_file_name(digest.as_str());
    let dir = guard_dir(cache_dir);
    dir.child(name.as_str())
}

/// Where the watcher can be reached that registered itself with a file, where the file is one of a
/// watcher.
pub open spec fn guarded_address(file_name: Seq<char>, content: Seq<char>) -> Option<Seq<char>> {
    match metadata(content) {
        Some(m) => if ends_with(file_name, ".guard"@) {
            Some(m.addr)
        } else {
            None
        },
        None => None,
    }
}

/// Where the watcher can be reached that registered itself with this file, where the file is one
/// of a watcher.
pub fn watcher_address(file_name: &str, content: &str) -> (r: Option<String>)
    ensures
        match r {
            Some(addr) => guarded_address(file_name@, content@) == Some(addr@),
            None => guarded_address(file_name@, content@) is None,
        },
{
    let name = chars_of(file_name);
    match suffix_start(&name, ".guard") {
        Some(_) => match parse_metadata(content) {
            Some(found) => Some(found.addr),
            None => None,
        },
        None => None,
    }
}

/// The registration of the process that watches the document at `input_path`.
pub fn register_guard(cache_dir: &FilePath, input_path: &str) -> (r: GuardRegistration)
    ensures
        r.metadata_path@ == child(
            guard_dir_parts(cache_dir@),
            text_digest(input_path@) + ".guard"@,
        ),
{
    GuardRegistration { metadata_path: guard_metadata_path(cache_dir, input_path) }
}

/// A build is handed over only to a watcher of the same document with the same options. Metadata
/// that cannot be read in full is discarded, and other options are told as such.
pub proof fn law_builds_go_to_the_matching_watcher(
    content: Seq<char>,
    input_path: Seq<char>,
    call: Seq<char>,
)
    ensures
        step_for(content, input_path, call) is Discard <==> metadata(content) is None,
        metadata(content) is Some && metadata(content)->0.input_path == input_path && metadata(
            content,
        )->0.fingerprint == call ==> step_for(content, input_path, call) == GuardStepView::Contact(
            metadata(content)->0.addr,
        ),
        metadata(content) is Some && (metadata(content)->0.input_path != input_path || metadata(
            content,
        )->0.fingerprint != call) ==> step_for(content, input_path, call)
            == GuardStepView::Finish(RedirectResult::DifferentOptions),
{
}

/// A watcher took the build where it answers `ok`, whatever space is around that. Any other answer
/// is an error, and no answer at all means that there is no watcher any more.
pub proof fn law_answers_decide_the_redirect(reply: Seq<char>)
    ensures
        trim(reply) == "ok"@ ==> reply_result(Some(reply)) == (RedirectResult::Redirected, false),
        trim(reply) != "ok"@ ==> reply_result(Some(reply)) == (RedirectResult::IoError, false),
        reply_result(None) == (RedirectResult::NoGuard, true),
        asks_for_build(reply) <==> trim(reply) == "rebuild"@,
{
}

/// The cache is where it was asked for, and otherwise in its own directory under the cache of the
/// user. Without either there is none.
pub proof fn law_cache_is_where_it_is_asked_for(
    text: Seq<char>,
    user_cache: Option<PathView>,
    dir: PathView,
    style: PathStyle,
)
    ensures
        cache_dir_parts(Some(text), user_cache, style) == Some(parsed(style, text)),
        cache_dir_parts(None, Some(dir), style) == Some(child(dir, "faster-beamer"@)),
        cache_dir_parts(None, None, style) is None,
{
}

/// Metadata without one of its four lines is not taken for metadata.
pub proof fn law_incomplete_metadata_is_none(all: Seq<Seq<char>>, content: Seq<char>)
    requires
        lines(content) == all,
        (forall|i: int| 0 <= i < all.len() ==> !starts_with(#[trigger] all[i], "pid="@)) || (forall|
            i: int,
        |
            0 <= i < all.len() ==> !starts_with(#[trigger] all[i], "input="@)) || (forall|i: int|
            0 <= i < all.len() ==> !starts_with(#[trigger] all[i], "fingerprint="@)) || (forall|
            i: int,
        |
            0 <= i < all.len() ==> !starts_with(#[trigger] all[i], "addr="@)),
    ensures
        metadata(content) is None,
{
    lemma_missing_fields(all);
}

proof fn lemma_missing_fields(all: Seq<Seq<char>>)
    ensures
        (forall|i: int| 0 <= i < all.len() ==> !starts_with(#[trigger] all[i], "pid="@))
            ==> read_fields(all).pid is None,
        (forall|i: int| 0 <= i < all.len() ==> !starts_with(#[trigger] all[i], "input="@))
            ==> read_fields(all).input_path is None,
        (forall|i: int| 0 <= i < all.len() ==> !starts_with(#[trigger] all[i], "fingerprint="@))
            ==> read_fields(all).fingerprint is None,
        (forall|i: int| 0 <= i < all.len() ==> !starts_with(#[trigger] all[i], "addr="@))
            ==> read_fields(all).addr is None,
    decreases all.len(),
{
    if all.len() > 0 {
        let front = all.drop_last();
        lemma_missing_fields(front);
        let last = all[all.len() - 1];
        assert forall|key: Seq<char>|
            (forall|i: int| 0 <= i < all.len() ==> !starts_with(#[trigger] all[i], key)) implies (
        forall|i: int| 0 <= i < front.len() ==> !starts_with(#[trigger] front[i], key))
            && !#[trigger] starts_with(last, key) by {
            assert(!starts_with(all[all.len() - 1], key));
            assert forall|i: int| 0 <= i < front.len() implies !starts_with(
                #[trigger] front[i],
                key,
            ) by {
                assert(!starts_with(all[i], key));
            }
        }
        assert(starts_with(last, "pid="@) || !starts_with(last, "pid="@));
        assert(starts_with(last, "input="@) || !starts_with(last, "input="@));
        assert(starts_with(last, "fingerprint="@) || !starts_with(last, "fingerprint="@));
        assert(starts_with(last, "addr="@) || !starts_with(last, "addr="@));
    }
}

/// What a watching process registers leads others to its address, from a file of a watcher, and no
/// other file does.
pub proof fn law_guard_files_lead_to_the_watcher(stem: Seq<char>, name: Seq<char>, m: MetadataView)
    requires
        plain_metadata(m),
    ensures
        guarded_address(stem + ".guard"@, metadata_text(m)) == Some(m.addr),
        !ends_with(name, ".guard"@) ==> guarded_address(name, metadata_text(m)) is None,
{
    law_metadata_round_trip(m);
    let file = stem + ".guard"@;
    assert(file.skip(file.len() - ".guard"@.len()) =~= ".guard"@);
}

/// Truth values are written as the words that they are read as.
pub proof fn law_truth_values_are_words()
    ensures
        bool_text(true) == "true"@,
        bool_text(false) == "false"@,
{
}

}
