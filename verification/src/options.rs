//! What a call of the program asks for.
use crate::latexcompile::{
    at_least_once, engine_name, tool_name, BibliographyTool, LatexEngine, LatexRunOptions,
};
use crate::numbers::{
    decimal, decimal_string, law_decimal_round_trip, parse_number, read_usize,
};
use crate::path_parts::PathStyle;
use crate::paths::{extension, parsed, with_extension, FilePath, PathView};
use crate::search::{is_text_ignoring_case, same_ignoring_case};
use crate::text::{chars_of, is_text, optional_text, owned};
use vstd::prelude::*;

verus! {

/// How the frames are put together.
#[derive(Clone, Copy, Debug, PartialEq, Eq, Structural)]
pub enum BuildMode {
    /// Only the frame that changed is shown.
    Preview,
    /// The source is typeset again with the frames in it.
    TexUnite,
    /// The PDFs of the frames are joined.
    PdfUnite,
    /// The PDFs of the frames are joined, and so are their SyncTeX files.
    PdfUniteSynctex,
}

/// The mode that the flags ask for.
pub open spec fn requested_mode(pdfunite_synctex: bool, pdfunite: bool, tex_unite: bool) -> BuildMode {
    if pdfunite_synctex {
        BuildMode::PdfUniteSynctex
    } else if pdfunite {
        BuildMode::PdfUnite
    } else if tex_unite {
        BuildMode::TexUnite
    } else {
        BuildMode::Preview
    }
}

/// The mode that the flags ask for.
pub fn build_mode(pdfunite_synctex: bool, pdfunite: bool, tex_unite: bool) -> (r: BuildMode)
    ensures
        r == requested_mode(pdfunite_synctex, pdfunite, tex_unite),
{
    if pdfunite_synctex {
        BuildMode::PdfUniteSynctex
    } else if pdfunite {
        BuildMode::PdfUnite
    } else if tex_unite {
        BuildMode::TexUnite
    } else {
        BuildMode::Preview
    }
}

/// A mode in a word.
pub fn build_mode_label(mode: BuildMode) -> (r: &'static str)
    ensures
        r@ == match mode {
            BuildMode::PdfUniteSynctex => "pdfunite-synctex"@,
            BuildMode::PdfUnite => "pdfunite"@,
            BuildMode::TexUnite => "tex-unite"@,
            BuildMode::Preview => "preview"@,
        },
{
    match mode {
        BuildMode::PdfUniteSynctex => "pdfunite-synctex",
        BuildMode::PdfUnite => "pdfunite",
        BuildMode::TexUnite => "tex-unite",
        BuildMode::Preview => "preview",
    }
}

/// A bibliography program in a word.
pub fn bibliography_label(bibliography: Option<BibliographyTool>) -> (r: &'static str)
    ensures
        r@ == match bibliography {
            Some(BibliographyTool::Bibtex) => "bibtex"@,
            Some(BibliographyTool::Biber) => "biber"@,
            None => "off"@,
        },
{
    match bibliography {
        Some(BibliographyTool::Bibtex) => "bibtex",
        Some(BibliographyTool::Biber) => "biber",
        None => "off",
    }
}

/// The bibliography program that is asked for.
pub open spec fn requested_tool(name: Option<Seq<char>>) -> Option<BibliographyTool> {
    match name {
        Some(t) => if t == "bibtex"@ {
            Some(BibliographyTool::Bibtex)
        } else if t == "biber"@ {
            Some(BibliographyTool::Biber)
        } else {
            None
        },
        None => None,
    }
}

/// The bibliography program that is asked for.
pub fn bibliography_tool(name: Option<&str>) -> (r: Option<BibliographyTool>)
    ensures
        r == requested_tool(optional_text(name)),
{
    match name {
        Some(text) => {
            let chars = chars_of(text);
            if is_text(&chars, "bibtex") {
                Some(BibliographyTool::Bibtex)
            } else if is_text(&chars, "biber") {
                Some(BibliographyTool::Biber)
            } else {
                None
            }
        },
        None => None,
    }
}

/// How often LaTeX runs: once, unless more is asked for. A count that cannot be read, or none at
/// all, means two.
pub open spec fn pass_count(multi_pass: bool, count: Option<Seq<char>>) -> nat {
    if !multi_pass {
        1
    } else {
        match count {
            None => 2,
            Some(text) => match parse_number(text, usize::MAX as nat) {
                None => 2,
                Some(n) => if n < 1 {
                    1
                } else {
                    n
                },
            },
        }
    }
}

/// How often LaTeX runs.
pub fn latex_pass_count(multi_pass: bool, count: Option<&str>) -> (r: usize)
    ensures
        r == pass_count(multi_pass, optional_text(count)),
{
    if !multi_pass {
        return 1;
    }
    match count {
        None => 2,
        Some(text) => {
            let chars = chars_of(text);
            match read_usize(&chars) {
                None => 2,
                Some(n) => if n < 1 {
                    1
                } else {
                    n
                },
            }
        },
    }
}

/// How often LaTeX runs behind a bibliography program: as often as asked for, and twice where
/// nothing is asked for.
pub open spec fn passes_behind(latex_pass_count: usize, multi_pass: bool) -> nat {
    if multi_pass {
        latex_pass_count as nat
    } else if latex_pass_count < 2 {
        2
    } else {
        latex_pass_count as nat
    }
}

/// The runs that a call asks for. Behind a bibliography program LaTeX runs as often as asked for,
/// and twice where nothing is asked for.
pub fn latex_run_options(
    latex_pass_count: usize,
    multi_pass: bool,
    bibliography: Option<BibliographyTool>,
) -> (r: LatexRunOptions)
    ensures
        r.latex_pass_count == at_least_once(latex_pass_count),
        r.bibliography_tool == bibliography,
        r.later_passes() == passes_behind(latex_pass_count, multi_pass),
{
    LatexRunOptions::new().with_latex_pass_count(latex_pass_count).with_bibliography_tool(
        bibliography,
    ).with_passes_after_bibliography(
        if multi_pass {
            Some(latex_pass_count)
        } else {
            None
        },
    )
}

/// Without a bibliography LaTeX runs as often as asked for, else once. With one it runs once in
/// front of the bibliography program, and behind it as often as asked for, else twice.
pub proof fn law_passes_follow_the_request(multi_pass: bool, count: Option<Seq<char>>)
    ensures
        pass_count(multi_pass, count) >= 1,
        !multi_pass ==> pass_count(multi_pass, count) == 1,
        multi_pass && count is None ==> pass_count(multi_pass, count) == 2,
        forall|n: nat|
            multi_pass && count is Some && n >= 1 && parse_number(count->0, usize::MAX as nat)
                == Some(n) ==> pass_count(multi_pass, count) == n,
{
}

/// The LaTeX program that is asked for; `pdflatex` where none is, or one that is not known.
pub fn latex_engine(name: Option<&str>) -> (r: LatexEngine)
    ensures
        match optional_text(name) {
            Some(t) => engine_name(r) == t || (r == LatexEngine::PdfLatex && forall|e: LatexEngine|
                #[trigger] engine_name(e) != t),
            None => r == LatexEngine::PdfLatex,
        },
{
    match name {
        Some(text) => match LatexEngine::from_name(text) {
            Some(engine) => engine,
            None => LatexEngine::PdfLatex,
        },
        None => LatexEngine::PdfLatex,
    }
}

/// Whether the preamble is dumped to a format: as asked for, else as is usual for the program.
pub open spec fn dumps_preamble(
    precompile: bool,
    no_precompile: bool,
    latex_engine: LatexEngine,
) -> bool {
    if precompile {
        true
    } else if no_precompile {
        false
    } else {
        latex_engine != LatexEngine::XeLatex
    }
}

/// Whether the preamble is dumped to a format: as asked for, else as is usual for the program.
pub fn precompile_preamble(
    precompile: bool,
    no_precompile: bool,
    latex_engine: LatexEngine,
) -> (r: bool)
    ensures
        r == dumps_preamble(precompile, no_precompile, latex_engine),
{
    if precompile {
        true
    } else if no_precompile {
        false
    } else {
        latex_engine.precompiles_preamble_by_default()
    }
}

/// How many jobs run at once, where a number is asked for that can be read.
pub fn parallel_job_count(jobs: Option<&str>) -> (r: Option<usize>)
    ensures
        (match r {
            Some(n) => Some(n as nat),
            None => None,
        }) == match optional_text(jobs) {
            Some(t) => parse_number(t, usize::MAX as nat),
            None => None,
        },
{
    match jobs {
        Some(text) => {
            let chars = chars_of(text);
            read_usize(&chars)
        },
        None => None,
    }
}

/// How many jobs of `lualatex` run at once where no number is asked for.
pub const LUALATEX_AUTO_PARALLEL_JOBS: usize = 3;

/// How many jobs run at once: as many as asked for. Where only parallel jobs are asked for,
/// `lualatex` is held to a few.
pub open spec fn job_limit(
    latex_engine: LatexEngine,
    parallel_requested: bool,
    explicit_job_count: Option<usize>,
) -> Option<usize> {
    match explicit_job_count {
        Some(n) => Some(n),
        None => if parallel_requested && latex_engine == LatexEngine::LuaLatex {
            Some(LUALATEX_AUTO_PARALLEL_JOBS)
        } else {
            None
        },
    }
}

/// How many jobs run at once: as many as asked for. Where only parallel jobs are asked for,
/// `lualatex` is held to a few.
pub fn effective_parallel_job_count(
    latex_engine: LatexEngine,
    parallel_requested: bool,
    explicit_job_count: Option<usize>,
) -> (r: Option<usize>)
    ensures
        r == job_limit(latex_engine, parallel_requested, explicit_job_count),
{
    match explicit_job_count {
        Some(n) => Some(n),
        None => if parallel_requested && latex_engine == LatexEngine::LuaLatex {
            Some(LUALATEX_AUTO_PARALLEL_JOBS)
        } else {
            None
        },
    }
}

/// Whether frames are compiled in parallel: where that was asked for, or a number of jobs.
pub open spec fn in_parallel(parallel_requested: bool, job_count: Option<usize>) -> bool {
    parallel_requested || job_count is Some
}

/// Whether frames are compiled in parallel: where that was asked for, or a number of jobs.
pub fn uses_parallel(parallel_requested: bool, job_count: Option<usize>) -> (r: bool)
    ensures
        r == in_parallel(parallel_requested, job_count),
{
    parallel_requested || job_count.is_some()
}

/// Whether fewer jobs run at once than could, because of the engine alone.
pub fn is_auto_parallel_capped(
    latex_engine: LatexEngine,
    parallel_requested: bool,
    explicit_job_count: Option<usize>,
) -> (r: bool)
    ensures
        r == (parallel_requested && explicit_job_count is None && latex_engine
            == LatexEngine::LuaLatex),
{
    parallel_requested && explicit_job_count.is_none() && latex_engine == LatexEngine::LuaLatex
}

/// How many jobs run at once, in words.
pub open spec fn jobs_told(job_count: Option<usize>, use_parallel: bool) -> Seq<char> {
    match job_count {
        Some(n) => decimal(n as nat) + " jobs"@,
        None => if use_parallel {
            "auto"@
        } else {
            "off"@
        },
    }
}

/// How many jobs run at once, in words.
pub fn parallel_label(job_count: Option<usize>, use_parallel: bool) -> (r: String)
    ensures
        r@ == jobs_told(job_count, use_parallel),
{
    match job_count {
        Some(n) => {
            let mut out = decimal_string(n as u128);
            out.push_str(" jobs");
            out
        },
        None => if use_parallel {
            owned("auto")
        } else {
            owned("off")
        },
    }
}

/// Whether a text is a count that may be asked for: a number of at least one.
pub open spec fn positive_count(value: Seq<char>) -> bool {
    parse_number(value, usize::MAX as nat) matches Some(n) && n > 0
}

/// Whether a text is a count that may be asked for: a number of at least one.
pub fn is_positive_count(value: &str) -> (r: bool)
    ensures
        r == positive_count(value@),
{
    let chars = chars_of(value);
    match read_usize(&chars) {
        Some(n) => n > 0,
        None => false,
    }
}

// ---------------------------------------------------------------------------
// Files
// ---------------------------------------------------------------------------

/// Whether a path has the extension of a LaTeX source, in whatever case.
pub open spec fn is_tex(parts: PathView) -> bool {
    match extension(parts) {
        Some(ext) => same_ignoring_case(ext, "tex"@),
        None => false,
    }
}

/// Whether a path has the extension of a LaTeX source, in whatever case.
pub fn has_tex_extension(path: &FilePath) -> (r: bool)
    ensures
        r == is_tex(path@),
{
    match path.extension() {
        Some(ext) => {
            let chars = chars_of(ext.as_str());
            is_text_ignoring_case(&chars, "tex")
        },
        None => false,
    }
}

/// The source that `input_file` means: the file itself where it exists or has the extension of a
/// source, else the file with the extension added.
pub open spec fn input_source(input_file: Seq<char>, is_file: bool, style: PathStyle) -> PathView {
    if is_file || is_tex(parsed(style, input_file)) {
        parsed(style, input_file)
    } else {
        parsed(style, input_file + ".tex"@)
    }
}

/// The source that `input_file` means. `is_file` says whether there is a file of that very name.
pub fn resolve_input_file(input_file: &str, is_file: bool, style: PathStyle) -> (r: FilePath)
    ensures
        r@ == input_source(input_file@, is_file, style),
{
    let path = FilePath::parse_as(input_file, style);
    if is_file || has_tex_extension(&path) {
        path
    } else {
        let mut text = owned(input_file);
        text.push_str(".tex");
        FilePath::parse_as(text.as_str(), style)
    }
}

/// The output for a source: its path with the extension of a PDF.
pub open spec fn default_output(input: PathView) -> Seq<char> {
    with_extension(input, "pdf"@).text
}

/// The output for a source: its path with the extension of a PDF.
pub fn default_output_file(input_path: &FilePath) -> (r: String)
    ensures
        r@ == default_output(input_path@),
{
    let pdf = input_path.with_extension("pdf");
    pdf.text
}

/// The output that is asked for, by its option or by its place among the arguments. Where none
/// is, it follows from the source.
pub open spec fn requested_output(
    output: Option<Seq<char>>,
    positional: Option<Seq<char>>,
    input: PathView,
) -> Seq<char> {
    match output {
        Some(t) => t,
        None => match positional {
            Some(t) => t,
            None => default_output(input),
        },
    }
}

/// The output that is asked for, by its option or by its place among the arguments. Where none
/// is, it follows from the source.
pub fn output_file_arg(
    output: Option<&str>,
    positional: Option<&str>,
    input_path: &FilePath,
) -> (r: String)
    ensures
        r@ == requested_output(
            optional_text(output),
            optional_text(positional),
            input_path@,
        ),
{
    match output {
        Some(text) => owned(text),
        None => match positional {
            Some(text) => owned(text),
            None => default_output_file(input_path),
        },
    }
}

// ---------------------------------------------------------------------------
// What requests lead to
// ---------------------------------------------------------------------------

/// The flag that asks for more decides: SyncTeX files are merged wherever that is asked for, PDFs
/// joined wherever that is and the former is not, and a preview is made only where nothing is asked
/// for.
pub proof fn law_flags_choose_the_mode(pdfunite: bool, tex_unite: bool)
    ensures
        requested_mode(true, pdfunite, tex_unite) == BuildMode::PdfUniteSynctex,
        requested_mode(false, true, tex_unite) == BuildMode::PdfUnite,
        requested_mode(false, false, true) == BuildMode::TexUnite,
        requested_mode(false, false, false) == BuildMode::Preview,
{
}

/// A bibliography program is found by its name, and none where no name or another one is given.
pub proof fn law_bibliography_programs_are_found_by_name(tool: BibliographyTool, name: Seq<char>)
    ensures
        requested_tool(Some(tool_name(tool))) == Some(tool),
        requested_tool(None) is None,
        requested_tool(Some(name)) is Some ==> tool_name(requested_tool(Some(name))->0) == name,
        (forall|t: BibliographyTool| #[trigger] tool_name(t) != name) ==> requested_tool(
            Some(name),
        ) is None,
{
    reveal_strlit("bibtex");
    reveal_strlit("biber");
    assert("bibtex"@.len() == 6 && "biber"@.len() == 5);
    assert(tool_name(BibliographyTool::Bibtex) == "bibtex"@);
    assert(tool_name(BibliographyTool::Biber) == "biber"@);
}

/// A number of passes is kept: a decimal number is how often LaTeX runs, and zero means once.
pub proof fn law_pass_counts_are_read(n: usize)
    ensures
        n >= 1 ==> pass_count(true, Some(decimal(n as nat))) == n,
        pass_count(true, Some(decimal(0))) == 1,
        pass_count(false, Some(decimal(n as nat))) == 1,
        pass_count(true, None) == 2,
        pass_count(true, Some("many"@)) == 2,
{
    law_decimal_round_trip(n as nat, usize::MAX as nat);
    law_decimal_round_trip(0, usize::MAX as nat);
    reveal_strlit("many");
    assert(!crate::search::ascii_digit("many"@[0]));
}

/// A request for or against a format decides, the one for it first. Without one, all programs but
/// `xelatex` use a format.
pub proof fn law_requests_decide_on_the_format(no_precompile: bool, engine: LatexEngine)
    ensures
        dumps_preamble(true, no_precompile, engine),
        !dumps_preamble(false, true, engine),
        dumps_preamble(false, false, engine) <==> engine != LatexEngine::XeLatex,
{
}

/// A number of jobs is kept, whatever the program. Without one `lualatex` is held to three jobs
/// where parallel jobs are asked for, and nothing is limited otherwise.
pub proof fn law_job_counts_are_kept(engine: LatexEngine, parallel: bool, n: usize)
    ensures
        job_limit(engine, parallel, Some(n)) == Some(n),
        job_limit(LatexEngine::LuaLatex, true, None) == Some(3usize),
        engine != LatexEngine::LuaLatex ==> job_limit(engine, parallel, None) is None,
        job_limit(engine, false, None) is None,
        in_parallel(parallel, Some(n)),
        in_parallel(true, None),
        !in_parallel(false, None),
{
}

/// The output is the one that is asked for, by its option first. Where none is, it stands next to
/// the source under the name of the source.
pub proof fn law_outputs_follow_the_request(
    output: Seq<char>,
    positional: Option<Seq<char>>,
    other: Seq<char>,
    input: PathView,
)
    ensures
        requested_output(Some(output), positional, input) == output,
        requested_output(None, Some(other), input) == other,
        requested_output(None, None, input) == with_extension(input, "pdf"@).text,
{
}

/// A source is taken by its very name where it is a file or ends in `.tex`. Otherwise the extension
/// is added, and what results ends in it.
pub proof fn law_sources_are_found_with_or_without_extension(input: Seq<char>, style: PathStyle)
    ensures
        input_source(input, true, style) == parsed(style, input),
        is_tex(parsed(style, input)) ==> input_source(input, false, style) == parsed(style, input),
        !is_tex(parsed(style, input)) ==> input_source(input, false, style) == parsed(
            style,
            input + ".tex"@,
        ),
{
}

/// LaTeX runs at least once. A number of passes that is asked for holds before and behind a
/// bibliography program; where none is asked for, LaTeX runs at least twice behind it, and never less
/// often than without one.
pub proof fn law_passes_behind_a_bibliography(count: usize)
    ensures
        at_least_once(count) >= 1,
        count >= 1 ==> at_least_once(count) == count,
        passes_behind(count, true) == count,
        passes_behind(count, false) >= 2,
        passes_behind(count, false) >= count,
        count >= 2 ==> passes_behind(count, false) == count,
        count < 2 ==> passes_behind(count, false) == 2,
{
}

/// A number of jobs is told, and otherwise whether jobs run at once at all.
pub proof fn law_job_counts_are_told(n: usize, use_parallel: bool)
    ensures
        decimal(n as nat).is_prefix_of(jobs_told(Some(n), use_parallel)),
        jobs_told(Some(n), use_parallel).skip(decimal(n as nat).len() as int) == " jobs"@,
        jobs_told(None, true) == "auto"@,
        jobs_told(None, false) == "off"@,
{
    let told = jobs_told(Some(n), use_parallel);
    let number = decimal(n as nat);
    assert(told.take(number.len() as int) =~= number);
    assert(told.skip(number.len() as int) =~= " jobs"@);
}

/// Decimal numbers of at least one may be asked for, and zero may not.
pub proof fn law_counts_start_at_one(n: usize)
    ensures
        n >= 1 ==> positive_count(decimal(n as nat)),
        !positive_count(decimal(0)),
        !positive_count(Seq::empty()),
{
    law_decimal_round_trip(n as nat, usize::MAX as nat);
    law_decimal_round_trip(0, usize::MAX as nat);
}

/// A LaTeX source is told by its extension `tex`, in whatever case, and by nothing else.
pub proof fn law_sources_are_told_by_their_extension(path: PathView)
    ensures
        is_tex(path) <==> extension(path) is Some && extension(path)->0.len() == 3 && (extension(
            path,
        )->0[0] == 't' || extension(path)->0[0] == 'T') && (extension(path)->0[1] == 'e'
            || extension(path)->0[1] == 'E') && (extension(path)->0[2] == 'x' || extension(
            path,
        )->0[2] == 'X'),
{
    reveal_strlit("tex");
    if let Some(ext) = extension(path) {
        if ext.len() == 3 {
            let lower = crate::search::ascii_lower(ext[0]);
            let next = crate::search::ascii_lower(ext[1]);
            let last = crate::search::ascii_lower(ext[2]);
            assert(lower == 't' <==> ext[0] == 't' || ext[0] == 'T');
            assert(next == 'e' <==> ext[1] == 'e' || ext[1] == 'E');
            assert(last == 'x' <==> ext[2] == 'x' || ext[2] == 'X');
        }
    }
}

}
