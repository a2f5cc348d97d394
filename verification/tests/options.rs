use faster_beamer::latexcompile::{BibliographyTool, LatexEngine};
use faster_beamer::options::{
    bibliography_label, bibliography_tool, build_mode, build_mode_label, default_output_file,
    effective_parallel_job_count, has_tex_extension, is_positive_count, latex_engine,
    latex_pass_count, latex_run_options, output_file_arg, parallel_job_count, parallel_label,
    is_auto_parallel_capped, precompile_preamble, resolve_input_file, uses_parallel, BuildMode,
    LUALATEX_AUTO_PARALLEL_JOBS,
};
use faster_beamer::path_parts::PathStyle;
use faster_beamer::paths::FilePath;

#[test]
fn resolve_input_file_appends_tex_when_bare_input_is_missing() {
    assert_eq!(
        resolve_input_file("/tmp/deck/slides", false, PathStyle::Unix),
        FilePath::parse("/tmp/deck/slides.tex")
    );
}

#[test]
fn resolve_input_file_keeps_existing_bare_input() {
    assert_eq!(
        resolve_input_file("/tmp/deck/slides", true, PathStyle::Unix),
        FilePath::parse("/tmp/deck/slides")
    );
}

#[test]
fn resolve_input_file_keeps_explicit_tex_input() {
    assert_eq!(
        resolve_input_file("/tmp/deck/slides.tex", false, PathStyle::Unix),
        FilePath::parse("/tmp/deck/slides.tex")
    );
}

#[test]
fn lualatex_parallel_auto_is_capped() {
    assert_eq!(
        effective_parallel_job_count(LatexEngine::LuaLatex, true, None),
        Some(LUALATEX_AUTO_PARALLEL_JOBS)
    );
}

#[test]
fn explicit_parallel_job_count_overrides_lualatex_cap() {
    assert_eq!(
        effective_parallel_job_count(LatexEngine::LuaLatex, true, Some(8)),
        Some(8)
    );
}

#[test]
fn other_engines_run_as_many_jobs_as_fit() {
    assert_eq!(effective_parallel_job_count(LatexEngine::PdfLatex, true, None), None);
    assert_eq!(effective_parallel_job_count(LatexEngine::LuaLatex, false, None), None);
    assert_eq!(
        effective_parallel_job_count(LatexEngine::XeLatex, false, Some(2)),
        Some(2)
    );
    assert!(uses_parallel(true, None));
    assert!(uses_parallel(false, Some(2)));
    assert!(!uses_parallel(false, None));
    assert!(is_auto_parallel_capped(LatexEngine::LuaLatex, true, None));
    assert!(!is_auto_parallel_capped(LatexEngine::LuaLatex, true, Some(8)));
    assert!(!is_auto_parallel_capped(LatexEngine::XeLatex, true, None));
    assert_eq!(parallel_label(Some(2), true), "2 jobs");
    assert_eq!(parallel_label(None, true), "auto");
    assert_eq!(parallel_label(None, false), "off");
    assert_eq!(parallel_job_count(Some("7")), Some(7));
    assert_eq!(parallel_job_count(Some("seven")), None);
    assert_eq!(parallel_job_count(None), None);
}

#[test]
fn extensions_are_compared_without_case() {
    assert!(has_tex_extension(&FilePath::parse("a/b.TeX")));
    assert!(!has_tex_extension(&FilePath::parse("a/b.text")));
    assert!(!has_tex_extension(&FilePath::parse(".tex")));
    assert_eq!(resolve_input_file("s.TEX", false, PathStyle::Unix), FilePath::parse("s.TEX"));
    assert_eq!(
        resolve_input_file("slides.v2", false, PathStyle::Unix),
        FilePath::parse("slides.v2.tex")
    );
}

#[test]
fn the_output_is_named_after_the_source() {
    let input = FilePath::parse("deck/slides.tex");
    assert_eq!(default_output_file(&input), "deck/slides.pdf");
    assert_eq!(output_file_arg(None, None, &input), "deck/slides.pdf");
    let doubled = resolve_input_file("a//b", false, PathStyle::Unix);
    assert_eq!(default_output_file(&doubled), "a//b.pdf");
    let drive = resolve_input_file(r"C:\deck\slides", false, PathStyle::Windows);
    assert_eq!(default_output_file(&drive), r"C:\deck\slides.pdf");
    assert_eq!(output_file_arg(Some("o.pdf"), None, &input), "o.pdf");
    assert_eq!(output_file_arg(None, Some("p.pdf"), &input), "p.pdf");
    assert_eq!(output_file_arg(Some("o.pdf"), Some("p.pdf"), &input), "o.pdf");
}

#[test]
fn one_mode_is_built_at_a_time() {
    assert_eq!(build_mode(false, false, false), BuildMode::Preview);
    assert_eq!(build_mode(false, false, true), BuildMode::TexUnite);
    assert_eq!(build_mode(false, true, false), BuildMode::PdfUnite);
    assert_eq!(build_mode(true, false, false), BuildMode::PdfUniteSynctex);
    assert_eq!(build_mode(true, true, true), BuildMode::PdfUniteSynctex);
    assert_eq!(build_mode_label(BuildMode::Preview), "preview");
    assert_eq!(build_mode_label(BuildMode::TexUnite), "tex-unite");
    assert_eq!(build_mode_label(BuildMode::PdfUnite), "pdfunite");
    assert_eq!(build_mode_label(BuildMode::PdfUniteSynctex), "pdfunite-synctex");
}

#[test]
fn passes_are_counted_as_asked_for() {
    assert_eq!(latex_pass_count(false, None), 1);
    assert_eq!(latex_pass_count(true, None), 2);
    assert_eq!(latex_pass_count(true, Some("5")), 5);
    assert_eq!(latex_pass_count(true, Some("0")), 1);
    assert_eq!(latex_pass_count(true, Some("x")), 2);
    assert!(is_positive_count("1"));
    assert!(is_positive_count("+12"));
    assert!(!is_positive_count("0"));
    assert!(!is_positive_count("-1"));
    assert!(!is_positive_count(""));
    assert!(!is_positive_count("99999999999999999999999"));

    let plain = latex_run_options(1, false, Some(BibliographyTool::Biber));
    assert_eq!(plain.latex_pass_count, 1);
    assert_eq!(plain.passes_after_bibliography, None);
    let asked = latex_run_options(1, true, Some(BibliographyTool::Biber));
    assert_eq!(asked.passes_after_bibliography, Some(1));
}

#[test]
fn tools_are_known_by_name() {
    assert_eq!(bibliography_tool(Some("bibtex")), Some(BibliographyTool::Bibtex));
    assert_eq!(bibliography_tool(Some("biber")), Some(BibliographyTool::Biber));
    assert_eq!(bibliography_tool(Some("other")), None);
    assert_eq!(bibliography_tool(None), None);
    assert_eq!(bibliography_label(Some(BibliographyTool::Bibtex)), "bibtex");
    assert_eq!(bibliography_label(Some(BibliographyTool::Biber)), "biber");
    assert_eq!(bibliography_label(None), "off");
    assert_eq!(latex_engine(None), LatexEngine::PdfLatex);
    assert_eq!(latex_engine(Some("lualatex")), LatexEngine::LuaLatex);
    assert_eq!(latex_engine(Some("xelatex")), LatexEngine::XeLatex);
    assert_eq!(latex_engine(Some("tex")), LatexEngine::PdfLatex);
}

#[test]
fn preambles_are_dumped_where_that_works() {
    assert!(precompile_preamble(true, true, LatexEngine::XeLatex));
    assert!(!precompile_preamble(false, true, LatexEngine::PdfLatex));
    assert!(precompile_preamble(false, false, LatexEngine::PdfLatex));
    assert!(!precompile_preamble(false, false, LatexEngine::XeLatex));
}
