use faster_beamer::latexcompile::{
    check_command_end, check_command_output, decode_text, next_command, tex_path_arg,
    BibliographyTool, CommandEnd, LatexCompiler, LatexEngine, LatexError, LatexInput, LatexRun,
    LatexRunOptions, RunStep,
};
use faster_beamer::path_parts::PathStyle;
use faster_beamer::paths::FilePath;

fn path(text: &str) -> FilePath {
    FilePath::parse(text)
}

#[test]
fn engines_are_known_by_name() {
    for (name, engine) in [
        ("pdflatex", LatexEngine::PdfLatex),
        ("lualatex", LatexEngine::LuaLatex),
        ("xelatex", LatexEngine::XeLatex),
    ] {
        assert_eq!(LatexEngine::from_name(name), Some(engine));
        assert_eq!(engine.command_name(), name);
    }
    assert_eq!(LatexEngine::from_name("latex"), None);
    assert_eq!(BibliographyTool::Bibtex.command_name(), "bibtex");
    assert_eq!(BibliographyTool::Biber.command_name(), "biber");
    assert!(LatexEngine::PdfLatex.precompiles_preamble_by_default());
    assert!(!LatexEngine::XeLatex.precompiles_preamble_by_default());
}

#[test]
fn commands_are_put_together() {
    let compiler = LatexCompiler::new_in(path("/cache"))
        .add_arg("-a")
        .add_args(&["-b".to_string()]);
    let command = compiler.get_cmd(&path("x/main.tex"));
    assert_eq!(command.program, "pdflatex");
    assert_eq!(
        command.args,
        vec!["-interaction=nonstopmode", "-synctex=5", "-a", "-b", "x/main.tex"]
    );
    assert_eq!(command.current_dir, path("/cache"));
    assert_eq!(command.target, "x/main.tex");

    let elsewhere = compiler.with_current_dir(path("/deck"));
    let command = elsewhere.get_cmd(&path("main.tex"));
    assert_eq!(
        command.args,
        vec![
            "-interaction=nonstopmode",
            "-synctex=5",
            "-a",
            "-b",
            "-output-directory=/cache",
            "main.tex"
        ]
    );
    assert_eq!(command.current_dir, path("/deck"));

    let bibliography = elsewhere.bibliography_cmd(BibliographyTool::Biber, "main");
    assert_eq!(bibliography.program, "biber");
    assert_eq!(bibliography.args, vec!["main"]);
    assert_eq!(bibliography.current_dir, path("/cache"));
    assert_eq!(tex_path_arg(&path("/a/b")), "/a/b");
}

#[test]
fn passes_come_in_order() {
    let compiler = LatexCompiler::new_in_with_engine(path("/cache"), LatexEngine::XeLatex);
    let programs = |options: LatexRunOptions| {
        compiler
            .run(&path("main.tex"), &LatexInput::new(), options)
            .unwrap()
            .commands
            .iter()
            .map(|command| command.program.clone())
            .collect::<Vec<String>>()
    };
    assert_eq!(programs(LatexRunOptions::new()), vec!["xelatex"]);
    assert_eq!(
        programs(LatexRunOptions::new().with_latex_pass_count(0)),
        vec!["xelatex"]
    );
    assert_eq!(
        programs(LatexRunOptions::new().with_latex_pass_count(2)),
        vec!["xelatex", "xelatex"]
    );
    let cited = LatexRunOptions::new().with_bibliography_tool(Some(BibliographyTool::Bibtex));
    assert_eq!(programs(cited), vec!["xelatex", "bibtex", "xelatex", "xelatex"]);
    assert_eq!(
        programs(cited.with_passes_after_bibliography(Some(1))),
        vec!["xelatex", "bibtex", "xelatex"]
    );
    let run = compiler
        .run(&path("a/main.tex"), &LatexInput::new(), cited)
        .unwrap();
    assert_eq!(run.output, path("/cache/main.pdf"));
    assert_eq!(run.commands[1].args, vec!["main"]);
}

#[test]
fn a_source_needs_a_name() {
    let compiler = LatexCompiler::new_in(path("/cache"));
    let error = compiler
        .run(&path("/a/.."), &LatexInput::new(), LatexRunOptions::new())
        .unwrap_err();
    assert_eq!(error.message(), "General failure: Failed to derive job name from /a/...");
}

#[test]
fn failures_say_what_the_program_said() {
    let check = |success: bool, stdout: &[u8], stderr: &[u8]| {
        check_command_output(success, stdout, stderr, "biber", "main")
    };
    assert!(check(true, b"x", b"y").is_ok());
    let message = |stdout: &[u8], stderr: &[u8]| match check(false, stdout, stderr) {
        Err(LatexError::LatexError(text)) => text,
        _ => panic!("expected a failure"),
    };
    assert_eq!(message(b"out", b" err\n"), "biber failed for main: err");
    assert_eq!(message(b"\tout ", b" \n"), "biber failed for main: out");
    assert_eq!(message(b"", b"\xff"), "biber failed for main");
    assert_eq!(decode_text("\u{20ac}".as_bytes()), Some("\u{20ac}".to_string()));
    assert_eq!(decode_text(b"a\xc3"), None);
    assert_eq!(LatexError::Input("x".to_string()).message(), "Failed to convert input x");
    assert_eq!(LatexError::Io("x".to_string()).message(), "x");
}

#[test]
fn inputs_are_collected() {
    let mut input = LatexInput::new();
    assert!(input.add_file("a.tex", Some(Ok(b"text".to_vec()))).is_ok());
    assert!(input.add_file("b.tex", None).is_ok());
    assert!(matches!(
        input.add_file("c.tex", Some(Err("denied".to_string()))),
        Err(LatexError::Input(_))
    ));
    assert_eq!(input.input, vec![("a.tex".to_string(), b"text".to_vec())]);
    assert_eq!(
        input.add_file_lazy(&path("/d/f"), true, &path("/cache")),
        Some(path("/cache/root/d/f"))
    );
    assert_eq!(input.add_file_lazy(&path("/d/f"), false, &path("/cache")), None);
    assert_eq!(
        input.add_folder_lazy(&path("/d"), true, &path("/cache")),
        Some(path("/cache/root/d"))
    );
    assert_eq!(input.add_folder_lazy(&path("/d"), false, &path("/cache")), None);
}

fn exited(success: bool, stderr: &str) -> CommandEnd {
    CommandEnd::Exited {
        success,
        stdout: Vec::new(),
        stderr: stderr.as_bytes().to_vec(),
    }
}

/// What a run comes to whose commands end like this, and how many commands it starts.
fn follow(run: &LatexRun, ends: &[CommandEnd]) -> (Result<FilePath, String>, usize) {
    let mut done = 0;
    let mut outcome = Ok(());
    loop {
        match next_command(run, done, outcome) {
            RunStep::Start(k) => {
                assert_eq!(k, done);
                outcome = check_command_end(&run.commands[k], &ends[k]);
                done = k + 1;
            }
            RunStep::Finished(output) => return (Ok(output), done),
            RunStep::Failed(err) => return (Err(err.message()), done),
        }
    }
}

#[test]
fn the_first_failing_command_ends_a_run() {
    let options = LatexRunOptions {
        bibliography_tool: Some(BibliographyTool::Bibtex),
        ..LatexRunOptions::new()
    };
    let compiler = LatexCompiler::new_in(path("/cache"));
    let run = compiler.run(&path("main.tex"), &LatexInput::new(), options).unwrap();
    assert_eq!(run.commands.len(), 4);

    let good = || exited(true, "");
    assert_eq!(
        follow(&run, &[good(), good(), good(), good()]),
        (Ok(path("/cache/main.pdf")), 4)
    );
    assert_eq!(
        follow(&run, &[good(), exited(false, " no database \n"), good(), exited(false, "late")]),
        (Err("General failure: bibtex failed for main: no database.".to_string()), 2)
    );
    let missing = CommandEnd::NotStarted("not found".to_string());
    assert_eq!(
        follow(&run, &[missing, good(), good(), good()]),
        (Err("not found".to_string()), 1)
    );
    assert!(matches!(
        check_command_end(&run.commands[0], &CommandEnd::NotStarted("x".to_string())),
        Err(LatexError::Io(_))
    ));
    assert!(matches!(
        check_command_end(&run.commands[0], &exited(false, "")),
        Err(LatexError::LatexError(_))
    ));
}

#[test]
fn paths_are_handed_to_latex_as_they_are_written() {
    let compiler = LatexCompiler::new_in(path("/tmp//cache/")).with_current_dir(path("/deck"));
    let command = compiler.get_cmd(&path("./a//main.tex"));
    assert_eq!(command.args[2], "-output-directory=/tmp//cache/");
    assert_eq!(command.args[3], "./a//main.tex");
    let windows = FilePath::parse_as(r"C:\deck\main.tex", PathStyle::Windows);
    assert_eq!(tex_path_arg(&windows), "C:/deck/main.tex");
}
