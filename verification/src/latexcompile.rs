//! Which commands a LaTeX build runs, and where its output is.
use crate::paths::{
    cache_path, cache_relative, file_name, joined, parsed, same_path, stem, with_extension,
    FilePath, PathView,
};
use crate::search::{replace_text, replaced, replaced_from, trim, trimmed};
use crate::text::{chars_of, copied_texts, is_text, owned, push_all, push_text, string_of, texts};
use vstd::prelude::*;
use vstd::utf8::{decode_utf8, valid_utf8};

verus! {

/// A program that typesets a bibliography.
#[derive(Clone, Copy, Debug, PartialEq, Eq, Structural)]
pub enum BibliographyTool {
    Bibtex,
    Biber,
}

/// The name of a bibliography program.
pub open spec fn tool_name(tool: BibliographyTool) -> Seq<char> {
    match tool {
        BibliographyTool::Bibtex => "bibtex"@,
        BibliographyTool::Biber => "biber"@,
    }
}

impl BibliographyTool {
    /// The name of the program.
    pub fn command_name(self) -> (r: &'static str)
        ensures
            r@ == tool_name(self),
    {
        match self {
            BibliographyTool::Bibtex => "bibtex",
            BibliographyTool::Biber => "biber",
        }
    }
}

/// A program that typesets LaTeX.
#[derive(Clone, Copy, Debug, PartialEq, Eq, Structural)]
pub enum LatexEngine {
    PdfLatex,
    LuaLatex,
    XeLatex,
}

/// The name of a LaTeX program.
pub open spec fn engine_name(engine: LatexEngine) -> Seq<char> {
    match engine {
        LatexEngine::PdfLatex => "pdflatex"@,
        LatexEngine::LuaLatex => "lualatex"@,
        LatexEngine::XeLatex => "xelatex"@,
    }
}

impl LatexEngine {
    /// The name of the program.
    pub fn command_name(self) -> (r: &'static str)
        ensures
            r@ == engine_name(self),
    {
        match self {
            LatexEngine::PdfLatex => "pdflatex",
            LatexEngine::LuaLatex => "lualatex",
            LatexEngine::XeLatex => "xelatex",
        }
    }

    /// The program called `name`.
    pub fn from_name(name: &str) -> (r: Option<LatexEngine>)
        ensures
            match r {
                Some(engine) => engine_name(engine) == name@,
                None => forall|engine: LatexEngine| #[trigger] engine_name(engine) != name@,
            },
    {
        let chars = chars_of(name);
        if is_text(&chars, "pdflatex") {
            Some(LatexEngine::PdfLatex)
        } else if is_text(&chars, "lualatex") {
            Some(LatexEngine::LuaLatex)
        } else if is_text(&chars, "xelatex") {
            Some(LatexEngine::XeLatex)
        } else {
            None
        }
    }

    /// Whether a preamble is dumped to a format where nothing else is asked for. XeTeX cannot dump
    /// a format with native fonts.
    pub fn precompiles_preamble_by_default(self) -> (r: bool)
        ensures
            r == (self != LatexEngine::XeLatex),
    {
        match self {
            LatexEngine::XeLatex => false,
            _ => true,
        }
    }
}

/// No two LaTeX programs have one name.
pub proof fn law_engine_names_differ(a: LatexEngine, b: LatexEngine)
    requires
        engine_name(a) == engine_name(b),
    ensures
        a == b,
{
    reveal_strlit("pdflatex");
    reveal_strlit("lualatex");
    reveal_strlit("xelatex");
    assert("pdflatex"@[0] == 'p' && "lualatex"@[0] == 'l' && "xelatex"@[0] == 'x');
}

/// How often LaTeX runs, and what runs in between.
#[derive(Clone, Copy, Debug)]
pub struct LatexRunOptions {
    pub latex_pass_count: usize,
    pub bibliography_tool: Option<BibliographyTool>,
    /// How often LaTeX runs behind the bibliography program, where that was asked for.
    pub passes_after_bibliography: Option<usize>,
}

/// As many runs as asked for, but at least one.
pub open spec fn at_least_once(n: usize) -> usize {
    if n < 1 {
        1
    } else {
        n
    }
}

impl LatexRunOptions {
    /// One run of LaTeX, and no bibliography.
    pub fn new() -> (r: Self)
        ensures
            r.latex_pass_count == 1,
            r.bibliography_tool is None,
            r.passes_after_bibliography is None,
    {
        LatexRunOptions {
            latex_pass_count: 1,
            bibliography_tool: None,
            passes_after_bibliography: None,
        }
    }

    /// As many runs of LaTeX as asked for, but at least one.
    pub fn with_latex_pass_count(self, pass_count: usize) -> (r: Self)
        ensures
            r.latex_pass_count == at_least_once(pass_count),
            r.bibliography_tool == self.bibliography_tool,
            r.passes_after_bibliography == self.passes_after_bibliography,
    {
        LatexRunOptions {
            latex_pass_count: if pass_count < 1 {
                1
            } else {
                pass_count
            },
            bibliography_tool: self.bibliography_tool,
            passes_after_bibliography: self.passes_after_bibliography,
        }
    }

    /// A bibliography program, or none.
    pub fn with_bibliography_tool(self, tool: Option<BibliographyTool>) -> (r: Self)
        ensures
            r.latex_pass_count == self.latex_pass_count,
            r.bibliography_tool == tool,
            r.passes_after_bibliography == self.passes_after_bibliography,
    {
        LatexRunOptions {
            latex_pass_count: self.latex_pass_count,
            bibliography_tool: tool,
            passes_after_bibliography: self.passes_after_bibliography,
        }
    }

    /// A number of runs behind the bibliography program, in place of the usual one.
    pub fn with_passes_after_bibliography(self, pass_count: Option<usize>) -> (r: Self)
        ensures
            r.latex_pass_count == self.latex_pass_count,
            r.bibliography_tool == self.bibliography_tool,
            r.passes_after_bibliography == pass_count,
    {
        LatexRunOptions {
            latex_pass_count: self.latex_pass_count,
            bibliography_tool: self.bibliography_tool,
            passes_after_bibliography: pass_count,
        }
    }

    /// How often LaTeX runs behind the bibliography program: as often as asked for, else as
    /// often as without a bibliography, but at least twice.
    pub open spec fn later_passes(self) -> nat {
        match self.passes_after_bibliography {
            Some(n) => n as nat,
            None => if self.latex_pass_count < 2 {
                2
            } else {
                self.latex_pass_count as nat
            },
        }
    }

    /// How often LaTeX runs without a bibliography: at least once.
    pub open spec fn passes(self) -> nat {
        if self.latex_pass_count < 1 {
            1
        } else {
            self.latex_pass_count as nat
        }
    }
}

/// What can go wrong in a LaTeX build.
#[derive(Clone, Debug)]
pub enum LatexError {
    LatexError(String),
    Input(String),
    Io(String),
}

/// What an error holds.
pub enum LatexErrorView {
    LatexError(Seq<char>),
    Input(Seq<char>),
    Io(Seq<char>),
}

impl View for LatexError {
    type V = LatexErrorView;

    open spec fn view(&self) -> LatexErrorView {
        match self {
            LatexError::LatexError(t) => LatexErrorView::LatexError(t@),
            LatexError::Input(t) => LatexErrorView::Input(t@),
            LatexError::Io(t) => LatexErrorView::Io(t@),
        }
    }
}

impl LatexError {
    /// The error in words.
    pub fn message(&self) -> (r: String)
        ensures
            r@ == match self@ {
                LatexErrorView::LatexError(t) => "General failure: "@ + t + "."@,
                LatexErrorView::Input(t) => "Failed to convert input "@ + t,
                LatexErrorView::Io(t) => t,
            },
    {
        let mut out = String::new();
        match self {
            LatexError::LatexError(text) => {
                out.push_str("General failure: ");
                out.push_str(text.as_str());
                out.push_str(".");
            },
            LatexError::Input(text) => {
                out.push_str("Failed to convert input ");
                out.push_str(text.as_str());
            },
            LatexError::Io(text) => {
                out.push_str(text.as_str());
            },
        }
        assert(out@ =~= match self@ {
            LatexErrorView::LatexError(t) => "General failure: "@ + t + "."@,
            LatexErrorView::Input(t) => "Failed to convert input "@ + t,
            LatexErrorView::Io(t) => t,
        });
        out
    }
}

/// Files for a LaTeX build, each with its name.
#[derive(Clone, Debug, PartialEq)]
pub struct LatexInput {
    pub input: Vec<(String, Vec<u8>)>,
}

/// What the files of an input hold.
pub open spec fn input_views(v: Seq<(String, Vec<u8>)>) -> Seq<(Seq<char>, Seq<u8>)> {
    v.map_values(|f: (String, Vec<u8>)| (f.0@, f.1@))
}

impl View for LatexInput {
    type V = Seq<(Seq<char>, Seq<u8>)>;

    open spec fn view(&self) -> Seq<(Seq<char>, Seq<u8>)> {
        input_views(self.input@)
    }
}

impl LatexInput {
    /// No files.
    pub fn new() -> (r: LatexInput)
        ensures
            r@ == Seq::<(Seq<char>, Seq<u8>)>::empty(),
    {
        let r = LatexInput { input: Vec::new() };
        assert(r@ =~= Seq::<(Seq<char>, Seq<u8>)>::empty());
        r
    }

    /// Adds a file that was read. What is not a file was not read, and adds nothing; where reading
    /// failed, the error is handed on.
    pub fn add_file(&mut self, name: &str, read: Option<Result<Vec<u8>, String>>) -> (r: Result<
        (),
        LatexError,
    >)
        ensures
            match read {
                None => r is Ok && final(self)@ == old(self)@,
                Some(Ok(content)) => r is Ok && final(self)@ == old(self)@.push(
                    (name@, content@),
                ),
                Some(Err(text)) => r is Err && r->Err_0@ == LatexErrorView::Input(text@)
                    && final(self)@ == old(self)@,
            },
    {
        match read {
            None => Ok(()),
            Some(Err(text)) => Err(LatexError::Input(text)),
            Some(Ok(content)) => {
                let ghost before = self.input@;
                let ghost bytes = content@;
                self.input.push((owned(name), content));
                assert(self@ =~= input_views(before).push((name@, bytes)));
                Ok(())
            },
        }
    }

    /// Where a file is staged, where it is one: nothing is added to the input itself.
    pub fn add_file_lazy(&mut self, file: &FilePath, is_file: bool, dest_path: &FilePath) -> (r:
        Option<FilePath>)
        ensures
            final(self)@ == old(self)@,
            match r {
                Some(dest) => is_file && dest@ == joined(dest_path@, cache_relative(file@)),
                None => !is_file,
            },
    {
        if is_file {
            Some(cache_path(dest_path, file))
        } else {
            None
        }
    }

    /// Where a folder is staged, where it is one: nothing is added to the input itself.
    pub fn add_folder_lazy(&mut self, folder: &FilePath, is_dir: bool, dest_path: &FilePath) -> (r:
        Option<FilePath>)
        ensures
            final(self)@ == old(self)@,
            match r {
                Some(dest) => is_dir && dest@ == joined(dest_path@, cache_relative(folder@)),
                None => !is_dir,
            },
    {
        if is_dir {
            Some(cache_path(dest_path, folder))
        } else {
            None
        }
    }
}

/// A path as LaTeX takes it: with `/` for every backslash.
pub open spec fn tex_path(path: PathView) -> Seq<char> {
    replaced(path.text, "\\"@, "/"@)
}

/// A path as LaTeX takes it: with `/` for every backslash.
pub fn tex_path_arg(path: &FilePath) -> (r: String)
    ensures
        r@ == tex_path(path@),
{
    let chars = chars_of(path.text.as_str());
    let from = chars_of("\\");
    let to = chars_of("/");
    let out = replace_text(&chars, &from, &to);
    string_of(&out)
}

/// A command to run, the directory it runs in, and the name of what it works on.
#[derive(Clone, Debug)]
pub struct CommandLine {
    pub program: String,
    pub args: Vec<String>,
    pub current_dir: FilePath,
    pub target: String,
}

/// What a command holds.
#[verifier::ext_equal]
pub struct CommandView {
    pub program: Seq<char>,
    pub args: Seq<Seq<char>>,
    pub current_dir: PathView,
    pub target: Seq<char>,
}

impl View for CommandLine {
    type V = CommandView;

    open spec fn view(&self) -> CommandView {
        CommandView {
            program: self.program@,
            args: texts(self.args@),
            current_dir: self.current_dir@,
            target: self.target@,
        }
    }
}

/// What the commands of a sequence hold.
pub open spec fn command_views(v: Seq<CommandLine>) -> Seq<CommandView> {
    v.map_values(|c: CommandLine| c@)
}

/// A LaTeX build: the commands in their order, and where the output is once all of them succeeded.
#[derive(Clone, Debug)]
pub struct LatexRun {
    pub commands: Vec<CommandLine>,
    pub output: FilePath,
}

/// A LaTeX program, its arguments, and the directories it works in.
#[derive(Clone, Debug)]
pub struct LatexCompiler {
    pub working_dir: FilePath,
    pub current_dir: Option<FilePath>,
    pub program: String,
    pub args: Vec<String>,
}

/// What a compiler holds.
#[verifier::ext_equal]
pub struct CompilerView {
    pub working_dir: PathView,
    pub current_dir: Option<PathView>,
    pub program: Seq<char>,
    pub args: Seq<Seq<char>>,
}

impl View for LatexCompiler {
    type V = CompilerView;

    open spec fn view(&self) -> CompilerView {
        CompilerView {
            working_dir: self.working_dir@,
            current_dir: match self.current_dir {
                Some(d) => Some(d@),
                None => None,
            },
            program: self.program@,
            args: texts(self.args@),
        }
    }
}

/// A compiler with its usual arguments.
pub open spec fn new_compiler(working_dir: PathView, engine: LatexEngine) -> CompilerView {
    CompilerView {
        working_dir,
        current_dir: None,
        program: engine_name(engine),
        args: seq!["-interaction=nonstopmode"@, "-synctex=5"@],
    }
}

impl CompilerView {
    /// The directory that the programs run in.
    pub open spec fn run_dir(self) -> PathView {
        match self.current_dir {
            Some(d) => d,
            None => self.working_dir,
        }
    }

    /// The run of LaTeX on `main`. Where it does not run in the directory of its output, it is told
    /// that directory.
    pub open spec fn latex_command(self, main: PathView) -> CommandView {
        CommandView {
            program: self.program,
            args: (if !same_path(self.run_dir(), self.working_dir) {
                self.args.push("-output-directory="@ + tex_path(self.working_dir))
            } else {
                self.args
            }).push(tex_path(main)),
            current_dir: self.run_dir(),
            target: tex_path(main),
        }
    }

    /// The run of the bibliography program.
    pub open spec fn bibliography_command(self, tool: BibliographyTool, job: Seq<char>) -> CommandView {
        CommandView {
            program: tool_name(tool),
            args: seq![job],
            current_dir: self.working_dir,
            target: job,
        }
    }

    /// The commands of a build.
    pub open spec fn commands(
        self,
        main: PathView,
        job: Seq<char>,
        options: LatexRunOptions,
    ) -> Seq<CommandView> {
        let latex = self.latex_command(main);
        match options.bibliography_tool {
            Some(tool) => seq![latex, self.bibliography_command(tool, job)] + Seq::new(
                options.later_passes(),
                |i: int| latex,
            ),
            None => Seq::new(options.passes(), |i: int| latex),
        }
    }

    /// Where the output of a build of `job` is.
    pub open spec fn output(self, job: Seq<char>) -> PathView {
        joined(self.working_dir, with_extension(parsed(self.working_dir.style, job), "pdf"@))
    }
}

impl LatexCompiler {
    /// A compiler that works in `working_dir`, with its usual arguments.
    pub fn new_in(working_dir: FilePath) -> (r: LatexCompiler)
        ensures
            r@ == new_compiler(working_dir@, LatexEngine::PdfLatex),
    {
        LatexCompiler::new_in_with_engine(working_dir, LatexEngine::PdfLatex)
    }

    /// A compiler for `engine` that works in `working_dir`, with its usual arguments.
    pub fn new_in_with_engine(working_dir: FilePath, engine: LatexEngine) -> (r: LatexCompiler)
        ensures
            r@ == new_compiler(working_dir@, engine),
    {
        let args: Vec<String> = vec![owned("-interaction=nonstopmode"), owned("-synctex=5")];
        let compiler = LatexCompiler {
            working_dir,
            current_dir: None,
            program: owned(engine.command_name()),
            args,
        };
        assert(compiler@.args =~= seq!["-interaction=nonstopmode"@, "-synctex=5"@]);
        compiler
    }

    /// The compiler, run in another directory.
    pub fn with_current_dir(self, current_dir: FilePath) -> (r: Self)
        ensures
            r@ == (CompilerView { current_dir: Some(current_dir@), ..self@ }),
    {
        LatexCompiler {
            working_dir: self.working_dir,
            current_dir: Some(current_dir),
            program: self.program,
            args: self.args,
        }
    }

    /// The compiler with one more argument.
    pub fn add_arg(self, arg: &str) -> (r: Self)
        ensures
            r@ == (CompilerView { args: self@.args.push(arg@), ..self@ }),
    {
        let ghost before = self@;
        let mut args = self.args;
        push_text(&mut args, owned(arg));
        LatexCompiler {
            working_dir: self.working_dir,
            current_dir: self.current_dir,
            program: self.program,
            args,
        }
    }

    /// The compiler with more arguments.
    pub fn add_args(self, more: &[String]) -> (r: Self)
        ensures
            r@ == (CompilerView { args: self@.args + texts(more@), ..self@ }),
    {
        let ghost before = self@;
        let mut compiler = self;
        let mut i: usize = 0;
        assert(before.args + texts(more@).take(0) =~= before.args);
        while i < more.len()
            invariant
                i <= more.len(),
                compiler@ == (CompilerView { args: before.args + texts(more@).take(i as int), ..before }),
            decreases more.len() - i,
        {
            compiler = compiler.add_arg(more[i].as_str());
            i += 1;
            assert(texts(more@).take(i as int) =~= texts(more@).take(i - 1).push(more@[i - 1]@));
            assert(before.args + texts(more@).take(i as int) =~= (before.args + texts(more@).take(
                i - 1,
            )).push(more@[i - 1]@));
        }
        assert(texts(more@).take(i as int) =~= texts(more@));
        compiler
    }

    fn run_directory(&self) -> (r: FilePath)
        ensures
            r@ == self@.run_dir(),
    {
        match &self.current_dir {
            Some(dir) => dir.copy(),
            None => self.working_dir.copy(),
        }
    }

    /// The run of LaTeX on `main_file`.
    pub fn get_cmd(&self, main_file: &FilePath) -> (r: CommandLine)
        ensures
            r@ == self@.latex_command(main_file@),
    {
        let current_dir = self.run_directory();
        let mut args = copied_texts(&self.args);
        if !current_dir.same_as(&self.working_dir) {
            let mut arg = owned("-output-directory=");
            let dir = tex_path_arg(&self.working_dir);
            arg.push_str(dir.as_str());
            push_text(&mut args, arg);
        }
        push_text(&mut args, tex_path_arg(main_file));
        CommandLine {
            program: owned(self.program.as_str()),
            args,
            current_dir,
            target: tex_path_arg(main_file),
        }
    }

    /// The run of the bibliography program on `job_name`.
    pub fn bibliography_cmd(&self, tool: BibliographyTool, job_name: &str) -> (r: CommandLine)
        ensures
            r@ == self@.bibliography_command(tool, job_name@),
    {
        let args: Vec<String> = vec![owned(job_name)];
        assert(texts(args@) =~= seq![job_name@]);
        CommandLine {
            program: owned(tool.command_name()),
            args,
            current_dir: self.working_dir.copy(),
            target: owned(job_name),
        }
    }

    fn push_passes(&self, commands: &mut Vec<CommandLine>, main: &FilePath, count: usize)
        ensures
            command_views(final(commands)@) == command_views(old(commands)@) + Seq::new(
                count as nat,
                |i: int| self@.latex_command(main@),
            ),
    {
        let ghost before = command_views(commands@);
        let ghost latex = self@.latex_command(main@);
        let mut i: usize = 0;
        assert(before + Seq::new(0, |i: int| latex) =~= before);
        while i < count
            invariant
                i <= count,
                latex == self@.latex_command(main@),
                command_views(commands@) == before + Seq::new(i as nat, |i: int| latex),
            decreases count - i,
        {
            let command = self.get_cmd(main);
            let ghost items = commands@;
            commands.push(command);
            i += 1;
            assert(command_views(commands@) =~= command_views(items).push(latex));
            assert(command_views(commands@) =~= before + Seq::new(i as nat, |i: int| latex));
        }
    }

    /// The build of `main`: what runs, in which order, and where the output is. A path without a
    /// file name has no job name.
    pub fn run(&self, main: &FilePath, _input: &LatexInput, options: LatexRunOptions) -> (r: Result<
        LatexRun,
        LatexError,
    >)
        ensures
            match file_name(main@) {
                Some(name) => {
                    &&& r is Ok
                    &&& command_views(r->Ok_0.commands@) == self@.commands(main@, stem(name), options)
                    &&& r->Ok_0.output@ == self@.output(stem(name))
                },
                None => r is Err && r->Err_0@ == LatexErrorView::LatexError(
                    "Failed to derive job name from "@ + main@.text,
                ),
            },
    {
        let job_name = match main.file_stem() {
            Some(name) => name,
            None => {
                let mut text = owned("Failed to derive job name from ");
                text.push_str(main.text.as_str());
                return Err(LatexError::LatexError(text));
            },
        };
        let mut commands: Vec<CommandLine> = Vec::new();
        assert(command_views(commands@) =~= Seq::<CommandView>::empty());
        match options.bibliography_tool {
            Some(tool) => {
                let first = self.get_cmd(main);
                commands.push(first);
                let second = self.bibliography_cmd(tool, job_name.as_str());
                commands.push(second);
                assert(command_views(commands@) =~= seq![first@, second@]);
                let count: usize = match options.passes_after_bibliography {
                    Some(n) => n,
                    None => if options.latex_pass_count < 2 {
                        2
                    } else {
                        options.latex_pass_count
                    },
                };
                self.push_passes(&mut commands, main, count);
            },
            None => {
                let count: usize = if options.latex_pass_count < 1 {
                    1
                } else {
                    options.latex_pass_count
                };
                self.push_passes(&mut commands, main, count);
                assert(command_views(commands@) =~= self@.commands(
                    main@,
                    job_name@,
                    options,
                ));
            },
        }
        let file = FilePath::parse_as(job_name.as_str(), self.working_dir.style);
        let pdf = file.with_extension("pdf");
        Ok(LatexRun { commands, output: self.working_dir.join(&pdf) })
    }
}

/// A bibliography is made once, behind the first run of LaTeX and before all the others.
pub proof fn law_bibliography_order(
    compiler: CompilerView,
    main: PathView,
    job: Seq<char>,
    options: LatexRunOptions,
)
    requires
        options.bibliography_tool is Some,
    ensures
        ({
            let commands = compiler.commands(main, job, options);
            &&& commands.len() == 2 + options.later_passes()
            &&& commands[0] == compiler.latex_command(main)
            &&& commands[1] == compiler.bibliography_command(options.bibliography_tool->0, job)
            &&& forall|i: int|
                2 <= i < commands.len() ==> #[trigger] commands[i] == compiler.latex_command(main)
        }),
{
}

// ---------------------------------------------------------------------------
// Command output
// ---------------------------------------------------------------------------

/// Calls `std::str::from_utf8`: the text that the bytes encode, or none where they are not valid
/// UTF-8.
#[verifier::external_body]
fn utf8_text(bytes: &[u8]) -> (r: Option<String>)
    ensures
        match r {
            Some(s) => valid_utf8(bytes@) && s@ == decode_utf8(bytes@),
            None => !valid_utf8(bytes@),
        },
{
    match std::str::from_utf8(bytes) {
        Ok(text) => Some(String::from(text)),
        Err(_) => None,
    }
}

/// The text that bytes encode, or none where they are not valid UTF-8.
pub open spec fn decoded(bytes: Seq<u8>) -> Option<Seq<char>> {
    if valid_utf8(bytes) {
        Some(decode_utf8(bytes))
    } else {
        None
    }
}

/// The text that bytes encode, or none where they are not valid UTF-8.
pub fn decode_text(bytes: &[u8]) -> (r: Option<String>)
    ensures
        match r {
            Some(s) => decoded(bytes@) == Some(s@),
            None => decoded(bytes@) is None,
        },
{
    utf8_text(bytes)
}

/// What a program printed, without the space around it. What is not text counts as nothing.
pub open spec fn printed(bytes: Seq<u8>) -> Seq<char> {
    match decoded(bytes) {
        Some(text) => trim(text),
        None => trim(""@),
    }
}

/// What a failure of a command is reported as.
pub open spec fn failure_text(
    command: Seq<char>,
    target: Seq<char>,
    stdout: Seq<u8>,
    stderr: Seq<u8>,
) -> Seq<char> {
    let head = command + " failed for "@ + target;
    if printed(stderr).len() > 0 {
        head + ": "@ + printed(stderr)
    } else if printed(stdout).len() > 0 {
        head + ": "@ + printed(stdout)
    } else {
        head
    }
}

pub(crate) fn printed_text(bytes: &[u8]) -> (r: Vec<char>)
    ensures
        r@ == printed(bytes@),
{
    match decode_text(bytes) {
        Some(text) => {
            let chars = chars_of(text.as_str());
            trimmed(&chars)
        },
        None => {
            let chars = chars_of("");
            trimmed(&chars)
        },
    }
}

/// What the end of a command means: an error with what it printed, unless it succeeded.
pub fn check_command_output(
    success: bool,
    stdout: &[u8],
    stderr: &[u8],
    command: &str,
    target: &str,
) -> (r: Result<(), LatexError>)
    ensures
        match r {
            Ok(_) => success,
            Err(e) => !success && e@ == LatexErrorView::LatexError(
                failure_text(command@, target@, stdout@, stderr@),
            ),
        },
{
    if success {
        return Ok(());
    }
    let err_chars = printed_text(stderr);
    let out_chars = printed_text(stdout);
    let mut text = owned(command);
    text.push_str(" failed for ");
    text.push_str(target);
    if err_chars.len() > 0 {
        text.push_str(": ");
        push_all(&mut text, &err_chars);
    } else if out_chars.len() > 0 {
        text.push_str(": ");
        push_all(&mut text, &out_chars);
    }
    Err(LatexError::LatexError(text))
}

// ---------------------------------------------------------------------------
// Running the commands of a build
// ---------------------------------------------------------------------------

/// How a command ended: it could not be started, for a reason, or it came to an end of its own.
#[derive(Clone, Debug)]
pub enum CommandEnd {
    NotStarted(String),
    Exited { success: bool, stdout: Vec<u8>, stderr: Vec<u8> },
}

/// What the end of a command holds.
pub enum CommandEndView {
    NotStarted(Seq<char>),
    Exited { success: bool, stdout: Seq<u8>, stderr: Seq<u8> },
}

impl View for CommandEnd {
    type V = CommandEndView;

    open spec fn view(&self) -> CommandEndView {
        match self {
            CommandEnd::NotStarted(text) => CommandEndView::NotStarted(text@),
            CommandEnd::Exited { success, stdout, stderr } => CommandEndView::Exited {
                success: *success,
                stdout: stdout@,
                stderr: stderr@,
            },
        }
    }
}

/// What the end of a command means: nothing where it succeeded, and otherwise an error.
pub open spec fn command_outcome(command: CommandView, end: CommandEndView) -> Result<
    (),
    LatexErrorView,
> {
    match end {
        CommandEndView::NotStarted(text) => Err(LatexErrorView::Io(text)),
        CommandEndView::Exited { success, stdout, stderr } => if success {
            Ok(())
        } else {
            Err(
                LatexErrorView::LatexError(
                    failure_text(command.program, command.target, stdout, stderr),
                ),
            )
        },
    }
}

/// What an outcome holds.
pub open spec fn outcome_view(outcome: Result<(), LatexError>) -> Result<(), LatexErrorView> {
    match outcome {
        Ok(_) => Ok(()),
        Err(e) => Err(e@),
    }
}

/// What the end of a command means.
pub fn check_command_end(command: &CommandLine, end: &CommandEnd) -> (r: Result<(), LatexError>)
    ensures
        outcome_view(r) == command_outcome(command@, end@),
{
    match end {
        CommandEnd::NotStarted(text) => Err(LatexError::Io(owned(text.as_str()))),
        CommandEnd::Exited { success, stdout, stderr } => check_command_output(
            *success,
            stdout,
            stderr,
            command.program.as_str(),
            command.target.as_str(),
        ),
    }
}

/// What a build does next.
#[derive(Clone, Debug)]
pub enum RunStep {
    /// The command at a position is started.
    Start(usize),
    /// All commands succeeded, and the output is at a path.
    Finished(FilePath),
    /// The build ends with an error.
    Failed(LatexError),
}

/// What a step of a build holds.
pub enum RunStepView {
    Start(int),
    Finished(PathView),
    Failed(LatexErrorView),
}

impl View for RunStep {
    type V = RunStepView;

    open spec fn view(&self) -> RunStepView {
        match self {
            RunStep::Start(k) => RunStepView::Start(*k as int),
            RunStep::Finished(path) => RunStepView::Finished(path@),
            RunStep::Failed(e) => RunStepView::Failed(e@),
        }
    }
}

/// What a build of `count` commands does next, where `done` of them have ended and `outcome` is
/// that of the last one: an error ends the build, success leads to the command behind it, and the
/// build is finished exactly when there is none.
pub open spec fn run_step(
    count: nat,
    output: PathView,
    done: int,
    outcome: Result<(), LatexErrorView>,
) -> RunStepView {
    match outcome {
        Err(e) => RunStepView::Failed(e),
        Ok(_) => if done < count {
            RunStepView::Start(done)
        } else {
            RunStepView::Finished(output)
        },
    }
}

/// What a build does next, where the first `done` of its commands have ended, the last one with
/// `outcome`. Before the first command there is nothing that could have failed.
pub fn next_command(run: &LatexRun, done: usize, outcome: Result<(), LatexError>) -> (r: RunStep)
    ensures
        r@ == run_step(run.commands@.len(), run.output@, done as int, outcome_view(outcome)),
{
    match outcome {
        Err(e) => RunStep::Failed(e),
        Ok(_) => if done < run.commands.len() {
            RunStep::Start(done)
        } else {
            RunStep::Finished(run.output.copy())
        },
    }
}

/// What a build comes to that goes on step by step, where its commands end as `ends` says, and how
/// many commands it starts in all.
pub open spec fn run_result(
    commands: Seq<CommandView>,
    output: PathView,
    ends: Seq<CommandEndView>,
    done: int,
    outcome: Result<(), LatexErrorView>,
) -> (Result<PathView, LatexErrorView>, int)
    decreases commands.len() - done,
{
    match run_step(commands.len(), output, done, outcome) {
        RunStepView::Start(k) => run_result(
            commands,
            output,
            ends,
            done + 1,
            command_outcome(commands[done], ends[done]),
        ),
        RunStepView::Finished(path) => (Ok(path), done),
        RunStepView::Failed(e) => (Err(e), done),
    }
}

proof fn lemma_run_result(
    commands: Seq<CommandView>,
    output: PathView,
    ends: Seq<CommandEndView>,
    done: int,
)
    requires
        0 <= done <= commands.len(),
        forall|i: int|
            0 <= i < done ==> command_outcome(#[trigger] commands[i], ends[i]) is Ok,
    ensures
        ({
            let (result, started) = run_result(commands, output, ends, done, Ok(()));
            &&& done <= started <= commands.len()
            &&& match result {
                Ok(path) => path == output && started == commands.len() && forall|i: int|
                    0 <= i < commands.len() ==> command_outcome(
                        #[trigger] commands[i],
                        ends[i],
                    ) is Ok,
                Err(e) => started > done && command_outcome(commands[started - 1], ends[started - 1])
                    == Err::<(), LatexErrorView>(e) && forall|i: int|
                    0 <= i < started - 1 ==> command_outcome(#[trigger] commands[i], ends[i]) is Ok,
            }
        }),
    decreases commands.len() - done,
{
    if done < commands.len() {
        let outcome = command_outcome(commands[done], ends[done]);
        if outcome is Ok {
            assert(outcome == Ok::<(), LatexErrorView>(()));
            lemma_run_result(commands, output, ends, done + 1);
        } else {
            assert(run_result(commands, output, ends, done + 1, outcome) == (
                Err::<PathView, LatexErrorView>(outcome->Err_0),
                done + 1,
            ));
        }
    }
}

/// A build succeeds exactly where all of its commands do. Otherwise the first command that cannot
/// be started or fails ends the build with its error, and no later command is started.
pub proof fn law_first_failure_ends_the_run(
    commands: Seq<CommandView>,
    output: PathView,
    ends: Seq<CommandEndView>,
)
    ensures
        ({
            let (result, started) = run_result(commands, output, ends, 0, Ok(()));
            &&& result is Ok <==> forall|i: int|
                0 <= i < commands.len() ==> command_outcome(#[trigger] commands[i], ends[i]) is Ok
            &&& result is Ok ==> result->Ok_0 == output && started == commands.len()
            &&& result is Err ==> {
                &&& 0 < started <= commands.len()
                &&& command_outcome(commands[started - 1], ends[started - 1]) == Err::<
                    (),
                    LatexErrorView,
                >(result->Err_0)
                &&& forall|i: int|
                    0 <= i < started - 1 ==> command_outcome(#[trigger] commands[i], ends[i]) is Ok
            }
        }),
{
    lemma_run_result(commands, output, ends, 0);
}

// ---------------------------------------------------------------------------
// What builds run
// ---------------------------------------------------------------------------

/// Without a bibliography LaTeX runs as often as asked for, but at least once, and nothing else
/// runs. With one it runs once in front of the bibliography program, and behind it as often as asked
/// for; where nothing is asked for, as often as without, but at least twice.
pub proof fn law_latex_runs_as_often_as_asked_for(
    compiler: CompilerView,
    main: PathView,
    job: Seq<char>,
    n: usize,
    tool: BibliographyTool,
    i: int,
)
    ensures
        ({
            let plain = LatexRunOptions {
                latex_pass_count: n,
                bibliography_tool: None,
                passes_after_bibliography: None,
            };
            let usual = LatexRunOptions { bibliography_tool: Some(tool), ..plain };
            let asked = LatexRunOptions { passes_after_bibliography: Some(n), ..usual };
            let runs = compiler.commands(main, job, plain);
            &&& runs.len() == if n == 0 {
                1
            } else {
                n as int
            }
            &&& 0 <= i < runs.len() ==> runs[i] == compiler.latex_command(main)
            &&& compiler.commands(main, job, usual).len() == if n < 2 {
                4
            } else {
                n + 2
            }
            &&& compiler.commands(main, job, asked).len() == n + 2
        }),
{
}

/// A run of LaTeX gets the arguments of the compiler first, and what it typesets last. It is told
/// where its output goes exactly where that is not the directory it runs in.
pub proof fn law_latex_is_told_what_to_typeset(compiler: CompilerView, main: PathView)
    ensures
        ({
            let command = compiler.latex_command(main);
            let told = "-output-directory="@ + tex_path(compiler.working_dir);
            &&& command.program == compiler.program
            &&& command.args.take(compiler.args.len() as int) == compiler.args
            &&& command.args.last() == tex_path(main)
            &&& command.target == tex_path(main)
            &&& compiler.current_dir is Some ==> command.current_dir == compiler.current_dir->0
            &&& compiler.current_dir is None ==> command.current_dir == compiler.working_dir
            &&& same_path(command.current_dir, compiler.working_dir) ==> command.args.len()
                == compiler.args.len() + 1
            &&& !same_path(command.current_dir, compiler.working_dir) ==> command.args.len()
                == compiler.args.len() + 2 && command.args[compiler.args.len() as int] == told
        }),
{
    let command = compiler.latex_command(main);
    assert(command.args.take(compiler.args.len() as int) =~= compiler.args);
}

/// A bibliography program runs where the files of the job are, and gets the name of the job.
pub proof fn law_bibliography_programs_get_the_job(
    compiler: CompilerView,
    tool: BibliographyTool,
    job: Seq<char>,
)
    ensures
        ({
            let command = compiler.bibliography_command(tool, job);
            &&& command.args == seq![job]
            &&& command.current_dir == compiler.working_dir
            &&& command.program == "bibtex"@ <==> tool == BibliographyTool::Bibtex
            &&& command.program == "biber"@ <==> tool == BibliographyTool::Biber
        }),
{
    reveal_strlit("bibtex");
    reveal_strlit("biber");
    assert("bibtex"@.len() == 6 && "biber"@.len() == 5);
}

/// A compiler runs the program that it was made for, without stopping at errors and with SyncTeX.
pub proof fn law_compilers_run_their_program(dir: PathView)
    ensures
        new_compiler(dir, LatexEngine::PdfLatex).program == "pdflatex"@,
        new_compiler(dir, LatexEngine::LuaLatex).program == "lualatex"@,
        new_compiler(dir, LatexEngine::XeLatex).program == "xelatex"@,
        forall|engine: LatexEngine|
            (#[trigger] new_compiler(dir, engine)).args.contains("-interaction=nonstopmode"@)
                && new_compiler(dir, engine).args.contains("-synctex=5"@) && new_compiler(
                dir,
                engine,
            ).working_dir == dir,
{
    assert forall|engine: LatexEngine|
        (#[trigger] new_compiler(dir, engine)).args.contains("-interaction=nonstopmode"@)
            && new_compiler(dir, engine).args.contains("-synctex=5"@) && new_compiler(
            dir,
            engine,
        ).working_dir == dir by {
        let args = new_compiler(dir, engine).args;
        assert(args[0] == "-interaction=nonstopmode"@);
        assert(args[1] == "-synctex=5"@);
    }
}

/// The path that LaTeX gets is the path with a slash for every backslash: as long, without a
/// backslash, and otherwise the same.
pub proof fn law_paths_for_latex_have_no_backslash(path: PathView, i: int)
    ensures
        tex_path(path).len() == path.text.len(),
        0 <= i < path.text.len() ==> tex_path(path)[i] == (if path.text[i] == '\\' {
            '/'
        } else {
            path.text[i]
        }),
{
    reveal_strlit("\\");
    lemma_slashes(path.text, 0, i);
}

proof fn lemma_slashes(s: Seq<char>, from: int, i: int)
    requires
        0 <= from <= s.len(),
    ensures
        ({
            let out = replaced_from(s, "\\"@, "/"@, from);
            &&& out.len() == s.len() - from
            &&& from <= i < s.len() ==> out[i - from] == (if s[i] == '\\' {
                '/'
            } else {
                s[i]
            })
        }),
    decreases s.len() - from,
{
    reveal_strlit("\\");
    reveal_strlit("/");
    assert("\\"@ =~= seq!['\\']);
    assert("/"@ =~= seq!['/']);
    if from < s.len() {
        lemma_slashes(s, from + 1, i);
        let part = s.subrange(from, from + 1);
        assert(part[0] == s[from]);
        if s[from] == '\\' {
            assert(part =~= "\\"@);
        } else {
            assert(part != "\\"@);
        }
    }
}

/// A command succeeded exactly where it was started and ended with success, and what it printed
/// does not matter then. Otherwise its error names the command and what it worked on, and tells
/// what it printed as an error; where that is nothing, what else it printed.
pub proof fn law_commands_succeed_by_their_exit(
    command: CommandView,
    success: bool,
    stdout: Seq<u8>,
    stderr: Seq<u8>,
    reason: Seq<char>,
)
    ensures
        command_outcome(command, CommandEndView::NotStarted(reason)) == Err::<(), LatexErrorView>(
            LatexErrorView::Io(reason),
        ),
        command_outcome(command, CommandEndView::Exited { success, stdout, stderr }) is Ok
            <==> success,
        !success && printed(stderr).len() > 0 ==> command_outcome(
            command,
            CommandEndView::Exited { success, stdout, stderr },
        ) == Err::<(), LatexErrorView>(
            LatexErrorView::LatexError(
                command.program + " failed for "@ + command.target + ": "@ + printed(stderr),
            ),
        ),
        !success && printed(stderr).len() == 0 && printed(stdout).len() > 0 ==> command_outcome(
            command,
            CommandEndView::Exited { success, stdout, stderr },
        ) == Err::<(), LatexErrorView>(
            LatexErrorView::LatexError(
                command.program + " failed for "@ + command.target + ": "@ + printed(stdout),
            ),
        ),
        !success && printed(stderr).len() == 0 && printed(stdout).len() == 0 ==> command_outcome(
            command,
            CommandEndView::Exited { success, stdout, stderr },
        ) == Err::<(), LatexErrorView>(
            LatexErrorView::LatexError(command.program + " failed for "@ + command.target),
        ),
{
}

/// The output of a build is in the directory of the compiler, under the name of the job.
pub proof fn law_output_is_called_like_the_job(compiler: CompilerView, job: Seq<char>)
    requires
        forall|i: int| 0 < i < job.len() ==> job[i] != '.',
        crate::paths::plain_part(
            compiler.working_dir.style,
            crate::path_parts::PartView::Normal(job),
        ),
    ensures
        compiler.output(job).parts == compiler.working_dir.parts.push(
            crate::path_parts::PartView::Normal(job.push('.') + "pdf"@),
        ),
{
    reveal_strlit("pdf");
    crate::paths::law_extended_names_are_in_the_directory(compiler.working_dir, job, "pdf"@);
}

/// What is written as UTF-8 is read back, and what is no UTF-8 is not read at all.
pub proof fn law_printed_text_is_read(text: Seq<char>, bytes: Seq<u8>)
    ensures
        decoded(vstd::utf8::encode_utf8(text)) == Some(text),
        !valid_utf8(bytes) ==> decoded(bytes) is None,
        !valid_utf8(bytes) ==> printed(bytes).len() == 0,
        printed(vstd::utf8::encode_utf8(text)) == trim(text),
{
    vstd::utf8::encode_utf8_valid_utf8(text);
    vstd::utf8::encode_utf8_decode_utf8(text);
    reveal_strlit("");
    assert(trim(""@).len() == 0);
}

}
