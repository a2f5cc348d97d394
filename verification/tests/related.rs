use faster_beamer::path_parts::PathStyle;
use faster_beamer::paths::FilePath;
use faster_beamer::related::{
    collect_graphics_paths, collect_related_files, collect_related_files_from_tex, dedupe_paths,
    graphics_search_paths, is_static_path_reference, resolve_graphics_dependency,
    resolve_graphics_from_paths, resolve_related_file, resolve_tex_dependency, FileState, FileTable,
};

fn path(text: &str) -> FilePath {
    FilePath::parse(text)
}

/// Walks `tex` in a file system that holds `files`: whatever is asked for is looked up.
fn related(tex: &str, base_dir: &str, files: &[(&str, FileState)]) -> Vec<FilePath> {
    let mut table = FileTable::new();
    loop {
        match collect_related_files(tex, &path(base_dir), &table) {
            Ok(found) => return found,
            Err(wanted) => {
                assert!(table.state(&wanted).is_none());
                let state = files
                    .iter()
                    .find(|(name, _)| path(name) == wanted)
                    .map(|(_, state)| state.clone())
                    .unwrap_or(FileState::Missing);
                table.add(wanted, state);
            }
        }
    }
}

fn text(content: &str) -> FileState {
    FileState::Text(content.to_string())
}

#[test]
fn collect_related_files_finds_nested_inputs_and_graphics() {
    let dependencies = related(
        "\\input{figs/chunk}",
        "/deck",
        &[
            ("/deck/figs/chunk.tex", text("\\includegraphics{plot}")),
            ("/deck/figs/plot.pdf", text("pdf")),
        ],
    );

    assert!(dependencies.contains(&path("/deck/figs/chunk.tex")));
    assert!(dependencies.contains(&path("/deck/figs/plot.pdf")));
}

#[test]
fn collect_related_files_ignores_dynamic_macro_paths_in_inputs() {
    let dependencies = related(
        "\\input{shared}",
        "/deck",
        &[(
            "/deck/shared.tex",
            text("\\newcommand{\\frameplot}[1]{\\includegraphics{#1}}\n\\newcommand{\\otherplot}[2]{\\includegraphics{#2}}"),
        )],
    );

    assert_eq!(dependencies, vec![path("/deck/shared.tex")]);
}

#[test]
fn collect_related_files_uses_graphicspath_from_parent_input() {
    let dependencies = related(
        "\\graphicspath{{./figs/}}\\input{shared}",
        "/deck",
        &[
            ("/deck/shared.tex", text("\\includegraphics{plot}")),
            ("/deck/figs/plot.pdf", text("pdf")),
        ],
    );

    assert!(dependencies.contains(&path("/deck/shared.tex")));
    assert!(dependencies.contains(&path("/deck/figs/plot.pdf")));
}

#[test]
fn inputs_that_name_each_other_are_read_once() {
    let dependencies = related(
        "\\input{a} % \\input{commented}\n\\include{b}",
        "/deck",
        &[
            ("/deck/a.tex", text("\\input{b}")),
            ("/deck/b.tex", text("\\input{a}\\input{gone}")),
        ],
    );
    assert_eq!(
        dependencies,
        vec![path("/deck/a.tex"), path("/deck/b.tex"), path("/deck/gone.tex")]
    );
}

#[test]
fn files_that_cannot_be_read_are_still_dependencies() {
    assert_eq!(
        related("\\input{a}", "/deck", &[("/deck/a", FileState::Present)]),
        vec![path("/deck/a")]
    );
    assert_eq!(
        related("\\includegraphics[width=1cm]{a.png}", "/deck", &[]),
        vec![path("/deck/a.png")]
    );
    assert_eq!(related("\\input{}", "/deck", &[]), vec![]);
}

#[test]
fn references_that_macros_fill_in_are_not_followed() {
    assert!(is_static_path_reference("figs/plot"));
    assert!(!is_static_path_reference(""));
    assert!(!is_static_path_reference("#1"));
    assert!(!is_static_path_reference("\\path/x"));
    assert!(!is_static_path_reference("a\nb"));
}

#[test]
fn repeated_paths_are_kept_where_they_come_first() {
    let mut paths = vec![path("b"), path("a"), path("b"), path("a"), path("c")];
    dedupe_paths(&mut paths);
    assert_eq!(paths, vec![path("b"), path("a"), path("c")]);
}

#[test]
fn graphics_are_searched_where_the_source_says() {
    assert_eq!(
        collect_graphics_paths(
            "\\graphicspath{{figs/} {/abs} {#1}}",
            &path("/deck"),
            &[path("/other")]
        ),
        vec![path("/other"), path("/deck"), path("/deck/figs"), path("/abs")]
    );
    assert_eq!(
        graphics_search_paths(
            &["figs".to_string(), ".".to_string()],
            &path("/deck"),
            &[path("/deck")]
        ),
        vec![path("/deck"), path("/deck/figs")]
    );
}

#[test]
fn extensions_are_tried_in_turn() {
    let mut files = FileTable::new();
    for name in ["/d/plot", "/d/plot.pdf", "/d/plot.png"] {
        files.add(path(name), FileState::Missing);
    }
    assert_eq!(files.has_file(&path("/d/plot")), Some(false));
    assert_eq!(
        resolve_graphics_dependency(&files, &path("/d/plot")),
        Err(path("/d/plot.jpg"))
    );
    files.add(path("/d/plot.jpg"), FileState::Present);
    assert_eq!(files.has_file(&path("/d/plot.jpg")), Some(true));
    assert_eq!(
        resolve_graphics_dependency(&files, &path("/d/plot")),
        Ok(path("/d/plot.jpg"))
    );
    assert_eq!(
        resolve_graphics_from_paths(&files, " plot ", &[path("/d")], PathStyle::Unix),
        Ok(Some(path("/d/plot.jpg")))
    );
    assert_eq!(resolve_graphics_from_paths(&files, "plot", &[], PathStyle::Unix), Ok(None));
    assert_eq!(
        resolve_tex_dependency(&files, &path("/d/plot")),
        Ok(path("/d/plot.tex"))
    );
    assert_eq!(
        resolve_related_file(&files, "input", "#1", &path("/d"), &[]),
        Ok(None)
    );
    assert_eq!(
        resolve_related_file(&files, "includepdf", "plot", &path("/d"), &[path("/d")]),
        Ok(Some(path("/d/plot.jpg")))
    );
}

#[test]
fn a_walk_goes_on_where_it_left_off() {
    let mut files = FileTable::new();
    files.add(path("/d/a"), FileState::Missing);
    let mut found = vec![path("/d/z.pdf")];
    let mut visited = vec![path("/d/a.tex")];
    let walked = collect_related_files_from_tex(
        "\\input{a}",
        &path("/d"),
        &[],
        &mut found,
        &mut visited,
        &files,
        10,
    );
    assert_eq!(walked, Ok(()));
    assert_eq!(found, vec![path("/d/z.pdf"), path("/d/a.tex")]);
    assert_eq!(visited, vec![path("/d/a.tex")]);
}
