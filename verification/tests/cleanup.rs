use faster_beamer::cleanup::{
    cache_entry_is_stale, cache_garbage_cutoff, cache_path_refusal, cache_sweep_is_due,
    clean_all_generated_artifacts,
    clean_generated_artifacts, is_left_by_build, is_legacy_frame_name, is_legacy_frame_temp_file,
    is_legacy_preamble_temp_file, path_is_inside, prunable_dirs, request, sweep_action, CacheKind,
    CleanRefusal, Request, SweepAction, INPUT_REQUIRED_WITH_CLEAN, RETENTION_NANOS,
    SWEEP_INTERVAL_SECONDS,
};
use faster_beamer::document::FasterBeamerError;
use faster_beamer::path_parts::PathStyle;
use faster_beamer::paths::FilePath;

fn path(text: &str) -> FilePath {
    FilePath::parse(text)
}

#[test]
fn stale_cache_cleanup_preserves_active_cache_subdir() {
    let active = path("/c/faster-beamer/active/deck");
    let action = |text: &str, is_dir: bool| {
        sweep_action(&path(text), &active, is_dir, !is_dir, Some(10), 11)
    };

    assert_eq!(action("/c/faster-beamer/active", true), SweepAction::Descend);
    assert_eq!(action("/c/faster-beamer/active/deck", true), SweepAction::Keep);
    assert_eq!(
        action("/c/faster-beamer/active/deck/frame.pdf", false),
        SweepAction::Keep
    );
    assert_eq!(action("/c/faster-beamer/old", true), SweepAction::Descend);
    assert_eq!(action("/c/faster-beamer/old/deck", true), SweepAction::Descend);
    assert_eq!(
        action("/c/faster-beamer/old/deck/frame.pdf", false),
        SweepAction::RemoveFile
    );
}

#[test]
fn only_old_files_are_removed_from_the_cache() {
    let active = path("/c/active");
    let file = path("/c/old/f");
    assert_eq!(
        sweep_action(&file, &active, false, true, Some(11), 11),
        SweepAction::Keep
    );
    assert_eq!(
        sweep_action(&file, &active, false, true, None, 11),
        SweepAction::Keep
    );
    assert_eq!(
        sweep_action(&file, &active, false, false, Some(1), 11),
        SweepAction::Keep
    );
    assert!(cache_entry_is_stale(Some(10), 11));
    assert!(!cache_entry_is_stale(Some(11), 11));
    assert!(!cache_entry_is_stale(None, 11));
    assert_eq!(RETENTION_NANOS, 30 * 24 * 60 * 60 * 1_000_000_000);
    assert_eq!(cache_garbage_cutoff(RETENTION_NANOS + 7), 7);
    assert_eq!(cache_garbage_cutoff(RETENTION_NANOS), 0);
    assert_eq!(cache_garbage_cutoff(RETENTION_NANOS - 1), 0);
    assert_eq!(cache_garbage_cutoff(0), 0);
    assert!(path_is_inside(&path("/c/a/b"), &path("/c/a")));
    assert!(path_is_inside(&path("/c/a"), &path("/c/a/")));
    assert!(!path_is_inside(&path("/c/ab"), &path("/c/a")));
}

#[test]
fn cache_sweep_stamp_defers_repeat_cleanup() {
    assert!(cache_sweep_is_due(None));
    assert!(!cache_sweep_is_due(Some(0)));
    assert!(!cache_sweep_is_due(Some(SWEEP_INTERVAL_SECONDS - 1)));
    assert!(cache_sweep_is_due(Some(SWEEP_INTERVAL_SECONDS)));
    assert_eq!(SWEEP_INTERVAL_SECONDS, 24 * 60 * 60);
}

#[test]
fn bare_clean_removes_the_entire_configured_cache() {
    assert_eq!(request(true, false, false), Request::CleanAll);
    let cache = path("/tmp/faster-beamer-cache");
    assert_eq!(
        clean_all_generated_artifacts(
            &cache,
            Some(false),
            CacheKind::Directory,
            Some(path("/real/cache"))
        ),
        Ok(Some(path("/real/cache")))
    );
    assert_eq!(
        clean_all_generated_artifacts(&cache, Some(false), CacheKind::Missing, None),
        Ok(None)
    );
}

#[test]
fn clean_with_input_remains_scoped() {
    assert_eq!(request(true, true, false), Request::CleanInput);
    assert_eq!(request(true, true, true), Request::CleanInput);
    let plan = clean_generated_artifacts(
        true,
        &path("/tmp/deck"),
        &path("/tmp/cache"),
        "/tmp/deck/slides.pdf",
        PathStyle::Unix,
    )
    .unwrap();
    assert_eq!(plan.cache_subdir, path("/tmp/cache/root/tmp/deck"));
    assert_eq!(
        plan.prunable,
        vec![path("/tmp/cache/root/tmp"), path("/tmp/cache/root")]
    );
    assert_eq!(plan.published_synctex, path("/tmp/deck/slides.synctex.gz"));
    assert!(is_left_by_build("faster-beamer-temp-stale.tex", None));
    assert!(!is_left_by_build("slides.tex", Some("source")));
    assert!(!is_left_by_build("slides.pdf", None));
    assert_eq!(
        clean_generated_artifacts(
            false,
            &path("/tmp/deck"),
            &path("/tmp/cache"),
            "x.pdf",
            PathStyle::Unix
        ),
        Err(FasterBeamerError::InputFileNotExistent)
    );
}

#[test]
fn input_is_still_required_without_clean() {
    assert_eq!(request(false, false, false), Request::InputRequired);
    assert_eq!(request(false, false, true), Request::InputRequired);
    assert_eq!(request(false, true, true), Request::Build);
}

#[test]
fn clean_with_other_options_still_requires_input() {
    assert_eq!(request(true, false, true), Request::InputRequiredWithClean);
    assert_eq!(
        INPUT_REQUIRED_WITH_CLEAN,
        "INPUT is required when --clean is combined with other arguments"
    );
}

#[test]
fn bare_clean_rejects_parent_components_in_the_cache_path() {
    let refused = clean_all_generated_artifacts(
        &path("/tmp/cache-parent/child/.."),
        Some(false),
        CacheKind::Directory,
        Some(path("/tmp/cache-parent")),
    );
    assert_eq!(refused, Err(CleanRefusal::ParentComponent));
    assert!(CleanRefusal::ParentComponent
        .message()
        .contains("Refusing to clean a cache path containing a parent component"));
}

#[test]
fn bare_clean_refuses_to_remove_a_cache_with_a_live_watcher() {
    let refused = clean_all_generated_artifacts(
        &path("/tmp/cache"),
        Some(true),
        CacheKind::Directory,
        Some(path("/tmp/cache")),
    );
    assert_eq!(refused, Err(CleanRefusal::LiveGuards));
    assert!(CleanRefusal::LiveGuards
        .message()
        .contains("Refusing to clean all caches while a faster-beamer watcher is active"));
}

#[test]
fn roots_and_strange_caches_are_not_removed() {
    let clean = |cache: &str, guards: Option<bool>, kind: CacheKind, resolved: Option<&str>| {
        clean_all_generated_artifacts(&path(cache), guards, kind, resolved.map(path))
    };
    let dir = CacheKind::Directory;
    assert_eq!(
        clean("/", Some(false), dir, Some("/")),
        Err(CleanRefusal::FilesystemRoot)
    );
    assert_eq!(
        clean("/link", Some(false), dir, Some("/")),
        Err(CleanRefusal::FilesystemRoot)
    );
    assert_eq!(
        clean("/c", None, dir, Some("/c")),
        Err(CleanRefusal::GuardsUnreadable)
    );
    assert_eq!(clean("/c", Some(false), dir, None), Err(CleanRefusal::Unresolved));
    assert_eq!(
        clean("/c", Some(false), CacheKind::Other, None),
        Err(CleanRefusal::NotADirectory)
    );
    assert_eq!(
        clean("/c", Some(false), CacheKind::Unreadable, None),
        Err(CleanRefusal::Unreadable)
    );
    for refusal in [
        CleanRefusal::FilesystemRoot,
        CleanRefusal::GuardsUnreadable,
        CleanRefusal::Unresolved,
        CleanRefusal::NotADirectory,
        CleanRefusal::Unreadable,
    ] {
        assert!(refusal.message().len() > 20);
        assert!(refusal.report(&path("/c"), "e").starts_with(refusal.message()));
    }
}

#[test]
fn pruning_stops_at_the_cache() {
    assert_eq!(
        prunable_dirs(&path("/c"), &path("/c/a/b/d")),
        vec![path("/c/a/b"), path("/c/a")]
    );
    assert_eq!(prunable_dirs(&path("/c"), &path("/c/a")), vec![]);
}

#[test]
fn files_of_older_versions_are_recognised() {
    let digest = "0123456789abcdef0123456789ABCDEF";
    let frame = format!("{}.tex", digest);
    let text = "\\addtocounter{framenumber}{1}\n\\end{document}";
    assert!(is_legacy_frame_name(&frame));
    assert!(!is_legacy_frame_name(digest));
    assert!(is_legacy_frame_temp_file(&frame, Some(text)));
    assert!(is_left_by_build(&frame, Some(text)));
    assert!(!is_legacy_frame_temp_file(&frame, Some("\\end{document}")));
    assert!(!is_legacy_frame_temp_file(&frame, None));
    assert!(!is_legacy_frame_temp_file("x.tex", Some(text)));
    assert!(is_legacy_preamble_temp_file(&format!("{}_true.fmt", digest)));
    assert!(is_legacy_preamble_temp_file(&format!("{}_false.log", digest)));
    assert!(!is_legacy_preamble_temp_file(&format!("{}_maybe.log", digest)));
    assert!(!is_legacy_preamble_temp_file(&format!("{}_true.tex", digest)));
    assert!(!is_legacy_preamble_temp_file(&format!("{}.fmt", digest)));
    assert!(!is_legacy_preamble_temp_file("x_true.fmt"));
}

#[test]
fn refusals_are_told_with_what_is_known() {
    let cache = path("/c//x");
    assert_eq!(cache_path_refusal(&path("/c/..")), Some(CleanRefusal::ParentComponent));
    assert_eq!(cache_path_refusal(&path("/")), Some(CleanRefusal::FilesystemRoot));
    assert_eq!(cache_path_refusal(&cache), None);
    assert_eq!(
        CleanRefusal::NotADirectory.report(&cache, ""),
        "Configured cache path is not a directory: /c//x"
    );
    assert_eq!(
        CleanRefusal::LiveGuards.report(&cache, ""),
        "Refusing to clean all caches while a faster-beamer watcher is active."
    );
    assert_eq!(
        CleanRefusal::GuardsUnreadable.report(&cache, "denied"),
        "Failed to inspect watcher guards: denied"
    );
    assert_eq!(
        CleanRefusal::Unresolved.report(&cache, "denied"),
        "Failed to resolve cache directory /c//x: denied"
    );
}
