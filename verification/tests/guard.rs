use faster_beamer::guard::{
    configured_cache_dir, guard_file_name, guard_metadata_path, invocation_fingerprint, is_rebuild_request,
    parse_metadata, redirect_result, redirect_step, register_guard, render_metadata, GuardLookup,
    GuardMetadata, GuardStep, RedirectResult, REBUILD_ANSWER, REBUILD_REQUEST,
    watcher_address,
};
use faster_beamer::path_parts::PathStyle;
use faster_beamer::paths::FilePath;

#[test]
fn invocation_fingerprint_changes_with_build_options() {
    let base = invocation_fingerprint(
        "preview",
        "slides.pdf",
        false,
        false,
        None,
        None,
        "pdflatex",
        false,
        false,
        false,
        false,
        None,
        Vec::new(),
    );
    let changed = invocation_fingerprint(
        "pdfunite",
        "slides.pdf",
        false,
        false,
        None,
        None,
        "pdflatex",
        false,
        false,
        false,
        false,
        None,
        Vec::new(),
    );

    assert_ne!(base, changed);
}

#[test]
fn fingerprint_holds_one_line_for_each_option() {
    let text = invocation_fingerprint(
        "preview",
        "slides.pdf",
        true,
        false,
        Some("3"),
        None,
        "lualatex",
        false,
        true,
        false,
        true,
        Some("4"),
        vec!["-draftmode", "-file-line-error"],
    );
    assert_eq!(
        text,
        "mode=preview\noutput=slides.pdf\nframe_numbers=true\ntree_sitter=false\nmulti_pass=3\nbibliography=\nengine=lualatex\nprecompile_preamble=false\nno_precompile_preamble=true\nforce_recompile=false\nparallel=true\njobs=4\ncompiler_option=-draftmode\ncompiler_option=-file-line-error"
    );
}

fn sample() -> GuardMetadata {
    GuardMetadata {
        pid: 4711,
        input_path: "/home/alice/slides.tex".to_string(),
        fingerprint: "mode=preview\noutput=slides.pdf".to_string(),
        addr: "127.0.0.1:4242".to_string(),
    }
}

#[test]
fn metadata_survives_the_disk() {
    let text = render_metadata(&sample());
    assert_eq!(
        text,
        "pid=4711\ninput=/home/alice/slides.tex\nfingerprint=mode=preview\\noutput=slides.pdf\naddr=127.0.0.1:4242\n"
    );
    assert_eq!(parse_metadata(&text), Some(sample()));
}

#[test]
fn incomplete_metadata_is_refused() {
    assert_eq!(parse_metadata(""), None);
    assert_eq!(parse_metadata("pid=1\ninput=a\nfingerprint=f\n"), None);
    assert_eq!(parse_metadata("pid=x\ninput=a\nfingerprint=f\naddr=b\n"), None);
    assert_eq!(parse_metadata("pid=4294967296\ninput=a\nfingerprint=f\naddr=b\n"), None);
    assert_eq!(
        parse_metadata("pid=1\npid=oops\ninput=a\nfingerprint=f\naddr=b\n"),
        None
    );
    let read = parse_metadata("other\r\npid=+7\r\ninput=a\r\nfingerprint=f\r\naddr=b").unwrap();
    assert_eq!(read.pid, 7);
    assert_eq!(read.input_path, "a");
    assert_eq!(read.addr, "b");
}

#[test]
fn a_watched_document_is_handed_over() {
    let lookup = GuardLookup::Content(render_metadata(&sample()));
    match redirect_step(&lookup, "/home/alice/slides.tex", "mode=preview\noutput=slides.pdf") {
        GuardStep::Contact(addr) => assert_eq!(addr, "127.0.0.1:4242"),
        other => panic!("{:?}", other),
    }
    match redirect_step(&lookup, "/home/alice/slides.tex", "mode=pdfunite") {
        GuardStep::Finish(r) => assert_eq!(r, RedirectResult::DifferentOptions),
        other => panic!("{:?}", other),
    }
    match redirect_step(&lookup, "/home/bob/slides.tex", "mode=preview\noutput=slides.pdf") {
        GuardStep::Finish(r) => assert_eq!(r, RedirectResult::DifferentOptions),
        other => panic!("{:?}", other),
    }
}

#[test]
fn a_lookup_without_metadata_finds_no_guard() {
    assert!(matches!(
        redirect_step(&GuardLookup::NoCacheDir, "a", "b"),
        GuardStep::Finish(RedirectResult::NoGuard)
    ));
    assert!(matches!(
        redirect_step(&GuardLookup::Missing, "a", "b"),
        GuardStep::Finish(RedirectResult::NoGuard)
    ));
    assert!(matches!(
        redirect_step(&GuardLookup::Unreadable, "a", "b"),
        GuardStep::Finish(RedirectResult::IoError)
    ));
    assert!(matches!(
        redirect_step(&GuardLookup::Content("nonsense".to_string()), "a", "b"),
        GuardStep::Discard
    ));
}

#[test]
fn replies_decide_the_redirect() {
    assert_eq!(redirect_result(Some(REBUILD_ANSWER)), (RedirectResult::Redirected, false));
    assert_eq!(redirect_result(Some("busy")), (RedirectResult::IoError, false));
    assert_eq!(redirect_result(None), (RedirectResult::NoGuard, true));
    assert!(is_rebuild_request(REBUILD_REQUEST));
    assert!(is_rebuild_request("  rebuild\r\n"));
    assert!(!is_rebuild_request("rebuild now"));
}

#[test]
fn metadata_is_kept_under_the_digest_of_the_path() {
    let user_cache = FilePath::parse("/cache");
    let cache = configured_cache_dir(None, Some(&user_cache), PathStyle::Unix).unwrap();
    let path = guard_metadata_path(&cache, "abcdefghijklmnopqrstuvwxyz");
    assert_eq!(
        path.text,
        "/cache/faster-beamer/guards/c3fcd3d76192e4007dfb496cca67e13b.guard"
    );
    assert_eq!(register_guard(&cache, "abcdefghijklmnopqrstuvwxyz").metadata_path, path);
    assert_eq!(guard_file_name("00ff"), "00ff.guard");
    assert_eq!(
        configured_cache_dir(Some("/elsewhere"), Some(&user_cache), PathStyle::Unix),
        Some(FilePath::parse("/elsewhere"))
    );
    assert_eq!(configured_cache_dir(None, None, PathStyle::Unix), None);
}

#[test]
fn watchers_are_reached_where_their_files_say() {
    let content = "pid=4\ninput=slides.tex\nfingerprint=test\naddr=127.0.0.1:9\n";
    assert_eq!(
        watcher_address("active.guard", content),
        Some("127.0.0.1:9".to_string())
    );
    assert_eq!(watcher_address("active.txt", content), None);
    assert_eq!(watcher_address("active.guard", "pid=4\n"), None);
}
