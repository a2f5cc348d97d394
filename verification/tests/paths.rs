use faster_beamer::path_parts::{PathComponent, PathPrefix, PathStyle};
use faster_beamer::paths::{cache_path, cache_relative_path, sanitize_component, FilePath};

fn names(parts: &[&str]) -> FilePath {
    FilePath {
        style: PathStyle::Unix,
        components: parts.iter().map(|p| PathComponent::Normal(p.to_string())).collect(),
        text: parts.join("/"),
    }
}

fn windows(text: &str) -> FilePath {
    FilePath::parse_as(text, PathStyle::Windows)
}

#[test]
fn keeps_relative_paths_stable() {
    let relative = FilePath::parse("slides/assets");
    assert_eq!(cache_relative_path(&relative), names(&["slides", "assets"]));
}

#[test]
fn maps_windows_drive_prefix_to_portable_segments() {
    let path = windows(r"C:\Users\alice\slides");
    assert_eq!(
        cache_relative_path(&path),
        names(&["drive_c", "Users", "alice", "slides"])
    );
    assert_eq!(cache_relative_path(&path).text, r"drive_c\Users\alice\slides");
}

#[test]
fn maps_unix_root_to_portable_segments() {
    let path = FilePath::parse("/home/alice/slides");
    assert_eq!(
        cache_relative_path(&path),
        names(&["root", "home", "alice", "slides"])
    );
}

#[test]
fn other_prefixes_become_portable_segments() {
    let kept = |text: &str| cache_relative_path(&windows(text));
    assert_eq!(kept(r"\\?\d:\a"), names(&["drive_d", "a"]));
    assert_eq!(kept(r"\\my server\s$\a"), names(&["unc", "my_server", "s_", "a"]));
    assert_eq!(kept(r"\\?\UNC\x"), names(&["unc", "x", "_"]));
    assert_eq!(kept(r"\\.\COM1:\a"), names(&["device", "COM1_", "a"]));
    assert_eq!(kept(r"\\?\pic/x\a"), names(&["verbatim", "pic_x", "a"]));
    assert_eq!(kept(r"\\..\s\a").text, r"unc\..\s\a");
    assert_eq!(kept(r"C:\a\d:x").text, "d:x");
}

#[test]
fn windows_paths_are_read_with_their_prefixes() {
    let normal = |name: &str| PathComponent::Normal(name.to_string());
    let read = |text: &str| windows(text).components;
    assert_eq!(
        read(r"c:\a/b\.\..\"),
        vec![
            PathComponent::Prefix(PathPrefix::Disk(b'C')),
            PathComponent::RootDir,
            normal("a"),
            normal("b"),
            PathComponent::ParentDir,
        ]
    );
    assert_eq!(read("c:a"), vec![PathComponent::Prefix(PathPrefix::Disk(b'C')), normal("a")]);
    assert_eq!(read(r"\a"), vec![PathComponent::RootDir, normal("a")]);
    assert_eq!(read(r".\a"), vec![PathComponent::CurDir, normal("a")]);
    assert_eq!(
        read("//server/share"),
        vec![
            PathComponent::Prefix(PathPrefix::Unc("server".into(), "share".into())),
            PathComponent::RootDir,
        ]
    );
    assert_eq!(read(r"\\server"), vec![PathComponent::RootDir, normal("server")]);
    assert_eq!(
        read(r"\\.\pipe\x"),
        vec![
            PathComponent::Prefix(PathPrefix::DeviceNs("pipe".into())),
            PathComponent::RootDir,
            normal("x"),
        ]
    );
    assert_eq!(
        read(r"\\?\C:\a/b\."),
        vec![
            PathComponent::Prefix(PathPrefix::VerbatimDisk(b'C')),
            PathComponent::RootDir,
            normal("a/b"),
            PathComponent::CurDir,
        ]
    );
    assert_eq!(
        read(r"\\?\C:a"),
        vec![PathComponent::Prefix(PathPrefix::Verbatim("C:a".into()))]
    );
    assert_eq!(
        read(r"\\?\UNC\server\share\x"),
        vec![
            PathComponent::Prefix(PathPrefix::VerbatimUnc("server".into(), "share".into())),
            PathComponent::RootDir,
            normal("x"),
        ]
    );
    assert_eq!(
        read(r"//?/C:\a"),
        vec![
            PathComponent::Prefix(PathPrefix::Unc("?".into(), "C:".into())),
            PathComponent::RootDir,
            normal("a"),
        ]
    );
    assert_eq!(FilePath::parse(r"c:\a").components, vec![normal(r"c:\a")]);
}

#[test]
fn windows_paths_are_joined_with_backslashes() {
    let joined = |base: &str, other: &str| windows(base).join(&windows(other)).text;
    assert_eq!(joined(r"C:\deck", "a.tex"), r"C:\deck\a.tex");
    assert_eq!(joined("C:/deck/", "a.tex"), "C:/deck/a.tex");
    assert_eq!(joined("C:", "a.tex"), "C:a.tex");
    assert_eq!(joined(r"C:\deck", r"\a.tex"), r"C:\a.tex");
    assert_eq!(joined(r"C:\deck", r"D:a.tex"), "D:a.tex");
    assert_eq!(joined(r"C:\deck", r"D:\a.tex"), r"D:\a.tex");
    assert_eq!(joined(r"\\?\C:\deck\x", r"..\.\img/a.png"), r"\\?\C:\deck\img\a.png");
    assert_eq!(joined(r"\\?\C:\deck", r"\a.tex"), r"\\?\C:\a.tex");
    assert_eq!(joined(r"\\?\C:\deck", ""), r"\\?\C:\deck\");
    assert!(windows(r"C:\a").is_absolute());
    assert!(windows(r"\\server\share").is_absolute());
    assert!(!windows("C:a").is_absolute());
    assert!(!windows(r"\a").is_absolute());
    assert_eq!(windows(r"C:\a\b.tex").parent().unwrap().text, r"C:\a");
    assert_eq!(windows(r"C:\a").parent().unwrap().text, r"C:\");
    assert_eq!(windows("C:a").parent().unwrap().text, "C:");
    assert!(windows(r"C:\").parent().is_none());
    assert_eq!(windows("C:a/b.tex").with_extension("pdf").text, "C:a/b.pdf");
    assert_eq!(windows(r"C:\a\b").strip_prefix(&windows("C:/a")).unwrap().text, "b");
    assert_eq!(windows(r"C:\a\b").strip_prefix(&windows("C:")).unwrap().text, r"\a\b");
}

#[test]
fn parent_components_never_leave_the_cache() {
    let path = FilePath::parse("../../etc/./passwd");
    assert_eq!(
        cache_relative_path(&path),
        names(&["parent", "parent", "etc", "passwd"])
    );
    let root = FilePath::parse("/cache");
    let kept = cache_path(&root, &path);
    assert_eq!(kept.text, "/cache/parent/parent/etc/passwd");
    assert!(kept.is_inside(&root));
}

#[test]
fn empty_paths_have_a_place_of_their_own() {
    assert_eq!(cache_relative_path(&FilePath::parse("")), names(&["relative"]));
    assert_eq!(cache_relative_path(&FilePath::parse(".")), names(&["relative"]));
    assert_eq!(cache_relative_path(&FilePath::parse("/")), names(&["root"]));
}

#[test]
fn component_names_are_sanitized() {
    assert_eq!(sanitize_component("a b/c.tex"), "a_b_c.tex");
    assert_eq!(sanitize_component("naïve-_1"), "na_ve-_1");
    assert_eq!(sanitize_component(""), "_");
}

#[test]
fn paths_behave_like_those_of_the_standard_library() {
    let samples = [
        "", ".", "..", "/", "a", "a/b", "/a/b", "./a", "a/.", "a/..", "../a", "a//b/", "/a/../b",
        "a.tex", "dir/a.b.tex", ".hidden", "dir/.hidden.tex", "a.", "...", "a/./b", "a//b.tex",
        "a/b.tex/.", "./.", ".//a", "/.", "//", "a/././b/.//", "./", "/a/", "..//..", "a\\b.tex",
    ];
    for text in samples.iter() {
        let own = FilePath::parse(text);
        let std_path = std::path::Path::new(text);
        assert_eq!(
            own.file_name(),
            std_path.file_name().map(|n| n.to_str().unwrap()),
            "{}",
            text
        );
        assert_eq!(
            own.file_stem(),
            std_path.file_stem().map(|n| n.to_str().unwrap().to_string())
        );
        assert_eq!(
            own.extension(),
            std_path.extension().map(|n| n.to_str().unwrap().to_string())
        );
        assert_eq!(own.is_absolute(), std_path.is_absolute());
        assert_eq!(
            own.parent().map(|p| p.text),
            std_path.parent().map(|p| p.to_str().unwrap().to_string()),
            "{}",
            text
        );
        assert_eq!(
            own.parent(),
            std_path.parent().map(|p| FilePath::parse(p.to_str().unwrap()))
        );
        for ext in ["pdf", "synctex.gz", ""] {
            let renamed = std_path.with_extension(ext);
            assert_eq!(own.with_extension(ext).text, renamed.to_str().unwrap(), "{}", text);
            assert_eq!(own.with_extension(ext), FilePath::parse(renamed.to_str().unwrap()));
        }
        for other in samples.iter() {
            let own_other = FilePath::parse(other);
            let std_other = std::path::Path::new(other);
            let std_joined = std_path.join(std_other);
            let std_text = std_joined.to_str().unwrap();
            assert_eq!(own.join(&own_other).text, std_text, "{} {}", text, other);
            assert_eq!(own.join(&own_other), FilePath::parse(std_text), "{} {}", text, other);
            assert_eq!(own.is_inside(&own_other), std_path.starts_with(std_other));
            assert_eq!(own.same_as(&own_other), std_path == std_other);
            assert_eq!(
                own.strip_prefix(&own_other).map(|p| p.text),
                std_path.strip_prefix(std_other).ok().map(|p| p.to_str().unwrap().to_string()),
                "{} {}",
                text,
                other
            );
            assert_eq!(
                own.strip_prefix(&own_other),
                std_path
                    .strip_prefix(std_other)
                    .ok()
                    .map(|p| FilePath::parse(p.to_str().unwrap()))
            );
        }
    }
}

#[test]
fn different_directories_are_kept_apart() {
    let root = FilePath::parse("/cache");
    let kept = |text: &str| cache_path(&root, &FilePath::parse(text));
    assert_ne!(kept("/home/a/slides"), kept("/home/b/slides"));
    assert_ne!(kept("/"), kept("/root"));
    assert!(kept("/home/a/slides").is_inside(&kept("/home/a")));
    assert!(!kept("/home/ab").is_inside(&kept("/home/a")));
}

#[test]
fn paths_keep_the_text_that_they_are_written_as() {
    for text in ["", "/", "a", "/a/b c", "./a", "../a/..", "a/b/c.tex", "a//b/./c/"] {
        assert_eq!(FilePath::parse(text).text, text);
    }
    assert_eq!(FilePath::parse("a//b/./c/"), FilePath::parse("a/b/c"));
    let kept = cache_path(&FilePath::parse("/tmp//cache/"), &FilePath::parse("/home//a/"));
    assert_eq!(kept.text, "/tmp//cache/root/home/a");
    assert_eq!(FilePath::lone("a/b", PathStyle::Unix).file_name(), Some("a/b"));
}
