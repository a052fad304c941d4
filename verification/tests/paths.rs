use minara::paths::{
    build_file_breadcrumbs, collect_instance_entries, content_disposition, count_entries, join_path,
    leads_to_identity, normalize_relative_path, parent_relative_path, path_file_name,
    relative_path_to_string, resolve_instance_subpath, sanitize_upload_filename, FileBreadcrumb,
    InstanceFileEntry, ListedEntry,
};
use std::path::{Path, PathBuf};

fn texts(list: &[&str]) -> Vec<String> {
    list.iter().map(|s| s.to_string()).collect()
}

#[test]
fn joining_agrees_with_the_standard_library() {
    for base in ["", "/", "/a", "/a/", "a", "a/b"] {
        for rel in ["", "x", "/x", "x/y", "..", "."] {
            let expected = PathBuf::from(base).join(rel);
            assert_eq!(join_path(base, rel), expected.to_str().unwrap(), "{} {}", base, rel);
        }
    }
}

#[test]
fn file_names_agree_with_the_standard_library() {
    for p in ["", "/", "a", "/a/b", "a/b/", "a/.", "..", "a/..", ".", "./a", "a//b", "/a/./", "x/.hidden"] {
        let expected = Path::new(p).file_name().map(|n| n.to_str().unwrap().to_string());
        assert_eq!(path_file_name(p), expected, "{}", p);
    }
}

#[test]
fn requests_that_step_down() {
    assert_eq!(normalize_relative_path("worlds/a/b.txt"), Ok(texts(&["worlds", "a", "b.txt"])));
    assert_eq!(normalize_relative_path("  ./a//b/. "), Ok(texts(&["a", "b"])));
    assert_eq!(normalize_relative_path("a\\b"), Ok(texts(&["a", "b"])));
    assert_eq!(normalize_relative_path(""), Ok(texts(&[])));
    assert_eq!(normalize_relative_path("..."), Ok(texts(&["..."])));
}

#[test]
fn requests_that_are_refused() {
    for raw in ["/etc", " /etc", "\\etc", "//x"] {
        assert_eq!(
            normalize_relative_path(raw),
            Err("Absolute paths are not allowed".to_string()),
            "{}",
            raw
        );
    }
    for raw in ["..", "a/..", "../a", "a/../../b", "a\\..\\b"] {
        assert_eq!(normalize_relative_path(raw), Err("Invalid path".to_string()), "{}", raw);
    }
}

#[test]
fn relative_paths_as_text() {
    assert_eq!(relative_path_to_string(&texts(&["a", "b", "c"])), "a/b/c");
    assert_eq!(relative_path_to_string(&texts(&[])), "");
}

#[test]
fn places_below_an_instance() {
    assert_eq!(
        resolve_instance_subpath("/i/one", Some("worlds/x")),
        Ok(("/i/one/worlds/x".to_string(), "worlds/x".to_string()))
    );
    assert_eq!(
        resolve_instance_subpath("/i/one", Some("  ")),
        Ok(("/i/one/".to_string(), "".to_string()))
    );
    assert_eq!(
        resolve_instance_subpath("/i/one", None),
        Ok(("/i/one/".to_string(), "".to_string()))
    );
    assert_eq!(
        resolve_instance_subpath("/i/one", Some("../two")),
        Err("Invalid path".to_string())
    );
}

#[test]
fn a_relative_path_comes_back() {
    let (place, rel) = resolve_instance_subpath("/i/one", Some(" ./a\\b ")).unwrap();
    assert_eq!(resolve_instance_subpath("/i/one", Some(&rel)), Ok((place, rel)));
}

#[test]
fn a_relative_path_with_white_ends_does_not_come_back() {
    let (_, rel) = resolve_instance_subpath("/i", Some("./ a")).unwrap();
    assert_eq!(rel, " a");
    assert_eq!(
        resolve_instance_subpath("/i", Some(&rel)),
        Ok(("/i/a".to_string(), "a".to_string()))
    );
}

#[test]
fn names_of_uploads() {
    assert_eq!(sanitize_upload_filename(" world.mcworld "), Some("world.mcworld".to_string()));
    assert_eq!(sanitize_upload_filename("../../etc/passwd"), Some("passwd".to_string()));
    assert_eq!(sanitize_upload_filename("dir/ spaced "), Some("spaced".to_string()));
    assert_eq!(sanitize_upload_filename("a\\b"), Some("a\\b".to_string()));
    for raw in ["", "   ", "..", "a/..", "/", "."] {
        assert_eq!(sanitize_upload_filename(raw), None, "{}", raw);
    }
}

#[test]
fn the_name_of_an_upload_is_kept() {
    for raw in [" world.mcworld ", "../../etc/passwd", "dir/ spaced ", "a\\b", "...", "a/./b/."] {
        let name = sanitize_upload_filename(raw).unwrap();
        assert_eq!(sanitize_upload_filename(&name), Some(name.clone()), "{}", raw);
    }
}

#[test]
fn the_identity_file_is_known() {
    assert!(leads_to_identity("/i/one/.minara_instance_id"));
    assert!(leads_to_identity("/i/one/.minara_instance_id/."));
    assert!(!leads_to_identity("/i/one/.minara_instance_id/x"));
    assert!(!leads_to_identity("/i/one"));
}

#[test]
fn one_step_up() {
    assert_eq!(parent_relative_path(""), None);
    assert_eq!(parent_relative_path("/"), None);
    assert_eq!(parent_relative_path("a"), Some("".to_string()));
    assert_eq!(parent_relative_path("a/b//c"), Some("a/b".to_string()));
}

#[test]
fn trails_of_links() {
    let link = |label: &str, path: &str, is_current: bool| FileBreadcrumb {
        label: label.to_string(),
        path: path.to_string(),
        is_current,
    };
    assert_eq!(build_file_breadcrumbs(""), vec![link("root", "", true)]);
    assert_eq!(
        build_file_breadcrumbs("a/b"),
        vec![link("root", "", false), link("a", "a", false), link("b", "a/b", true)]
    );
    for path in ["a", "a/b", "a/b/c", "a/../b", "./a"] {
        let trail = build_file_breadcrumbs(path);
        let n = trail.len();
        assert_eq!(parent_relative_path(&trail[n - 1].path).as_ref(), Some(&trail[n - 2].path));
    }
}

fn listed(name: Option<&str>, metadata: Option<(bool, u64)>) -> ListedEntry<String> {
    ListedEntry {
        name: name.map(|n| n.to_string()),
        is_directory: metadata.map(|m| m.0).unwrap_or(false),
        size: metadata.map(|m| m.1),
    }
}

#[test]
fn entries_as_they_are_shown() {
    let list = vec![
        listed(Some("b.txt"), Some((false, 2048))),
        listed(Some(".minara_instance_id"), Some((false, 37))),
        listed(Some("Alpha"), Some((true, 4096))),
        listed(None, Some((false, 1))),
        listed(Some("A.txt"), None),
        listed(Some("zoo"), Some((true, 0))),
    ];
    let shown = collect_instance_entries(&list, "worlds");
    let entry = |name: &str, is_directory: bool, size: &str| InstanceFileEntry {
        name: name.to_string(),
        is_directory,
        size_label: size.to_string(),
        relative_path: format!("worlds/{}", name),
    };
    assert_eq!(
        shown,
        vec![
            entry("Alpha", true, "-"),
            entry("zoo", true, "-"),
            entry("A.txt", false, "--"),
            entry("b.txt", false, "2.0 KB"),
        ]
    );
    assert_eq!(count_entries(&shown), (2, 2));
    assert_eq!(collect_instance_entries(&list, "")[0].relative_path, "Alpha");
}

#[test]
fn names_in_downloads() {
    assert_eq!(content_disposition("/i/a.txt"), "attachment; filename=\"a.txt\"");
    assert_eq!(content_disposition("/i/a\"b.txt"), "attachment; filename=\"ab.txt\"");
    assert_eq!(content_disposition("/"), "attachment; filename=\"download.bin\"");
}

#[test]
fn shown_entries_can_be_opened() {
    let (place, rel) = resolve_instance_subpath("/i/one", Some("worlds")).unwrap();
    let shown = collect_instance_entries(&vec![listed(Some("a b.txt"), Some((false, 1)))], &rel);
    assert_eq!(
        resolve_instance_subpath("/i/one", Some(&shown[0].relative_path)),
        Ok((join_path(&place, "a b.txt"), "worlds/a b.txt".to_string()))
    );
}

#[test]
fn an_entry_with_a_backslash_cannot_be_opened() {
    let shown = collect_instance_entries(&vec![listed(Some("a\\b"), Some((false, 1)))], "");
    assert_eq!(shown[0].relative_path, "a\\b");
    assert_eq!(
        resolve_instance_subpath("/i", Some(&shown[0].relative_path)),
        Ok(("/i/a/b".to_string(), "a/b".to_string()))
    );
}
