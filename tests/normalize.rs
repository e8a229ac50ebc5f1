use pathnorm::{components, normalize, reduce, render, Component};
use std::path::Path;

fn kinds(comps: &[Component]) -> Vec<String> {
    comps
        .iter()
        .map(|c| match c {
            Component::Prefix(p) => format!("prefix:{}", p),
            Component::RootDir => "root".to_string(),
            Component::CurDir => "cur".to_string(),
            Component::ParentDir => "parent".to_string(),
            Component::Normal(n) => format!("normal:{}", n),
        })
        .collect()
}

fn std_kinds(p: &str) -> Vec<String> {
    Path::new(p)
        .components()
        .map(|c| match c {
            std::path::Component::Prefix(p) => format!("prefix:{}", p.as_os_str().to_str().unwrap()),
            std::path::Component::RootDir => "root".to_string(),
            std::path::Component::CurDir => "cur".to_string(),
            std::path::Component::ParentDir => "parent".to_string(),
            std::path::Component::Normal(n) => format!("normal:{}", n.to_str().unwrap()),
        })
        .collect()
}

#[test]
fn test_normalize() {
    assert_eq!(normalize(""), ".");
    assert_eq!(normalize("/"), "/");
    assert_eq!(normalize("/.."), "/");
    assert_eq!(normalize("."), ".");
    assert_eq!(normalize("./foo"), "foo");
    assert_eq!(normalize("foo"), "foo");
    assert_eq!(normalize("/."), "/");
    assert_eq!(normalize("/.."), "/");
    assert_eq!(normalize("foo/bar/"), "foo/bar");
    assert_eq!(normalize("foo//bar///"), "foo/bar");
    assert_eq!(normalize("foo/bar/./baz/"), "foo/bar/baz");
    assert_eq!(normalize("foo/bar/../baz/"), "foo/baz");
    assert_eq!(normalize("../foo"), "../foo");
}

#[test]
fn normalize_accumulates_leading_parents() {
    assert_eq!(normalize("../foo"), "../foo");
    assert_eq!(normalize("../../foo"), "../../foo");
    assert_eq!(normalize("foo/../.."), "..");
    assert_eq!(normalize("foo/../../bar"), "../bar");
}

#[test]
fn normalize_cancels_segments() {
    assert_eq!(normalize("foo/bar/../baz"), "foo/baz");
    assert_eq!(normalize("foo/.."), ".");
    assert_eq!(normalize("/foo/bar/../../.."), "/");
    assert_eq!(normalize("/foo/../bar"), "/bar");
}

#[test]
fn normalize_collapses_separators_and_dots() {
    assert_eq!(normalize("foo//bar///"), "foo/bar");
    assert_eq!(normalize("foo/bar/./baz/"), "foo/bar/baz");
    assert_eq!(normalize("//foo/./"), "/foo");
    assert_eq!(normalize("././."), ".");
}

#[test]
fn normalize_keeps_normal_paths() {
    assert_eq!(normalize("foo"), "foo");
    assert_eq!(normalize("foo/bar"), "foo/bar");
    assert_eq!(normalize("/foo/bar"), "/foo/bar");
    assert_eq!(normalize(".hidden/..x/x.."), ".hidden/..x/x..");
}

#[test]
fn normalize_root_absorbs_parents() {
    assert_eq!(normalize("/.."), "/");
    assert_eq!(normalize("/."), "/");
    assert_eq!(normalize("/../../foo"), "/foo");
}

#[test]
fn normalize_end_to_end() {
    assert_eq!(normalize(""), ".");
    assert_eq!(normalize("/"), "/");
    assert_eq!(normalize("."), ".");
    assert_eq!(normalize("./foo"), "foo");
}

#[test]
fn normalize_is_idempotent_on_samples() {
    let samples = [
        "", "/", ".", "..", "./foo", "../../foo", "foo/bar/../baz", "/../x/./y//",
        "a/b/c/../../..", "a/../../b/./c/", "é/ü/../ß",
    ];
    for p in samples.iter() {
        let once = normalize(p);
        assert_eq!(normalize(&once), once);
    }
}

#[test]
fn normalize_is_never_empty() {
    for p in ["", ".", "./", "a/..", "./a/../."].iter() {
        assert_eq!(normalize(p), ".");
    }
}

#[test]
fn components_agree_with_std() {
    let samples = [
        "", "/", ".", "..", "./", "./foo", "foo/./bar", "foo//bar///", "/..", "/.",
        "//a", ".a/b.", "a/./.", "../../x", "./.", ".//a", "a/b/../c", "é/ü",
    ];
    for p in samples.iter() {
        assert_eq!(kinds(&components(p)), std_kinds(p), "{}", p);
    }
}

#[test]
fn components_of_a_path() {
    let c = components("/a/../b/./c/");
    assert_eq!(
        kinds(&c),
        vec!["root", "normal:a", "parent", "normal:b", "normal:c"]
    );
}

#[test]
fn reduce_keeps_parent_after_prefix() {
    let comps = vec![
        Component::Prefix("C:".to_string()),
        Component::ParentDir,
        Component::Normal("x".to_string()),
    ];
    let st = reduce(&comps);
    assert_eq!(kinds(&st), vec!["prefix:C:", "parent", "normal:x"]);
    assert_eq!(render(&st), "C:../x");
}

#[test]
fn reduce_follows_the_top_of_the_stack() {
    let comps = vec![
        Component::ParentDir,
        Component::ParentDir,
        Component::Normal("a".to_string()),
        Component::CurDir,
        Component::Normal("b".to_string()),
        Component::ParentDir,
    ];
    assert_eq!(kinds(&reduce(&comps)), vec!["parent", "parent", "normal:a"]);
    let rooted = vec![Component::RootDir, Component::ParentDir, Component::Normal("a".to_string())];
    assert_eq!(kinds(&reduce(&rooted)), vec!["root", "normal:a"]);
    assert!(reduce(&vec![Component::CurDir]).is_empty());
}

#[test]
fn render_joins_with_separators() {
    let comps = vec![
        Component::RootDir,
        Component::Normal("usr".to_string()),
        Component::Normal("lib".to_string()),
    ];
    assert_eq!(render(&comps), "/usr/lib");
    let rel = vec![Component::ParentDir, Component::Normal("a".to_string())];
    assert_eq!(render(&rel), "../a");
    assert_eq!(render(&Vec::new()), "");
}
