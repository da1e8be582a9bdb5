use littertray::dedot;
use littertray::path::{components, normalize_components, render_components, Component};

#[test]
fn dedot_test() {
    assert_eq!(dedot("/./a/../b/c/."), "/b/c");
    assert_eq!(dedot("."), "");
}

#[test]
fn dedot_is_idempotent_on_examples() {
    for p in [
        "/./a/../b/c/.",
        ".",
        "",
        "a/../../b",
        "/..",
        "//a//b/",
        "x/./y/../../z/..",
        "../..",
        "/a/b/../../..",
    ] {
        let once = dedot(p);
        assert_eq!(dedot(&once), once);
    }
}

#[test]
fn dedot_never_climbs_above_root_or_empty_base() {
    assert_eq!(dedot("/.."), "/");
    assert_eq!(dedot("/a/b/../../.."), "/");
    assert_eq!(dedot(".."), "");
    assert_eq!(dedot("a/../../b"), "b");
    assert_eq!(dedot("../../x/y"), "x/y");
}

#[test]
fn dedot_collapses_repeated_separators() {
    assert_eq!(dedot("//a//b/"), "/a/b");
    assert_eq!(dedot("a//b/"), "a/b");
    assert_eq!(dedot(""), "");
}

#[test]
fn dedot_keeps_names_with_dots() {
    assert_eq!(dedot("/a/.hidden/..."), "/a/.hidden/...");
    assert_eq!(dedot("dir/file.txt"), "dir/file.txt");
}

#[test]
fn components_of_absolute_path() {
    let cs = components("/a/./b/..");
    assert_eq!(
        cs,
        vec![
            Component::RootDir,
            Component::Normal("a".to_string()),
            Component::CurDir,
            Component::Normal("b".to_string()),
            Component::ParentDir,
        ]
    );
}

#[test]
fn components_of_relative_path() {
    let cs = components("x//y/");
    assert_eq!(
        cs,
        vec![Component::Normal("x".to_string()), Component::Normal("y".to_string())]
    );
    assert!(components("").is_empty());
}

#[test]
fn prefix_resets_and_root_follows_prefix() {
    let input = vec![
        Component::Normal("x".to_string()),
        Component::Prefix("C:".to_string()),
        Component::RootDir,
        Component::Normal("a".to_string()),
        Component::ParentDir,
        Component::ParentDir,
    ];
    let out = normalize_components(&input);
    assert_eq!(out, vec![Component::Prefix("C:".to_string()), Component::RootDir]);
}

#[test]
fn root_after_normal_restarts_path() {
    let input = vec![
        Component::Normal("x".to_string()),
        Component::RootDir,
        Component::Normal("y".to_string()),
    ];
    let out = normalize_components(&input);
    assert_eq!(out, vec![Component::RootDir, Component::Normal("y".to_string())]);
}

#[test]
fn render_joins_with_separators() {
    let cs = vec![
        Component::RootDir,
        Component::Normal("b".to_string()),
        Component::Normal("c".to_string()),
    ];
    assert_eq!(render_components(&cs), "/b/c");
    let rel = vec![
        Component::Normal("a".to_string()),
        Component::ParentDir,
        Component::CurDir,
    ];
    assert_eq!(render_components(&rel), "a/../.");
    assert_eq!(render_components(&Vec::new()), "");
}

#[test]
fn duplicate_keeps_component() {
    let c = Component::Normal("name".to_string());
    assert_eq!(c.duplicate(), c);
    assert_eq!(Component::Prefix("D:".to_string()).duplicate(), Component::Prefix("D:".to_string()));
}
