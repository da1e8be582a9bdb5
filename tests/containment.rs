use littertray::lifecycle::{teardown, Action, Stage};
use littertray::{is_contained, is_root_path, Decision, Error, LitterTray};

const ROOT: &str = "/tmp/sandbox-1";

#[test]
fn sibling_with_longer_name_is_outside() {
    let c = is_contained(ROOT, "/tmp/sandbox-10/x");
    assert_eq!(c.decision, Decision::Rejected);
    assert_eq!(c.path, "/tmp/sandbox-10/x");
}

#[test]
fn absolute_path_under_root_is_contained() {
    let c = is_contained(ROOT, "/tmp/sandbox-1/sub/file.txt");
    assert_eq!(c.decision, Decision::ContainedAbsolute);
    assert_eq!(c.path, "/tmp/sandbox-1/sub/file.txt");
    assert_eq!(is_contained(ROOT, ROOT).decision, Decision::ContainedAbsolute);
}

#[test]
fn dots_are_removed_before_the_prefix_test() {
    let c = is_contained(ROOT, "/tmp/other/../sandbox-1/./a");
    assert_eq!(c.decision, Decision::ContainedAbsolute);
    assert_eq!(c.path, "/tmp/sandbox-1/a");
    let escape = is_contained(ROOT, "/tmp/sandbox-1/../../etc/passwd");
    assert_eq!(escape.decision, Decision::Rejected);
    assert_eq!(escape.path, "/etc/passwd");
}

#[test]
fn relative_paths_are_relative() {
    for p in ["file.txt", "../../etc", "a/../../..", ".", ""] {
        assert_eq!(is_contained(ROOT, p).decision, Decision::Relative);
    }
    assert_eq!(is_contained(ROOT, "../../etc").path, "etc");
}

#[test]
fn absolute_paths_outside_are_rejected() {
    for p in ["/", "/tmp", "/etc/passwd", "/tmp/sandbox", "/tmp/sandbox-1x/y"] {
        assert_eq!(is_contained(ROOT, p).decision, Decision::Rejected);
    }
}

#[test]
fn creating_outside_the_tray_is_uncontained() {
    let tray = LitterTray::new(ROOT.to_string(), "/home/user".to_string());
    match tray.safe_path_within_tray("/not-a-litter-tray/x") {
        Err(Error::Uncontained(p)) => assert_eq!(p, "/not-a-litter-tray/x"),
        other => panic!("expected a containment error, got {:?}", other),
    }
    let e = tray.safe_path_within_tray("/not-a-litter-tray").unwrap_err();
    assert!(e.is_uncontained());
    assert_eq!(e.message(), "requested path is outside of the sandbox");
}

#[test]
fn tray_accepts_relative_and_inside_paths() {
    let tray = LitterTray::new(ROOT.to_string(), "/home/user".to_string());
    assert_eq!(tray.safe_path_within_tray("./test.txt").unwrap(), "test.txt");
    assert_eq!(
        tray.safe_path_within_tray("/tmp/sandbox-1/file.txt").unwrap(),
        "/tmp/sandbox-1/file.txt"
    );
    assert_eq!(tray.safe_path_within_tray("file1").unwrap(), "file1");
}

#[test]
fn tray_reports_its_directories() {
    let tray = LitterTray::new(ROOT.to_string(), "/home/user".to_string());
    assert_eq!(tray.directory(), ROOT);
    assert_eq!(tray.prior_working_directory(), "/home/user");
}

#[test]
fn io_error_converts_to_io_variant() {
    let e: Error = std::io::Error::new(std::io::ErrorKind::NotFound, "gone").into();
    assert!(matches!(e, Error::Io(_)));
    assert!(!e.is_uncontained());
    assert_eq!(e.message(), "I/O error");
}

#[test]
fn teardown_order_after_entering() {
    assert_eq!(
        teardown(Stage::Entered),
        vec![
            Action::RestoreWorkingDirectory,
            Action::RemoveDirectory,
            Action::ReleaseLock
        ]
    );
}

#[test]
fn teardown_after_partial_setup() {
    assert_eq!(
        teardown(Stage::Provisioned),
        vec![Action::RemoveDirectory, Action::ReleaseLock]
    );
    assert_eq!(teardown(Stage::Locked), vec![Action::ReleaseLock]);
}

#[test]
fn root_must_be_absolute_and_normalized() {
    assert!(is_root_path("/tmp/sandbox-1"));
    assert!(is_root_path("/"));
    assert!(!is_root_path(""));
    assert!(!is_root_path("tmp/sandbox-1"));
    assert!(!is_root_path("/tmp/./sandbox-1"));
    assert!(!is_root_path("/tmp/x/../sandbox-1"));
    assert!(!is_root_path("/tmp/sandbox-1/"));
}

#[test]
fn try_new_refuses_unfit_roots() {
    assert!(LitterTray::try_new(String::new(), "/home/user".to_string()).is_none());
    assert!(LitterTray::try_new("rel/dir".to_string(), "/home/user".to_string()).is_none());
    let tray = LitterTray::try_new(ROOT.to_string(), "/home/user".to_string()).unwrap();
    assert_eq!(tray.directory(), ROOT);
    assert_eq!(tray.prior_working_directory(), "/home/user");
}

#[test]
fn root_is_normalized_before_the_prefix_test() {
    let c = is_contained("/tmp/./sb", "/tmp/sb/a");
    assert_eq!(c.decision, Decision::ContainedAbsolute);
    assert_eq!(is_contained("/tmp/./sb", "/tmp/other").decision, Decision::Rejected);
}
