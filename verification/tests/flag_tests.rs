use octobuild::flags::{is_flag, select_task_files};
use octobuild::task::BuildError;

#[test]
fn test_is_flag() {
    assert_eq!(is_flag("/Wait"), true);
    assert_eq!(is_flag("/out=/foo/bar"), true);
    assert_eq!(is_flag("/out/foo/bar"), false);
    assert_eq!(is_flag("foo/bar"), false);
    assert_eq!(is_flag("/Wait.xml"), false);
    assert_eq!(is_flag("/Wait/foo=bar"), false);
    assert_eq!(is_flag("/WaitFoo=bar"), true);
    assert_eq!(is_flag("/Wait.Foo=bar"), false);
    assert_eq!(is_flag("/Wait=/foo/bar"), true);
}

#[test]
fn select_keeps_only_manifest_files() {
    let args = vec![
        "/Wait".to_string(),
        "build.xgtask".to_string(),
        "/out=/tmp/log".to_string(),
        "more.xgtask".to_string(),
    ];
    let files = select_task_files(&args).unwrap();
    assert_eq!(files, vec!["build.xgtask".to_string(), "more.xgtask".to_string()]);
}

#[test]
fn select_with_no_files_is_refused() {
    let args = vec!["/Wait".to_string(), "/nologo".to_string()];
    match select_task_files(&args) {
        Err(e) => assert_eq!(e, BuildError::NoTasks),
        Ok(_) => panic!("flag-only command lines name no manifest"),
    }
}
