use octobuild::task::OutputInfo;
use octobuild::vs::{
    fingerprint, filter_compile_args, filter_preprocessed, filter_preprocess_args, to_hex, Arg,
    CompilationTask, Scope, VsCompiler,
};

fn flag(scope: Scope, name: &str) -> Arg {
    Arg::Flag { scope, flag: name.to_string() }
}

fn param(scope: Scope, name: &str, value: &str) -> Arg {
    Arg::Param { scope, flag: name.to_string(), value: value.to_string() }
}

fn classified() -> Vec<Arg> {
    vec![
        flag(Scope::Preprocessor, "X"),
        param(Scope::Shared, "D", "FOO=bar"),
        flag(Scope::Compiler, "O2"),
        flag(Scope::Ignore, "nologo"),
        Arg::Input { file: "main.cpp".to_string() },
        Arg::Output { file: "main.obj".to_string() },
    ]
}

#[test]
fn preprocess_args_take_preprocessor_and_shared_scopes() {
    let out = filter_preprocess_args(&classified());
    assert_eq!(out, vec!["/X".to_string(), "/DFOO=bar".to_string()]);
}

#[test]
fn compile_args_take_all_but_ignored_scopes() {
    let out = filter_compile_args(&classified());
    assert_eq!(out, vec!["/X".to_string(), "/DFOO=bar".to_string(), "/O2".to_string()]);
}

fn sample_task(marker: Option<&str>) -> CompilationTask {
    CompilationTask {
        args: classified(),
        language: "P".to_string(),
        input_source: "main.cpp".to_string(),
        input_precompiled: Some("pch.pch".to_string()),
        output_object: "main.obj".to_string(),
        output_precompiled: None,
        marker_precompiled: marker.map(|m| m.to_string()),
    }
}

#[test]
fn preprocess_command_gets_the_fixed_tail() {
    let out = VsCompiler::prepare_preprocess_args(&sample_task(None));
    assert_eq!(
        out,
        vec![
            "/X".to_string(),
            "/DFOO=bar".to_string(),
            "/nologo".to_string(),
            "/TP".to_string(),
            "/P".to_string(),
            "main.cpp".to_string(),
        ]
    );
}

#[test]
fn compile_command_gets_language_and_precompiled_header() {
    let out = VsCompiler::prepare_compile_args(&sample_task(None));
    assert_eq!(
        out,
        vec![
            "/X".to_string(),
            "/DFOO=bar".to_string(),
            "/O2".to_string(),
            "/TP".to_string(),
            "/Yu".to_string(),
            "/Fppch.pch".to_string(),
        ]
    );
}

#[test]
fn fingerprint_is_a_function_of_args_and_content() {
    let args = vec!["/X".to_string(), "/DFOO=bar".to_string()];
    let content = b"preprocessed text".to_vec();
    let first = fingerprint(&args, &content);
    let second = fingerprint(&args, &content);
    assert_eq!(first, second);
    assert_eq!(first.len(), 40);
    assert!(first.chars().all(|c| c.is_ascii_hexdigit()));
}

#[test]
fn fingerprint_changes_with_content() {
    let args = vec!["/X".to_string()];
    let a = fingerprint(&args, &b"one".to_vec());
    let b = fingerprint(&args, &b"two".to_vec());
    assert_ne!(a, b);
}

#[test]
fn sha1_hex_of_known_input() {
    // to_hex renders a digest as lower-case hex, two digits a byte
    assert_eq!(to_hex(&vec![0x00, 0xab, 0x0f]), "00ab0f");
}

#[test]
fn filter_preprocessed_without_marker_passes_through() {
    let content = b"line one\nline two\n".to_vec();
    let out = filter_preprocessed(&content, &None).unwrap();
    assert_eq!(out, content);
}

#[test]
fn filter_preprocessed_splits_at_marker() {
    let content = b"#include junk\nMARKER\nreal code".to_vec();
    let out = filter_preprocessed(&content, &Some("MARKER".to_string())).unwrap();
    assert_eq!(out, b"MARKER\nreal code".to_vec());
}

#[test]
fn filter_preprocessed_without_the_marker_is_unparseable() {
    let content = b"no marker here".to_vec();
    assert!(filter_preprocessed(&content, &Some("MARKER".to_string())).is_err());
}

#[test]
fn preprocess_finish_fails_on_nonzero_exit() {
    let task = sample_task(None);
    let args = VsCompiler::prepare_preprocess_args(&task);
    let output = OutputInfo { stdout: Vec::new(), stderr: b"bad".to_vec(), status: Some(1) };
    assert!(VsCompiler::preprocess_finish(&task, &args, &output, &Vec::new()).is_err());
}

#[test]
fn preprocess_finish_fingerprints_the_filtered_text() {
    let task = sample_task(Some("SPLIT"));
    let args = VsCompiler::prepare_preprocess_args(&task);
    let output = OutputInfo { stdout: Vec::new(), stderr: Vec::new(), status: Some(0) };
    let raw = b"prefix SPLIT suffix".to_vec();
    let result = VsCompiler::preprocess_finish(&task, &args, &output, &raw).unwrap();
    assert_eq!(result.content, b"SPLIT suffix".to_vec());
    assert_eq!(result.hash, fingerprint(&args, &result.content));
}

#[test]
fn vs_compiler_keeps_its_temp_dir() {
    let c = VsCompiler::new("/tmp/work");
    assert_eq!(c.temp_dir, "/tmp/work");
}
