use octobuild::task::{BuildError, OutputInfo};
use octobuild::wire::{CompileRequest, CompileResponse};

fn sample_request(hash: Option<String>) -> CompileRequest {
    CompileRequest {
        toolchain: "vs2015-x64".to_string(),
        args: vec!["/nologo".to_string(), "/TP".to_string(), "/DFOO=bar baz".to_string()],
        preprocessed_data: b"int main() { return 0; }".to_vec(),
        precompiled_hash: hash,
    }
}

#[test]
fn request_round_trip_without_hash() {
    let req = sample_request(None);
    let bytes = req.write();
    let back = CompileRequest::read(&bytes).unwrap();
    assert_eq!(back.toolchain, req.toolchain);
    assert_eq!(back.args, req.args);
    assert_eq!(back.preprocessed_data, req.preprocessed_data);
    assert_eq!(back.precompiled_hash, None);
}

#[test]
fn request_round_trip_with_hash() {
    let req = sample_request(Some("0123abcd".to_string()));
    let bytes = req.write();
    let back = CompileRequest::read(&bytes).unwrap();
    assert_eq!(back.toolchain, req.toolchain);
    assert_eq!(back.args, req.args);
    assert_eq!(back.preprocessed_data, req.preprocessed_data);
    assert_eq!(back.precompiled_hash, Some("0123abcd".to_string()));
}

#[test]
fn request_round_trip_keeps_unicode_text() {
    let req = CompileRequest {
        toolchain: "tc".to_string(),
        args: vec!["/I/pfad/übung".to_string()],
        preprocessed_data: Vec::new(),
        precompiled_hash: None,
    };
    let bytes = req.write();
    let back = CompileRequest::read(&bytes).unwrap();
    assert_eq!(back.args, vec!["/I/pfad/übung".to_string()]);
}

#[test]
fn truncated_request_frame_is_malformed() {
    let req = sample_request(None);
    let mut bytes = req.write();
    bytes.pop();
    assert!(matches!(CompileRequest::read(&bytes), Err(BuildError::MalformedFrame)));
    let empty: Vec<u8> = Vec::new();
    assert!(matches!(CompileRequest::read(&empty), Err(BuildError::MalformedFrame)));
}

#[test]
fn trailing_bytes_make_a_request_malformed() {
    let req = sample_request(None);
    let mut bytes = req.write();
    bytes.push(0);
    assert!(matches!(CompileRequest::read(&bytes), Err(BuildError::MalformedFrame)));
}

#[test]
fn response_round_trip_success() {
    let resp = CompileResponse::Success(
        OutputInfo {
            stdout: b"warning: x".to_vec(),
            stderr: Vec::new(),
            status: Some(0),
        },
        b"\x7fELFobject".to_vec(),
    );
    let bytes = resp.write();
    match CompileResponse::read(&bytes).unwrap() {
        CompileResponse::Success(o, artifact) => {
            assert_eq!(o.stdout, b"warning: x".to_vec());
            assert_eq!(o.stderr, Vec::<u8>::new());
            assert_eq!(o.status, Some(0));
            assert_eq!(artifact, b"\x7fELFobject".to_vec());
        }
        CompileResponse::Error(_) => panic!("a success frame reads back as a success"),
    }
}

#[test]
fn response_round_trip_signal_status() {
    let resp = CompileResponse::Success(
        OutputInfo { stdout: Vec::new(), stderr: Vec::new(), status: None },
        Vec::new(),
    );
    let bytes = resp.write();
    match CompileResponse::read(&bytes).unwrap() {
        CompileResponse::Success(o, _) => assert_eq!(o.status, None),
        CompileResponse::Error(_) => panic!("a success frame reads back as a success"),
    }
}

#[test]
fn response_error_frame_reads_as_remote_error() {
    let resp = CompileResponse::Error(BuildError::CompileFailed);
    let bytes = resp.write();
    match CompileResponse::read(&bytes).unwrap() {
        CompileResponse::Error(e) => assert_eq!(e, BuildError::RemoteCompileError),
        CompileResponse::Success(..) => panic!("an error frame reads back as an error"),
    }
}

#[test]
fn negative_status_survives_the_wire() {
    let resp = CompileResponse::Success(
        OutputInfo { stdout: Vec::new(), stderr: Vec::new(), status: Some(-1) },
        Vec::new(),
    );
    let bytes = resp.write();
    match CompileResponse::read(&bytes).unwrap() {
        CompileResponse::Success(o, _) => assert_eq!(o.status, Some(-1)),
        CompileResponse::Error(_) => panic!("a success frame reads back as a success"),
    }
}

#[test]
fn response_from_result_keeps_the_variant() {
    let ok: Result<(OutputInfo, Vec<u8>), BuildError> = Ok((
        OutputInfo { stdout: Vec::new(), stderr: Vec::new(), status: Some(0) },
        b"obj".to_vec(),
    ));
    assert!(matches!(CompileResponse::from(ok), CompileResponse::Success(..)));
    let err: Result<(OutputInfo, Vec<u8>), BuildError> = Err(BuildError::CompileFailed);
    assert!(matches!(CompileResponse::from(err), CompileResponse::Error(BuildError::CompileFailed)));
}
