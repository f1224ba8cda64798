use octobuild::cache::{Cache, CacheEntry};
use octobuild::cluster::{get_random_builder, live_builders, offering_builders, remote_outcome, BuilderInfo};
use octobuild::task::{BuildError, OutputInfo};
use octobuild::wire::CompileResponse;

fn bundle(stdout: &[u8], object: &[u8]) -> CacheEntry {
    CacheEntry {
        output: OutputInfo { stdout: stdout.to_vec(), stderr: Vec::new(), status: Some(0) },
        outputs: vec![("main.obj".to_string(), object.to_vec())],
    }
}

#[test]
fn warm_cache_hit_equals_the_cold_miss() {
    let mut cache = Cache::new();
    let fp = "abcd1234".to_string();
    assert!(cache.needs_produce(&fp));
    // the cold run produces and stores its bundle
    let produced = bundle(b"compiling", b"OBJECTBYTES");
    cache.store(fp.clone(), produced);
    // the warm run produces nothing and observes identical bytes
    assert!(!cache.needs_produce(&fp));
    let hit = cache.lookup(&fp).unwrap();
    assert_eq!(hit.output.stdout, b"compiling".to_vec());
    assert_eq!(hit.output.status, Some(0));
    assert_eq!(hit.outputs[0].0, "main.obj");
    assert_eq!(hit.outputs[0].1, b"OBJECTBYTES".to_vec());
}

#[test]
fn distinct_fingerprints_stay_distinct() {
    let mut cache = Cache::new();
    cache.store("one".to_string(), bundle(b"a", b"x"));
    cache.store("two".to_string(), bundle(b"b", b"y"));
    assert_eq!(cache.lookup(&"one".to_string()).unwrap().outputs[0].1, b"x".to_vec());
    assert_eq!(cache.lookup(&"two".to_string()).unwrap().outputs[0].1, b"y".to_vec());
    assert!(cache.lookup(&"three".to_string()).is_none());
}

fn builder(name: &str, toolchains: &[&str], heartbeat: u64) -> BuilderInfo {
    BuilderInfo {
        guid: format!("guid-{}", name),
        endpoint: "127.0.0.1:6001".to_string(),
        name: name.to_string(),
        version: "1".to_string(),
        toolchains: toolchains.iter().map(|t| t.to_string()).collect(),
        last_heartbeat: heartbeat,
    }
}

#[test]
fn random_builder_comes_from_the_list() {
    let builders = vec![builder("a", &["tc1"], 0), builder("b", &["tc1"], 0)];
    let picked = get_random_builder(&builders).unwrap();
    assert!(builders.iter().any(|b| b.name == picked.name));
    let none: Vec<BuilderInfo> = Vec::new();
    assert!(get_random_builder(&none).is_none());
}

#[test]
fn builders_without_toolchains_are_skipped() {
    let rows = vec![builder("a", &[], 0), builder("b", &["tc1"], 0)];
    let offering = offering_builders(rows);
    assert_eq!(offering.len(), 1);
    assert_eq!(offering[0].name, "b");
}

#[test]
fn heartbeats_older_than_three_intervals_expire() {
    let rows = vec![builder("old", &["tc"], 100), builder("new", &["tc"], 400)];
    let live = live_builders(rows, 500, 100);
    assert_eq!(live.len(), 1);
    assert_eq!(live[0].name, "new");
}

#[test]
fn remote_failure_falls_back_to_local() {
    // a refused connection surfaces as a transport error: compile locally
    let transport: Result<CompileResponse, BuildError> = Err(BuildError::RemoteUnavailable);
    assert!(remote_outcome(transport).is_none());
    // a builder-reported error: compile locally too
    let refused = remote_outcome(Ok(CompileResponse::Error(BuildError::RemoteCompileError)));
    assert!(refused.is_none());
    // a success hands the artifact through unchanged
    let ok = remote_outcome(Ok(CompileResponse::Success(
        OutputInfo { stdout: Vec::new(), stderr: Vec::new(), status: Some(0) },
        b"artifact".to_vec(),
    )));
    let (output, artifact) = ok.unwrap();
    assert_eq!(output.status, Some(0));
    assert_eq!(artifact, b"artifact".to_vec());
}
