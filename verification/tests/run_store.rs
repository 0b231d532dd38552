use benchdb::bench::{run_on_db, BenchError, Db};
use benchdb::common::{CpuInfo, SystemInfo};

fn sample_system() -> SystemInfo {
    SystemInfo {
        kernel_version: Some("6.1.0".to_string()),
        os_version: "TestOS 1.0".to_string(),
        distribution_id: "testos".to_string(),
        arch: "x86_64".to_string(),
        memory: 8_589_934_592,
        cpus: vec![CpuInfo {
            name: "cpu0".to_string(),
            vendor_id: "TestVendor".to_string(),
            brand: "Test CPU".to_string(),
            frequency: 3200,
        }],
        wgpu_adapter_info: "{\"name\":\"Test GPU\",\"vendor\":4318}".to_string(),
    }
}

fn file<'a>(files: &'a [(String, String)], path: &str) -> Option<&'a String> {
    files.iter().find(|(p, _)| p == path).map(|(_, c)| c)
}

#[test]
fn single_run_records_everything() {
    let commit: String = "a".repeat(40);
    let lines = vec![
        "{\"reason\":\"benchmark-complete\",\"id\":\"foo/bar\",\"mean\":{\"estimate\":1.2,\"unit\":\"ns\"}}".to_string(),
        "{\"reason\":\"group-complete\",\"group_name\":\"foo\",\"benchmarks\":[\"bar\"]}".to_string(),
    ];
    let mut db = Db::new();
    let sys = sample_system();
    let r = run_on_db(&mut db, &commit, "bench1", false, &lines, true, &sys);
    let ids = match r {
        Ok(Some(ids)) => ids,
        _ => panic!("run should commit"),
    };
    assert_eq!(ids, vec!["foo/bar".to_string()]);

    assert_eq!(db.runs.len(), 1);
    let rd = &db.runs[0];
    assert_eq!(rd.commit_hash, commit);
    assert_eq!(rd.name, "bench1");

    // the result file holds the event line verbatim
    assert_eq!(file(&rd.files, "foo/bar.json").unwrap(), &lines[0]);

    // the group record holds the second object
    let group: serde_json::Value =
        serde_json::from_str(file(&rd.files, "foo/group.json").unwrap()).unwrap();
    assert_eq!(group["group_name"], "foo");
    assert_eq!(group["benchmarks"][0], "bar");
    assert_eq!(group["benchmarks"].as_array().unwrap().len(), 1);

    // the manifest lists exactly the one benchmark
    let manifest: serde_json::Value =
        serde_json::from_str(file(&rd.files, "run.json").unwrap()).unwrap();
    assert_eq!(manifest["commit_hash"], commit.as_str());
    assert_eq!(manifest["name"], "bench1");
    assert_eq!(manifest["benchmarks"][0], "foo/bar");
    assert_eq!(manifest["benchmarks"].as_array().unwrap().len(), 1);
    // system fields are inlined
    assert_eq!(manifest["arch"], "x86_64");
    assert_eq!(manifest["memory"], 8_589_934_592u64);
    assert_eq!(manifest["cpus"][0]["frequency"], 3200);
    assert_eq!(manifest["wgpu_adapter_info"]["vendor"], 4318);

    // the index maps the commit to exactly this run name
    let idx: serde_json::Value = serde_json::from_str(&db.index.save()).unwrap();
    assert_eq!(idx[&commit][0], "bench1");
    assert_eq!(idx[&commit].as_array().unwrap().len(), 1);
}

#[test]
fn failing_subprocess_leaves_no_trace() {
    let commit: String = "a".repeat(40);
    let lines = vec![
        "{\"reason\":\"benchmark-complete\",\"id\":\"foo/bar\",\"mean\":{\"estimate\":1.2,\"unit\":\"ns\"}}".to_string(),
    ];
    let mut db = Db::new();
    let sys = sample_system();
    let r = run_on_db(&mut db, &commit, "bench1", false, &lines, false, &sys);
    match r {
        Err(BenchError::SubprocessFailed) => {}
        _ => panic!("a failing subprocess must surface an error"),
    }
    assert!(db.runs.is_empty());
    assert_eq!(db.index.save(), "{}");
}

#[test]
fn existing_run_is_skipped_without_force() {
    let commit: String = "b".repeat(40);
    let lines = vec![
        "{\"reason\":\"benchmark-complete\",\"id\":\"g/one\",\"x\":1}".to_string(),
    ];
    let mut db = Db::new();
    let sys = sample_system();
    match run_on_db(&mut db, &commit, "m1", false, &lines, true, &sys) {
        Ok(Some(_)) => {}
        _ => panic!("first run should commit"),
    }
    let before: Vec<(String, String)> = db.runs[0].files.clone();

    // re-running without force must change nothing, even with new output
    let other = vec!["{\"reason\":\"benchmark-complete\",\"id\":\"g/two\",\"x\":2}".to_string()];
    match run_on_db(&mut db, &commit, "m1", false, &other, true, &sys) {
        Ok(None) => {}
        _ => panic!("existing run must be a safe skip"),
    }
    assert_eq!(db.runs.len(), 1);
    assert_eq!(db.runs[0].files, before);
}

#[test]
fn force_replaces_existing_run() {
    let commit: String = "c".repeat(40);
    let mut db = Db::new();
    let sys = sample_system();
    let first = vec!["{\"reason\":\"benchmark-complete\",\"id\":\"g/one\",\"x\":1}".to_string()];
    run_on_db(&mut db, &commit, "m1", false, &first, true, &sys).unwrap_or_else(|_| panic!());
    let second = vec!["{\"reason\":\"benchmark-complete\",\"id\":\"g/two\",\"x\":2}".to_string()];
    match run_on_db(&mut db, &commit, "m1", true, &second, true, &sys) {
        Ok(Some(ids)) => assert_eq!(ids, vec!["g/two".to_string()]),
        _ => panic!("forced run should commit"),
    }
    assert_eq!(db.runs.len(), 1);
    assert!(file(&db.runs[0].files, "g/two.json").is_some());
    assert!(file(&db.runs[0].files, "g/one.json").is_none());
}

#[test]
fn duplicate_ids_are_listed_once() {
    let commit: String = "d".repeat(40);
    let mut db = Db::new();
    let sys = sample_system();
    let lines = vec![
        "{\"reason\":\"benchmark-complete\",\"id\":\"g/a\",\"x\":1}".to_string(),
        "{\"reason\":\"benchmark-complete\",\"id\":\"g/a\",\"x\":2}".to_string(),
    ];
    match run_on_db(&mut db, &commit, "m1", false, &lines, true, &sys) {
        Ok(Some(ids)) => assert_eq!(ids, vec!["g/a".to_string()]),
        _ => panic!(),
    }
    // the later event's payload wins
    assert_eq!(file(&db.runs[0].files, "g/a.json").unwrap(), &lines[1]);
}

#[test]
fn unusable_ids_are_not_stored() {
    let commit: String = "e".repeat(40);
    let mut db = Db::new();
    let sys = sample_system();
    let lines = vec![
        "{\"reason\":\"benchmark-complete\",\"id\":\"run\",\"x\":1}".to_string(),
        "{\"reason\":\"benchmark-complete\",\"id\":\"g//bad\",\"x\":1}".to_string(),
        "{\"reason\":\"benchmark-complete\",\"id\":\"g/group\",\"x\":1}".to_string(),
        "{\"reason\":\"benchmark-complete\",\"id\":\"g/ok\",\"x\":1}".to_string(),
    ];
    match run_on_db(&mut db, &commit, "m1", false, &lines, true, &sys) {
        Ok(Some(ids)) => assert_eq!(ids, vec!["g/ok".to_string()]),
        _ => panic!(),
    }
    assert!(file(&db.runs[0].files, "run.json").is_some()); // the manifest itself
    assert!(file(&db.runs[0].files, "g/group.json").is_none());
}
