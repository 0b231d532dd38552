use benchdb::sync::{collect_bench_ids, ensure_run_json, SyncError};

fn files(v: &[(&str, &str)]) -> Vec<(String, String)> {
    v.iter().map(|(p, c)| (p.to_string(), c.to_string())).collect()
}

#[test]
fn rebuilds_manifest_from_disk() {
    let fs = files(&[
        ("run.json", "{\"commit_hash\":\"old\",\"name\":\"old\",\"os\":\"L\",\"benchmarks\":[\"stale\"]}"),
        ("g/b.json", "{}"),
        ("g/a.json", "{}"),
        ("g/group.json", "{}"),
        ("notes.txt", "ignored"),
    ]);
    let h: String = "a".repeat(40);
    let out = ensure_run_json(&fs, &h, "box1").unwrap_or_else(|_| panic!());
    let v: serde_json::Value = serde_json::from_str(&out).unwrap();
    assert_eq!(v["commit_hash"], h.as_str());
    assert_eq!(v["name"], "box1");
    // descriptor field preserved from the old manifest
    assert_eq!(v["os"], "L");
    // ids recomputed from disk, sorted; the group record and stale list are gone
    let ids: Vec<String> = v["benchmarks"]
        .as_array()
        .unwrap()
        .iter()
        .map(|x| x.as_str().unwrap().to_string())
        .collect();
    assert_eq!(ids, vec!["g/a".to_string(), "g/b".to_string()]);
}

#[test]
fn falls_back_to_legacy_descriptor_file() {
    let fs = files(&[
        ("system_info.json", "{\"arch\":\"arm\"}"),
        ("g/a.json", "{}"),
    ]);
    let out = ensure_run_json(&fs, "c", "n").unwrap_or_else(|_| panic!());
    let v: serde_json::Value = serde_json::from_str(&out).unwrap();
    assert_eq!(v["arch"], "arm");
    assert_eq!(v["benchmarks"][0], "g/a");
}

#[test]
fn unreadable_run_is_reported() {
    let fs = files(&[("g/a.json", "{}")]);
    match ensure_run_json(&fs, "c", "n") {
        Err(SyncError::MissingSystemInfo) => {}
        _ => panic!("a run without any descriptor is unrecoverable"),
    }
    let fs = files(&[("run.json", "not json"), ("system_info.json", "also bad")]);
    assert!(ensure_run_json(&fs, "c", "n").is_err());
}

#[test]
fn reconciling_twice_is_byte_identical() {
    let mut fs = files(&[
        ("run.json", "{\"commit_hash\":\"x\",\"name\":\"y\",\"mem\":123,\"cpus\":[{\"f\":1}],\"benchmarks\":[]}"),
        ("a.json", "{}"),
        ("b/c.json", "{}"),
    ]);
    let h: String = "d".repeat(40);
    let first = ensure_run_json(&fs, &h, "box1").unwrap_or_else(|_| panic!());
    // the pass writes its result back at run.json
    for f in fs.iter_mut() {
        if f.0 == "run.json" {
            f.1 = first.clone();
        }
    }
    let second = ensure_run_json(&fs, &h, "box1").unwrap_or_else(|_| panic!());
    assert_eq!(first, second);
}

#[test]
fn reads_pretty_printed_manifests() {
    // earlier tools pretty-printed their files; the reader must not care
    let pretty = "{\n  \"commit_hash\": \"x\",\n  \"name\": \"y\",\n  \"os_version\": \"L 6\",\n  \"cpus\": [\n    { \"name\": \"cpu0\", \"frequency\": 3200 }\n  ],\n  \"benchmarks\": [\n    \"a\"\n  ]\n}";
    let fs = files(&[("run.json", pretty), ("a.json", "{}")]);
    let h: String = "e".repeat(40);
    let out = ensure_run_json(&fs, &h, "box1").unwrap_or_else(|_| panic!());
    let v: serde_json::Value = serde_json::from_str(&out).unwrap();
    assert_eq!(v["os_version"], "L 6");
    assert_eq!(v["cpus"][0]["frequency"], 3200);
    assert_eq!(v["benchmarks"][0], "a");
}

#[test]
fn collect_ids_skips_reserved_files() {
    let fs = files(&[
        ("run.json", "{}"),
        ("system_info.json", "{}"),
        ("group.json", "{}"),
        ("g/group.json", "{}"),
        ("g/x.json", "{}"),
        ("top.json", "{}"),
        ("not-json.txt", "{}"),
    ]);
    let ids = collect_bench_ids(&fs);
    // a top-level group.json has no nested group record meaning
    assert_eq!(ids, vec!["group".to_string(), "g/x".to_string(), "top".to_string()]);
}
