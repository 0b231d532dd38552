use benchdb::common::{CpuInfo, RunManifest, SystemInfo};
use benchdb::text::sort_strings;
use benchdb::vcs::{ensure_clean, is_commit_hash};

#[test]
fn commit_hash_shape() {
    assert!(is_commit_hash(&"a".repeat(40)));
    assert!(is_commit_hash(&"0123456789abcdefABCDEF0123456789abcdef01"));
    assert!(!is_commit_hash(&"a".repeat(39)));
    assert!(!is_commit_hash(&"a".repeat(41)));
    assert!(!is_commit_hash(&"g".repeat(40)));
    assert!(!is_commit_hash(""));
}

#[test]
fn clean_tree_check() {
    assert!(ensure_clean("").is_ok());
    assert!(ensure_clean(" \n\t\r\n").is_ok());
    assert!(ensure_clean(" M src/lib.rs\n").is_err());
    assert!(ensure_clean("?? junk").is_err());
}

#[test]
fn sorting_is_lexicographic() {
    let v = vec![
        "b/a".to_string(),
        "a/z".to_string(),
        "a".to_string(),
        "a/z".to_string(),
        "A".to_string(),
    ];
    let sorted = sort_strings(&v);
    assert_eq!(
        sorted,
        vec![
            "A".to_string(),
            "a".to_string(),
            "a/z".to_string(),
            "a/z".to_string(),
            "b/a".to_string()
        ]
    );
}

#[test]
fn manifest_text_is_exact() {
    let m = RunManifest {
        commit_hash: "c".repeat(40),
        name: "box".to_string(),
        system: SystemInfo {
            kernel_version: None,
            os_version: "OS \"X\"".to_string(),
            distribution_id: "os".to_string(),
            arch: "x86_64".to_string(),
            memory: 1024,
            cpus: vec![CpuInfo {
                name: "cpu0".to_string(),
                vendor_id: "v".to_string(),
                brand: "b".to_string(),
                frequency: 0,
            }],
            wgpu_adapter_info: "{\"name\":\"gpu\"}".to_string(),
        },
        benchmarks: vec!["g/a".to_string()],
    };
    let expected = format!(
        "{{\"commit_hash\":\"{}\",\"name\":\"box\",\"kernel_version\":null,\"os_version\":\"OS \\\"X\\\"\",\"distribution_id\":\"os\",\"arch\":\"x86_64\",\"memory\":1024,\"cpus\":[{{\"name\":\"cpu0\",\"vendor_id\":\"v\",\"brand\":\"b\",\"frequency\":0}}],\"wgpu_adapter_info\":{{\"name\":\"gpu\"}},\"benchmarks\":[\"g/a\"]}}",
        "c".repeat(40)
    );
    assert_eq!(m.save(), expected);
}

#[test]
fn broken_adapter_descriptor_becomes_null() {
    let m = RunManifest {
        commit_hash: "c".repeat(40),
        name: "box".to_string(),
        system: SystemInfo {
            kernel_version: Some("k".to_string()),
            os_version: "o".to_string(),
            distribution_id: "d".to_string(),
            arch: "a".to_string(),
            memory: 1,
            cpus: vec![],
            wgpu_adapter_info: "{\"unterminated\":".to_string(),
        },
        benchmarks: vec![],
    };
    let v: serde_json::Value = serde_json::from_str(&m.save()).unwrap();
    assert!(v["wgpu_adapter_info"].is_null());
    assert_eq!(v["kernel_version"], "k");
}
