use benchdb::bench::update_db_manifest;
use benchdb::common::DbManifest;

#[test]
fn recording_twice_keeps_the_name_once() {
    let mut m = DbManifest::new();
    let h: String = "f".repeat(40);
    update_db_manifest(&mut m, &h, "box1");
    update_db_manifest(&mut m, &h, "box1");
    assert_eq!(m.benches.len(), 1);
    assert_eq!(m.benches[0].0, h);
    assert_eq!(m.benches[0].1, vec!["box1".to_string()]);
}

#[test]
fn recording_grows_entries_and_names() {
    let mut m = DbManifest::new();
    let h1: String = "1".repeat(40);
    let h2: String = "2".repeat(40);
    update_db_manifest(&mut m, &h1, "box1");
    update_db_manifest(&mut m, &h1, "box2");
    update_db_manifest(&mut m, &h2, "box1");
    assert_eq!(m.benches.len(), 2);
    assert_eq!(m.benches[0].1, vec!["box1".to_string(), "box2".to_string()]);
    assert_eq!(m.benches[1].1, vec!["box1".to_string()]);
}

#[test]
fn save_writes_the_exact_text() {
    let mut m = DbManifest::new();
    update_db_manifest(&mut m, "aa", "x");
    update_db_manifest(&mut m, "bb", "y");
    update_db_manifest(&mut m, "aa", "z");
    assert_eq!(m.save(), "{\"aa\":[\"x\",\"z\"],\"bb\":[\"y\"]}");
}

#[test]
fn load_absent_file_gives_empty_index() {
    let m = DbManifest::load_or_init(None).unwrap_or_else(|_| panic!());
    assert!(m.benches.is_empty());
    assert_eq!(m.save(), "{}");
}

#[test]
fn load_round_trips_save() {
    let mut m = DbManifest::new();
    update_db_manifest(&mut m, "aa", "x");
    update_db_manifest(&mut m, "bb", "y");
    let text = m.save();
    let m2 = DbManifest::load_or_init(Some(&text)).unwrap_or_else(|_| panic!());
    assert_eq!(m2.benches, m.benches);
}

#[test]
fn load_accepts_whitespace_and_dedups_names() {
    let text = "{ \"aa\" : [ \"x\", \"x\", \"y\" ] }";
    let m = DbManifest::load_or_init(Some(text)).unwrap_or_else(|_| panic!());
    assert_eq!(m.benches.len(), 1);
    assert_eq!(m.benches[0].1, vec!["x".to_string(), "y".to_string()]);
}

#[test]
fn load_refuses_malformed_text() {
    assert!(DbManifest::load_or_init(Some("")).is_err());
    assert!(DbManifest::load_or_init(Some("[]")).is_err());
    assert!(DbManifest::load_or_init(Some("{\"aa\":1}")).is_err());
    assert!(DbManifest::load_or_init(Some("{\"aa\":[\"x\"]")).is_err());
    assert!(DbManifest::load_or_init(Some("{\"aa\":[\"x\"]} extra")).is_err());
}
