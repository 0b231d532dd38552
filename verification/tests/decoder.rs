use benchdb::events::{decode_line, decode_stream, BenchmarkEvent};

#[test]
fn benchmark_complete_line_decodes() {
    let line = "{\"reason\":\"benchmark-complete\",\"id\":\"foo/bar\",\"mean\":{\"estimate\":1.2,\"unit\":\"ns\"}}";
    match decode_line(line) {
        Some(BenchmarkEvent::BenchmarkComplete(e)) => {
            assert_eq!(e.id, "foo/bar");
            assert_eq!(e.payload, line);
        }
        _ => panic!("line should decode as a completed benchmark"),
    }
}

#[test]
fn group_complete_line_decodes() {
    let line = "{\"reason\":\"group-complete\",\"group_name\":\"foo\",\"benchmarks\":[\"bar\",\"baz\"]}";
    match decode_line(line) {
        Some(BenchmarkEvent::GroupComplete(g)) => {
            assert_eq!(g.group_name, "foo");
            assert_eq!(g.benchmarks, vec!["bar".to_string(), "baz".to_string()]);
        }
        _ => panic!("line should decode as a completed group"),
    }
}

#[test]
fn field_order_and_whitespace_do_not_matter() {
    let line = "  { \"id\" : \"a/b\" , \"extra\" : [1, 2, {\"k\": null}] , \"reason\" : \"benchmark-complete\" }  ";
    match decode_line(line) {
        Some(BenchmarkEvent::BenchmarkComplete(e)) => assert_eq!(e.id, "a/b"),
        _ => panic!("reordered fields should still decode"),
    }
}

#[test]
fn escapes_in_strings_decode() {
    let line = "{\"reason\":\"benchmark-complete\",\"id\":\"a\\/b\\n\\\"q\\\"\"}";
    match decode_line(line) {
        Some(BenchmarkEvent::BenchmarkComplete(e)) => assert_eq!(e.id, "a/b\n\"q\""),
        _ => panic!("escaped id should decode"),
    }
}

#[test]
fn noise_lines_are_skipped() {
    assert!(decode_line("").is_none());
    assert!(decode_line("Compiling foo v0.1.0").is_none());
    assert!(decode_line("{\"reason\":\"something-else\",\"id\":\"x\"}").is_none());
    assert!(decode_line("{\"reason\":\"benchmark-complete\"}").is_none()); // no id
    assert!(decode_line("{\"reason\":\"benchmark-complete\",\"id\":7}").is_none()); // id not a string
    assert!(decode_line("{\"id\":\"x\"").is_none()); // unterminated
    assert!(decode_line("{\"reason\":\"benchmark-complete\",\"id\":\"x\"} trailing").is_none());
    assert!(decode_line("{\"reason\":\"group-complete\",\"group_name\":\"g\",\"benchmarks\":[1]}").is_none());
}

#[test]
fn unicode_escapes_make_a_line_noise() {
    // this grammar reads the one-character escapes only; a \u escape
    // turns the line into noise rather than a mis-read id
    assert!(decode_line("{\"reason\":\"benchmark-complete\",\"id\":\"a\\u0041\"}").is_none());
}

#[test]
fn stream_keeps_recognized_events_in_order() {
    let lines = vec![
        "warming up".to_string(),
        "{\"reason\":\"benchmark-complete\",\"id\":\"g/a\"}".to_string(),
        "not json".to_string(),
        "{\"reason\":\"group-complete\",\"group_name\":\"g\",\"benchmarks\":[\"a\"]}".to_string(),
    ];
    let evs = decode_stream(&lines);
    assert_eq!(evs.len(), 2);
    match &evs[0] {
        BenchmarkEvent::BenchmarkComplete(e) => assert_eq!(e.id, "g/a"),
        _ => panic!(),
    }
    match &evs[1] {
        BenchmarkEvent::GroupComplete(g) => assert_eq!(g.group_name, "g"),
        _ => panic!(),
    }
}

#[test]
fn group_record_serializes_exactly() {
    let g = benchdb::events::GroupComplete {
        group_name: "foo".to_string(),
        benchmarks: vec!["a".to_string(), "b\"c".to_string()],
    };
    assert_eq!(g.to_json(), "{\"group_name\":\"foo\",\"benchmarks\":[\"a\",\"b\\\"c\"]}");
}
