use bench_plots::bench_id::BenchId;
use bench_plots::json::{decode_all, read_json, read_record, Json, ResilientStreamDeserializer};

fn record(group: &str, name: &str, params: &str, estimate: &str) -> String {
    format!(
        "{{\"id\": \"{}/{}/{}\", \"typical\": {{\"estimate\": {}, \"unit\": \"ns\"}}}}",
        group, name, params, estimate
    )
}

#[test]
fn identity_parses_three_segments() {
    let id = BenchId::parse("GroupA/28db40f_2024-01-30T19_07_04-05_00/rc=100").unwrap();
    assert_eq!(id.group_name, "GroupA");
    assert_eq!(id.bench_name, "28db40f:2024-01-30T19:07:04-05:00");
    assert_eq!(id.params, "rc=100");
}

#[test]
fn identity_keeps_underscores_outside_the_name() {
    let id = BenchId::parse("a_b/x_y/c_d").unwrap();
    assert_eq!(id.group_name, "a_b");
    assert_eq!(id.bench_name, "x:y");
    assert_eq!(id.params, "c_d");
}

#[test]
fn identity_rejects_other_segment_counts() {
    assert!(BenchId::parse("a/b").is_none());
    assert!(BenchId::parse("a/b/c/d").is_none());
    assert!(BenchId::parse("").is_none());
    assert!(BenchId::parse("//").is_some());
}

#[test]
fn well_formed_records_decode_in_order() {
    let buf = format!(
        "{}\n{} {}",
        record("G", "aaaaaaa_2024-01-30T19_07_04-05_00", "rc=1", "1.5"),
        record("G", "bbbbbbb_2024-01-31T19_07_04-05_00", "rc=2", "2"),
        record("H", "ccccccc_2024-02-01T10_00_00Z", "rc=3", "3.25")
    );
    let items = decode_all(buf.into_bytes());
    assert_eq!(items.len(), 3);
    let params: Vec<String> = items
        .iter()
        .map(|x| x.as_ref().ok().unwrap().id.params.clone())
        .collect();
    assert_eq!(params, vec!["rc=1", "rc=2", "rc=3"]);
    let times: Vec<f64> = items
        .iter()
        .map(|x| f64::from_bits(x.as_ref().ok().unwrap().result.time))
        .collect();
    assert_eq!(times, vec![1.5, 2.0, 3.25]);
}

#[test]
fn wrong_shape_is_skipped() {
    let buf = format!(
        "{} {{\"id\": \"only/two\", \"typical\": {{\"estimate\": 1}}}} {}",
        record("G", "aaaaaaa_2024-01-30T19_07_04-05_00", "A", "1"),
        record("G", "bbbbbbb_2024-01-30T19_07_04-05_00", "B", "2")
    );
    let mut d = ResilientStreamDeserializer::new(buf.into_bytes());
    let a = d.next().unwrap().ok().unwrap();
    assert_eq!(a.id.params, "A");
    let e = d.next().unwrap().err().unwrap();
    match e.value {
        Some(Json::Object(fs)) => {
            assert_eq!(fs.len(), 2);
            assert_eq!(fs[0].0, "id");
            assert!(matches!(&fs[0].1, Json::Str(s) if s == "only/two"));
        }
        _ => panic!("expected the mismatched object"),
    }
    let b = d.next().unwrap().ok().unwrap();
    assert_eq!(b.id.params, "B");
    assert!(d.next().is_none());
    assert!(d.next().is_none());
}

#[test]
fn syntax_error_ends_the_stream() {
    let buf = format!(
        "{} {{\"id\": \"x/y/z\", \"typical\": {{ {}",
        record("G", "aaaaaaa_2024-01-30T19_07_04-05_00", "A", "1"),
        record("G", "bbbbbbb_2024-01-30T19_07_04-05_00", "B", "2")
    );
    let mut d = ResilientStreamDeserializer::new(buf.into_bytes());
    assert_eq!(d.next().unwrap().ok().unwrap().id.params, "A");
    let e = d.next().unwrap().err().unwrap();
    assert!(e.value.is_none());
    assert!(d.next().is_none());
}

#[test]
fn empty_and_blank_buffers_yield_nothing() {
    assert!(decode_all(Vec::new()).is_empty());
    assert!(decode_all(b"  \n\t ".to_vec()).is_empty());
}

#[test]
fn read_json_keeps_only_records() {
    let buf = format!(
        "{} [1, 2] \"text\" {}",
        record("G", "aaaaaaa_2024-01-30T19_07_04-05_00", "A", "1"),
        record("G", "bbbbbbb_2024-01-30T19_07_04-05_00", "B", "2")
    );
    let items = decode_all(buf.clone().into_bytes());
    assert_eq!(items.len(), 4);
    let recs = read_json(buf.into_bytes());
    assert_eq!(recs.len(), 2);
    assert_eq!(recs[0].id.params, "A");
    assert_eq!(recs[1].id.params, "B");
}

#[test]
fn record_shape_checks() {
    let good = Json::Object(vec![
        ("id".to_string(), Json::Str("g/n/p".to_string())),
        (
            "typical".to_string(),
            Json::Object(vec![("estimate".to_string(), Json::Number(2.5f64.to_bits()))]),
        ),
    ]);
    let d = read_record(&good).unwrap();
    assert_eq!(d.id.group_name, "g");
    assert_eq!(d.result.time, 2.5f64.to_bits());
    let wrong_type = Json::Object(vec![
        ("id".to_string(), Json::Str("g/n/p".to_string())),
        ("typical".to_string(), Json::Object(vec![("estimate".to_string(), Json::Str("2".to_string()))])),
    ]);
    assert!(read_record(&wrong_type).is_none());
    let infinite = Json::Object(vec![
        ("id".to_string(), Json::Str("g/n/p".to_string())),
        ("typical".to_string(), Json::Object(vec![("estimate".to_string(), Json::Number(f64::INFINITY.to_bits()))])),
    ]);
    assert!(read_record(&infinite).is_none());
    assert!(read_record(&Json::Null).is_none());
}
