use softnet_stat::json::render_json;
use softnet_stat::parse::parse_softnet_stats;
use softnet_stat::softnet::SoftnetStat;

fn opt_u32(v: &serde_json::Value, key: &str) -> Option<u32> {
    let field = v.get(key).unwrap();
    if field.is_null() {
        None
    } else {
        Some(field.as_u64().unwrap() as u32)
    }
}

fn record_of_value(v: &serde_json::Value) -> SoftnetStat {
    SoftnetStat {
        processed: v.get("processed").unwrap().as_u64().unwrap() as u32,
        dropped: v.get("dropped").unwrap().as_u64().unwrap() as u32,
        time_squeeze: v.get("time_squeeze").unwrap().as_u64().unwrap() as u32,
        cpu_collision: v.get("cpu_collision").unwrap().as_u64().unwrap() as u32,
        received_rps: opt_u32(v, "received_rps"),
        flow_limit_count: opt_u32(v, "flow_limit_count"),
        backlog_len: opt_u32(v, "backlog_len"),
        cpu_id: opt_u32(v, "cpu_id"),
    }
}

#[test]
fn json_of_one_nine_field_record() {
    let raw = b"6dcad223 00000000 00000001 00000000 00000000 00000000 00000000 00000000 00000000\n";
    let stats = parse_softnet_stats(&raw[..]).unwrap();
    let out = render_json(&stats);
    assert_eq!(
        out,
        "[{\"processed\":1842008611,\"dropped\":0,\"time_squeeze\":1,\"cpu_collision\":0,\
         \"received_rps\":null,\"flow_limit_count\":null,\"backlog_len\":null,\"cpu_id\":null}]"
    );
}

#[test]
fn json_round_trip_recovers_the_records() {
    let raw = b"00000001 00000002 00000003 00000004 00000005 00000006 00000007 00000008 00000009 0000000a 0000000b\n\
                0000000f 00000000 00000000 00000000 00000000 00000000 00000000 00000000 00000010 00000011 00000012\n";
    let stats = parse_softnet_stats(&raw[..]).unwrap();
    let out = render_json(&stats);

    let decoded: serde_json::Value = serde_json::from_str(&out).unwrap();
    let array = decoded.as_array().unwrap();
    let rebuilt: Vec<SoftnetStat> = array.iter().map(record_of_value).collect();

    assert_eq!(rebuilt, stats);
}

#[test]
fn json_round_trip_keeps_optional_fields_absent() {
    let raw = b"00000001 00000002 00000003 00000004 00000005 00000006 00000007 00000008 00000009\n";
    let stats = parse_softnet_stats(&raw[..]).unwrap();
    let out = render_json(&stats);

    let decoded: serde_json::Value = serde_json::from_str(&out).unwrap();
    let array = decoded.as_array().unwrap();
    let rebuilt: Vec<SoftnetStat> = array.iter().map(record_of_value).collect();

    assert_eq!(rebuilt, stats);
    assert_eq!(rebuilt[0].received_rps, None);
    assert_eq!(rebuilt[0].flow_limit_count, None);
    assert_eq!(rebuilt[0].backlog_len, None);
    assert_eq!(rebuilt[0].cpu_id, None);
}

#[test]
fn json_of_no_records_is_an_empty_array() {
    let stats: Vec<SoftnetStat> = vec![];
    assert_eq!(render_json(&stats), "[]");
}

#[test]
fn decimal_rendering_is_exact() {
    assert_eq!(softnet_stat::digits::u64_dec_string(0), "0");
    assert_eq!(softnet_stat::digits::u64_dec_string(7), "7");
    assert_eq!(softnet_stat::digits::u64_dec_string(1842008611), "1842008611");
    assert_eq!(softnet_stat::digits::u64_dec_string(4294967295), "4294967295");
}
