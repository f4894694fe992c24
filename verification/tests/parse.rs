use softnet_stat::parse::{parse_softnet_line, parse_softnet_stats};
use softnet_stat::softnet::{ParseError, ParseErrorKind, SoftnetStat};

#[test]
fn test_parse_softnet_empty_line() {
    let raw = b"";

    assert_eq!(parse_softnet_line(&raw[..]).is_err(), true,);
}

#[test]
fn test_parse_softnet_line() {
    let raw = b"6dcad223 00000000 00000001 00000000 00000000 00000000 00000000 00000000 00000000\n";

    let (value, consumed) = parse_softnet_line(&raw[..]).unwrap();

    assert_eq!(0, raw.len() - consumed);
    assert_eq!(
        SoftnetStat {
            processed: 1842008611,
            dropped: 0,
            time_squeeze: 1,
            cpu_collision: 0,
            received_rps: None,
            flow_limit_count: None,
            backlog_len: None,
            cpu_id: None,
        },
        value
    );
}

#[test]
fn test_parse_softnet_stats() {
    // One snapshot per historical format: nine columns, ten (received_rps),
    // eleven (flow_limit_count), and thirteen (backlog_len and cpu_id).
    let snapshots: Vec<&[u8]> = vec![
        b"6dcad223 00000000 00000001 00000000 00000000 00000000 00000000 00000000 00000000\n\
          6f0e1da5 00000000 00000002 00000000 00000000 00000000 00000000 00000000 00000000\n",
        b"6dcad223 00000000 00000001 00000000 00000000 00000000 00000000 00000000 00000000 0000002a\n",
        b"6dcad223 00000000 00000001 00000000 00000000 00000000 00000000 00000000 00000000 0000002a 00000003\n",
        b"6dcad223 00000000 00000001 00000000 00000000 00000000 00000000 00000000 00000000 0000002a 00000003 0000000c 00000002\n",
    ];

    for raw in snapshots.iter() {
        let _ = parse_softnet_stats(raw).unwrap();
    }
}

#[test]
fn nine_fields_per_line_gives_one_record_per_line_with_no_optionals() {
    let raw = b"00000001 00000002 00000003 00000004 00000005 00000006 00000007 00000008 00000009\n\
                0000000a 0000000b 0000000c 0000000d 0000000e 0000000f 00000010 00000011 00000012\n";
    let stats = parse_softnet_stats(&raw[..]).unwrap();
    assert_eq!(stats.len(), 2);
    assert_eq!(stats[0].processed, 1);
    assert_eq!(stats[0].dropped, 2);
    assert_eq!(stats[0].time_squeeze, 3);
    assert_eq!(stats[0].cpu_collision, 9);
    assert_eq!(stats[1].processed, 10);
    assert_eq!(stats[1].cpu_collision, 18);
    for stat in stats.iter() {
        assert_eq!(stat.received_rps, None);
        assert_eq!(stat.flow_limit_count, None);
        assert_eq!(stat.backlog_len, None);
        assert_eq!(stat.cpu_id, None);
    }
}

#[test]
fn optional_fields_fill_in_fixed_order() {
    let base = "00000001 00000002 00000003 00000004 00000005 00000006 00000007 00000008 00000009";
    let tails = ["", " 0000000a", " 0000000a 0000000b", " 0000000a 0000000b 0000000c",
        " 0000000a 0000000b 0000000c 0000000d"];
    let expected = [
        (None, None, None, None),
        (Some(10), None, None, None),
        (Some(10), Some(11), None, None),
        (Some(10), Some(11), Some(12), None),
        (Some(10), Some(11), Some(12), Some(13)),
    ];
    for (tail, want) in tails.iter().zip(expected.iter()) {
        let line = format!("{}{}\n", base, tail);
        let stats = parse_softnet_stats(line.as_bytes()).unwrap();
        assert_eq!(stats.len(), 1);
        assert_eq!(stats[0].received_rps, want.0);
        assert_eq!(stats[0].flow_limit_count, want.1);
        assert_eq!(stats[0].backlog_len, want.2);
        assert_eq!(stats[0].cpu_id, want.3);
    }
}

#[test]
fn empty_input_is_a_parse_failure() {
    let err = parse_softnet_stats(b"").unwrap_err();
    assert_eq!(err, ParseError { offset: 0, kind: ParseErrorKind::EmptyInput });
}

#[test]
fn fewer_than_nine_fields_is_a_parse_failure() {
    // Five fields, even though every one of them looks like an optional
    // field's hex token.
    let raw = b"00000001 00000002 00000003 00000004 00000005\n";
    assert!(parse_softnet_stats(&raw[..]).is_err());
    // Eight fields: one short of the mandatory nine.
    let raw =
        b"00000001 00000002 00000003 00000004 00000005 00000006 00000007 00000008\n";
    assert!(parse_softnet_stats(&raw[..]).is_err());
}

#[test]
fn malformed_token_is_reported_with_its_offset() {
    let raw = b"00000001 zz\n";
    let err = parse_softnet_stats(&raw[..]).unwrap_err();
    assert_eq!(err, ParseError { offset: 9, kind: ParseErrorKind::MalformedToken });
}

#[test]
fn missing_line_ending_is_reported() {
    let raw = b"00000001 00000002 00000003 00000004 00000005 00000006 00000007 00000008 00000009";
    let err = parse_softnet_stats(&raw[..]).unwrap_err();
    assert_eq!(err.kind, ParseErrorKind::MissingLineEnding);
    assert_eq!(err.offset, raw.len());
}

#[test]
fn a_nine_digit_token_is_refused() {
    let raw = b"123456789 00000002 00000003 00000004 00000005 00000006 00000007 00000008 00000009\n";
    let err = parse_softnet_stats(&raw[..]).unwrap_err();
    assert_eq!(err.kind, ParseErrorKind::MalformedToken);
}

#[test]
fn trailing_unparsed_bytes_are_an_error() {
    let raw = b"00000001 00000002 00000003 00000004 00000005 00000006 00000007 00000008 00000009\n \n";
    let err = parse_softnet_stats(&raw[..]).unwrap_err();
    assert_eq!(err.kind, ParseErrorKind::MalformedToken);
    assert_eq!(err.offset, 81);
}

#[test]
fn carriage_return_line_endings_are_accepted() {
    let raw = b"00000001 00000002 00000003 00000004 00000005 00000006 00000007 00000008 00000009\r\n";
    let stats = parse_softnet_stats(&raw[..]).unwrap();
    assert_eq!(stats.len(), 1);
    assert_eq!(stats[0].processed, 1);
}

#[test]
fn read_proc_file_hands_back_the_stream_bytes() {
    let raw: &[u8] =
        b"6dcad223 00000000 00000001 00000000 00000000 00000000 00000000 00000000 00000000\n";
    let bytes = softnet_stat::read::read_proc_file(raw).unwrap();
    assert_eq!(bytes, raw.to_vec());
    let stats = parse_softnet_stats(&bytes).unwrap();
    assert_eq!(stats[0].processed, 1842008611);
}
