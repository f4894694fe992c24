use softnet_stat::prometheus::render_prometheus;
use softnet_stat::softnet::SoftnetStat;
use softnet_stat::table::render_table;

fn bare(processed: u32) -> SoftnetStat {
    SoftnetStat {
        processed,
        dropped: 0,
        time_squeeze: 0,
        cpu_collision: 0,
        received_rps: None,
        flow_limit_count: None,
        backlog_len: None,
        cpu_id: None,
    }
}

#[test]
fn table_displays_zero_for_absent_optional_fields() {
    let stats = vec![SoftnetStat {
        processed: 1842008611,
        dropped: 0,
        time_squeeze: 1,
        cpu_collision: 0,
        received_rps: None,
        flow_limit_count: None,
        backlog_len: None,
        cpu_id: None,
    }];
    let spacer = 15;
    let out = render_table(&stats, spacer);
    let mut expected = format!(
        "{:<spacer$}{:<spacer$}{:<spacer$}{:<spacer$}{:<spacer$}{:<spacer$}{:<spacer$}{:<spacer$}{:<spacer$}\n",
        "Cpu",
        "Processed",
        "Dropped",
        "Time Squeezed",
        "Cpu Collision",
        "Received RPS",
        "Flow Limit Cnt",
        "Backlog Length",
        "CPU Id",
        spacer = spacer
    );
    expected.push_str(&format!(
        "{:<spacer$}{:<spacer$}{:<spacer$}{:<spacer$}{:<spacer$}{:<spacer$}{:<spacer$}{:<spacer$}{:<spacer$}\n",
        0,
        1842008611u32,
        0,
        1,
        0,
        0,
        0,
        0,
        0,
        spacer = spacer
    ));
    assert_eq!(out, expected);
}

#[test]
fn table_keeps_values_wider_than_the_column() {
    let stats = vec![bare(4294967295)];
    let out = render_table(&stats, 3);
    assert!(out.contains("4294967295"));
}

#[test]
fn prometheus_labels_by_position_when_cpu_id_is_absent() {
    let stats = vec![bare(5), bare(6), bare(7)];
    let out = render_prometheus(&stats);
    // The record at sequence position 2 has no cpu_id: every one of its
    // lines carries the positional label.
    assert!(out.contains("softnet_frames_processed{cpu=\"cpu2\"} 7\n"));
    assert!(out.contains("softnet_frames_dropped{cpu=\"cpu2\"} 0\n"));
    assert!(out.contains("softnet_time_squeeze{cpu=\"cpu2\"} 0\n"));
    assert!(out.contains("softnet_cpu_collisions{cpu=\"cpu2\"} 0\n"));
    assert!(out.contains("softnet_received_rps{cpu=\"cpu2\"} 0\n"));
    assert!(out.contains("softnet_flow_limit_count{cpu=\"cpu2\"} 0\n"));
    assert!(out.contains("softnet_backlog_len{cpu=\"cpu2\"} 0\n"));
    assert!(!out.contains("cpu3"));
}

#[test]
fn prometheus_labels_by_cpu_id_when_present() {
    let mut stat = bare(9);
    stat.cpu_id = Some(7);
    stat.received_rps = Some(1);
    stat.flow_limit_count = Some(2);
    stat.backlog_len = Some(3);
    let stats = vec![bare(5), bare(6), stat];
    let out = render_prometheus(&stats);
    // The record at position 2 carries cpu_id 7: every line of it is
    // labeled cpu7, none cpu2, and no cpu_id metric line is emitted.
    assert!(out.contains("softnet_frames_processed{cpu=\"cpu7\"} 9\n"));
    assert!(out.contains("softnet_received_rps{cpu=\"cpu7\"} 1\n"));
    assert!(out.contains("softnet_flow_limit_count{cpu=\"cpu7\"} 2\n"));
    assert!(out.contains("softnet_backlog_len{cpu=\"cpu7\"} 3\n"));
    assert!(!out.contains("cpu2"));
    assert!(!out.contains("softnet_cpu_id"));
}

#[test]
fn prometheus_emits_seven_lines_per_record_in_order() {
    let stats = vec![bare(1)];
    let out = render_prometheus(&stats);
    let expected = format!(
        "softnet_frames_processed{{cpu=\"cpu0\"}} 1\n\
         softnet_frames_dropped{{cpu=\"cpu0\"}} 0\n\
         softnet_time_squeeze{{cpu=\"cpu0\"}} 0\n\
         softnet_cpu_collisions{{cpu=\"cpu0\"}} 0\n\
         softnet_received_rps{{cpu=\"cpu0\"}} 0\n\
         softnet_flow_limit_count{{cpu=\"cpu0\"}} 0\n\
         softnet_backlog_len{{cpu=\"cpu0\"}} 0\n"
    );
    assert_eq!(out, expected);
}
