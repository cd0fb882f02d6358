use peer_stats::{Stats, StatsError};
use std::time::Duration;

const SECOND: u64 = 1_000_000_000;

#[test]
fn correctly_added_pings() {
    let mut stats = Stats::new(100, "1".to_string());
    stats.add_ping("2".to_string(), 1 * SECOND);
    stats.add_ping("2".to_string(), 2 * SECOND);
    stats.add_ping("3".to_string(), 1 * SECOND);
    assert_eq!(stats.ping_peer_count(), 2);
    let peer_2_pings = stats.ping_samples(&"2".to_string()).unwrap();
    assert_eq!(peer_2_pings.len(), 2)
}

#[test]
fn correctly_added_transmissions() {
    let mut stats = Stats::new(100, "1".to_string());
    stats.add_transmission("2".to_string(), 1 * SECOND, 1).unwrap();
    stats.add_transmission("2".to_string(), 2 * SECOND, 1).unwrap();
    stats.add_transmission("3".to_string(), 1 * SECOND, 1).unwrap();
    assert_eq!(stats.transmission_peer_count(), 2);
    let peer_2_transmissions = stats.transmission_samples(&"2".to_string()).unwrap();
    assert_eq!(peer_2_transmissions.len(), 2)
}

#[test]
fn a_fresh_tracker_has_no_peers() {
    let stats = Stats::new(4, "me".to_string());
    assert_eq!(stats.ping_peer_count(), 0);
    assert_eq!(stats.transmission_peer_count(), 0);
    assert_eq!(stats.ping_samples(&"peer".to_string()), None);
    assert_eq!(stats.transmission_samples(&"peer".to_string()), None);
}

#[test]
fn every_new_peer_adds_one_entry() {
    let mut stats = Stats::new(3, "me".to_string());
    for n in 0..50usize {
        assert_eq!(stats.ping_peer_count(), n);
        stats.add_ping(format!("peer-{}", n), 5);
        stats.add_ping(format!("peer-{}", n), 6);
    }
    assert_eq!(stats.ping_peer_count(), 50);
    assert_eq!(stats.transmission_peer_count(), 0);
    for n in 0..50usize {
        assert_eq!(stats.ping_samples(&format!("peer-{}", n)), Some(vec![5, 6]));
    }
}

#[test]
fn the_ping_window_keeps_the_latest_samples_in_order() {
    let mut stats = Stats::new(2, "me".to_string());
    stats.add_ping("a".to_string(), 1);
    stats.add_ping("b".to_string(), 10);
    stats.add_ping("a".to_string(), 2);
    stats.add_ping("a".to_string(), 3);
    assert_eq!(stats.ping_samples(&"a".to_string()), Some(vec![2, 3]));
    assert_eq!(stats.ping_samples(&"b".to_string()), Some(vec![10]));
}

#[test]
fn many_pings_of_one_value_fill_the_window_with_it() {
    let mut stats = Stats::new(16, "me".to_string());
    for _ in 0..(8 * 25) {
        stats.add_ping("peer".to_string(), 7 * SECOND);
    }
    assert_eq!(stats.ping_samples(&"peer".to_string()), Some(vec![7 * SECOND; 16]));
}

#[test]
fn the_transmission_sample_is_the_time_per_byte() {
    let mut stats = Stats::new(8, "me".to_string());
    assert_eq!(stats.add_transmission("a".to_string(), 10 * SECOND, 4), Ok(()));
    assert_eq!(stats.add_transmission("a".to_string(), 7, 2), Ok(()));
    assert_eq!(stats.add_transmission("a".to_string(), 1, u32::MAX), Ok(()));
    assert_eq!(
        stats.transmission_samples(&"a".to_string()),
        Some(vec![2_500_000_000, 3, 0])
    );
    assert_eq!(stats.ping_peer_count(), 0);
}

#[test]
fn a_transmission_of_no_bytes_is_refused() {
    let mut stats = Stats::new(8, "me".to_string());
    stats.add_transmission("a".to_string(), 9, 3).unwrap();
    assert_eq!(
        stats.add_transmission("a".to_string(), 9, 0),
        Err(StatsError::NoBytes)
    );
    assert_eq!(
        stats.add_transmission("b".to_string(), 9, 0),
        Err(StatsError::NoBytes)
    );
    assert_eq!(stats.transmission_peer_count(), 1);
    assert_eq!(stats.transmission_samples(&"a".to_string()), Some(vec![3]));
    assert_eq!(stats.transmission_samples(&"b".to_string()), None);
}

#[test]
fn a_window_size_of_zero_keeps_peers_but_no_samples() {
    let mut stats = Stats::new(0, "me".to_string());
    stats.add_ping("X".to_string(), 1 * SECOND);
    stats.add_ping("X".to_string(), 2 * SECOND);
    stats.add_transmission("X".to_string(), 1 * SECOND, 10).unwrap();
    assert_eq!(stats.ping_peer_count(), 1);
    assert_eq!(stats.transmission_peer_count(), 1);
    assert_eq!(stats.ping_samples(&"X".to_string()), Some(Vec::new()));
    assert_eq!(stats.transmission_samples(&"X".to_string()), Some(Vec::new()));
}

#[test]
fn a_peer_without_samples_is_reported_as_such() {
    let mut stats = Stats::new(0, "me".to_string());
    stats.add_ping("X".to_string(), 1 * SECOND);
    stats.add_transmission("X".to_string(), 1 * SECOND, 10).unwrap();
    assert_eq!(
        stats.report(),
        "\"me\"\nPing mean for each peer:\nNo ping data for peer \"X\"\n\
         Transmission rate mean by peer:\nNo transmission data for peer \"X\"\n"
    );
}

#[test]
fn the_report_of_a_fresh_tracker_has_only_its_headings() {
    let stats = Stats::new(5, "node \"7\"".to_string());
    assert_eq!(
        stats.report(),
        "\"node \\\"7\\\"\"\nPing mean for each peer:\nTransmission rate mean by peer:\n"
    );
}

#[test]
fn the_report_gives_mean_and_error_per_peer() {
    let mut stats = Stats::new(3, "1".to_string());
    stats.add_ping("2".to_string(), 9 * SECOND);
    stats.add_ping("2".to_string(), 1 * SECOND);
    stats.add_ping("2".to_string(), 3 * SECOND);
    stats.add_ping("2".to_string(), 5 * SECOND);
    stats.add_transmission("2".to_string(), 3_000, 2).unwrap();
    let expected = format!(
        "{:?}\nPing mean for each peer:\n{:?} {:?}±{:?}\n\
         Transmission rate mean by peer:\n{:?} {:?}±{:?} per byte\n",
        "1",
        "2",
        Duration::from_secs(3),
        Duration::from_nanos(1_847_905_720),
        "2",
        Duration::from_nanos(1_500),
        Duration::from_nanos(0),
    );
    assert_eq!(stats.report(), expected);
    assert!(expected.contains("\"2\" 3s±1.84790572s\n"));
    assert!(expected.contains("\"2\" 1.5µs±0ns per byte\n"));
}

#[test]
fn the_report_has_one_line_for_every_peer() {
    let mut stats = Stats::new(3, "me".to_string());
    stats.add_ping("a".to_string(), 2 * SECOND);
    stats.add_ping("b".to_string(), 4 * SECOND);
    stats.add_ping("c".to_string(), 6 * SECOND);
    let report = stats.report();
    assert_eq!(report.lines().count(), 6);
    assert!(report.starts_with("\"me\"\nPing mean for each peer:\n"));
    assert!(report.ends_with("Transmission rate mean by peer:\n"));
    assert!(report.contains("\"a\" 2s±0ns\n"));
    assert!(report.contains("\"b\" 4s±0ns\n"));
    assert!(report.contains("\"c\" 6s±0ns\n"));
}

#[test]
fn the_entries_list_every_peer_once_with_its_window() {
    let mut stats = Stats::new(2, "me".to_string());
    stats.add_ping("a".to_string(), 1);
    stats.add_ping("b".to_string(), 2);
    stats.add_ping("a".to_string(), 3);
    stats.add_transmission("c".to_string(), 8, 2).unwrap();
    let mut pings = stats.ping_entries();
    pings.sort();
    assert_eq!(
        pings,
        vec![("a".to_string(), vec![1, 3]), ("b".to_string(), vec![2])]
    );
    assert_eq!(stats.transmission_entries(), vec![("c".to_string(), vec![4])]);
}
