use nrf_sniffer::frame::NrfFrame;
use nrf_sniffer::stats::NrfStats;

fn frame(channel: u8, address: &[u8], payload_len: usize) -> NrfFrame {
    NrfFrame { channel, address: address.to_vec(), payload: vec![0; payload_len] }
}

#[test]
fn nothing_seen_gives_no_rows() {
    let stats = NrfStats::new();
    assert!(stats.top(10).is_empty());
}

#[test]
fn frames_are_counted_by_address() {
    let mut stats = NrfStats::new();
    stats.record(&frame(39, &[1, 2, 3], 6));
    stats.record(&frame(39, &[9, 9, 9], 6));
    stats.record(&frame(39, &[1, 2, 3], 6));
    stats.record(&frame(39, &[1, 2, 3], 6));
    let rows = stats.top(10);
    assert_eq!(rows.len(), 2);
    assert_eq!(rows[0].address, vec![1, 2, 3]);
    assert_eq!(rows[0].count, 3);
    assert_eq!(rows[1].address, vec![9, 9, 9]);
    assert_eq!(rows[1].count, 1);
}

#[test]
fn channels_and_lengths_are_kept_once() {
    let mut stats = NrfStats::new();
    for (channel, len) in [(80, 6), (2, 32), (39, 6), (2, 0), (80, 6), (39, 1)] {
        stats.record(&frame(channel, &[0xE7, 0xE7, 0xE7], len));
    }
    let rows = stats.top(1);
    assert_eq!(rows.len(), 1);
    assert_eq!(rows[0].count, 6);
    let mut channels: Vec<u8> = rows[0].channels.iter().copied().collect();
    channels.sort();
    assert_eq!(channels, vec![2, 39, 80]);
    let mut payload_lens: Vec<usize> = rows[0].payload_lens.iter().copied().collect();
    payload_lens.sort();
    assert_eq!(payload_lens, vec![0, 1, 6, 32]);
}

#[test]
fn rows_with_the_same_count_stay_in_their_order() {
    let mut stats = NrfStats::new();
    stats.record(&frame(1, &[1], 1));
    stats.record(&frame(1, &[2], 1));
    stats.record(&frame(1, &[3], 1));
    stats.record(&frame(1, &[4], 1));
    stats.record(&frame(1, &[3], 1));
    stats.record(&frame(1, &[2], 1));
    let rows = stats.top(10);
    let order: Vec<u8> = rows.iter().map(|row| row.address[0]).collect();
    assert_eq!(order, vec![2, 3, 1, 4]);
    let counts: Vec<usize> = rows.iter().map(|row| row.count).collect();
    assert_eq!(counts, vec![2, 2, 1, 1]);
}

#[test]
fn only_the_rows_asked_for_come_out() {
    let mut stats = NrfStats::new();
    for address in 0..15u8 {
        for _ in 0..=address {
            stats.record(&frame(7, &[address, 0, 0], 4));
        }
    }
    let rows = stats.top(10);
    assert_eq!(rows.len(), 10);
    let order: Vec<u8> = rows.iter().map(|row| row.address[0]).collect();
    assert_eq!(order, vec![14, 13, 12, 11, 10, 9, 8, 7, 6, 5]);
    assert_eq!(rows[0].count, 15);
    assert_eq!(rows[9].count, 6);
    assert_eq!(stats.top(0).len(), 0);
    assert_eq!(stats.top(100).len(), 15);
}

#[test]
fn addresses_of_other_lengths_are_other_addresses() {
    let mut stats = NrfStats::new();
    stats.record(&frame(1, &[1, 2, 3], 1));
    stats.record(&frame(1, &[1, 2, 3, 4], 1));
    stats.record(&frame(1, &[1, 2], 1));
    stats.record(&frame(1, &[], 1));
    assert_eq!(stats.top(10).len(), 4);
}
