use bit_vec::BitVec;
use nrf_sniffer::config::NrfConfig;
use nrf_sniffer::decoder::NrfDecoder;
use nrf_sniffer::frame::NrfFrame;

fn sample() -> NrfFrame {
    NrfFrame {
        channel: 39,
        address: vec![1, 2, 3, 4],
        payload: vec![5, 6, 7, 8, 9, 10],
    }
}

fn other() -> NrfFrame {
    NrfFrame {
        channel: 39,
        address: vec![0xC3, 0x3C, 0x5A, 0xA5],
        payload: vec![0xDE, 0xAD, 0xBE, 0xEF, 0x00, 0xFF],
    }
}

fn bits_of(stream: &BitVec) -> Vec<bool> {
    stream.iter().collect()
}

fn run(config: &NrfConfig, bits: &[bool]) -> (NrfDecoder, Vec<NrfFrame>) {
    let mut out = Vec::new();
    let mut state = NrfDecoder::Empty;
    for bit in bits {
        state = state.push_bit(config, &mut out, *bit);
    }
    (state, out)
}

// a fixed sequence of bits that looks like noise
fn noise(seed: u32, n: usize) -> Vec<bool> {
    let mut x = seed;
    let mut bits = Vec::new();
    for _ in 0..n {
        x = x.wrapping_mul(1664525).wrapping_add(1013904223);
        bits.push((x >> 16) & 1 == 1);
    }
    bits
}

#[test]
fn fixed_frame_is_recovered_with_its_channel() {
    let packet = sample();
    let config = NrfConfig::fixed_length(39, 4, 6, &[]);
    let (state, out) = run(&config, &bits_of(&packet.encode_fixed()));
    assert_eq!(out, vec![packet]);
    assert!(matches!(state, NrfDecoder::Empty));
}

#[test]
fn shockburst_frame_is_recovered_with_dynamic_length() {
    let packet = sample();
    let config = NrfConfig::shockburst(39, 4, None, &[]);
    let (state, out) = run(&config, &bits_of(&packet.encode_dynamic()));
    assert_eq!(out, vec![packet]);
    assert!(matches!(state, NrfDecoder::Empty));
}

#[test]
fn shockburst_frame_is_recovered_with_configured_length() {
    let packet = sample();
    let config = NrfConfig::shockburst(39, 4, Some(6), &[]);
    let (state, out) = run(&config, &bits_of(&packet.encode_dynamic()));
    assert_eq!(out, vec![packet]);
    assert!(matches!(state, NrfDecoder::Empty));
}

// CRC-16 with polynomial 0x1021 over single bits, most significant first
fn crc_of_bits(init: u16, bits: &[bool]) -> u16 {
    let mut reg = init;
    for bit in bits {
        let top = reg & 0x8000 != 0;
        reg <<= 1;
        if top != *bit {
            reg ^= 0x1021;
        }
    }
    reg
}

#[test]
fn packet_id_and_no_acknowledge_flag_are_accepted() {
    let packet = sample();
    for flags in 0..8u8 {
        let mut bits = bits_of(&packet.encode_dynamic());
        let end = bits.len() - 16;
        // the control field: six length bits, then packet id and flag
        for k in 0..3 {
            bits[8 + 32 + 6 + k] = flags & (4 >> k) != 0;
        }
        let crc = crc_of_bits(0xFFFF, &bits[8..end]);
        for k in 0..16 {
            bits[end + k] = crc & (0x8000 >> k) != 0;
        }
        for config in [
            NrfConfig::shockburst(39, 4, None, &[]),
            NrfConfig::shockburst(39, 4, Some(6), &[1, 2, 3]),
        ] {
            let (state, out) = run(&config, &bits);
            assert_eq!(out, vec![packet.clone()]);
            assert!(matches!(state, NrfDecoder::Empty));
        }
    }
}

#[test]
fn shockburst_frame_of_another_length_is_dropped() {
    let packet = sample();
    let config = NrfConfig::shockburst(39, 4, Some(5), &[]);
    let (_, out) = run(&config, &bits_of(&packet.encode_dynamic()));
    assert!(out.is_empty());
}

#[test]
fn shockburst_length_33_is_dropped() {
    let packet = NrfFrame {
        channel: 39,
        address: vec![1, 2, 3, 4],
        payload: (1..=33).collect(),
    };
    let config = NrfConfig::shockburst(39, 4, None, &[]);
    let bits = bits_of(&packet.encode_dynamic());
    // the six length bits spell 33
    assert_eq!(&bits[40..46], &[true, false, false, false, false, true]);
    // once the control field is complete the deframer is synchronizing again
    let (state, out) = run(&config, &bits[..8 + 32 + 9]);
    assert!(out.is_empty());
    assert!(matches!(state, NrfDecoder::Sync(_, _)));
    let (_, out) = run(&config, &bits);
    assert!(out.is_empty());
}

#[test]
fn shockburst_length_32_is_taken() {
    let packet = NrfFrame {
        channel: 7,
        address: vec![0xE7, 0xE7, 0xE7, 0xE7, 0xE7],
        payload: (101..=132).collect(),
    };
    let config = NrfConfig::shockburst(7, 5, None, &[]);
    let (_, out) = run(&config, &bits_of(&packet.encode_dynamic()));
    assert_eq!(out, vec![packet]);
}

#[test]
fn two_frames_with_noise_between_both_come_out() {
    let first = sample();
    let second = other();
    let config = NrfConfig::fixed_length(39, 4, 6, &[]);
    let mut bits = bits_of(&first.encode_fixed());
    bits.extend(noise(1, 20));
    bits.extend(bits_of(&second.encode_fixed()));
    let (_, out) = run(&config, &bits);
    assert_eq!(out, vec![first, second]);
}

#[test]
fn two_frames_in_a_row_both_come_out() {
    let first = sample();
    let second = other();
    let config = NrfConfig::shockburst(39, 4, None, &[]);
    let mut bits = bits_of(&first.encode_dynamic());
    bits.extend(bits_of(&second.encode_dynamic()));
    let (state, out) = run(&config, &bits);
    assert_eq!(out, vec![first, second]);
    assert!(matches!(state, NrfDecoder::Empty));
}

#[test]
fn frame_with_flipped_crc_bit_is_dropped_and_the_next_found() {
    let first = sample();
    let second = other();
    let config = NrfConfig::fixed_length(39, 4, 6, &[]);
    for k in 0..16 {
        let mut bits = bits_of(&first.encode_fixed());
        let at = bits.len() - 16 + k;
        bits[at] = !bits[at];
        let (_, out) = run(&config, &bits);
        assert!(out.is_empty());
        bits.extend(bits_of(&second.encode_fixed()));
        let (_, out) = run(&config, &bits);
        assert_eq!(out, vec![second.clone()]);
    }
}

#[test]
fn frame_with_flipped_payload_bit_is_dropped() {
    let packet = sample();
    let config = NrfConfig::fixed_length(39, 4, 6, &[]);
    for k in 0..48 {
        let mut bits = bits_of(&packet.encode_fixed());
        let at = 8 + 32 + k;
        bits[at] = !bits[at];
        let (_, out) = run(&config, &bits);
        assert!(out.is_empty());
    }
}

#[test]
fn frame_is_found_behind_up_to_64_bits_of_noise() {
    let packet = sample();
    let fixed = NrfConfig::fixed_length(39, 4, 6, &[]);
    let shockburst = NrfConfig::shockburst(39, 4, Some(6), &[]);
    for n in 0..=64 {
        let mut bits = noise(n as u32 + 7, n);
        bits.extend(bits_of(&packet.encode_fixed()));
        let (_, out) = run(&fixed, &bits);
        assert_eq!(out, vec![packet.clone()]);

        let mut bits = noise(n as u32 + 7, n);
        bits.extend(bits_of(&packet.encode_dynamic()));
        let (_, out) = run(&shockburst, &bits);
        assert_eq!(out, vec![packet.clone()]);
    }
}

#[test]
fn frame_is_found_when_the_preamble_is_entered_early() {
    // one more alternation before the preamble makes the deframer take the
    // last preamble bit for the first address bit; the CRC fails and the
    // rewind finds the frame one bit later
    let packet = sample();
    let config = NrfConfig::fixed_length(39, 4, 6, &[]);
    let mut bits = vec![true];
    bits.extend(bits_of(&packet.encode_fixed()));
    assert!(!bits[1]);
    let (_, out) = run(&config, &bits);
    assert_eq!(out, vec![packet]);
}

#[test]
fn early_start_with_dynamic_length_is_resolved_by_later_bits() {
    // two more alternations before the preamble start an attempt two bits
    // early; its control field announces 17 bytes, more than the stream
    // holds, so the frame comes out only once later bits have failed the
    // attempt's CRC
    let packet = NrfFrame {
        channel: 39,
        address: vec![1, 2, 3, 5],
        payload: vec![5, 6, 7, 8, 9, 10],
    };
    let config = NrfConfig::shockburst(39, 4, None, &[]);
    let encoded = bits_of(&packet.encode_dynamic());
    let mut bits = vec![encoded[0], !encoded[0]];
    bits.extend(encoded);
    let (state, out) = run(&config, &bits);
    assert!(out.is_empty());
    match state {
        NrfDecoder::RecvPayload(end, _) => assert_eq!(end, (4 + 17 + 2) * 8),
        _ => panic!("payload expected"),
    }
    bits.extend(noise(11, 200));
    let (_, out) = run(&config, &bits);
    assert_eq!(out.first(), Some(&packet));
}

#[test]
fn matching_prefix_lets_the_frame_through() {
    let packet = sample();
    let bits = bits_of(&packet.encode_fixed());
    let config = NrfConfig::fixed_length(39, 4, 6, &[1, 2]);
    let (_, out) = run(&config, &bits);
    assert_eq!(out, vec![packet.clone()]);
    let config = NrfConfig::shockburst(39, 4, None, &[1, 2, 3, 4]);
    let (_, out) = run(&config, &bits_of(&packet.encode_dynamic()));
    assert_eq!(out, vec![packet]);
}

#[test]
fn other_prefix_filters_the_frame_out() {
    let packet = sample();
    let config = NrfConfig::fixed_length(39, 4, 6, &[1, 3]);
    let (_, out) = run(&config, &bits_of(&packet.encode_fixed()));
    assert!(out.is_empty());
    let config = NrfConfig::shockburst(39, 4, Some(6), &[0x81]);
    let (_, out) = run(&config, &bits_of(&packet.encode_dynamic()));
    assert!(out.is_empty());
}

#[test]
fn same_bits_give_the_same_frames() {
    let config = NrfConfig::shockburst(39, 4, None, &[]);
    let mut bits = noise(3, 50);
    bits.extend(bits_of(&sample().encode_dynamic()));
    bits.extend(noise(4, 30));
    bits.extend(bits_of(&other().encode_dynamic()));
    let (_, first) = run(&config, &bits);
    let (_, second) = run(&config, &bits);
    assert_eq!(first, second);
    assert_eq!(first.len(), 2);
}

#[test]
fn channel_of_the_configuration_is_stamped() {
    let packet = sample();
    let config = NrfConfig::fixed_length(17, 4, 6, &[]);
    let (_, out) = run(&config, &bits_of(&packet.encode_fixed()));
    assert_eq!(out.len(), 1);
    assert_eq!(out[0].channel, 17);
    assert_eq!(out[0].address, vec![1, 2, 3, 4]);
}

#[test]
fn address_sizes_three_and_five() {
    let packet = NrfFrame { channel: 0, address: vec![0xAB, 0xCD, 0xEF], payload: vec![0x42] };
    let config = NrfConfig::fixed_length(0, 3, 1, &[0xAB]);
    let (_, out) = run(&config, &bits_of(&packet.encode_fixed()));
    assert_eq!(out, vec![packet]);
    let packet = NrfFrame {
        channel: 125,
        address: vec![0x80, 0, 0, 0, 1],
        payload: vec![0xFF; 32],
    };
    let config = NrfConfig::fixed_length(125, 5, 32, &[]);
    let (_, out) = run(&config, &bits_of(&packet.encode_fixed()));
    assert_eq!(out, vec![packet]);
}

#[test]
fn empty_payload_is_not_recovered() {
    // with no payload the deframer still takes one bit for it, so the CRC
    // it expects is not the one that was sent
    let packet = NrfFrame { channel: 39, address: vec![1, 2, 3, 4], payload: vec![] };
    let config = NrfConfig::fixed_length(39, 4, 0, &[]);
    let (_, out) = run(&config, &bits_of(&packet.encode_fixed()));
    assert!(out.is_empty());
}

#[test]
fn states_of_a_fixed_frame() {
    let packet = sample();
    let config = NrfConfig::fixed_length(39, 4, 6, &[]);
    let bits = bits_of(&packet.encode_fixed());
    let (state, _) = run(&config, &bits[..1]);
    assert!(matches!(state, NrfDecoder::Sync(1, false)));
    let (state, _) = run(&config, &bits[..8]);
    assert!(matches!(state, NrfDecoder::Sync(8, true)));
    let (state, _) = run(&config, &bits[..9]);
    match state {
        NrfDecoder::RecvAddr(data, prefix) => {
            assert!(data.eq_vec(&[false]));
            assert!(prefix.is_empty());
        },
        _ => panic!("address expected"),
    }
    let (state, _) = run(&config, &bits[..8 + 32]);
    match state {
        NrfDecoder::RecvPayload(end, data) => {
            assert_eq!(end, 80);
            assert_eq!(data.to_bytes(), vec![1, 2, 3, 4]);
        },
        _ => panic!("payload expected"),
    }
    let (state, _) = run(&config, &bits[..8 + 80]);
    match state {
        NrfDecoder::CheckCrc(data, crc) => {
            assert_eq!(data.len(), 80);
            assert_eq!(crc.len(), 16);
        },
        _ => panic!("crc expected"),
    }
}

#[test]
fn states_of_a_shockburst_frame() {
    let packet = sample();
    let config = NrfConfig::shockburst(39, 4, Some(6), &[1]);
    let bits = bits_of(&packet.encode_dynamic());
    let (state, _) = run(&config, &bits[..9]);
    match state {
        NrfDecoder::RecvAddr(data, prefix) => {
            // seven zero bits of padding, then the first address bit
            assert!(data.eq_vec(&[false; 8]));
            // seven bits of the prefix 0x01 are left, the next one on top
            assert!(prefix.eq_vec(&[true, false, false, false, false, false, false]));
        },
        _ => panic!("address expected"),
    }
    let (state, _) = run(&config, &bits[..8 + 32]);
    match state {
        NrfDecoder::RecvHeader(data, length) => {
            assert_eq!(data.len(), 39);
            // 6 = 000110, the most significant bit on top
            assert!(length.eq_vec(&[false, true, true, false, false, false]));
        },
        _ => panic!("header expected"),
    }
    let (state, _) = run(&config, &bits[..8 + 32 + 9]);
    match state {
        NrfDecoder::RecvPayload(end, data) => {
            assert_eq!(end, 96);
            assert_eq!(data.len(), 48);
        },
        _ => panic!("payload expected"),
    }
}

#[test]
fn clone_of_a_state_goes_on_alike() {
    let packet = sample();
    let config = NrfConfig::shockburst(39, 4, None, &[]);
    let bits = bits_of(&packet.encode_dynamic());
    let (state, _) = run(&config, &bits[..60]);
    let copy = state.clone();
    let mut out_a = Vec::new();
    let mut out_b = Vec::new();
    let mut a = state;
    let mut b = copy;
    for bit in &bits[60..] {
        a = a.push_bit(&config, &mut out_a, *bit);
        b = b.push_bit(&config, &mut out_b, *bit);
    }
    assert_eq!(out_a, vec![packet]);
    assert_eq!(out_a, out_b);
}
