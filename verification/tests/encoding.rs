use nrf_sniffer::config::NrfConfig;
use nrf_sniffer::frame::NrfFrame;

// CRC-16 with polynomial 0x1021 over single bits, most significant first
fn crc_of_bits(init: u16, bits: &[bool]) -> u16 {
    let mut reg = init;
    for bit in bits {
        let top = reg & 0x8000 != 0;
        reg <<= 1;
        if top != *bit {
            reg ^= 0x1021;
        }
    }
    reg
}

fn number(bits: &[bool]) -> u16 {
    bits.iter().fold(0, |acc, bit| (acc << 1) | u16::from(*bit))
}

#[test]
fn fixed_encoding_layout() {
    let packet = NrfFrame { channel: 1, address: vec![0x31, 0x32, 0x33], payload: vec![0x34] };
    let bits: Vec<bool> = packet.encode_fixed().iter().collect();
    assert_eq!(bits.len(), 8 + 24 + 8 + 16);
    // 0x31 starts with a zero bit, so the preamble ends on a one
    assert_eq!(number(&bits[..8]), 0x55);
    assert_eq!(number(&bits[8..16]), 0x31);
    assert_eq!(number(&bits[16..24]), 0x32);
    assert_eq!(number(&bits[24..32]), 0x33);
    assert_eq!(number(&bits[32..40]), 0x34);
    assert_eq!(number(&bits[40..]), crc_of_bits(0xFFFF, &bits[8..40]));
}

#[test]
fn fixed_encoding_preamble_follows_the_first_address_bit() {
    let packet = NrfFrame { channel: 1, address: vec![0x80, 0, 0], payload: vec![0] };
    let bits: Vec<bool> = packet.encode_fixed().iter().collect();
    assert_eq!(number(&bits[..8]), 0xAA);
}

#[test]
fn fixed_crc_is_crc16_ibm_3740() {
    // the check value of CRC-16/IBM-3740 is 0x29B1 for "123456789"
    let packet = NrfFrame {
        channel: 0,
        address: b"123".to_vec(),
        payload: b"456789".to_vec(),
    };
    let bits: Vec<bool> = packet.encode_fixed().iter().collect();
    assert_eq!(number(&bits[bits.len() - 16..]), 0x29B1);
}

#[test]
fn shockburst_encoding_layout() {
    let packet = NrfFrame {
        channel: 39,
        address: vec![1, 2, 3, 4],
        payload: vec![5, 6, 7, 8, 9, 10],
    };
    let bits: Vec<bool> = packet.encode_dynamic().iter().collect();
    assert_eq!(bits.len(), 8 + 32 + 9 + 48 + 16);
    assert_eq!(number(&bits[..8]), 0x55);
    assert_eq!(number(&bits[8..24]), 0x0102);
    assert_eq!(number(&bits[24..40]), 0x0304);
    // length 6, packet id 0, no-acknowledge flag 0
    assert_eq!(number(&bits[40..46]), 6);
    assert_eq!(number(&bits[46..49]), 0);
    assert_eq!(number(&bits[49..57]), 5);
    assert_eq!(number(&bits[89..97]), 10);
}

#[test]
fn shockburst_crc_covers_the_bits_on_the_air() {
    // the register start 0x3C18 and the seven zero bits of padding amount to
    // the plain CRC, started at 0xFFFF, of the bits that are sent
    for len in [1usize, 2, 6, 17, 32] {
        let packet = NrfFrame {
            channel: 39,
            address: vec![0xE7, 0x12, 0x00, 0xFF, 0x80],
            payload: (0..len).map(|i| (i * 37 + 11) as u8).collect(),
        };
        let bits: Vec<bool> = packet.encode_dynamic().iter().collect();
        let end = bits.len() - 16;
        assert_eq!(number(&bits[end..]), crc_of_bits(0xFFFF, &bits[8..end]));
        let mut padded = vec![false; 7];
        padded.extend_from_slice(&bits[8..end]);
        assert_eq!(number(&bits[end..]), crc_of_bits(0x3C18, &padded));
    }
}

#[test]
fn shockburst_length_field_is_the_length_modulo_64() {
    let packet = NrfFrame { channel: 0, address: vec![1, 2, 3], payload: vec![0; 70] };
    let bits: Vec<bool> = packet.encode_dynamic().iter().collect();
    assert_eq!(number(&bits[32..38]), 6);
    assert_eq!(bits.len(), 8 + 24 + 9 + 560 + 16);
}

#[test]
fn text_of_a_frame() {
    let packet = NrfFrame {
        channel: 39,
        address: vec![1, 2, 3, 4],
        payload: vec![5, 6, 7, 8, 9, 10],
    };
    assert_eq!(packet.to_string(), " 39 01020304 05060708090a");
    let packet = NrfFrame { channel: 5, address: vec![0xAB, 0xCD, 0xEF], payload: vec![] };
    assert_eq!(packet.to_string(), "  5 abcdef ");
    let packet = NrfFrame { channel: 125, address: vec![0, 0xFF, 0x10], payload: vec![0x9F] };
    assert_eq!(packet.to_string(), "125 00ff10 9f");
}

#[test]
fn default_frame_is_empty() {
    let frame = NrfFrame::default();
    assert_eq!(frame.channel, 0);
    assert!(frame.address.is_empty());
    assert!(frame.payload.is_empty());
}

#[test]
fn clone_of_a_frame_is_equal() {
    let packet = NrfFrame { channel: 3, address: vec![9, 8, 7], payload: vec![1, 2] };
    assert_eq!(packet.clone(), packet);
}

#[test]
fn derived_quantities() {
    let fixed = NrfConfig::fixed_length(39, 4, 6, &[]);
    assert_eq!(fixed.padding_length_bits(), 0);
    assert_eq!(fixed.header_length_bits(), 0);
    assert_eq!(fixed.max_length_bytes(), 4 + 6 + 2);
    assert_eq!(fixed.crc_init(), 0xFFFF);
    assert_eq!(fixed.channel(), 39);
    assert_eq!(fixed.address_len(), 4);
    assert_eq!(fixed.payload_len(), Some(6));
    assert!(!fixed.is_shockburst());

    let dynamic = NrfConfig::shockburst(2, 5, None, &[]);
    assert_eq!(dynamic.padding_length_bits(), 7);
    assert_eq!(dynamic.header_length_bits(), 9);
    assert_eq!(dynamic.max_length_bytes(), 5 + 2 + 32 + 2);
    assert_eq!(dynamic.crc_init(), 0x3C18);
    assert_eq!(dynamic.payload_len(), None);
    assert!(dynamic.is_shockburst());

    let sized = NrfConfig::shockburst(2, 3, Some(0), &[]);
    assert_eq!(sized.max_length_bytes(), 3 + 2 + 0 + 2);
}

#[test]
fn prefix_is_stored_with_the_first_bit_on_top() {
    let config = NrfConfig::fixed_length(39, 4, 6, &[0x80, 0x01]);
    let mut stack = config.address_prefix_rev();
    assert_eq!(stack.len(), 16);
    let mut sent = Vec::new();
    while let Some(bit) = stack.pop() {
        sent.push(bit);
    }
    assert_eq!(number(&sent), 0x8001);
    assert!(NrfConfig::fixed_length(39, 4, 6, &[]).address_prefix_rev().is_empty());
}

#[test]
fn length_bits_are_stored_with_the_first_bit_on_top() {
    for len in [0usize, 1, 6, 21, 32] {
        let config = NrfConfig::shockburst(39, 4, Some(len), &[]);
        let mut stack = config.length_header_bits_rev();
        assert_eq!(stack.len(), 6);
        let mut sent = Vec::new();
        while let Some(bit) = stack.pop() {
            sent.push(bit);
        }
        assert_eq!(number(&sent) as usize, len);
    }
    assert!(NrfConfig::shockburst(39, 4, None, &[]).length_header_bits_rev().is_empty());
    assert_eq!(NrfConfig::fixed_length(39, 4, 6, &[]).length_header_bits_rev().len(), 6);
}
