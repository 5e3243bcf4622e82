use nrf_sniffer::deframer::{NrfConfig, NrfDecoder, NrfFrame};

#[test]
fn test_fixed() {
    let packet = NrfFrame {
        channel: 39,
        address: vec![1, 2, 3, 4],
        payload: vec![5, 6, 7, 8, 9, 10],
    };
    let config = NrfConfig::fixed_length(39, packet.address.len(), packet.payload.len(), &[]);
    let mut out = Vec::new();
    let mut state = NrfDecoder::Empty;
    for bit in packet.encode_fixed().iter() {
        state = state.push_bit(&config, &mut out, bit);
    }
    let out = out.into_iter().next().expect("Parsing failed");
    assert_eq!(out.address, packet.address);
    assert_eq!(out.payload, packet.payload);
}

#[test]
fn test_shockburst() {
    let packet = NrfFrame {
        channel: 39,
        address: vec![1, 2, 3, 4],
        payload: vec![5, 6, 7, 8, 9, 10],
    };
    let config = NrfConfig::shockburst(39, packet.address.len(), None, &[]);
    let mut out = Vec::new();
    let mut state = NrfDecoder::Empty;
    for bit in packet.encode_dynamic().iter() {
        state = state.push_bit(&config, &mut out, bit);
    }
    let out = out.into_iter().next().expect("Parsing failed");
    assert_eq!(out.address, packet.address);
    assert_eq!(out.payload, packet.payload);
}
