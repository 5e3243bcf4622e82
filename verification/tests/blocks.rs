use nrf_sniffer::bits::{mirror_bytes, reverse_byte};
use nrf_sniffer::checksum::crc_trailer;
use nrf_sniffer::config::NrfConfig;
use nrf_sniffer::deframer::{NrfDeframer, WorkStatus};
use nrf_sniffer::frame::NrfFrame;

fn symbols_of(packet: &NrfFrame) -> Vec<u8> {
    packet.encode_fixed().iter().map(u8::from).collect()
}

#[test]
fn work_without_input_does_nothing() {
    let mut deframer = NrfDeframer::new(NrfConfig::fixed_length(39, 4, 6, &[]));
    assert_eq!(deframer.work(&[]), WorkStatus::Noop);
    assert!(deframer.out().is_empty());
}

#[test]
fn work_queues_the_frames_it_finds() {
    let packet = NrfFrame {
        channel: 39,
        address: vec![1, 2, 3, 4],
        payload: vec![5, 6, 7, 8, 9, 10],
    };
    let mut deframer = NrfDeframer::new(NrfConfig::fixed_length(39, 4, 6, &[]));
    let symbols = symbols_of(&packet);
    assert_eq!(deframer.work(&symbols), WorkStatus::Done);
    assert_eq!(deframer.work(&symbols), WorkStatus::Done);
    let frames = deframer.out();
    assert_eq!(frames, vec![packet.clone(), packet]);
    assert!(deframer.out().is_empty());
}

#[test]
fn work_keeps_its_state_between_calls() {
    let packet = NrfFrame {
        channel: 39,
        address: vec![1, 2, 3, 4],
        payload: vec![5, 6, 7, 8, 9, 10],
    };
    let mut deframer = NrfDeframer::new(NrfConfig::fixed_length(39, 4, 6, &[]));
    let symbols = symbols_of(&packet);
    for piece in symbols.chunks(7) {
        assert_eq!(deframer.work(piece), WorkStatus::Done);
    }
    assert_eq!(deframer.out(), vec![packet]);
}

#[test]
fn every_symbol_but_zero_is_a_one() {
    let packet = NrfFrame {
        channel: 39,
        address: vec![1, 2, 3, 4],
        payload: vec![5, 6, 7, 8, 9, 10],
    };
    let mut deframer = NrfDeframer::new(NrfConfig::fixed_length(39, 4, 6, &[]));
    let symbols: Vec<u8> = symbols_of(&packet).iter().map(|s| s * 200).collect();
    deframer.work(&symbols);
    assert_eq!(deframer.out(), vec![packet]);
}

#[test]
fn two_deframers_agree() {
    let packet = NrfFrame {
        channel: 39,
        address: vec![1, 2, 3, 4],
        payload: vec![5, 6, 7, 8, 9, 10],
    };
    let mut symbols = vec![1, 0, 0, 1, 1, 1, 0, 1, 0, 1, 0];
    symbols.extend(symbols_of(&packet));
    let mut first = NrfDeframer::new(NrfConfig::fixed_length(39, 4, 6, &[1]));
    let mut second = NrfDeframer::new(NrfConfig::fixed_length(39, 4, 6, &[1]));
    first.work(&symbols);
    second.work(&symbols);
    let frames = first.out();
    assert_eq!(frames, second.out());
    assert_eq!(frames, vec![packet]);
}

#[test]
fn bits_of_a_byte_reversed() {
    assert_eq!(reverse_byte(0x01), 0x80);
    assert_eq!(reverse_byte(0xA0), 0x05);
    assert_eq!(reverse_byte(0x00), 0x00);
    assert_eq!(reverse_byte(0xFF), 0xFF);
    assert_eq!(reverse_byte(0x1E), 0x78);
}

#[test]
fn bytes_mirrored() {
    assert_eq!(mirror_bytes(&[0x01, 0x02, 0xF0]), vec![0x0F, 0x40, 0x80]);
    assert!(mirror_bytes(&[]).is_empty());
}

#[test]
fn crc_trailer_is_big_endian() {
    assert_eq!(crc_trailer(0x29B1), [0x29, 0xB1]);
    assert_eq!(crc_trailer(0x00FF), [0x00, 0xFF]);
}
