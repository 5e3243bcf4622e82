use nrf_sniffer::deframer::{NrfConfig, NrfDecoder, NrfFrame};

// A plain model of the deframer on vectors of bits, with the CRC computed bit
// by bit, to hold the library against.

#[derive(Clone)]
struct Layout {
    channel: u8,
    address_len: usize,
    prefix: Vec<bool>,
    payload_len: Option<usize>,
    shockburst: bool,
}

impl Layout {
    fn padding(&self) -> usize {
        if self.shockburst {
            7
        } else {
            0
        }
    }

    fn header(&self) -> usize {
        if self.shockburst {
            9
        } else {
            0
        }
    }

    fn config(&self, prefix_bytes: &[u8]) -> NrfConfig {
        if self.shockburst {
            NrfConfig::shockburst(self.channel, self.address_len, self.payload_len, prefix_bytes)
        } else {
            NrfConfig::fixed_length(
                self.channel,
                self.address_len,
                self.payload_len.unwrap(),
                prefix_bytes,
            )
        }
    }
}

enum Model {
    Empty,
    Sync(usize, bool),
    Addr(Vec<bool>, usize),
    Header(Vec<bool>, Vec<bool>),
    Payload(usize, Vec<bool>),
    Crc(Vec<bool>, Vec<bool>),
}

fn crc_of_bits(init: u16, bits: &[bool]) -> u16 {
    let mut reg = init;
    for bit in bits {
        let top = reg & 0x8000 != 0;
        reg <<= 1;
        if top != *bit {
            reg ^= 0x1021;
        }
    }
    reg
}

fn bits_of_bytes(bytes: &[u8]) -> Vec<bool> {
    let mut bits = Vec::new();
    for byte in bytes {
        for k in 0..8 {
            bits.push(byte & (0x80 >> k) != 0);
        }
    }
    bits
}

fn bytes_of_bits(bits: &[bool]) -> Vec<u8> {
    bits.chunks(8)
        .map(|chunk| {
            let mut byte = 0u8;
            for (k, bit) in chunk.iter().enumerate() {
                if *bit {
                    byte |= 0x80 >> k;
                }
            }
            byte
        })
        .collect()
}

fn rewind(layout: &Layout, out: &mut Vec<NrfFrame>, data: Vec<bool>) -> Model {
    let air = &data[layout.padding()..];
    let mut state = Model::Sync(7, !air[0]);
    for bit in air {
        state = step(layout, out, state, *bit);
    }
    state
}

fn step(layout: &Layout, out: &mut Vec<NrfFrame>, state: Model, bit: bool) -> Model {
    let address_end = layout.padding() + 8 * layout.address_len;
    match state {
        Model::Empty => Model::Sync(1, bit),
        Model::Sync(count, last) => {
            if last != bit && count < 8 {
                Model::Sync(count + 1, bit)
            } else if last != bit && count == 8 {
                let start = Model::Addr(vec![false; layout.padding()], 0);
                step(layout, out, start, bit)
            } else {
                Model::Sync(1, bit)
            }
        }
        Model::Addr(mut data, matched) => {
            data.push(bit);
            if matched < layout.prefix.len() && layout.prefix[matched] != bit {
                rewind(layout, out, data)
            } else if data.len() < address_end {
                Model::Addr(data, matched + 1)
            } else if !layout.shockburst {
                Model::Payload(address_end + 8 * layout.payload_len.unwrap(), data)
            } else {
                let expected = match layout.payload_len {
                    Some(len) => (0..6).map(|k| len & (0x20 >> k) != 0).collect(),
                    None => Vec::new(),
                };
                Model::Header(data, expected)
            }
        }
        Model::Header(mut data, mut expected) => {
            data.push(bit);
            if !expected.is_empty() && expected.remove(0) != bit {
                rewind(layout, out, data)
            } else if data.len() < address_end + 9 {
                Model::Header(data, expected)
            } else {
                let len = data[address_end..address_end + 6]
                    .iter()
                    .fold(0, |acc, b| acc * 2 + usize::from(*b));
                if len <= 32 {
                    Model::Payload(address_end + 9 + 8 * len, data)
                } else {
                    rewind(layout, out, data)
                }
            }
        }
        Model::Payload(end, mut data) => {
            data.push(bit);
            if data.len() < end {
                Model::Payload(end, data)
            } else {
                // the padding and the bits of a last partial byte are zero
                let mut covered = data.clone();
                while covered.len() % 8 != 0 {
                    covered.push(false);
                }
                let init = if layout.shockburst { 0x3C18 } else { 0xFFFF };
                let crc = crc_of_bits(init, &covered);
                let expected = (0..16).map(|k| crc & (0x8000 >> k) != 0).collect();
                Model::Crc(data, expected)
            }
        }
        Model::Crc(mut data, mut expected) => {
            data.push(bit);
            if expected.remove(0) != bit {
                rewind(layout, out, data)
            } else if !expected.is_empty() {
                Model::Crc(data, expected)
            } else {
                let address = bytes_of_bits(&data[layout.padding()..address_end]);
                let payload =
                    bytes_of_bits(&data[address_end + layout.header()..data.len() - 16]);
                out.push(NrfFrame { channel: layout.channel, address, payload });
                Model::Empty
            }
        }
    }
}

fn same_state(model: &Model, state: &NrfDecoder) -> bool {
    match (model, state) {
        (Model::Empty, NrfDecoder::Empty) => true,
        (Model::Sync(a, b), NrfDecoder::Sync(c, d)) => a == c && b == d,
        (Model::Addr(data, _), NrfDecoder::RecvAddr(buffer, _)) => buffer.eq_vec(data),
        (Model::Header(data, expected), NrfDecoder::RecvHeader(buffer, length)) => {
            let mut top_first: Vec<bool> = length.iter().collect();
            top_first.reverse();
            buffer.eq_vec(data) && &top_first == expected
        }
        (Model::Payload(end, data), NrfDecoder::RecvPayload(total, buffer)) => {
            end == total && buffer.eq_vec(data)
        }
        (Model::Crc(data, expected), NrfDecoder::CheckCrc(buffer, crc)) => {
            let mut top_first: Vec<bool> = crc.iter().collect();
            top_first.reverse();
            buffer.eq_vec(data) && &top_first == expected
        }
        _ => false,
    }
}

fn noise(seed: u32, n: usize) -> Vec<bool> {
    let mut x = seed;
    let mut bits = Vec::new();
    for _ in 0..n {
        x = x.wrapping_mul(1664525).wrapping_add(1013904223);
        bits.push((x >> 16) & 1 == 1);
    }
    bits
}

// noise with the bits of frames strewn in, and with stretches of
// alternating bits that start attempts
fn stream(layout: &Layout, seed: u32, frames: usize) -> Vec<bool> {
    let mut bits = Vec::new();
    for i in 0..frames {
        let s = seed.wrapping_mul(31).wrapping_add(i as u32);
        bits.extend(noise(s, (s % 97) as usize));
        if i % 3 == 0 {
            bits.extend((0..(8 + s % 5)).map(|k| k % 2 == 0));
        }
        let mut address: Vec<u8> =
            noise(s ^ 0x55, 8 * layout.address_len).chunks(8).map(|c| bytes_of_bits(c)[0]).collect();
        if i % 2 == 0 {
            // let the address start with the prefix
            let prefix_bytes = bytes_of_bits(&layout.prefix);
            for (k, byte) in prefix_bytes.iter().enumerate() {
                if k < address.len() {
                    address[k] = *byte;
                }
            }
        }
        let len = layout.payload_len.unwrap_or(1 + (s % 32) as usize);
        let payload: Vec<u8> = noise(s ^ 0xAA, 8 * len).chunks(8).map(|c| bytes_of_bits(c)[0]).collect();
        let frame = NrfFrame { channel: layout.channel, address, payload };
        let encoded = if layout.shockburst {
            frame.encode_dynamic()
        } else {
            frame.encode_fixed()
        };
        let mut encoded: Vec<bool> = encoded.iter().collect();
        if i % 5 == 4 {
            // a bit error
            let at = (s as usize) % encoded.len();
            encoded[at] = !encoded[at];
        }
        bits.extend(encoded);
    }
    bits
}

fn compare(layout: &Layout, prefix_bytes: &[u8], seed: u32) -> usize {
    let config = layout.config(prefix_bytes);
    let bits = stream(layout, seed, 40);
    let mut expected = Vec::new();
    let mut model = Model::Empty;
    let mut out = Vec::new();
    let mut state = NrfDecoder::Empty;
    for bit in bits {
        model = step(layout, &mut expected, model, bit);
        state = state.push_bit(&config, &mut out, bit);
        assert!(same_state(&model, &state));
        assert_eq!(out.len(), expected.len());
    }
    assert_eq!(out, expected);
    out.len()
}

#[test]
fn fixed_layout_agrees_with_the_model() {
    let layout = Layout {
        channel: 3,
        address_len: 3,
        prefix: Vec::new(),
        payload_len: Some(2),
        shockburst: false,
    };
    let mut found = 0;
    for seed in 0..10 {
        found += compare(&layout, &[], seed);
    }
    assert!(found >= 200);
}

#[test]
fn fixed_layout_with_prefix_agrees_with_the_model() {
    let layout = Layout {
        channel: 77,
        address_len: 5,
        prefix: bits_of_bytes(&[0xE7, 0x1A]),
        payload_len: Some(9),
        shockburst: false,
    };
    let mut found = 0;
    for seed in 0..10 {
        found += compare(&layout, &[0xE7, 0x1A], seed);
    }
    assert!(found >= 100);
}

#[test]
fn shockburst_layout_agrees_with_the_model() {
    let layout = Layout {
        channel: 120,
        address_len: 4,
        prefix: bits_of_bytes(&[0x0F]),
        payload_len: None,
        shockburst: true,
    };
    let mut found = 0;
    for seed in 0..10 {
        found += compare(&layout, &[0x0F], seed);
    }
    assert!(found >= 100);
}

#[test]
fn shockburst_layout_with_length_agrees_with_the_model() {
    let layout = Layout {
        channel: 0,
        address_len: 5,
        prefix: Vec::new(),
        payload_len: Some(32),
        shockburst: true,
    };
    let mut found = 0;
    for seed in 0..10 {
        found += compare(&layout, &[], seed);
    }
    assert!(found >= 200);
}
