use nihil::codec::{LETTER_A, PAD};
use nihil::{b32_decode, b32_encode, DecodeError};

const ALPHABET: &[u8; 32] = b"ABCDEFGHIJKLMNOPQRSTUVWXYZ234567";

/// The label of `data`, built the long way round: a string of bits, cut in
/// fives, looked up in the table.
fn label_by_bit_string(data: &[u8]) -> Vec<u8> {
    let mut bits: Vec<u8> = Vec::new();
    for byte in data {
        for k in 0..8 {
            bits.push((byte >> (7 - k)) & 1);
        }
    }
    while bits.len() % 5 != 0 {
        bits.push(0);
    }
    let mut label: Vec<u8> = Vec::new();
    for group in bits.chunks(5) {
        let mut index = 0usize;
        for bit in group {
            index = index * 2 + *bit as usize;
        }
        label.push(ALPHABET[index]);
    }
    while label.len() % 8 != 0 {
        label.push(b'-');
    }
    label
}

fn sample(len: usize, seed: u32) -> Vec<u8> {
    let mut state = seed.wrapping_mul(2654435761).wrapping_add(12345);
    let mut out = Vec::with_capacity(len);
    for _ in 0..len {
        state = state.wrapping_mul(1103515245).wrapping_add(12345);
        out.push((state >> 16) as u8);
    }
    out
}

#[test]
fn constants_are_the_wire_symbols() {
    assert_eq!(PAD, b'-');
    assert_eq!(LETTER_A, b'A');
}

#[test]
fn encode_empty_is_empty() {
    assert_eq!(b32_encode(&[]).unwrap(), Vec::<u8>::new());
}

#[test]
fn encode_known_vectors() {
    assert_eq!(b32_encode(b"f").unwrap(), b"MY------".to_vec());
    assert_eq!(b32_encode(b"fo").unwrap(), b"MZXQ----".to_vec());
    assert_eq!(b32_encode(b"foo").unwrap(), b"MZXW6---".to_vec());
    assert_eq!(b32_encode(b"foob").unwrap(), b"MZXW6YQ-".to_vec());
    assert_eq!(b32_encode(b"fooba").unwrap(), b"MZXW6YTB".to_vec());
    assert_eq!(b32_encode(b"foobar").unwrap(), b"MZXW6YTBOI------".to_vec());
}

#[test]
fn encode_uses_every_symbol_of_the_table_in_order() {
    // 32 groups of five bits that count from 0 to 31 are 20 bytes.
    let mut bits: Vec<u8> = Vec::new();
    for v in 0..32u8 {
        for k in 0..5 {
            bits.push((v >> (4 - k)) & 1);
        }
    }
    let mut data: Vec<u8> = Vec::new();
    for group in bits.chunks(8) {
        let mut byte = 0u8;
        for bit in group {
            byte = byte * 2 + bit;
        }
        data.push(byte);
    }
    assert_eq!(data.len(), 20);
    assert_eq!(b32_encode(&data).unwrap(), ALPHABET.to_vec());
}

#[test]
fn encode_all_ones_block() {
    assert_eq!(b32_encode(&[0xff; 5]).unwrap(), b"77777777".to_vec());
}

#[test]
fn encode_full_chunk_is_56_symbols_without_padding() {
    let data: Vec<u8> = (0u8..35).collect();
    let label = b32_encode(&data).unwrap();
    assert_eq!(
        label,
        b"AAAQEAYEAUDAOCAJBIFQYDIOB4IBCEQTCQKRMFYYDENBWHA5DYPSAIJC".to_vec()
    );
    assert_eq!(label.len(), 56);
    assert!(!label.contains(&b'-'));
}

#[test]
fn encode_agrees_with_the_bit_string_for_every_length_up_to_a_chunk() {
    for len in 0..=35usize {
        for seed in 0..8u32 {
            let data = sample(len, seed + 31 * len as u32);
            assert_eq!(b32_encode(&data).unwrap(), label_by_bit_string(&data), "length {}", len);
        }
    }
}

#[test]
fn encode_agrees_with_the_bit_string_past_a_chunk() {
    for len in [36usize, 40, 41, 64, 100, 255, 1000] {
        let data = sample(len, len as u32);
        assert_eq!(b32_encode(&data).unwrap(), label_by_bit_string(&data), "length {}", len);
    }
}

#[test]
fn label_shape_holds_for_every_chunk_length() {
    for len in 0..=35usize {
        let data = sample(len, 7 + len as u32);
        let label = b32_encode(&data).unwrap();
        assert_eq!(label.len() % 8, 0);
        assert!(label.len() <= 56);
        assert_eq!(label.len(), (8 * len + 4) / 5 + (8 - ((8 * len + 4) / 5) % 8) % 8);
        let symbols = (8 * len + 4) / 5;
        for (i, c) in label.iter().enumerate() {
            if i < symbols {
                assert!(ALPHABET.contains(c), "{} at {}", c, i);
            } else {
                assert_eq!(*c, b'-');
            }
        }
    }
}

#[test]
fn decode_empty_is_empty() {
    assert_eq!(b32_decode(&[]).unwrap(), Vec::<u8>::new());
}

#[test]
fn decode_known_vectors() {
    assert_eq!(b32_decode(b"MY------").unwrap(), b"f".to_vec());
    assert_eq!(b32_decode(b"MZXQ----").unwrap(), b"fo".to_vec());
    assert_eq!(b32_decode(b"MZXW6---").unwrap(), b"foo".to_vec());
    assert_eq!(b32_decode(b"MZXW6YQ-").unwrap(), b"foob".to_vec());
    assert_eq!(b32_decode(b"MZXW6YTB").unwrap(), b"fooba".to_vec());
    assert_eq!(b32_decode(b"MZXW6YTBOI------").unwrap(), b"foobar".to_vec());
}

#[test]
fn decode_inverts_encode_for_every_chunk_length() {
    for len in 0..=35usize {
        for seed in 0..8u32 {
            let data = sample(len, seed * 97 + len as u32);
            let label = b32_encode(&data).unwrap();
            assert_eq!(b32_decode(&label).unwrap(), data, "length {}", len);
        }
    }
}

#[test]
fn decode_inverts_encode_past_a_chunk() {
    for len in [36usize, 39, 40, 77, 1024, 4096] {
        let data = sample(len, 3 * len as u32);
        let label = b32_encode(&data).unwrap();
        assert_eq!(b32_decode(&label).unwrap(), data, "length {}", len);
    }
}

#[test]
fn decode_is_not_the_identity() {
    assert_ne!(b32_decode(b"MZXW6YTB").unwrap(), b"MZXW6YTB".to_vec());
    assert_ne!(b32_encode(b"fooba").unwrap(), b"fooba".to_vec());
}

#[test]
fn decode_needs_no_padding() {
    assert_eq!(b32_decode(b"MY").unwrap(), b"f".to_vec());
    assert_eq!(b32_decode(b"MZXW6YTBOI").unwrap(), b"foobar".to_vec());
}

#[test]
fn decode_takes_any_amount_of_padding() {
    assert_eq!(b32_decode(b"MY-").unwrap(), b"f".to_vec());
    assert_eq!(b32_decode(b"MY--------------").unwrap(), b"f".to_vec());
    assert_eq!(b32_decode(b"--------").unwrap(), Vec::<u8>::new());
    assert_eq!(b32_decode(b"-").unwrap(), Vec::<u8>::new());
}

#[test]
fn decode_drops_the_bits_that_fill_no_byte() {
    // One symbol is five bits: no byte.
    assert_eq!(b32_decode(b"A").unwrap(), Vec::<u8>::new());
    assert_eq!(b32_decode(b"7").unwrap(), Vec::<u8>::new());
    // Two symbols are ten bits: one byte, two bits dropped, whatever they are.
    assert_eq!(b32_decode(b"AA").unwrap(), vec![0x00]);
    assert_eq!(b32_decode(b"AD").unwrap(), vec![0x00]);
    assert_eq!(b32_decode(b"77").unwrap(), vec![0xff]);
    // Three symbols are fifteen bits: still one byte.
    assert_eq!(b32_decode(b"MZX").unwrap(), b"f".to_vec());
    // Six symbols are thirty bits: three bytes.
    assert_eq!(b32_decode(b"MZXW6Y").unwrap(), b"foo".to_vec());
    // Nine symbols: five bytes from the first eight, none from the ninth.
    assert_eq!(b32_decode(b"MZXW6YTBO").unwrap(), b"fooba".to_vec());
}

#[test]
fn decode_rejects_a_byte_outside_the_alphabet() {
    assert_eq!(
        b32_decode(b"MZ!W6---"),
        Err(DecodeError::InvalidSymbol { position: 2, symbol: b'!' })
    );
    assert_eq!(
        b32_decode(b"1-------"),
        Err(DecodeError::InvalidSymbol { position: 0, symbol: b'1' })
    );
    assert_eq!(
        b32_decode(b"MZXW6YT8"),
        Err(DecodeError::InvalidSymbol { position: 7, symbol: b'8' })
    );
}

#[test]
fn decode_rejects_every_byte_that_is_no_symbol_and_no_padding() {
    for c in 0..=255u8 {
        let foreign = !ALPHABET.contains(&c) && c != b'-';
        let label = [b'M', c, b'-', b'-'];
        let decoded = b32_decode(&label);
        if foreign {
            assert_eq!(decoded, Err(DecodeError::InvalidSymbol { position: 1, symbol: c }));
        } else {
            assert!(decoded.is_ok(), "{}", c);
        }
    }
}

#[test]
fn decode_rejects_lower_case() {
    assert_eq!(
        b32_decode(b"mzxw6---"),
        Err(DecodeError::InvalidSymbol { position: 0, symbol: b'm' })
    );
}

#[test]
fn decode_rejects_padding_before_a_symbol() {
    assert_eq!(
        b32_decode(b"MZ-W6---"),
        Err(DecodeError::InvalidSymbol { position: 2, symbol: b'-' })
    );
    assert_eq!(
        b32_decode(b"-A"),
        Err(DecodeError::InvalidSymbol { position: 0, symbol: b'-' })
    );
}

#[test]
fn decode_reports_the_first_of_several_foreign_bytes() {
    assert_eq!(
        b32_decode(b"AB?D*F"),
        Err(DecodeError::InvalidSymbol { position: 2, symbol: b'?' })
    );
}

#[test]
fn decode_rejects_bytes_that_are_not_ascii() {
    assert_eq!(
        b32_decode(&[b'A', 0xc5, 0x81]),
        Err(DecodeError::InvalidSymbol { position: 1, symbol: 0xc5 })
    );
}
