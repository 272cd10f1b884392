use nihil::framer::{CHUNK_BYTES, SEPARATOR, UNIT_LABELS};
use nihil::{b32_encode, apply, decrypt, encrypt, ChannelError, DecodeError};

fn payload(len: usize) -> Vec<u8> {
    (0..len).map(|i| ((i * 7 + 3) % 256) as u8).collect()
}

fn names(list: &[&str]) -> Vec<String> {
    list.iter().map(|s| s.to_string()).collect()
}

#[test]
fn framing_constants() {
    assert_eq!(CHUNK_BYTES, 35);
    assert_eq!(UNIT_LABELS, 4);
    assert_eq!(SEPARATOR, b'.');
}

#[test]
fn golden_label_for_hi_under_ab() {
    // "HI" under "AB" is 0x09 0x0b: sixteen bits, filled up to twenty, are the
    // four numbers 1, 4, 5, 16.
    assert_eq!(apply(b"HI", b"AB").unwrap(), vec![0x09, 0x0b]);
    let units = encrypt(b"HI", b"AB").unwrap();
    assert_eq!(units, names(&["BEFQ----"]));
    assert_eq!(decrypt(units, b"AB").unwrap(), b"HI".to_vec());
}

#[test]
fn frame_of_nothing_is_no_unit() {
    assert_eq!(encrypt(&[], b"key").unwrap(), Vec::<String>::new());
    assert_eq!(encrypt(&[], &[]).unwrap(), Vec::<String>::new());
}

#[test]
fn unframe_of_no_unit_is_nothing() {
    assert_eq!(decrypt(Vec::new(), b"key").unwrap(), Vec::<u8>::new());
    assert_eq!(decrypt(Vec::new(), &[]).unwrap(), Vec::<u8>::new());
}

#[test]
fn frame_without_a_key_is_invalid_key() {
    assert_eq!(encrypt(b"x", &[]), Err(ChannelError::InvalidKey));
}

#[test]
fn unframe_without_a_key_is_invalid_key() {
    assert_eq!(decrypt(names(&["BEFQ----"]), &[]), Err(ChannelError::InvalidKey));
    // An empty name is one empty label, and there is no key to read it with.
    assert_eq!(decrypt(names(&[""]), &[]), Err(ChannelError::InvalidKey));
}

#[test]
fn frame_one_full_chunk_is_one_label() {
    let units = encrypt(&[b'A'; 35], b"k").unwrap();
    assert_eq!(units, names(&["FIVCUKRKFIVCUKRKFIVCUKRKFIVCUKRKFIVCUKRKFIVCUKRKFIVCUKRK"]));
}

#[test]
fn frame_restarts_the_key_at_every_chunk() {
    // 36 bytes under a key of two: byte 35 meets the first byte of the key
    // again, not the second.
    let units = encrypt(&[b'A'; 36], &[0x00, 0xff]).unwrap();
    let first = b32_encode(&apply(&[b'A'; 35], &[0x00, 0xff]).unwrap()).unwrap();
    let second = b32_encode(&[b'A']).unwrap();
    let mut expected = first;
    expected.push(b'.');
    expected.extend(second);
    assert_eq!(units, vec![String::from_utf8(expected).unwrap()]);
}

#[test]
fn frame_two_chunks_share_a_unit() {
    let units = encrypt(&[b'A'; 36], b"k").unwrap();
    assert_eq!(
        units,
        names(&["FIVCUKRKFIVCUKRKFIVCUKRKFIVCUKRKFIVCUKRKFIVCUKRKFIVCUKRK.FI------"])
    );
}

#[test]
fn frame_five_chunks_are_two_units() {
    let data: Vec<u8> = (0..141).map(|i| i as u8).collect();
    let units = encrypt(&data, b"xy").unwrap();
    assert_eq!(
        units,
        names(&[
            "PB4HU6T4PR7H44DQOJZHI5DWOZUGQ2TKNRWG43TAMBRGEZDEMZTFQWC2.LNOV2X27KFIVGU2VKVLVOSKJJNFU2TKPJ5AUCQ2DIVCUORZZHE5TWPJ5.HY7DAMBSGI2DINRWFAUCUKRMFQXC4IBAEIRCIJBGEYMBQGQ2DQOB4HQQ.CEJRGFIVC4LQSCILBMGQ2DYPAEAQGAYFAUDQP6PZ7P5737P777Y7D47T",
            "6Q------",
        ])
    );
}

#[test]
fn nine_chunks_are_three_units_of_four_four_and_one() {
    let data = payload(305);
    let units = encrypt(&data, b"sisyphean").unwrap();
    assert_eq!(units.len(), 3);
    let counts: Vec<usize> = units.iter().map(|u| u.split('.').count()).collect();
    assert_eq!(counts, vec![4, 4, 1]);
    assert_eq!(
        units[0],
        "OBRWEYLPJZEFKVJREARS4LQNBEJBJ4XB7TX63TGO2PL3HLV5VSWIXD4Q.ROLHK5DEONDUQXSEK43DKIZSAQEQCBIU67ZOF4OFY3AMNVNQWOQ3BOUH.T2OYQ63ZPBZH6S27LJETQOBHGM6AUGA3BL47PZXQ7XG5TWGLY23KLMN2.SGAIHDUONVUXE5CSIFOE6TJMFYZTOEYODUGAZ27P6D3OZT66ZXF2VLFR"
    );
    assert_eq!(
        units[1],
        "US3ZNFMDSJSGSYLFORLVEQSREUTCAJRVCAJQCEA247R6P4WR2DAN7W5E.X65KTGEYQ6JZY2TYPNVFSV2GKBOS2OJYFMTBMBIRDLWPV6PE47K4JVW3.WKQ3ZL5NRSHJHF3TNZ6WY3CLJ5IFMTBPHYWSWCQMCEMQ33H75LVMTTOO.YXKLPMVCWGCYNAEGSVYHGYLQPJDUGR2SGEYCAPZ3AQBAAE7S6H7756GF"
    );
    assert_eq!(units[2], "3DN4VONXU2YL3DMZTCFYM5TFOF5EYWSZIRDTKJBW");
    // The labels are the chunks, in order.
    let mut labels: Vec<String> = Vec::new();
    for unit in &units {
        for label in unit.split('.') {
            labels.push(label.to_string());
        }
    }
    for (i, label) in labels.iter().enumerate() {
        let end = if 35 * i + 35 < data.len() { 35 * i + 35 } else { data.len() };
        let expected = b32_encode(&apply(&data[35 * i..end], b"sisyphean").unwrap()).unwrap();
        assert_eq!(label.as_bytes(), &expected[..], "label {}", i);
    }
    assert_eq!(decrypt(units, b"sisyphean").unwrap(), data);
}

#[test]
fn every_label_fits_a_component_and_every_unit_a_name() {
    for len in [1usize, 34, 35, 36, 139, 140, 141, 1000, 10000] {
        let units = encrypt(&payload(len), b"sisyphean").unwrap();
        assert_eq!(units.len(), ((len + 34) / 35 + 3) / 4);
        for unit in &units {
            assert!(unit.len() <= 227);
            for label in unit.split('.') {
                assert!(!label.is_empty());
                assert!(label.len() <= 56);
                assert_eq!(label.len() % 8, 0);
            }
        }
    }
}

#[test]
fn round_trip_for_every_short_length() {
    for len in 0..=300usize {
        let data = payload(len);
        let units = encrypt(&data, b"sisyphean").unwrap();
        assert_eq!(decrypt(units, b"sisyphean").unwrap(), data, "length {}", len);
    }
}

#[test]
fn round_trip_for_long_payloads() {
    for len in [1000usize, 4095, 4096, 9999, 10000] {
        let data = payload(len);
        for key in [&b"k"[..], &b"sisyphean"[..], &[0xff, 0x00, 0x80][..]] {
            let units = encrypt(&data, key).unwrap();
            assert_eq!(decrypt(units, key).unwrap(), data, "length {}", len);
        }
    }
}

#[test]
fn round_trip_needs_the_same_key() {
    let units = encrypt(b"covert", b"sisyphean").unwrap();
    assert_eq!(units, names(&["CADAKHACDQ------"]));
    assert_ne!(decrypt(units.clone(), b"other").unwrap(), b"covert".to_vec());
    assert_eq!(decrypt(units, b"sisyphean").unwrap(), b"covert".to_vec());
}

#[test]
fn unframe_reads_units_in_the_order_given() {
    let first = encrypt(b"first ", b"k").unwrap();
    let second = encrypt(b"second", b"k").unwrap();
    let mut both = first.clone();
    both.extend(second.clone());
    assert_eq!(decrypt(both, b"k").unwrap(), b"first second".to_vec());
    let mut swapped = second;
    swapped.extend(first);
    assert_eq!(decrypt(swapped, b"k").unwrap(), b"secondfirst ".to_vec());
}

#[test]
fn unframe_reads_a_name_with_a_dot_at_its_end() {
    // The last label is empty and holds no bytes.
    assert_eq!(decrypt(names(&["BEFQ----."]), b"AB").unwrap(), b"HI".to_vec());
    assert_eq!(decrypt(names(&["BEFQ----..BEFQ----"]), b"AB").unwrap(), b"HIHI".to_vec());
}

#[test]
fn unframe_reports_the_first_label_that_fails() {
    assert_eq!(
        decrypt(names(&["BEFQ----.BE!Q----.B?FQ----"]), b"AB"),
        Err(ChannelError::Decode(DecodeError::InvalidSymbol { position: 2, symbol: b'!' }))
    );
    assert_eq!(
        decrypt(names(&["BEFQ----", "befq----"]), b"AB"),
        Err(ChannelError::Decode(DecodeError::InvalidSymbol { position: 0, symbol: b'b' }))
    );
}

#[test]
fn unframe_reports_a_label_that_fails_before_the_missing_key() {
    assert_eq!(
        decrypt(names(&["B*"]), &[]),
        Err(ChannelError::Decode(DecodeError::InvalidSymbol { position: 1, symbol: b'*' }))
    );
}

#[test]
fn unframe_rejects_text_that_is_not_ascii() {
    // U+0141 is two bytes in a name, and neither is a symbol.
    assert_eq!(
        decrypt(names(&["A\u{141}"]), b"k"),
        Err(ChannelError::Decode(DecodeError::InvalidSymbol { position: 1, symbol: 0xc5 }))
    );
}
