use nihil::{apply, ChannelError};

#[test]
fn apply_xors_with_the_repeating_key() {
    assert_eq!(apply(b"HI", b"AB").unwrap(), vec![0x09, 0x0b]);
    assert_eq!(
        apply(&[0x00, 0x01, 0x02, 0x03, 0x04], &[0xf0, 0x0f]).unwrap(),
        vec![0xf0, 0x0e, 0xf2, 0x0c, 0xf4]
    );
}

#[test]
fn apply_with_a_key_longer_than_the_bytes_uses_its_start() {
    assert_eq!(apply(&[0xff, 0xff], &[0x01, 0x02, 0x03, 0x04]).unwrap(), vec![0xfe, 0xfd]);
}

#[test]
fn apply_of_nothing_is_nothing() {
    assert_eq!(apply(&[], b"key").unwrap(), Vec::<u8>::new());
}

#[test]
fn apply_without_a_key_is_invalid_key() {
    assert_eq!(apply(b"data", &[]), Err(ChannelError::InvalidKey));
    assert_eq!(apply(&[], &[]), Err(ChannelError::InvalidKey));
}

#[test]
fn apply_twice_gives_the_bytes_back() {
    let keys: [&[u8]; 4] = [b"k", b"AB", b"sisyphean", &[0x00, 0xff, 0x80, 0x7f, 0x01]];
    for key in keys {
        for len in 0..100usize {
            let bytes: Vec<u8> = (0..len).map(|i| (i * 37 + len) as u8).collect();
            let once = apply(&bytes, key).unwrap();
            assert_eq!(once.len(), bytes.len());
            assert_eq!(apply(&once, key).unwrap(), bytes);
        }
    }
}

#[test]
fn apply_changes_the_bytes_under_a_key_that_is_not_zero() {
    assert_ne!(apply(b"HI", b"AB").unwrap(), b"HI".to_vec());
    assert_eq!(apply(b"HI", &[0x00]).unwrap(), b"HI".to_vec());
}
