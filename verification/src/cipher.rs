//! The stream cipher: a byte-wise XOR with a key that repeats.
//!
//! Every call starts at the first byte of the key, so a chunk that was
//! ciphered on its own can be deciphered on its own.

use vstd::prelude::*;
use crate::error::ChannelError;

verus! {

/// `bytes` with `key` laid over it cyclically from its first byte, XORed in.
pub open spec fn keystream_xor(bytes: Seq<u8>, key: Seq<u8>) -> Seq<u8> {
    Seq::new(bytes.len(), |i: int| bytes[i] ^ key[i % (key.len() as int)])
}

/// What `apply` returns: the XOR under a key, or `InvalidKey` without one.
pub open spec fn apply_spec(bytes: Seq<u8>, key: Seq<u8>) -> Result<Seq<u8>, ChannelError> {
    if key.len() == 0 {
        Err(ChannelError::InvalidKey)
    } else {
        Ok(keystream_xor(bytes, key))
    }
}

/// Ciphers (or deciphers) `bytes` under `key`. What comes out, ciphered
/// again under the same key, is `bytes`.
pub fn apply(bytes: &[u8], key: &[u8]) -> (r: Result<Vec<u8>, ChannelError>)
    ensures
        match r {
            Ok(out) => {
                &&& apply_spec(bytes@, key@) == Ok::<Seq<u8>, ChannelError>(out@)
                &&& apply_spec(out@, key@) == Ok::<Seq<u8>, ChannelError>(bytes@)
            },
            Err(e) => apply_spec(bytes@, key@) == Err::<Seq<u8>, ChannelError>(e),
        },
{
    if key.len() == 0 {
        return Err(ChannelError::InvalidKey);
    }
    let mut out: Vec<u8> = Vec::new();
    let mut i: usize = 0;
    while i < bytes.len()
        invariant
            key@.len() > 0,
            i <= bytes@.len(),
            out@.len() == i,
            forall|j: int| 0 <= j < i ==> out@[j] == bytes@[j] ^ key@[j % (key@.len() as int)],
        decreases bytes@.len() - i,
    {
        out.push(bytes[i] ^ key[i % key.len()]);
        i += 1;
    }
    assert(out@ =~= keystream_xor(bytes@, key@));
    proof {
        apply_twice_restores(bytes@, key@);
    }
    Ok(out)
}

/// Ciphering twice under the same key gives the bytes back.
pub proof fn apply_twice_restores(bytes: Seq<u8>, key: Seq<u8>)
    requires
        key.len() > 0,
    ensures
        keystream_xor(keystream_xor(bytes, key), key) == bytes,
        apply_spec(keystream_xor(bytes, key), key) == Ok::<Seq<u8>, ChannelError>(bytes),
{
    let once = keystream_xor(bytes, key);
    let twice = keystream_xor(once, key);
    assert forall|i: int| 0 <= i < bytes.len() implies twice[i] == bytes[i] by {
        let b = bytes[i];
        let k = key[i % (key.len() as int)];
        assert((b ^ k) ^ k == b) by (bit_vector);
    }
    assert(twice =~= bytes);
}

} // verus!
