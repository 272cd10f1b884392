//! The alphabet codec: bytes to a label of 32 printable symbols and back.
//!
//! A label is the bit string of its bytes, most significant bit first, cut in
//! groups of five bits; each group is written as one symbol of the alphabet
//! `A`-`Z`, `2`-`7`. The last group is filled up with zero bits, and the label
//! is filled up with `-` to a multiple of eight symbols.

use vstd::prelude::*;
use crate::error::{ChannelError, DecodeError};

verus! {

/// The symbol that fills a label up to a multiple of eight: `-`.
pub const PAD: u8 = 0x2d;

/// The first of the 26 letters of the alphabet: `A`.
pub const LETTER_A: u8 = 0x41;

/// The last of the 26 letters of the alphabet: `Z`.
pub const LETTER_Z: u8 = 0x5a;

/// The first of the six digits of the alphabet: `2`.
pub const DIGIT_2: u8 = 0x32;

/// The last of the six digits of the alphabet: `7`.
pub const DIGIT_7: u8 = 0x37;

/// Bit `k` of the byte `b`, counted from the most significant bit (`k == 0`)
/// to the least significant (`k == 7`).
#[verifier::opaque]
pub open spec fn byte_bit(b: u8, k: int) -> bool {
    if k == 0 {
        b / 128 % 2 == 1
    } else if k == 1 {
        b / 64 % 2 == 1
    } else if k == 2 {
        b / 32 % 2 == 1
    } else if k == 3 {
        b / 16 % 2 == 1
    } else if k == 4 {
        b / 8 % 2 == 1
    } else if k == 5 {
        b / 4 % 2 == 1
    } else if k == 6 {
        b / 2 % 2 == 1
    } else {
        b % 2 == 1
    }
}

/// Bit `k` of the five-bit number `v`, counted from the most significant bit
/// (`k == 0`) to the least significant (`k == 4`).
#[verifier::opaque]
pub open spec fn quintet_bit(v: int, k: int) -> bool {
    if k == 0 {
        v / 16 % 2 == 1
    } else if k == 1 {
        v / 8 % 2 == 1
    } else if k == 2 {
        v / 4 % 2 == 1
    } else if k == 3 {
        v / 2 % 2 == 1
    } else {
        v % 2 == 1
    }
}

/// A bit as a number.
pub open spec fn weight(bit: bool) -> int {
    if bit {
        1
    } else {
        0
    }
}

/// The bytes as one string of bits, eight per byte, most significant first.
pub open spec fn bit_string(bytes: Seq<u8>) -> Seq<bool> {
    Seq::new(8 * bytes.len(), |j: int| byte_bit(bytes[j / 8], j % 8))
}

/// Bit `j` of a bit string that is continued with zero bits past its end.
pub open spec fn padded_bit(bits: Seq<bool>, j: int) -> bool {
    0 <= j < bits.len() && bits[j]
}

/// The number written by five bits, most significant first.
pub open spec fn five_bits(b0: bool, b1: bool, b2: bool, b3: bool, b4: bool) -> int {
    16 * weight(b0) + 8 * weight(b1) + 4 * weight(b2) + 2 * weight(b3) + weight(b4)
}

/// The number written by eight bits, most significant first.
pub open spec fn eight_bits(
    b0: bool,
    b1: bool,
    b2: bool,
    b3: bool,
    b4: bool,
    b5: bool,
    b6: bool,
    b7: bool,
) -> int {
    128 * weight(b0) + 64 * weight(b1) + 32 * weight(b2) + 16 * weight(b3) + 8 * weight(b4) + 4
        * weight(b5) + 2 * weight(b6) + weight(b7)
}

/// The number written by the five bits of group `i` of a bit string
/// continued with zero bits.
pub open spec fn quintet(bits: Seq<bool>, i: int) -> int {
    five_bits(
        padded_bit(bits, 5 * i),
        padded_bit(bits, 5 * i + 1),
        padded_bit(bits, 5 * i + 2),
        padded_bit(bits, 5 * i + 3),
        padded_bit(bits, 5 * i + 4),
    )
}

/// The number written by the eight bits of group `k`.
pub open spec fn octet(bits: Seq<bool>, k: int) -> int {
    eight_bits(
        bits[8 * k],
        bits[8 * k + 1],
        bits[8 * k + 2],
        bits[8 * k + 3],
        bits[8 * k + 4],
        bits[8 * k + 5],
        bits[8 * k + 6],
        bits[8 * k + 7],
    )
}

/// The symbol that stands for the five-bit number `v`: `A`-`Z` for 0-25,
/// `2`-`7` for 26-31.
pub open spec fn symbol_of(v: int) -> u8 {
    if v < 26 {
        (LETTER_A + v) as u8
    } else {
        (DIGIT_2 + (v - 26)) as u8
    }
}

/// Whether `c` is one of the 32 symbols of the alphabet.
pub open spec fn is_symbol(c: u8) -> bool {
    (LETTER_A <= c && c <= LETTER_Z) || (DIGIT_2 <= c && c <= DIGIT_7)
}

/// Whether each byte is a symbol of the alphabet or padding.
pub open spec fn is_label(bytes: Seq<u8>) -> bool {
    forall|i: int| 0 <= i < bytes.len() ==> is_symbol(#[trigger] bytes[i]) || bytes[i] == PAD
}

/// The five-bit number that the symbol `c` stands for.
pub open spec fn symbol_value(c: u8) -> int {
    if c >= LETTER_A {
        c - LETTER_A
    } else {
        c - DIGIT_2 + 26
    }
}

/// Symbols that carry the bits of `n` bytes.
pub open spec fn symbol_count(n: nat) -> nat {
    ((8 * n + 4) / 5) as nat
}

/// Length of the label of `n` bytes: the symbols, filled up to a multiple of
/// eight.
pub open spec fn label_len(n: nat) -> nat {
    ((symbol_count(n) + 7) / 8 * 8) as nat
}

/// The label of `bytes`.
#[verifier::opaque]
pub open spec fn encode_spec(bytes: Seq<u8>) -> Seq<u8> {
    Seq::new(
        label_len(bytes.len()),
        |i: int|
            if i < symbol_count(bytes.len()) {
                symbol_of(quintet(bit_string(bytes), i))
            } else {
                PAD
            },
    )
}

/// The symbol that stands for the five-bit number `v`.
fn symbol_for(v: u8) -> (c: u8)
    requires
        v < 32,
    ensures
        c == symbol_of(v as int),
        is_symbol(c),
{
    if v < 26 {
        LETTER_A + v
    } else {
        DIGIT_2 + (v - 26)
    }
}

/// The eight groups of five bits of five bytes, by division and remainder.
proof fn lemma_block_quintets(v0: u8, v1: u8, v2: u8, v3: u8, v4: u8)
    by (bit_vector)
    ensures
        v0 / 8 == five_bits(
            byte_bit(v0, 0),
            byte_bit(v0, 1),
            byte_bit(v0, 2),
            byte_bit(v0, 3),
            byte_bit(v0, 4),
        ),
        (v0 % 8) * 4 + v1 / 64 == five_bits(
            byte_bit(v0, 5),
            byte_bit(v0, 6),
            byte_bit(v0, 7),
            byte_bit(v1, 0),
            byte_bit(v1, 1),
        ),
        (v1 / 2) % 32 == five_bits(
            byte_bit(v1, 2),
            byte_bit(v1, 3),
            byte_bit(v1, 4),
            byte_bit(v1, 5),
            byte_bit(v1, 6),
        ),
        (v1 % 2) * 16 + v2 / 16 == five_bits(
            byte_bit(v1, 7),
            byte_bit(v2, 0),
            byte_bit(v2, 1),
            byte_bit(v2, 2),
            byte_bit(v2, 3),
        ),
        (v2 % 16) * 2 + v3 / 128 == five_bits(
            byte_bit(v2, 4),
            byte_bit(v2, 5),
            byte_bit(v2, 6),
            byte_bit(v2, 7),
            byte_bit(v3, 0),
        ),
        (v3 / 4) % 32 == five_bits(
            byte_bit(v3, 1),
            byte_bit(v3, 2),
            byte_bit(v3, 3),
            byte_bit(v3, 4),
            byte_bit(v3, 5),
        ),
        (v3 % 4) * 8 + v4 / 32 == five_bits(
            byte_bit(v3, 6),
            byte_bit(v3, 7),
            byte_bit(v4, 0),
            byte_bit(v4, 1),
            byte_bit(v4, 2),
        ),
        v4 % 32 == five_bits(
            byte_bit(v4, 3),
            byte_bit(v4, 4),
            byte_bit(v4, 5),
            byte_bit(v4, 6),
            byte_bit(v4, 7),
        ),
{
}

/// The eight groups of five bits of a block of five bytes, bit by bit.
proof fn lemma_block_bits(v0: u8, v1: u8, v2: u8, v3: u8, v4: u8)
    ensures
        quintet(bit_string(seq![v0, v1, v2, v3, v4]), 0) == five_bits(
            byte_bit(v0, 0),
            byte_bit(v0, 1),
            byte_bit(v0, 2),
            byte_bit(v0, 3),
            byte_bit(v0, 4),
        ),
        quintet(bit_string(seq![v0, v1, v2, v3, v4]), 1) == five_bits(
            byte_bit(v0, 5),
            byte_bit(v0, 6),
            byte_bit(v0, 7),
            byte_bit(v1, 0),
            byte_bit(v1, 1),
        ),
        quintet(bit_string(seq![v0, v1, v2, v3, v4]), 2) == five_bits(
            byte_bit(v1, 2),
            byte_bit(v1, 3),
            byte_bit(v1, 4),
            byte_bit(v1, 5),
            byte_bit(v1, 6),
        ),
        quintet(bit_string(seq![v0, v1, v2, v3, v4]), 3) == five_bits(
            byte_bit(v1, 7),
            byte_bit(v2, 0),
            byte_bit(v2, 1),
            byte_bit(v2, 2),
            byte_bit(v2, 3),
        ),
        quintet(bit_string(seq![v0, v1, v2, v3, v4]), 4) == five_bits(
            byte_bit(v2, 4),
            byte_bit(v2, 5),
            byte_bit(v2, 6),
            byte_bit(v2, 7),
            byte_bit(v3, 0),
        ),
        quintet(bit_string(seq![v0, v1, v2, v3, v4]), 5) == five_bits(
            byte_bit(v3, 1),
            byte_bit(v3, 2),
            byte_bit(v3, 3),
            byte_bit(v3, 4),
            byte_bit(v3, 5),
        ),
        quintet(bit_string(seq![v0, v1, v2, v3, v4]), 6) == five_bits(
            byte_bit(v3, 6),
            byte_bit(v3, 7),
            byte_bit(v4, 0),
            byte_bit(v4, 1),
            byte_bit(v4, 2),
        ),
        quintet(bit_string(seq![v0, v1, v2, v3, v4]), 7) == five_bits(
            byte_bit(v4, 3),
            byte_bit(v4, 4),
            byte_bit(v4, 5),
            byte_bit(v4, 6),
            byte_bit(v4, 7),
        ),
{
    let block = seq![v0, v1, v2, v3, v4];
    let bits = bit_string(block);
    assert(bits.len() == 40);
    assert forall|j: int| 0 <= j < 40 implies #[trigger] padded_bit(bits, j) == byte_bit(
        block[j / 8],
        j % 8,
    ) by {}
}

/// The eight groups of five bits of a block of five bytes, as numbers.
proof fn lemma_block_groups(v0: u8, v1: u8, v2: u8, v3: u8, v4: u8)
    ensures
        quintet(bit_string(seq![v0, v1, v2, v3, v4]), 0) == v0 / 8,
        quintet(bit_string(seq![v0, v1, v2, v3, v4]), 1) == (v0 % 8) * 4 + v1 / 64,
        quintet(bit_string(seq![v0, v1, v2, v3, v4]), 2) == (v1 / 2) % 32,
        quintet(bit_string(seq![v0, v1, v2, v3, v4]), 3) == (v1 % 2) * 16 + v2 / 16,
        quintet(bit_string(seq![v0, v1, v2, v3, v4]), 4) == (v2 % 16) * 2 + v3 / 128,
        quintet(bit_string(seq![v0, v1, v2, v3, v4]), 5) == (v3 / 4) % 32,
        quintet(bit_string(seq![v0, v1, v2, v3, v4]), 6) == (v3 % 4) * 8 + v4 / 32,
        quintet(bit_string(seq![v0, v1, v2, v3, v4]), 7) == v4 % 32,
{
    lemma_block_bits(v0, v1, v2, v3, v4);
    lemma_block_quintets(v0, v1, v2, v3, v4);
}

/// Group `t` of the forty bits of five bytes, as a five-bit number.
fn block_quintet(v0: u8, v1: u8, v2: u8, v3: u8, v4: u8, t: usize) -> (q: u8)
    requires
        t < 8,
    ensures
        q < 32,
        q == quintet(bit_string(seq![v0, v1, v2, v3, v4]), t as int),
{
    proof {
        lemma_block_groups(v0, v1, v2, v3, v4);
    }
    if t == 0 {
        v0 / 8
    } else if t == 1 {
        (v0 % 8) * 4 + v1 / 64
    } else if t == 2 {
        (v1 / 2) % 32
    } else if t == 3 {
        (v1 % 2) * 16 + v2 / 16
    } else if t == 4 {
        (v2 % 16) * 2 + v3 / 128
    } else if t == 5 {
        (v3 / 4) % 32
    } else if t == 6 {
        (v3 % 4) * 8 + v4 / 32
    } else {
        v4 % 32
    }
}

/// The eight symbols of one block of five bytes, of which the first `count`
/// carry bits and the others are padding.
spec fn block_label(block: Seq<u8>, count: int) -> Seq<u8> {
    Seq::new(
        8,
        |t: int|
            if t < count {
                symbol_of(quintet(bit_string(block), t))
            } else {
                PAD
            },
    )
}

/// Appends the label of one block of five bytes.
fn push_block(out: &mut Vec<u8>, v0: u8, v1: u8, v2: u8, v3: u8, v4: u8, count: usize)
    requires
        count <= 8,
    ensures
        final(out)@ == old(out)@ + block_label(seq![v0, v1, v2, v3, v4], count as int),
{
    let ghost block = seq![v0, v1, v2, v3, v4];
    let ghost before = out@;
    let mut t: usize = 0;
    while t < 8
        invariant
            t <= 8,
            count <= 8,
            block == seq![v0, v1, v2, v3, v4],
            out@ == before + block_label(block, count as int).take(t as int),
        decreases 8 - t,
    {
        let c = if t < count {
            symbol_for(block_quintet(v0, v1, v2, v3, v4, t))
        } else {
            PAD
        };
        out.push(c);
        assert(block_label(block, count as int).take(t + 1) =~= block_label(
            block,
            count as int,
        ).take(t as int).push(c));
        t += 1;
    }
    assert(block_label(block, count as int).take(8) =~= block_label(block, count as int));
}

/// A bit of a block of five bytes is the same bit of the whole input, where
/// the block is cut from the input and continued with zero bytes.
proof fn lemma_bit_in_block(bytes: Seq<u8>, b: int, block: Seq<u8>, j: int)
    requires
        b >= 0,
        0 <= j < 40,
        block.len() == 5,
        forall|m: int|
            0 <= m < 5 ==> block[m] == (if 5 * b + m < bytes.len() {
                bytes[5 * b + m]
            } else {
                0u8
            }),
    ensures
        padded_bit(bit_string(bytes), 40 * b + j) == padded_bit(bit_string(block), j),
{
    reveal(byte_bit);
    let at = 40 * b + j;
    assert(at / 8 == 5 * b + j / 8);
    assert(at % 8 == j % 8);
    if at < 8 * bytes.len() {
        assert(bit_string(bytes)[at] == byte_bit(bytes[at / 8], at % 8));
    } else {
        assert(block[j / 8] == 0u8);
    }
    assert(bit_string(block)[j] == byte_bit(block[j / 8], j % 8));
}

/// A group of five bits of a block is the same group of the whole input.
proof fn lemma_quintet_in_block(bytes: Seq<u8>, b: int, block: Seq<u8>, t: int)
    requires
        b >= 0,
        0 <= t < 8,
        block.len() == 5,
        forall|m: int|
            0 <= m < 5 ==> block[m] == (if 5 * b + m < bytes.len() {
                bytes[5 * b + m]
            } else {
                0u8
            }),
    ensures
        quintet(bit_string(bytes), 8 * b + t) == quintet(bit_string(block), t),
{
    lemma_bit_in_block(bytes, b, block, 5 * t);
    lemma_bit_in_block(bytes, b, block, 5 * t + 1);
    lemma_bit_in_block(bytes, b, block, 5 * t + 2);
    lemma_bit_in_block(bytes, b, block, 5 * t + 3);
    lemma_bit_in_block(bytes, b, block, 5 * t + 4);
    assert(5 * (8 * b + t) == 40 * b + 5 * t);
}

/// The label of a block, cut from the input and continued with zero bytes,
/// is the part of the input's label that stands for that block.
proof fn lemma_block_of_label(bytes: Seq<u8>, b: int, block: Seq<u8>, count: int)
    requires
        b >= 0,
        5 * b < bytes.len(),
        block.len() == 5,
        forall|m: int|
            0 <= m < 5 ==> block[m] == (if 5 * b + m < bytes.len() {
                bytes[5 * b + m]
            } else {
                0u8
            }),
        8 * b + count == if 5 * b + 5 <= bytes.len() {
            8 * b + 8
        } else {
            symbol_count(bytes.len()) as int
        },
    ensures
        8 * b + 8 <= label_len(bytes.len()),
        block_label(block, count) == encode_spec(bytes).subrange(8 * b, 8 * b + 8),
{
    reveal(encode_spec);
    let n = bytes.len();
    let part = encode_spec(bytes).subrange(8 * b, 8 * b + 8);
    assert forall|t: int| 0 <= t < 8 implies block_label(block, count)[t] == part[t] by {
        lemma_quintet_in_block(bytes, b, block, t);
    }
    assert(block_label(block, count) =~= part);
}

/// Writes `data` as a label. This never fails.
pub fn b32_encode(data: &[u8]) -> (r: Result<Vec<u8>, ChannelError>)
    ensures
        r matches Ok(label) && {
            &&& label@ == encode_spec(data@)
            &&& label@.len() == label_len(data@.len())
            &&& label@.len() % 8 == 0
            &&& is_label(label@)
            &&& data@.len() <= 35 ==> label@.len() <= 56
        },
{
    let n = data.len();
    let mut out: Vec<u8> = Vec::new();
    let mut i: usize = 0;
    proof {
        reveal(encode_spec);
    }
    while n - i >= 5
        invariant
            n == data@.len(),
            i <= n,
            i % 5 == 0,
            out@.len() == 8 * (i / 5),
            out@.len() <= label_len(n as nat),
            out@ == encode_spec(data@).take(8 * (i / 5)),
        decreases n - i,
    {
        let v0 = data[i];
        let v1 = data[i + 1];
        let v2 = data[i + 2];
        let v3 = data[i + 3];
        let v4 = data[i + 4];
        proof {
            reveal(encode_spec);
            let b = (i / 5) as int;
            lemma_block_of_label(data@, b, seq![v0, v1, v2, v3, v4], 8);
            assert(encode_spec(data@).take(8 * b + 8) =~= encode_spec(data@).take(8 * b)
                + encode_spec(data@).subrange(8 * b, 8 * b + 8));
        }
        push_block(&mut out, v0, v1, v2, v3, v4, 8);
        i += 5;
    }
    let rest = n - i;
    if rest > 0 {
        let v0 = data[i];
        let v1 = if rest > 1 { data[i + 1] } else { 0 };
        let v2 = if rest > 2 { data[i + 2] } else { 0 };
        let v3 = if rest > 3 { data[i + 3] } else { 0 };
        let count: usize = if rest == 1 {
            2
        } else if rest == 2 {
            4
        } else if rest == 3 {
            5
        } else {
            7
        };
        proof {
            let b = (i / 5) as int;
            lemma_block_of_label(data@, b, seq![v0, v1, v2, v3, 0u8], count as int);
            assert(encode_spec(data@).take(8 * b + 8) =~= encode_spec(data@).take(8 * b)
                + encode_spec(data@).subrange(8 * b, 8 * b + 8));
        }
        push_block(&mut out, v0, v1, v2, v3, 0, count);
    }
    assert(out@ =~= encode_spec(data@));
    proof {
        label_shape(data@);
    }
    Ok(out)
}

/// The symbols of a label without the padding at its end.
pub open spec fn data_len(label: Seq<u8>) -> nat
    decreases label.len(),
{
    if label.len() > 0 && label.last() == PAD {
        data_len(label.drop_last())
    } else {
        label.len()
    }
}

/// Offset of the first byte of `symbols` that is no symbol of the alphabet,
/// or the length of `symbols` if each byte is one.
pub open spec fn first_invalid(symbols: Seq<u8>) -> int
    decreases symbols.len(),
{
    if symbols.len() == 0 {
        0
    } else {
        let before = first_invalid(symbols.drop_last());
        if before < symbols.len() - 1 || !is_symbol(symbols.last()) {
            before
        } else {
            symbols.len() as int
        }
    }
}

/// Five-bit numbers as one string of bits, five per number, most significant
/// first.
spec fn value_bits(values: Seq<int>) -> Seq<bool> {
    Seq::new(5 * values.len(), |j: int| quintet_bit(values[j / 5], j % 5))
}

/// The bits that a run of symbols stands for.
pub open spec fn symbol_bits(symbols: Seq<u8>) -> Seq<bool> {
    Seq::new(5 * symbols.len(), |j: int| quintet_bit(symbol_value(symbols[j / 5]), j % 5))
}

/// Whole bytes in the bits of `m` symbols.
pub open spec fn byte_count(m: nat) -> nat {
    (5 * m / 8) as nat
}

/// The bytes that a run of symbols stands for: its bits in groups of eight,
/// without the bits at the end that fill no byte.
pub open spec fn symbols_to_bytes(symbols: Seq<u8>) -> Seq<u8> {
    Seq::new(byte_count(symbols.len()), |k: int| octet(symbol_bits(symbols), k) as u8)
}

/// What a label decodes to: the bytes of its symbols, or the first byte
/// before the padding that is no symbol.
#[verifier::opaque]
pub open spec fn decode_spec(label: Seq<u8>) -> Result<Seq<u8>, DecodeError> {
    let symbols = label.take(data_len(label) as int);
    let stop = first_invalid(symbols);
    if stop == symbols.len() {
        Ok(symbols_to_bytes(symbols))
    } else {
        Err(DecodeError::InvalidSymbol { position: stop as usize, symbol: symbols[stop] })
    }
}

/// Eight numbers as a sequence.
spec fn eight_values(
    c0: u8,
    c1: u8,
    c2: u8,
    c3: u8,
    c4: u8,
    c5: u8,
    c6: u8,
    c7: u8,
) -> Seq<int> {
    seq![c0 as int, c1 as int, c2 as int, c3 as int, c4 as int, c5 as int, c6 as int, c7 as int]
}

/// The five groups of eight bits of eight five-bit numbers, by division and
/// remainder.
proof fn lemma_block_octets(
    c0: u8,
    c1: u8,
    c2: u8,
    c3: u8,
    c4: u8,
    c5: u8,
    c6: u8,
    c7: u8,
)
    by (bit_vector)
    requires
        c0 < 32,
        c1 < 32,
        c2 < 32,
        c3 < 32,
        c4 < 32,
        c5 < 32,
        c6 < 32,
        c7 < 32,
    ensures
        c0 * 8 + c1 / 4 == eight_bits(
            quintet_bit(c0 as int, 0),
            quintet_bit(c0 as int, 1),
            quintet_bit(c0 as int, 2),
            quintet_bit(c0 as int, 3),
            quintet_bit(c0 as int, 4),
            quintet_bit(c1 as int, 0),
            quintet_bit(c1 as int, 1),
            quintet_bit(c1 as int, 2),
        ),
        (c1 % 4) * 64 + c2 * 2 + c3 / 16 == eight_bits(
            quintet_bit(c1 as int, 3),
            quintet_bit(c1 as int, 4),
            quintet_bit(c2 as int, 0),
            quintet_bit(c2 as int, 1),
            quintet_bit(c2 as int, 2),
            quintet_bit(c2 as int, 3),
            quintet_bit(c2 as int, 4),
            quintet_bit(c3 as int, 0),
        ),
        (c3 % 16) * 16 + c4 / 2 == eight_bits(
            quintet_bit(c3 as int, 1),
            quintet_bit(c3 as int, 2),
            quintet_bit(c3 as int, 3),
            quintet_bit(c3 as int, 4),
            quintet_bit(c4 as int, 0),
            quintet_bit(c4 as int, 1),
            quintet_bit(c4 as int, 2),
            quintet_bit(c4 as int, 3),
        ),
        (c4 % 2) * 128 + c5 * 4 + c6 / 8 == eight_bits(
            quintet_bit(c4 as int, 4),
            quintet_bit(c5 as int, 0),
            quintet_bit(c5 as int, 1),
            quintet_bit(c5 as int, 2),
            quintet_bit(c5 as int, 3),
            quintet_bit(c5 as int, 4),
            quintet_bit(c6 as int, 0),
            quintet_bit(c6 as int, 1),
        ),
        (c6 % 8) * 32 + c7 == eight_bits(
            quintet_bit(c6 as int, 2),
            quintet_bit(c6 as int, 3),
            quintet_bit(c6 as int, 4),
            quintet_bit(c7 as int, 0),
            quintet_bit(c7 as int, 1),
            quintet_bit(c7 as int, 2),
            quintet_bit(c7 as int, 3),
            quintet_bit(c7 as int, 4),
        ),
{
}

/// The five groups of eight bits of a block of eight five-bit numbers, bit
/// by bit.
proof fn lemma_value_block_bits(
    c0: u8,
    c1: u8,
    c2: u8,
    c3: u8,
    c4: u8,
    c5: u8,
    c6: u8,
    c7: u8,
)
    ensures
        octet(value_bits(eight_values(c0, c1, c2, c3, c4, c5, c6, c7)), 0) == eight_bits(
            quintet_bit(c0 as int, 0),
            quintet_bit(c0 as int, 1),
            quintet_bit(c0 as int, 2),
            quintet_bit(c0 as int, 3),
            quintet_bit(c0 as int, 4),
            quintet_bit(c1 as int, 0),
            quintet_bit(c1 as int, 1),
            quintet_bit(c1 as int, 2),
        ),
        octet(value_bits(eight_values(c0, c1, c2, c3, c4, c5, c6, c7)), 1) == eight_bits(
            quintet_bit(c1 as int, 3),
            quintet_bit(c1 as int, 4),
            quintet_bit(c2 as int, 0),
            quintet_bit(c2 as int, 1),
            quintet_bit(c2 as int, 2),
            quintet_bit(c2 as int, 3),
            quintet_bit(c2 as int, 4),
            quintet_bit(c3 as int, 0),
        ),
        octet(value_bits(eight_values(c0, c1, c2, c3, c4, c5, c6, c7)), 2) == eight_bits(
            quintet_bit(c3 as int, 1),
            quintet_bit(c3 as int, 2),
            quintet_bit(c3 as int, 3),
            quintet_bit(c3 as int, 4),
            quintet_bit(c4 as int, 0),
            quintet_bit(c4 as int, 1),
            quintet_bit(c4 as int, 2),
            quintet_bit(c4 as int, 3),
        ),
        octet(value_bits(eight_values(c0, c1, c2, c3, c4, c5, c6, c7)), 3) == eight_bits(
            quintet_bit(c4 as int, 4),
            quintet_bit(c5 as int, 0),
            quintet_bit(c5 as int, 1),
            quintet_bit(c5 as int, 2),
            quintet_bit(c5 as int, 3),
            quintet_bit(c5 as int, 4),
            quintet_bit(c6 as int, 0),
            quintet_bit(c6 as int, 1),
        ),
        octet(value_bits(eight_values(c0, c1, c2, c3, c4, c5, c6, c7)), 4) == eight_bits(
            quintet_bit(c6 as int, 2),
            quintet_bit(c6 as int, 3),
            quintet_bit(c6 as int, 4),
            quintet_bit(c7 as int, 0),
            quintet_bit(c7 as int, 1),
            quintet_bit(c7 as int, 2),
            quintet_bit(c7 as int, 3),
            quintet_bit(c7 as int, 4),
        ),
{
    let block = eight_values(c0, c1, c2, c3, c4, c5, c6, c7);
    let bits = value_bits(block);
    assert(bits.len() == 40);
    assert forall|j: int| 0 <= j < 40 implies #[trigger] bits[j] == quintet_bit(
        block[j / 5],
        j % 5,
    ) by {}
}

/// The five groups of eight bits of a block of eight five-bit numbers, as
/// numbers.
proof fn lemma_value_block_groups(
    c0: u8,
    c1: u8,
    c2: u8,
    c3: u8,
    c4: u8,
    c5: u8,
    c6: u8,
    c7: u8,
)
    requires
        c0 < 32,
        c1 < 32,
        c2 < 32,
        c3 < 32,
        c4 < 32,
        c5 < 32,
        c6 < 32,
        c7 < 32,
    ensures
        octet(value_bits(eight_values(c0, c1, c2, c3, c4, c5, c6, c7)), 0) == c0 * 8 + c1 / 4,
        octet(value_bits(eight_values(c0, c1, c2, c3, c4, c5, c6, c7)), 1) == (c1 % 4) * 64
            + c2 * 2 + c3 / 16,
        octet(value_bits(eight_values(c0, c1, c2, c3, c4, c5, c6, c7)), 2) == (c3 % 16) * 16
            + c4 / 2,
        octet(value_bits(eight_values(c0, c1, c2, c3, c4, c5, c6, c7)), 3) == (c4 % 2) * 128
            + c5 * 4 + c6 / 8,
        octet(value_bits(eight_values(c0, c1, c2, c3, c4, c5, c6, c7)), 4) == (c6 % 8) * 32 + c7,
{
    lemma_value_block_bits(c0, c1, c2, c3, c4, c5, c6, c7);
    lemma_block_octets(c0, c1, c2, c3, c4, c5, c6, c7);
}

/// Group `t` of the forty bits of eight five-bit numbers, as a byte.
fn block_octet(
    c0: u8,
    c1: u8,
    c2: u8,
    c3: u8,
    c4: u8,
    c5: u8,
    c6: u8,
    c7: u8,
    t: usize,
) -> (y: u8)
    requires
        t < 5,
        c0 < 32,
        c1 < 32,
        c2 < 32,
        c3 < 32,
        c4 < 32,
        c5 < 32,
        c6 < 32,
        c7 < 32,
    ensures
        y == octet(value_bits(eight_values(c0, c1, c2, c3, c4, c5, c6, c7)), t as int),
{
    proof {
        lemma_value_block_groups(c0, c1, c2, c3, c4, c5, c6, c7);
    }
    if t == 0 {
        c0 * 8 + c1 / 4
    } else if t == 1 {
        (c1 % 4) * 64 + c2 * 2 + c3 / 16
    } else if t == 2 {
        (c3 % 16) * 16 + c4 / 2
    } else if t == 3 {
        (c4 % 2) * 128 + c5 * 4 + c6 / 8
    } else {
        (c6 % 8) * 32 + c7
    }
}

/// The first `count` bytes written by a block of eight five-bit numbers.
spec fn block_bytes(values: Seq<int>, count: int) -> Seq<u8> {
    Seq::new(count as nat, |t: int| octet(value_bits(values), t) as u8)
}

/// Appends the first `count` bytes of one block of eight five-bit numbers.
fn push_octets(
    out: &mut Vec<u8>,
    c0: u8,
    c1: u8,
    c2: u8,
    c3: u8,
    c4: u8,
    c5: u8,
    c6: u8,
    c7: u8,
    count: usize,
)
    requires
        count <= 5,
        c0 < 32,
        c1 < 32,
        c2 < 32,
        c3 < 32,
        c4 < 32,
        c5 < 32,
        c6 < 32,
        c7 < 32,
    ensures
        final(out)@ == old(out)@ + block_bytes(
            eight_values(c0, c1, c2, c3, c4, c5, c6, c7),
            count as int,
        ),
{
    let ghost block = eight_values(c0, c1, c2, c3, c4, c5, c6, c7);
    let ghost before = out@;
    let mut t: usize = 0;
    while t < count
        invariant
            t <= count <= 5,
            c0 < 32,
            c1 < 32,
            c2 < 32,
            c3 < 32,
            c4 < 32,
            c5 < 32,
            c6 < 32,
            c7 < 32,
            block == eight_values(c0, c1, c2, c3, c4, c5, c6, c7),
            out@ == before + block_bytes(block, t as int),
        decreases count - t,
    {
        let y = block_octet(c0, c1, c2, c3, c4, c5, c6, c7, t);
        out.push(y);
        assert(block_bytes(block, t + 1) =~= block_bytes(block, t as int).push(y));
        t += 1;
    }
}

/// A bit of a block of eight symbols is the same bit of the whole run.
proof fn lemma_bit_in_values(symbols: Seq<u8>, b: int, values: Seq<int>, j: int)
    requires
        b >= 0,
        0 <= j < 40,
        40 * b + j < 5 * symbols.len(),
        values.len() == 8,
        forall|m: int|
            0 <= m < 8 && 8 * b + m < symbols.len() ==> values[m] == symbol_value(
                symbols[8 * b + m],
            ),
    ensures
        symbol_bits(symbols)[40 * b + j] == value_bits(values)[j],
{
    let at = 40 * b + j;
    assert(at / 5 == 8 * b + j / 5);
    assert(at % 5 == j % 5);
}

/// A group of eight bits of a block of eight symbols is the same group of
/// the whole run.
proof fn lemma_octet_in_values(symbols: Seq<u8>, b: int, values: Seq<int>, t: int)
    requires
        b >= 0,
        0 <= t < 5,
        40 * b + 8 * t + 8 <= 5 * symbols.len(),
        values.len() == 8,
        forall|m: int|
            0 <= m < 8 && 8 * b + m < symbols.len() ==> values[m] == symbol_value(
                symbols[8 * b + m],
            ),
    ensures
        octet(symbol_bits(symbols), 5 * b + t) == octet(value_bits(values), t),
{
    lemma_bit_in_values(symbols, b, values, 8 * t);
    lemma_bit_in_values(symbols, b, values, 8 * t + 1);
    lemma_bit_in_values(symbols, b, values, 8 * t + 2);
    lemma_bit_in_values(symbols, b, values, 8 * t + 3);
    lemma_bit_in_values(symbols, b, values, 8 * t + 4);
    lemma_bit_in_values(symbols, b, values, 8 * t + 5);
    lemma_bit_in_values(symbols, b, values, 8 * t + 6);
    lemma_bit_in_values(symbols, b, values, 8 * t + 7);
    assert(8 * (5 * b + t) == 40 * b + 8 * t);
}

/// The bytes of a block of eight symbols are the part of the run's bytes
/// that the block stands for.
proof fn lemma_block_of_bytes(symbols: Seq<u8>, b: int, values: Seq<int>, count: int)
    requires
        b >= 0,
        0 <= count <= 5,
        40 * b + 8 * count <= 5 * symbols.len(),
        values.len() == 8,
        forall|m: int|
            0 <= m < 8 && 8 * b + m < symbols.len() ==> values[m] == symbol_value(
                symbols[8 * b + m],
            ),
    ensures
        5 * b + count <= byte_count(symbols.len()),
        block_bytes(values, count) == symbols_to_bytes(symbols).subrange(5 * b, 5 * b + count),
{
    let part = symbols_to_bytes(symbols).subrange(5 * b, 5 * b + count);
    assert forall|t: int| 0 <= t < count implies block_bytes(values, count)[t] == part[t] by {
        lemma_octet_in_values(symbols, b, values, t);
    }
    assert(block_bytes(values, count) =~= part);
}

/// `first_invalid` is the one offset with symbols before it and none at it.
pub proof fn lemma_first_invalid(symbols: Seq<u8>, stop: int)
    requires
        0 <= stop <= symbols.len(),
        forall|j: int| 0 <= j < stop ==> is_symbol(symbols[j]),
        stop < symbols.len() ==> !is_symbol(symbols[stop]),
    ensures
        first_invalid(symbols) == stop,
    decreases symbols.len(),
{
    if symbols.len() > 0 {
        let shorter = symbols.drop_last();
        if stop < symbols.len() {
            lemma_first_invalid(
                shorter,
                if stop < shorter.len() {
                    stop
                } else {
                    shorter.len() as int
                },
            );
        } else {
            lemma_first_invalid(shorter, shorter.len() as int);
        }
    }
}

/// The number that `c` stands for, if it is a symbol of the alphabet.
fn symbol_index(c: u8) -> (r: Option<u8>)
    ensures
        match r {
            Some(v) => is_symbol(c) && v == symbol_value(c) && v < 32,
            None => !is_symbol(c),
        },
{
    if LETTER_A <= c && c <= LETTER_Z {
        Some(c - LETTER_A)
    } else if DIGIT_2 <= c && c <= DIGIT_7 {
        Some(c - DIGIT_2 + 26)
    } else {
        None
    }
}

/// Length of `data` without the padding at its end.
fn unpadded_len(data: &[u8]) -> (m: usize)
    ensures
        m == data_len(data@),
        m <= data@.len(),
{
    let mut m = data.len();
    assert(data@.take(m as int) =~= data@);
    while m > 0 && data[m - 1] == PAD
        invariant
            m <= data@.len(),
            data_len(data@) == data_len(data@.take(m as int)),
        decreases m,
    {
        assert(data@.take(m as int).drop_last() =~= data@.take(m - 1));
        m -= 1;
    }
    m
}

/// The numbers that the first `m` bytes of `data` stand for, or the first
/// of them that is no symbol.
fn read_symbols(data: &[u8], m: usize) -> (r: Result<Vec<u8>, DecodeError>)
    requires
        m <= data@.len(),
    ensures
        match r {
            Ok(values) => {
                &&& first_invalid(data@.take(m as int)) == m
                &&& values@.len() == m
                &&& forall|j: int|
                    0 <= j < m ==> values@[j] < 32 && values@[j] == symbol_value(data@[j])
            },
            Err(e) => {
                let stop = first_invalid(data@.take(m as int));
                &&& 0 <= stop < m
                &&& e == DecodeError::InvalidSymbol { position: stop as usize, symbol: data@[stop] }
            },
        },
{
    let ghost symbols = data@.take(m as int);
    let mut values: Vec<u8> = Vec::new();
    let mut i: usize = 0;
    while i < m
        invariant
            i <= m <= data@.len(),
            symbols == data@.take(m as int),
            values@.len() == i,
            forall|j: int| 0 <= j < i ==> is_symbol(symbols[j]),
            forall|j: int| 0 <= j < i ==> values@[j] < 32 && values@[j] == symbol_value(data@[j]),
        decreases m - i,
    {
        match symbol_index(data[i]) {
            Some(v) => {
                values.push(v);
            },
            None => {
                proof {
                    lemma_first_invalid(symbols, i as int);
                }
                return Err(DecodeError::InvalidSymbol { position: i, symbol: data[i] });
            },
        }
        i += 1;
    }
    proof {
        lemma_first_invalid(symbols, m as int);
    }
    Ok(values)
}

/// The bytes that the numbers `values` of the symbols `symbols` write.
fn pack(values: &Vec<u8>, Ghost(symbols): Ghost<Seq<u8>>) -> (out: Vec<u8>)
    requires
        values@.len() == symbols.len(),
        forall|j: int|
            0 <= j < symbols.len() ==> values@[j] < 32 && values@[j] == symbol_value(symbols[j]),
    ensures
        out@ == symbols_to_bytes(symbols),
{
    let m = values.len();
    let mut out: Vec<u8> = Vec::new();
    let mut i: usize = 0;
    while m - i >= 8
        invariant
            i <= m,
            i % 8 == 0,
            symbols.len() == m,
            values@.len() == m,
            forall|j: int| 0 <= j < m ==> values@[j] < 32 && values@[j] == symbol_value(symbols[j]),
            out@.len() == 5 * (i / 8),
            out@.len() <= byte_count(m as nat),
            out@ == symbols_to_bytes(symbols).take(5 * (i / 8)),
        decreases m - i,
    {
        let c0 = values[i];
        let c1 = values[i + 1];
        let c2 = values[i + 2];
        let c3 = values[i + 3];
        let c4 = values[i + 4];
        let c5 = values[i + 5];
        let c6 = values[i + 6];
        let c7 = values[i + 7];
        proof {
            let b = (i / 8) as int;
            lemma_block_of_bytes(symbols, b, eight_values(c0, c1, c2, c3, c4, c5, c6, c7), 5);
            assert(symbols_to_bytes(symbols).take(5 * b + 5) =~= symbols_to_bytes(symbols).take(
                5 * b,
            ) + symbols_to_bytes(symbols).subrange(5 * b, 5 * b + 5));
        }
        push_octets(&mut out, c0, c1, c2, c3, c4, c5, c6, c7, 5);
        i += 8;
    }
    let rest = m - i;
    if rest > 1 {
        let c0 = values[i];
        let c1 = values[i + 1];
        let c2 = if rest > 2 { values[i + 2] } else { 0 };
        let c3 = if rest > 3 { values[i + 3] } else { 0 };
        let c4 = if rest > 4 { values[i + 4] } else { 0 };
        let c5 = if rest > 5 { values[i + 5] } else { 0 };
        let c6 = if rest > 6 { values[i + 6] } else { 0 };
        let c7: u8 = 0;
        let count: usize = if rest < 4 {
            1
        } else if rest == 4 {
            2
        } else if rest < 7 {
            3
        } else {
            4
        };
        proof {
            let b = (i / 8) as int;
            lemma_block_of_bytes(
                symbols,
                b,
                eight_values(c0, c1, c2, c3, c4, c5, c6, c7),
                count as int,
            );
            assert(symbols_to_bytes(symbols).take(5 * b + count) =~= symbols_to_bytes(
                symbols,
            ).take(5 * b) + symbols_to_bytes(symbols).subrange(5 * b, 5 * b + count));
        }
        push_octets(&mut out, c0, c1, c2, c3, c4, c5, c6, c7, count);
    }
    assert(out@ =~= symbols_to_bytes(symbols));
    out
}

/// Reads a label back into bytes. A label with a byte that is neither a
/// symbol of the alphabet nor padding is rejected.
pub fn b32_decode(data: &[u8]) -> (r: Result<Vec<u8>, DecodeError>)
    ensures
        match r {
            Ok(bytes) => decode_spec(data@) == Ok::<Seq<u8>, DecodeError>(bytes@),
            Err(e) => decode_spec(data@) == Err::<Seq<u8>, DecodeError>(e),
        },
        forall|at: int|
            0 <= at < data@.len() && !is_symbol(#[trigger] data@[at]) && data@[at] != PAD ==> r
                is Err,
{
    proof {
        reveal(decode_spec);
        assert forall|at: int|
            0 <= at < data@.len() && !is_symbol(#[trigger] data@[at]) && data@[at]
                != PAD implies decode_spec(data@) is Err by {
            decode_rejects_foreign_bytes(data@, at);
        }
    }
    let m = unpadded_len(data);
    match read_symbols(data, m) {
        Ok(values) => Ok(pack(&values, Ghost(data@.take(m as int)))),
        Err(e) => Err(e),
    }
}

/// A byte is the number written by its eight bits.
proof fn lemma_byte_from_bits(v: u8)
    by (bit_vector)
    ensures
        v == eight_bits(
            byte_bit(v, 0),
            byte_bit(v, 1),
            byte_bit(v, 2),
            byte_bit(v, 3),
            byte_bit(v, 4),
            byte_bit(v, 5),
            byte_bit(v, 6),
            byte_bit(v, 7),
        ),
{
}

/// The bits of the number written by a group of five bits are those bits.
proof fn lemma_quintet_bits(bits: Seq<bool>, i: int, k: int)
    requires
        0 <= k < 5,
    ensures
        0 <= quintet(bits, i) < 32,
        quintet_bit(quintet(bits, i), k) == padded_bit(bits, 5 * i + k),
{
    reveal(quintet_bit);
}

/// `data_len` is the one length with padding from it on and none before it.
pub proof fn lemma_data_len(label: Seq<u8>, m: int)
    requires
        0 <= m <= label.len(),
        forall|i: int| m <= i < label.len() ==> label[i] == PAD,
        m > 0 ==> label[m - 1] != PAD,
    ensures
        data_len(label) == m,
    decreases label.len(),
{
    if label.len() > m {
        lemma_data_len(label.drop_last(), m);
    }
}

/// Every label is made of whole groups of eight, of symbols of the alphabet
/// followed by padding; the label of at most 35 bytes has at most 56 symbols.
pub proof fn label_shape(bytes: Seq<u8>)
    ensures
        encode_spec(bytes).len() % 8 == 0,
        encode_spec(bytes).len() == label_len(bytes.len()),
        symbol_count(bytes.len()) <= encode_spec(bytes).len() < symbol_count(bytes.len()) + 8,
        forall|i: int|
            0 <= i < symbol_count(bytes.len()) ==> is_symbol(#[trigger] encode_spec(bytes)[i]),
        forall|i: int|
            symbol_count(bytes.len()) <= i < encode_spec(bytes).len() ==> #[trigger] encode_spec(
                bytes,
            )[i] == PAD,
        is_label(encode_spec(bytes)),
        bytes.len() <= 35 ==> encode_spec(bytes).len() <= 56,
        bytes.len() == 0 ==> encode_spec(bytes).len() == 0,
{
    reveal(encode_spec);
    assert forall|i: int| 0 <= i < symbol_count(bytes.len()) implies is_symbol(
        #[trigger] encode_spec(bytes)[i],
    ) by {
        lemma_quintet_bits(bit_string(bytes), i, 0);
    }
    assert forall|i: int| 0 <= i < encode_spec(bytes).len() implies is_symbol(
        #[trigger] encode_spec(bytes)[i],
    ) || encode_spec(bytes)[i] == PAD by {
        if i < symbol_count(bytes.len()) {
        } else {
        }
    }
}

/// The symbols of a label, without its padding.
spec fn symbols_of(bytes: Seq<u8>) -> Seq<u8> {
    Seq::new(symbol_count(bytes.len()), |i: int| symbol_of(quintet(bit_string(bytes), i)))
}

/// The symbols of a label stand for the bits that the label was made from.
proof fn lemma_symbol_bit(bytes: Seq<u8>, j: int)
    requires
        0 <= j < 8 * bytes.len(),
    ensures
        j < 5 * symbols_of(bytes).len(),
        symbol_bits(symbols_of(bytes))[j] == bit_string(bytes)[j],
{
    let bits = bit_string(bytes);
    let i = j / 5;
    let k = j % 5;
    assert(0 <= i < symbol_count(bytes.len()));
    lemma_quintet_bits(bits, i, k);
    let q = quintet(bits, i);
    assert(symbol_value(symbol_of(q)) == q);
    assert(symbols_of(bytes)[i] == symbol_of(q));
    assert(5 * i + k == j);
}

/// The symbols of a label stand for the bytes that the label was made from.
proof fn lemma_symbols_to_bytes(bytes: Seq<u8>)
    ensures
        symbols_to_bytes(symbols_of(bytes)) == bytes,
{
    let symbols = symbols_of(bytes);
    let decoded = symbols_to_bytes(symbols);
    assert(byte_count(symbols.len()) == bytes.len());
    assert forall|k: int| 0 <= k < bytes.len() implies decoded[k] == bytes[k] by {
        lemma_decoded_byte(bytes, k);
    }
    assert(decoded =~= bytes);
}

/// The symbols of a label stand for byte `k` of what the label was made
/// from.
proof fn lemma_decoded_byte(bytes: Seq<u8>, k: int)
    requires
        0 <= k < bytes.len(),
    ensures
        octet(symbol_bits(symbols_of(bytes)), k) == bytes[k],
{
    lemma_symbol_bit(bytes, 8 * k);
    lemma_symbol_bit(bytes, 8 * k + 1);
    lemma_symbol_bit(bytes, 8 * k + 2);
    lemma_symbol_bit(bytes, 8 * k + 3);
    lemma_symbol_bit(bytes, 8 * k + 4);
    lemma_symbol_bit(bytes, 8 * k + 5);
    lemma_symbol_bit(bytes, 8 * k + 6);
    lemma_symbol_bit(bytes, 8 * k + 7);
    lemma_bits_of_byte(bytes, k);
    lemma_byte_from_bits(bytes[k]);
}

/// The eight bits of byte `k` in the bit string.
proof fn lemma_bits_of_byte(bytes: Seq<u8>, k: int)
    requires
        0 <= k < bytes.len(),
    ensures
        bit_string(bytes)[8 * k] == byte_bit(bytes[k], 0),
        bit_string(bytes)[8 * k + 1] == byte_bit(bytes[k], 1),
        bit_string(bytes)[8 * k + 2] == byte_bit(bytes[k], 2),
        bit_string(bytes)[8 * k + 3] == byte_bit(bytes[k], 3),
        bit_string(bytes)[8 * k + 4] == byte_bit(bytes[k], 4),
        bit_string(bytes)[8 * k + 5] == byte_bit(bytes[k], 5),
        bit_string(bytes)[8 * k + 6] == byte_bit(bytes[k], 6),
        bit_string(bytes)[8 * k + 7] == byte_bit(bytes[k], 7),
{
}

/// Decoding a label gives back the bytes that it was made from.
pub proof fn decode_inverts_encode(bytes: Seq<u8>)
    ensures
        decode_spec(encode_spec(bytes)) == Ok::<Seq<u8>, DecodeError>(bytes),
{
    let label = encode_spec(bytes);
    let symbols = symbols_of(bytes);
    label_shape(bytes);
    assert(label.take(symbols.len() as int) =~= symbols) by {
        reveal(encode_spec);
    }
    assert(symbols.len() > 0 ==> label[symbols.len() - 1] != PAD);
    lemma_data_len(label, symbols.len() as int);
    lemma_first_invalid(symbols, symbols.len() as int);
    lemma_symbols_to_bytes(bytes);
    reveal(decode_spec);
}

/// A label with a byte that is neither a symbol of the alphabet nor padding
/// does not decode.
pub proof fn decode_rejects_foreign_bytes(label: Seq<u8>, at: int)
    requires
        0 <= at < label.len(),
        !is_symbol(label[at]),
        label[at] != PAD,
    ensures
        decode_spec(label) is Err,
{
    reveal(decode_spec);
    lemma_data_len_covers(label, at);
    let symbols = label.take(data_len(label) as int);
    lemma_first_invalid_bound(symbols, at);
}

/// A byte that is no padding stands before the padding at the end.
proof fn lemma_data_len_covers(label: Seq<u8>, at: int)
    requires
        0 <= at < label.len(),
        label[at] != PAD,
    ensures
        at < data_len(label) <= label.len(),
    decreases label.len(),
{
    if label.last() == PAD {
        lemma_data_len_covers(label.drop_last(), at);
    }
}

/// `first_invalid` stops at or before every byte that is no symbol.
proof fn lemma_first_invalid_bound(symbols: Seq<u8>, at: int)
    requires
        0 <= at < symbols.len(),
        !is_symbol(symbols[at]),
    ensures
        0 <= first_invalid(symbols) <= at,
    decreases symbols.len(),
{
    if at < symbols.len() - 1 {
        lemma_first_invalid_bound(symbols.drop_last(), at);
    } else {
        lemma_first_invalid_range(symbols.drop_last());
    }
}

/// `first_invalid` is an offset into its argument, or its length.
proof fn lemma_first_invalid_range(symbols: Seq<u8>)
    ensures
        0 <= first_invalid(symbols) <= symbols.len(),
    decreases symbols.len(),
{
    if symbols.len() > 0 {
        lemma_first_invalid_range(symbols.drop_last());
    }
}

} // verus!
