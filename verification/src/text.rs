//! Bytes as text and text as bytes.
//!
//! Labels and names travel as `String`s, the codec works on bytes. The
//! relation between the two is UTF-8; for the symbols of a label it is one
//! byte per character.

use vstd::prelude::*;
use vstd::string::{StrSliceExecFns, StringExecFns};
use vstd::utf8::{
    decode_utf8, encode_utf8, encode_utf8_decode_utf8, encode_utf8_valid_utf8, is_ascii_chars,
    is_ascii_chars_encode_utf8, valid_utf8,
};

verus! {

/// The error of `String::from_utf8`, carried through as it comes.
#[verifier::external_type_specification]
#[verifier::external_body]
pub struct ExFromUtf8Error(std::string::FromUtf8Error);

/// `String::from_utf8` accepts exactly the byte strings that are UTF-8, and
/// the text it returns is the one that those bytes encode.
pub assume_specification[ String::from_utf8 ](bytes: Vec<u8>) -> (r: Result<
    String,
    std::string::FromUtf8Error,
>)
    ensures
        r is Ok <==> valid_utf8(bytes@),
        r matches Ok(text) ==> text@ == decode_utf8(bytes@),
;

/// Whether each byte is an ASCII character.
pub open spec fn is_ascii_bytes(bytes: Seq<u8>) -> bool {
    forall|i: int| 0 <= i < bytes.len() ==> bytes[i] < 128
}

/// ASCII bytes as characters, one for one.
pub open spec fn ascii_text(bytes: Seq<u8>) -> Seq<char> {
    Seq::new(bytes.len(), |i: int| bytes[i] as char)
}

/// ASCII bytes are UTF-8, and the text they encode has one character per
/// byte.
pub proof fn lemma_ascii_text(bytes: Seq<u8>)
    requires
        is_ascii_bytes(bytes),
    ensures
        valid_utf8(bytes),
        decode_utf8(bytes) == ascii_text(bytes),
        encode_utf8(ascii_text(bytes)) == bytes,
{
    let text = ascii_text(bytes);
    assert(is_ascii_chars(text));
    is_ascii_chars_encode_utf8(text);
    assert(encode_utf8(text) =~= bytes);
    encode_utf8_valid_utf8(text);
    encode_utf8_decode_utf8(text);
}

/// What `str::to_uppercase` makes of a text.
pub uninterp spec fn uppercase_of(text: Seq<char>) -> Seq<char>;

/// `str::to_uppercase` returns the upper-case form of the text, which
/// depends on the text alone.
pub assume_specification[ str::to_uppercase ](text: &str) -> (r: String)
    ensures
        r@ == uppercase_of(text@),
;

/// What `String::from_utf8_lossy` makes of a byte string.
pub uninterp spec fn lossy_text_of(bytes: Seq<u8>) -> Seq<char>;

/// `String::from_utf8_lossy` returns a text that depends on the bytes alone;
/// of bytes that are UTF-8 it is the text that they encode.
#[verifier::external_body]
pub(crate) fn lossy_text(bytes: &[u8]) -> (r: String)
    ensures
        r@ == lossy_text_of(bytes@),
        valid_utf8(bytes@) ==> r@ == decode_utf8(bytes@),
{
    String::from_utf8_lossy(bytes).into_owned()
}

/// The character of the decimal digit `d`.
pub open spec fn digit_char(d: int) -> char {
    (0x30 + d) as u8 as char
}

/// The decimal numeral of `n`, without leading zeros.
pub open spec fn decimal(n: nat) -> Seq<char>
    decreases n,
{
    if n < 10 {
        seq![digit_char(n as int)]
    } else {
        decimal(n / 10).push(digit_char((n % 10) as int))
    }
}

/// The digits of the decimal numeral of `n`, as ASCII bytes.
pub open spec fn decimal_bytes(n: nat) -> Seq<u8>
    decreases n,
{
    if n < 10 {
        seq![(0x30 + n) as u8]
    } else {
        decimal_bytes(n / 10).push((0x30 + n % 10) as u8)
    }
}

/// The numeral's bytes are ASCII digits, and as text they are the numeral.
proof fn lemma_decimal_bytes(n: nat)
    ensures
        is_ascii_bytes(decimal_bytes(n)),
        ascii_text(decimal_bytes(n)) == decimal(n),
    decreases n,
{
    if n < 10 {
        assert(ascii_text(decimal_bytes(n)) =~= decimal(n));
    } else {
        lemma_decimal_bytes(n / 10);
        assert(ascii_text(decimal_bytes(n)) =~= decimal(n));
    }
}

/// The decimal numeral of `n`.
pub fn decimal_text(n: usize) -> (r: String)
    ensures
        r@ == decimal(n as nat),
{
    let mut reversed: Vec<u8> = Vec::new();
    let mut rest = n;
    reversed.push(0x30 + (rest % 10) as u8);
    rest = rest / 10;
    let ghost mut low: Seq<u8> = seq![(0x30 + n % 10) as u8];
    while rest > 0
        invariant
            reversed@.len() == low.len(),
            low.len() >= 1,
            forall|i: int| 0 <= i < low.len() ==> reversed@[i] == low[low.len() - 1 - i],
            decimal_bytes(n as nat) == if rest == 0 {
                low
            } else {
                decimal_bytes(rest as nat) + low
            },
        decreases rest,
    {
        let d = 0x30 + (rest % 10) as u8;
        reversed.push(d);
        proof {
            let shorter = low;
            low = seq![d] + low;
            if rest >= 10 {
                assert(decimal_bytes(rest as nat) + shorter =~= decimal_bytes((rest / 10) as nat)
                    + low);
            } else {
                assert(decimal_bytes(rest as nat) + shorter =~= low);
            }
        }
        rest = rest / 10;
    }
    let mut digits: Vec<u8> = Vec::new();
    let mut i: usize = reversed.len();
    while i > 0
        invariant
            i <= reversed@.len(),
            reversed@.len() == low.len(),
            forall|j: int| 0 <= j < low.len() ==> reversed@[j] == low[low.len() - 1 - j],
            digits@ == low.take(low.len() - i),
        decreases i,
    {
        i -= 1;
        digits.push(reversed[i]);
        assert(low.take(low.len() - i) =~= low.take(low.len() - i - 1).push(reversed@[i as int]));
    }
    assert(digits@ =~= decimal_bytes(n as nat));
    proof {
        lemma_decimal_bytes(n as nat);
        lemma_ascii_text(digits@);
    }
    match String::from_utf8(digits) {
        Ok(text) => text,
        Err(_) => String::new(),
    }
}

/// `n` spaces.
pub open spec fn spaces(n: int) -> Seq<char> {
    Seq::new(
        if n > 0 {
            n as nat
        } else {
            0
        },
        |i: int| ' ',
    )
}

/// `text`, filled up with spaces on the right to `width` characters; as it
/// is, if it has that many.
pub open spec fn pad_right_spec(text: Seq<char>, width: nat) -> Seq<char> {
    text + spaces(width - text.len())
}

/// `text`, filled up with spaces on the left to `width` characters; as it
/// is, if it has that many.
pub open spec fn pad_left_spec(text: Seq<char>, width: nat) -> Seq<char> {
    spaces(width - text.len()) + text
}

/// As many spaces as `text` lacks to `width` characters.
fn filling(text: &str, width: usize) -> (r: String)
    ensures
        r@ == spaces(width - text@.len()),
{
    let have = text.unicode_len();
    let mut fill = String::new();
    let mut n: usize = have;
    proof {
        reveal_strlit(" ");
    }
    assert(fill@ =~= spaces(0));
    while n < width
        invariant
            have <= n,
            have < width ==> n <= width,
            have >= width ==> n == have,
            fill@ == spaces(n - have),
            " "@ == seq![' '],
        decreases width - n,
    {
        fill.append(" ");
        assert(spaces(n - have) + seq![' '] =~= spaces(n + 1 - have));
        n += 1;
    }
    assert(spaces(n - have) =~= spaces(width - have));
    fill
}

/// `text`, filled up with spaces on the right to `width` characters.
pub fn pad_right(text: &str, width: usize) -> (r: String)
    ensures
        r@ == pad_right_spec(text@, width as nat),
{
    let mut padded = String::from_str(text);
    padded.append(filling(text, width).as_str());
    padded
}

/// `text`, filled up with spaces on the left to `width` characters.
pub fn pad_left(text: &str, width: usize) -> (r: String)
    ensures
        r@ == pad_left_spec(text@, width as nat),
{
    let mut padded = filling(text, width);
    padded.append(text);
    padded
}

/// What `str::split_whitespace` cuts a line into.
pub uninterp spec fn words_of(line: Seq<char>) -> Seq<Seq<char>>;

/// `str::split_whitespace` returns the words of the line, which depend on
/// the line alone.
#[verifier::external_body]
pub(crate) fn split_words(line: &str) -> (r: Vec<String>)
    ensures
        r.deep_view() == words_of(line@),
{
    line.split_whitespace().map(String::from).collect()
}

} // verus!
