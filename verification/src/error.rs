//! The failures that the codec, the cipher and the framer can report.

use vstd::prelude::*;
use vstd::string::StringExecFns;
use crate::text::{decimal, decimal_text};

verus! {

/// Why a label could not be read back into bytes.
#[derive(Debug, Clone, Copy, PartialEq, Eq, Structural)]
pub enum DecodeError {
    /// The byte `symbol` at offset `position` of the label is neither one of
    /// the 32 symbols of the alphabet nor part of the padding at its end.
    InvalidSymbol { position: usize, symbol: u8 },
}

/// Any failure of the channel's byte-level transforms.
#[derive(Debug, Clone, Copy, PartialEq, Eq, Structural)]
pub enum ChannelError {
    /// The cipher key is empty.
    InvalidKey,
    /// A label does not decode.
    Decode(DecodeError),
    /// A freshly encoded label was not accepted as text. Every label is made
    /// of ASCII symbols, so this is never returned.
    Encoding,
}

impl DecodeError {
    /// The failure in words.
    pub open spec fn message_spec(self) -> Seq<char> {
        match self {
            DecodeError::InvalidSymbol { position, symbol } => "Invalid base32 symbol "@ + decimal(
                symbol as nat,
            ) + " at offset "@ + decimal(position as nat),
        }
    }

    /// The failure in words.
    pub fn message(&self) -> (r: String)
        ensures
            r@ == self.message_spec(),
    {
        match self {
            DecodeError::InvalidSymbol { position, symbol } => {
                let mut text = String::from_str("Invalid base32 symbol ");
                text.append(decimal_text(*symbol as usize).as_str());
                text.append(" at offset ");
                text.append(decimal_text(*position).as_str());
                text
            },
        }
    }
}

impl ChannelError {
    /// The failure in words.
    pub open spec fn message_spec(self) -> Seq<char> {
        match self {
            ChannelError::InvalidKey => "The key is empty"@,
            ChannelError::Decode(e) => e.message_spec(),
            ChannelError::Encoding => "A label is not text"@,
        }
    }

    /// The failure in words.
    pub fn message(&self) -> (r: String)
        ensures
            r@ == self.message_spec(),
    {
        match self {
            ChannelError::InvalidKey => String::from_str("The key is empty"),
            ChannelError::Decode(e) => e.message(),
            ChannelError::Encoding => String::from_str("A label is not text"),
        }
    }
}

} // verus!
