//! A covert byte channel carried in the query names of a DNS-like protocol.
//!
//! A payload is cut into chunks, each chunk is ciphered with a repeating key
//! and written as one label over a 32-symbol alphabet, and the labels are
//! grouped into compound names, one per request. The receiving side reverses
//! the transform.
//!
//! Everything here is logic on plain values. The sender and the receiver
//! are told what happened and answer with what to do; so is the interactive
//! front end. Sockets, timers and the terminal are the caller's.

pub mod cipher;
pub mod codec;
pub mod console;
pub mod error;
pub mod event;
pub mod framer;
pub mod receiver;
pub mod sender;
pub mod text;

pub use cipher::apply;
pub use codec::{b32_decode, b32_encode};
pub use console::{init_commands, Command, CommandMap, State};
pub use error::{ChannelError, DecodeError};
pub use event::Action;
pub use framer::{decrypt, encrypt};
pub use receiver::{handle, MyHandler, Response};
pub use sender::{Directive, Feedback, Phase, Step, Transmission};
