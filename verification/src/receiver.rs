//! The receiver: what to report and what to answer for one inbound request.
//!
//! The transport hands over the subject name of the request's first query
//! and the kind of record that the query asks for. The name is read as one
//! request unit. Whether or not it decodes, the request is answered: with a
//! fixed address record where it asks for an address, with a refusal where
//! it asks for anything else.

use vstd::prelude::*;
use vstd::string::StringExecFns;
use vstd::utf8::encode_utf8;
use crate::error::ChannelError;
use crate::event::{Action, ActionView};
use crate::framer::{decrypt, unframe_spec};
use crate::text::{lossy_text, lossy_text_of, uppercase_of};

verus! {

/// The kind of query that is acknowledged: an address record (`A`).
pub const KIND_ADDRESS: u16 = 1;

/// Seconds that an acknowledgement may be cached.
pub const ACK_TTL: u32 = 60;

/// The answer to one inbound request.
#[derive(Debug, Clone, PartialEq, Eq)]
pub enum Response {
    /// An address record for `name`, with the fixed address.
    Acknowledge { name: String, ttl: u32, address: [u8; 4] },
    /// The refusal of a query of a kind that is not served.
    Refused,
}

/// An answer with its name as a sequence of characters.
pub enum ResponseView {
    Acknowledge { name: Seq<char>, ttl: u32, address: Seq<u8> },
    Refused,
}

impl View for Response {
    type V = ResponseView;

    open spec fn view(&self) -> ResponseView {
        match self {
            Response::Acknowledge { name, ttl, address } => ResponseView::Acknowledge {
                name: name@,
                ttl: *ttl,
                address: address@,
            },
            Response::Refused => ResponseView::Refused,
        }
    }
}

/// The address that every acknowledgement carries: 4.20.69.67.
pub open spec fn ack_address() -> Seq<u8> {
    seq![4u8, 20u8, 69u8, 67u8]
}

/// The answer to a query of kind `kind` for `name`.
pub open spec fn response_for(name: Seq<char>, kind: u16) -> ResponseView {
    if kind == KIND_ADDRESS {
        ResponseView::Acknowledge { name, ttl: ACK_TTL, address: ack_address() }
    } else {
        ResponseView::Refused
    }
}

/// The log line for a decoded text.
pub open spec fn report_line_spec(text: Seq<char>) -> Seq<char> {
    "Decrypting message: "@ + text
}

/// The log line for the outcome of unframing: the payload as text, or a
/// fixed placeholder where it did not decode.
pub open spec fn report_spec(outcome: Result<Seq<u8>, ChannelError>) -> Seq<char> {
    report_line_spec(
        match outcome {
            Ok(payload) => lossy_text_of(payload),
            Err(_) => "Error: Could not decrypt"@,
        },
    )
}

/// The answer to a query of kind `kind` for `name`.
pub fn respond(name: &str, kind: u16) -> (r: Response)
    ensures
        r@ == response_for(name@, kind),
{
    if kind == KIND_ADDRESS {
        let address: [u8; 4] = [4, 20, 69, 67];
        assert(address@ =~= ack_address());
        Response::Acknowledge { name: String::from_str(name), ttl: ACK_TTL, address }
    } else {
        Response::Refused
    }
}

/// The log event for a decoded text.
pub fn report_line(text: &str) -> (r: Action)
    ensures
        r@ == ActionView::Log(report_line_spec(text@)),
{
    let mut line = String::from_str("Decrypting message: ");
    line.append(text);
    Action::Log(line)
}

/// The log event for the outcome of unframing one request unit.
pub fn report(outcome: Result<Vec<u8>, ChannelError>) -> (r: Action)
    ensures
        r@ == ActionView::Log(
            report_spec(
                match outcome {
                    Ok(payload) => Ok(payload@),
                    Err(e) => Err(e),
                },
            ),
        ),
{
    match outcome {
        Ok(payload) => {
            let text = lossy_text(payload.as_slice());
            report_line(text.as_str())
        },
        Err(_) => report_line("Error: Could not decrypt"),
    }
}

/// Handles a request whose subject is `name` and whose request unit, the
/// name in upper case, is `unit`.
pub fn handle_unit(name: &str, unit: String, kind: u16, key: &[u8]) -> (r: (Action, Response))
    ensures
        r.0@ == ActionView::Log(report_spec(unframe_spec(seq![unit@], key@))),
        r.1@ == response_for(name@, kind),
{
    let mut units: Vec<String> = Vec::new();
    units.push(unit);
    assert(units.deep_view() =~= seq![unit@]);
    let event = report(decrypt(units, key));
    (event, respond(name, kind))
}

/// Handles one inbound request: the subject name of its first query, and
/// the kind of record that the query asks for.
pub fn handle(name: &str, kind: u16, key: &[u8]) -> (r: (Action, Response))
    ensures
        r.0@ == ActionView::Log(report_spec(unframe_spec(seq![uppercase_of(name@)], key@))),
        r.1@ == response_for(name@, kind),
{
    handle_unit(name, name.to_uppercase(), kind, key)
}

/// The receiver with its key.
pub struct MyHandler {
    xor_key: String,
}

impl MyHandler {
    /// The key as text.
    pub closed spec fn key(&self) -> Seq<char> {
        self.xor_key@
    }

    /// A receiver that deciphers under the bytes of `xor_key`.
    pub fn new(xor_key: String) -> (r: Self)
        ensures
            r.key() == xor_key@,
    {
        Self { xor_key }
    }

    /// Handles one inbound request: the subject name of its first query, and
    /// the kind of record that the query asks for.
    pub fn handle_request(&self, name: &str, kind: u16) -> (r: (Action, Response))
        ensures
            r.0@ == ActionView::Log(
                report_spec(unframe_spec(seq![uppercase_of(name@)], encode_utf8(self.key()))),
            ),
            r.1@ == response_for(name@, kind),
    {
        handle(name, kind, self.xor_key.as_str().as_bytes())
    }
}

/// A query of any kind but the address kind is refused, and a query of the
/// address kind is acknowledged under the name that it came with; either
/// way there is one report, which does not depend on the kind.
pub proof fn answer_goes_by_kind(name: Seq<char>, kind: u16)
    ensures
        kind != KIND_ADDRESS ==> response_for(name, kind) == ResponseView::Refused,
        kind == KIND_ADDRESS ==> response_for(name, kind) == (ResponseView::Acknowledge {
            name,
            ttl: 60,
            address: seq![4u8, 20u8, 69u8, 67u8],
        }),
{
}

} // verus!
