use vstd::prelude::*;

use crate::clock::{entries_map, keys_distinct, ClockMap, VectorClock};

verus! {

/// A message as the contracts see it.
pub struct MessageView {
    pub sender: Seq<char>,
    pub clocks: ClockMap,
    pub message: Seq<char>,
}

/// A text a peer broadcast, stamped with a copy of the sender's clock taken when it
/// was sent.
pub struct PeerMessage {
    /// The sender's identity: the address it listens on.
    pub sender: String,
    /// The sender's clock, taken right after it counted this message.
    pub clocks: VectorClock,
    /// The text itself.
    pub message: String,
}

impl View for PeerMessage {
    type V = MessageView;

    open spec fn view(&self) -> MessageView {
        MessageView { sender: self.sender@, clocks: self.clocks@, message: self.message@ }
    }
}

/// The bytes bincode writes for a message with these fields, the clock written as a
/// map in key order.
pub uninterp spec fn encoded_message(
    sender: Seq<char>,
    clocks: Map<Seq<char>, u32>,
    message: Seq<char>,
) -> Seq<u8>;

/// The three fields bincode reads from `bytes`, if it can read a message there.
pub uninterp spec fn decoded_message(bytes: Seq<u8>) -> Option<
    (Seq<char>, Map<Seq<char>, u32>, Seq<char>),
>;

/// Relies on `bincode::rustc_serialize::encode` with no size limit: writing into a
/// `Vec` cannot fail, and since a `BTreeMap` is written in key order the bytes
/// depend on the fields alone. Relies too on bincode's promise that what it encodes
/// decodes back to the same value.
#[verifier::external_body]
fn encode_fields(sender: &String, clocks: &VectorClock, message: &String) -> (r: Vec<u8>)
    requires
        clocks.wf(),
    ensures
        r@ == encoded_message(sender@, clocks@, message@),
        decoded_message(r@) == Some((sender@, clocks@, message@)),
{
    let map: std::collections::BTreeMap<String, u32> = clocks.entries.iter().cloned().collect();
    bincode::rustc_serialize::encode(&(sender, map, message), bincode::SizeLimit::Infinite)
        .unwrap_or_default()
}

/// Relies on `bincode::rustc_serialize::decode` of a `(String, BTreeMap<String, u32>,
/// String)`, the layout of a message: the result depends on the bytes alone, and a
/// map holds each key once.
#[verifier::external_body]
fn decode_fields(bytes: &[u8]) -> (r: Option<(String, Vec<(String, u32)>, String)>)
    ensures
        r is None ==> decoded_message(bytes@) is None,
        r matches Some(t) ==> keys_distinct(t.1@) && decoded_message(bytes@) == Some(
            (t.0@, entries_map(t.1@), t.2@),
        ),
{
    match bincode::rustc_serialize::decode::<
        (String, std::collections::BTreeMap<String, u32>, String),
    >(bytes) {
        Ok((s, m, p)) => Some((s, m.into_iter().collect(), p)),
        Err(_) => None,
    }
}

impl PeerMessage {
    /// The message's clock lists each peer once.
    pub open spec fn wf(&self) -> bool {
        self.clocks.wf()
    }

    /// A message from its three fields; where the clock lists a peer twice, the later
    /// entry wins.
    pub fn from_parts(sender: String, clocks: Vec<(String, u32)>, message: String) -> (r:
        PeerMessage)
        ensures
            r.wf(),
            r@ == (MessageView { sender: sender@, clocks: entries_map(clocks@), message: message@ }),
    {
        PeerMessage { sender, clocks: VectorClock::from_entries(clocks), message }
    }

    /// A copy of the message.
    pub fn copy(&self) -> (r: PeerMessage)
        requires
            self.wf(),
        ensures
            r.wf(),
            r@ == self@,
    {
        PeerMessage {
            sender: self.sender.clone(),
            clocks: self.clocks.copy(),
            message: self.message.clone(),
        }
    }

    /// The data frame that carries the message.
    pub fn to_frame(&self) -> (r: Vec<u8>)
        requires
            self.wf(),
        ensures
            r@ == encoded_message(self.sender@, self.clocks@, self.message@),
            decoded_message(r@) == Some((self.sender@, self.clocks@, self.message@)),
    {
        encode_fields(&self.sender, &self.clocks, &self.message)
    }

    /// The message a data frame carries, or `None` where the frame holds none.
    pub fn from_frame(bytes: &[u8]) -> (r: Option<PeerMessage>)
        ensures
            r is None <==> decoded_message(bytes@) is None,
            r matches Some(m) ==> m.wf() && decoded_message(bytes@) == Some(
                (m.sender@, m.clocks@, m.message@),
            ),
    {
        match decode_fields(bytes) {
            Some((sender, clocks, message)) => Some(PeerMessage::from_parts(sender, clocks, message)),
            None => None,
        }
    }
}

} // verus!
