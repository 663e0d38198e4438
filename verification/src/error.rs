//! Bus errors.

use vstd::prelude::*;
use crate::text::{decimal, decimal_text, join3, text_of};

verus! {

/// Why a bus operation was refused.
#[derive(Debug)]
pub enum BusError {
    /// No letter with this id (in the mailbox that was asked).
    NotFound(String),
    /// The agent is not registered on this bus.
    UnknownAgent(String),
    /// The letter is not in a state that allows the operation:
    /// (letter id, current status name).
    NotDeliverable(String, String),
    /// The mailbox is at capacity: (receiver, capacity).
    MailboxFull(String, usize),
    /// Any other refusal, with its explanation.
    Storage(String),
}

/// The human-readable text of an error.
pub open spec fn error_text(e: BusError) -> Seq<char> {
    match e {
        BusError::NotFound(id) => "message "@ + id@ + " not found"@,
        BusError::UnknownAgent(a) => "agent `"@ + a@ + "` is not registered on this bus"@,
        BusError::NotDeliverable(id, st) => "message "@ + id@ + " is not in `delivered` state (current: "@
            + st@ + ") — ack requires delivery first"@,
        BusError::MailboxFull(a, cap) => "mailbox for `"@ + a@ + "` is full ("@ + decimal(cap as nat)
            + " messages) — consumer is not polling"@,
        BusError::Storage(s) => "storage error: "@ + s@,
    }
}

impl BusError {
    /// The error's message, as the bus reports it to callers.
    pub fn describe(&self) -> (r: String)
        ensures
            r@ == error_text(*self),
    {
        match self {
            BusError::NotFound(id) => join3("message ", id.as_str(), " not found"),
            BusError::UnknownAgent(a) => join3(
                "agent `",
                a.as_str(),
                "` is not registered on this bus",
            ),
            BusError::NotDeliverable(id, st) => {
                let mut s = join3("message ", id.as_str(), " is not in `delivered` state (current: ");
                s.append(st.as_str());
                s.append(") — ack requires delivery first");
                s
            },
            BusError::MailboxFull(a, cap) => {
                let mut s = join3("mailbox for `", a.as_str(), "` is full (");
                let n = decimal_text(*cap as u128);
                s.append(n.as_str());
                s.append(" messages) — consumer is not polling");
                s
            },
            BusError::Storage(msg) => {
                let mut s = text_of("storage error: ");
                s.append(msg.as_str());
                s
            },
        }
    }
}

} // verus!
