//! Classification of a raw datagram by the action code carried at bytes
//! [8, 16) of its header.

use vstd::prelude::*;
use crate::wire::u32_of_be;
use crate::wire::read_u32_be;

verus! {

/// What a datagram asks for. `Error` stands for a datagram that is shorter
/// than a header or carries an unknown action code.
#[derive(PartialEq, Eq, Structural, Debug, Clone, Copy)]
pub enum Action {
    Connect,
    Announce,
    Scrape,
    Error,
}

/// The action a byte sequence asks for: the big-endian 32-bit code at
/// offset 8, or `Error` when the sequence is shorter than 16 bytes or the
/// code names no action.
pub open spec fn action_of(s: Seq<u8>) -> Action {
    if s.len() < 16 {
        Action::Error
    } else {
        let code = u32_of_be(s.subrange(8, 12));
        if code == 0 {
            Action::Connect
        } else if code == 1 {
            Action::Announce
        } else if code == 2 {
            Action::Scrape
        } else {
            Action::Error
        }
    }
}

impl Action {
    /// Classifies a raw datagram by its action field.
    pub fn new(buf: &Vec<u8>) -> (r: Action)
        ensures
            r == action_of(buf@),
    {
        if buf.len() < 16 {
            return Action::Error;
        }
        let code = read_u32_be(buf, 8);
        if code == 0 {
            Action::Connect
        } else if code == 1 {
            Action::Announce
        } else if code == 2 {
            Action::Scrape
        } else {
            Action::Error
        }
    }
}

} // verus!
