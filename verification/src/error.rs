//! Error taxonomy of the engine: lookup misses, unresolvable cross
//! references, bad slot identifiers and invalid filter patterns are all
//! surfaced as values, never as panics.

use vstd::prelude::*;
use crate::strings::dec_digits;

verus! {

#[derive(Debug)]
pub enum ResymError {
    /// A name lookup found no complete type of that name.
    TypeNotFound,
    /// A type index resolved to no record at all; carries the index.
    RenderFailed(u32),
    /// A command named a slot identifier outside the valid range.
    InvalidSlot(usize),
    /// A command addressed a slot with no container loaded; carries the slot.
    SlotEmpty(usize),
    /// A filter pattern was requested as a regular expression but does not
    /// compile as one.
    InvalidRegex,
    /// The container reader could not open or decode a container; carries its
    /// message.
    LoadFailed(String),
}

/// The human-readable message for each error value.
pub open spec fn message_of(e: ResymError) -> Seq<char> {
    match e {
        ResymError::TypeNotFound => "type not found"@,
        ResymError::RenderFailed(idx) => "failed to resolve type index "@ + dec_digits(
            idx as nat,
        ),
        ResymError::InvalidSlot(s) => "invalid slot "@ + dec_digits(s as nat),
        ResymError::SlotEmpty(s) => "no container loaded in slot "@ + dec_digits(s as nat),
        ResymError::InvalidRegex => "invalid regular expression"@,
        ResymError::LoadFailed(msg) => "failed to load container: "@ + msg@,
    }
}

impl ResymError {
    /// Renders the error for display on the result channel.
    pub fn message(&self) -> (r: String)
        ensures
            r@ == message_of(*self),
    {
        match self {
            ResymError::TypeNotFound => "type not found".to_owned(),
            ResymError::RenderFailed(idx) => {
                let mut m = "failed to resolve type index ".to_owned();
                m.append(crate::strings::u64_to_string(*idx as u64).as_str());
                m
            },
            ResymError::InvalidSlot(s) => {
                let mut m = "invalid slot ".to_owned();
                m.append(crate::strings::u64_to_string(*s as u64).as_str());
                m
            },
            ResymError::SlotEmpty(s) => {
                let mut m = "no container loaded in slot ".to_owned();
                m.append(crate::strings::u64_to_string(*s as u64).as_str());
                m
            },
            ResymError::InvalidRegex => "invalid regular expression".to_owned(),
            ResymError::LoadFailed(msg) => {
                let mut m = "failed to load container: ".to_owned();
                m.append(msg.as_str());
                m
            },
        }
    }
}

} // verus!
