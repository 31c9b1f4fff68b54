//! Clipboard capture events as handed to observers: the copied text together
//! with the moment of capture in whole seconds.

use vstd::prelude::*;

use crate::entry::ClipboardEntry;
use crate::entry::ContentModel;
use crate::text::parse_u64;
use crate::text::parse_u64_spec;

verus! {

/// One clipboard capture: the copied text and the moment of capture in whole
/// seconds since the Unix epoch.
pub struct ClipboardEvent {
    text: String,
    timestamp: u64,
}

/// The mathematical value of an event.
pub struct EventModel {
    pub text: Seq<char>,
    pub timestamp: u64,
}

impl View for ClipboardEvent {
    type V = EventModel;

    closed spec fn view(&self) -> EventModel {
        EventModel { text: self.text@, timestamp: self.timestamp }
    }
}

/// Relies on `chrono::Utc::now`: whole seconds since the Unix epoch, clamped
/// below at zero; nothing is promised of the value itself.
#[verifier::external_body]
fn unix_now_secs() -> u64 {
    let secs = chrono::Utc::now().timestamp();
    u64::try_from(secs).unwrap_or(0)
}

impl ClipboardEvent {
    /// Builds an event for the given text, stamped with the current time.
    pub fn new(text: String) -> (r: ClipboardEvent)
        ensures
            r@.text == text@,
    {
        let timestamp = unix_now_secs();
        ClipboardEvent { text, timestamp }
    }

    /// Rebuilds an event from a stored entry: the text payload, or empty for
    /// an image entry; the creation stamp read as a whole-second count, or
    /// zero when the stamp is not a plain decimal number.
    pub fn from_entry(entry: ClipboardEntry) -> (r: ClipboardEvent)
        ensures
            r@.text == (match entry@.content {
                ContentModel::Text(t) => t,
                ContentModel::Image(_) => Seq::<char>::empty(),
            }),
            r@.timestamp == (match parse_u64_spec(entry@.created_at) {
                Some(v) => v,
                None => 0u64,
            }),
    {
        let text = match entry.text_content() {
            Some(t) => t,
            None => String::new(),
        };
        let timestamp = match parse_u64(entry.created_at.as_str()) {
            Some(v) => v,
            None => 0,
        };
        ClipboardEvent { text, timestamp }
    }

    /// The copied text.
    pub fn text(&self) -> (r: &str)
        ensures
            r@ == self@.text,
    {
        self.text.as_str()
    }

    /// The moment of capture, in whole seconds since the Unix epoch.
    pub fn timestamp(&self) -> (r: u64)
        ensures
            r == self@.timestamp,
    {
        self.timestamp
    }
}

} // verus!
