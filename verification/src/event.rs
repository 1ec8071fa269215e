//! The event and participant records, and their mathematical models.

use vstd::prelude::*;

verus! {

/// An address-identified attendee of an event.
#[derive(Debug, PartialEq, Eq)]
pub struct Participant {
    /// Opaque identifier for the participant (a wallet or account id).
    pub address: String,
}

impl View for Participant {
    type V = Seq<char>;

    open spec fn view(&self) -> Seq<char> {
        self.address@
    }
}

/// A named, dated activity with an ordered list of participants.
#[derive(Debug, PartialEq, Eq)]
pub struct Event {
    pub name: String,
    /// Opaque date token; compared by exact string equality only.
    pub date: String,
    /// Insertion order is preserved; the list may be empty.
    pub participants: Vec<Participant>,
}

/// The addresses of a participant list, in list order.
pub open spec fn addresses_of(ps: Seq<Participant>) -> Seq<Seq<char>> {
    ps.map_values(|p: Participant| p@)
}

/// The mathematical model of an [`Event`]: each participant is reduced to
/// its address, as a sequence of characters.
#[verifier::ext_equal]
pub struct EventModel {
    pub name: Seq<char>,
    pub date: Seq<char>,
    pub participants: Seq<Seq<char>>,
}

impl View for Event {
    type V = EventModel;

    open spec fn view(&self) -> EventModel {
        EventModel {
            name: self.name@,
            date: self.date@,
            participants: addresses_of(self.participants@),
        }
    }
}

} // verus!
