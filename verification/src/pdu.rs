//! The protocol data units the session loop dispatches on.
//!
//! A bulk-data unit carries one or more items; each item belongs to
//! one logical channel (command or data) of one presentation context
//! and is either a continuation fragment or the terminal fragment of
//! the in-flight message on that channel.

use vstd::prelude::*;

verus! {

/// The logical channel an item belongs to.
#[derive(Clone, Copy, Debug, PartialEq, Eq, Structural)]
pub enum Channel {
    /// Control messages, always in the fixed sub-encoding.
    Command,
    /// Bulk object payload, in the context's negotiated data encoding.
    Data,
}

/// One item of a bulk-data unit: a payload fragment on one channel of
/// one presentation context, terminal or not.
pub struct PduItem {
    pub context_id: u8,
    pub channel: Channel,
    pub is_terminal: bool,
    pub payload: Vec<u8>,
}

/// The mathematical content of a [`PduItem`].
#[verifier::ext_equal]
pub struct ItemView {
    pub context_id: u8,
    pub channel: Channel,
    pub is_terminal: bool,
    pub payload: Seq<u8>,
}

impl View for PduItem {
    type V = ItemView;

    open spec fn view(&self) -> ItemView {
        ItemView {
            context_id: self.context_id,
            channel: self.channel,
            is_terminal: self.is_terminal,
            payload: self.payload@,
        }
    }
}

/// A received protocol data unit, as the session loop sees it.
pub enum Pdu {
    /// A run of channel fragments.
    BulkData(Vec<PduItem>),
    /// The peer asks to release the session.
    ReleaseRequest,
    /// The peer answers a release request.
    ReleaseResponse,
    /// Any other unit; ignored for forward compatibility.
    Other,
}

/// The mathematical content of a [`Pdu`].
#[verifier::ext_equal]
pub enum PduView {
    BulkData(Seq<ItemView>),
    ReleaseRequest,
    ReleaseResponse,
    Other,
}

impl View for Pdu {
    type V = PduView;

    open spec fn view(&self) -> PduView {
        match self {
            Pdu::BulkData(items) => PduView::BulkData(
                items@.map(|i: int, it: PduItem| it@),
            ),
            Pdu::ReleaseRequest => PduView::ReleaseRequest,
            Pdu::ReleaseResponse => PduView::ReleaseResponse,
            Pdu::Other => PduView::Other,
        }
    }
}

} // verus!
