//! Token records, operation errors, and the events the ledger publishes.

use vstd::prelude::*;

verus! {

/// Width in bytes of a token identifier and of a dna sequence.
pub const HASH_LEN: usize = 32;

/// A collectible token record.
///
/// `id` is assigned at creation and never changes afterwards; `dna` is fixed
/// at creation (random for minted tokens, derived for bred ones); `price` is
/// `0` when the token is not for sale; `gen` is `0` for minted tokens and one
/// more than the deeper parent for bred ones.
pub struct Poke {
    pub id: Vec<u8>,
    pub dna: Vec<u8>,
    pub price: u64,
    pub gen: u64,
}

impl Poke {
    /// Identifier and dna both have the fixed hash width.
    pub open spec fn wf(self) -> bool {
        self.id@.len() == HASH_LEN && self.dna@.len() == HASH_LEN
    }
}

/// Why an operation was refused. Every check happens before any mutation, so
/// an error always leaves the ledger exactly as it was.
#[derive(Debug, Clone, Copy, PartialEq, Eq, Structural)]
pub enum Error {
    /// The referenced token has no record.
    NotFound,
    /// The caller is not the current owner.
    NotOwner,
    /// A token with this identifier is already registered.
    AlreadyExists,
    /// A counter is at its maximum representable value.
    Overflow,
    /// A counter is already zero.
    Underflow,
    /// The token's price is zero.
    NotForSale,
    /// The price is above the buyer's stated maximum.
    PriceExceeded,
    /// The buyer already owns the token.
    SelfTrade,
    /// The value provider refused to move the funds.
    InsufficientFunds,
    /// The identity provider could not authenticate the caller.
    Unauthenticated,
}

/// A state-change notice, published after each successful mutation.
#[derive(Debug, PartialEq, Eq)]
pub enum Event {
    /// `Created(owner, id)`
    Created(u64, Vec<u8>),
    /// `PriceSet(owner, id, price)`
    PriceSet(u64, Vec<u8>, u64),
    /// `Transferred(from, to, id)`
    Transferred(u64, u64, Vec<u8>),
    /// `Bought(buyer, seller, id, price)`
    Bought(u64, u64, Vec<u8>, u64),
}

/// The mathematical shape of an [`Event`], with identifiers as byte sequences.
pub enum EventView {
    Created { who: u64, id: Seq<u8> },
    PriceSet { who: u64, id: Seq<u8>, price: u64 },
    Transferred { from: u64, to: u64, id: Seq<u8> },
    Bought { buyer: u64, seller: u64, id: Seq<u8>, price: u64 },
}

impl View for Event {
    type V = EventView;

    open spec fn view(&self) -> EventView {
        match self {
            Event::Created(who, id) => EventView::Created { who: *who, id: id@ },
            Event::PriceSet(who, id, price) => EventView::PriceSet {
                who: *who,
                id: id@,
                price: *price,
            },
            Event::Transferred(from, to, id) => EventView::Transferred {
                from: *from,
                to: *to,
                id: id@,
            },
            Event::Bought(buyer, seller, id, price) => EventView::Bought {
                buyer: *buyer,
                seller: *seller,
                id: id@,
                price: *price,
            },
        }
    }
}

/// What the event log says, one abstract event per published notice.
pub open spec fn events_view(s: Seq<Event>) -> Seq<EventView> {
    s.map(|i: int, e: Event| e@)
}

/// A value movement that a sale asks of the value provider: `amount` goes
/// from the buyer to `seller`.
#[derive(Debug, Clone, Copy, PartialEq, Eq, Structural)]
pub struct Payment {
    pub seller: u64,
    pub amount: u64,
}

} // verus!
