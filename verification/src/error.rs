//! The errors a mutating or querying operation can return. Every
//! operation that fails leaves the state exactly as it was.

use vstd::prelude::*;

verus! {

#[derive(Debug)]
pub enum ContractError {
    /// The caller of an admin-only operation is not the stored admin.
    Unauthorized { sender: String },
    /// The referenced auction does not exist.
    InvalidAuctionId,
    /// The referenced bid item does not exist.
    InvalidBidItemId,
    /// A structural change was attempted on an auction already pending
    /// completion or completed.
    AuctionNonUpdateable,
    /// A bid was placed on an item whose owning auction is no longer
    /// active.
    AuctionCompleted,
}

} // verus!
