//! The typed operations the system accepts and the structured answers
//! it returns. An outer layer is expected to decode transport messages
//! into these types and to encode the answers back.

use vstd::prelude::*;

use crate::state::{
    Auction, AuctionId, AuctionStatus, BidId, BidItem, BidItemId, BidItemKey, Transfer,
};

verus! {

pub struct InstantiateMsg {
    pub admin: String,
}

pub enum ExecuteMsg {
    CreateAuction { name: String, bid_items: Vec<String> },
    SetAuctionState { id: AuctionId, status: AuctionStatus },
    AddBidItems { auction_id: AuctionId, bid_items: Vec<String> },
    PlaceBid { bid_item_id: BidItemId, coins_to_bid: u128 },
    AdvanceCrank {},
}

pub enum QueryMsg {
    Admin {},
    Auction { id: AuctionId },
    BidItemsByAuctionId { auction_id: AuctionId },
    BidItem { id: BidItemId },
    BidItems { start_after: Option<BidItemKey> },
    Auctions { start_after: Option<AuctionId> },
    BidItemsById { bid_items_ids: Vec<BidItemId> },
}

/// How a requested auction status change was answered. Transitions the
/// state machine rejects are reported as descriptive no-ops, not as
/// errors: only the crank may complete an auction, and neither a
/// pending nor a completed auction can be redirected.
#[derive(Clone, Copy, PartialEq, Eq, Structural, Debug)]
pub enum StatusNote {
    Transitioned,
    AlreadyPendingCompletion,
    AlreadyCompleted,
    AlreadySuspended,
    OnlyCrankMayComplete,
}

/// The structured answer of a successful mutating operation.
#[derive(Debug)]
pub enum Response {
    AuctionCreated { auction_id: AuctionId },
    StatusUpdated { note: StatusNote, crank_queue_count: Option<u64> },
    BidItemsAdded { added: u64 },
    BidPlaced { bid_id: BidId },
    CrankAdvanced { processed_bid_items: u64, transfers: Vec<Transfer> },
}

/// The structured answer of a query.
#[derive(Debug)]
pub enum QueryAnswer {
    AdminAddr(String),
    OneAuction(Auction),
    ItemsByAuction(Vec<(BidItemId, BidItem)>),
    OneBidItem(BidItem),
    ItemPage(Vec<(BidItemKey, BidItem)>),
    AuctionPage(Vec<(AuctionId, Auction)>),
    ItemsById(Vec<(BidItemId, BidItem)>),
}

pub struct AdminsListResp {
    pub admins: Vec<String>,
}

pub struct BidItemsByIdResp {
    pub bid_item_id: u64,
    pub data: BidItem,
    pub auction_id: u64,
    pub bid_state: AuctionStatus,
}

} // verus!
