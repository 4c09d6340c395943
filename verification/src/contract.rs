//! The operation dispatchers: one entry point for mutating operations
//! and one for queries, each forwarding to the component that owns the
//! operation and wrapping its answer.

use vstd::prelude::*;

use crate::bids::{place_bid, place_bid_spec};
use crate::crank::{advance_crank, advance_crank_spec, CRANK_MAX_BID_ITEMS};
use crate::error::ContractError;
use crate::lifecycle::{
    add_bid_items, add_bid_items_spec, create_auction, create_auction_spec, set_auction_state,
    set_auction_state_spec,
};
use crate::msg::{ExecuteMsg, QueryAnswer, QueryMsg, Response};
use crate::queries::{
    admin, auctions_page_ok, get_auction, get_auctions, get_bid_item_by_id, get_bid_item_spec,
    get_bid_items, get_bid_items_by_auction_id, get_bid_items_by_id, get_bid_items_by_id_spec,
    items_page_ok,
};
use crate::state::{items_of_auction, State, StateModel};
use crate::store::{has_key, lookup};

verus! {

/// How many rows a paginated query answers at most.
pub const PAGINATION_LIMIT: u32 = 10;

/// What the counters must have room for before an operation runs.
pub open spec fn execute_fits(m: StateModel, msg: ExecuteMsg) -> bool {
    match msg {
        ExecuteMsg::CreateAuction { name: _, bid_items } => m.next_auction_id < u32::MAX
            && m.next_bid_item_id + bid_items.view().len() <= u32::MAX,
        ExecuteMsg::AddBidItems { auction_id: _, bid_items } => m.next_bid_item_id
            + bid_items.view().len() <= u32::MAX,
        ExecuteMsg::PlaceBid { bid_item_id: _, coins_to_bid: _ } => m.next_bid_id < u32::MAX,
        _ => true,
    }
}

/// The answer and state change each operation must produce.
pub open spec fn execute_matches(
    m: StateModel,
    sender: String,
    now: u64,
    msg: ExecuteMsg,
    m2: StateModel,
    r: Result<Response, ContractError>,
) -> bool {
    match msg {
        ExecuteMsg::CreateAuction { name, bid_items } => {
            let s = create_auction_spec(m, sender, name, bid_items.view());
            &&& m2 == s.0
            &&& match (r, s.1) {
                (Ok(Response::AuctionCreated { auction_id }), Ok(id)) => auction_id == id,
                (Err(e1), Err(e2)) => e1 == e2,
                _ => false,
            }
        },
        ExecuteMsg::SetAuctionState { id, status } => {
            let s = set_auction_state_spec(m, sender, id, status);
            &&& m2 == s.0
            &&& match (r, s.1) {
                (Ok(Response::StatusUpdated { note, crank_queue_count }), Ok(n)) => note == n.0
                    && crank_queue_count == n.1,
                (Err(e1), Err(e2)) => e1 == e2,
                _ => false,
            }
        },
        ExecuteMsg::AddBidItems { auction_id, bid_items } => {
            let s = add_bid_items_spec(m, sender, auction_id, bid_items.view());
            &&& m2 == s.0
            &&& match (r, s.1) {
                (Ok(Response::BidItemsAdded { added }), Ok(n)) => added == n,
                (Err(e1), Err(e2)) => e1 == e2,
                _ => false,
            }
        },
        ExecuteMsg::PlaceBid { bid_item_id, coins_to_bid } => {
            let s = place_bid_spec(m, sender, now, bid_item_id, coins_to_bid);
            &&& m2 == s.0
            &&& match (r, s.1) {
                (Ok(Response::BidPlaced { bid_id }), Ok(b)) => bid_id == b,
                (Err(e1), Err(e2)) => e1 == e2,
                _ => false,
            }
        },
        ExecuteMsg::AdvanceCrank {  } => {
            let s = advance_crank_spec(m);
            &&& m2 == s.0
            &&& match r {
                Ok(Response::CrankAdvanced { processed_bid_items, transfers }) => transfers.view()
                    == s.1 && processed_bid_items as nat == s.2 && processed_bid_items
                    <= CRANK_MAX_BID_ITEMS as u64,
                _ => false,
            }
        },
    }
}

/// Runs one mutating operation against the state.
pub fn execute(state: &mut State, sender: String, now: u64, msg: ExecuteMsg) -> (r: Result<
    Response,
    ContractError,
>)
    requires
        old(state).wf(),
        execute_fits(old(state).view(), msg),
    ensures
        final(state).wf(),
        execute_matches(old(state).view(), sender, now, msg, final(state).view(), r),
{
    match msg {
        ExecuteMsg::CreateAuction { name, bid_items } => {
            match create_auction(state, sender, name, bid_items) {
                Ok(auction_id) => Ok(Response::AuctionCreated { auction_id }),
                Err(e) => Err(e),
            }
        },
        ExecuteMsg::SetAuctionState { id, status } => {
            match set_auction_state(state, sender, id, status) {
                Ok((note, crank_queue_count)) => Ok(
                    Response::StatusUpdated { note, crank_queue_count },
                ),
                Err(e) => Err(e),
            }
        },
        ExecuteMsg::AddBidItems { auction_id, bid_items } => {
            match add_bid_items(state, sender, auction_id, bid_items) {
                Ok(added) => Ok(Response::BidItemsAdded { added }),
                Err(e) => Err(e),
            }
        },
        ExecuteMsg::PlaceBid { bid_item_id, coins_to_bid } => {
            match place_bid(state, sender, now, bid_item_id, coins_to_bid) {
                Ok(bid_id) => Ok(Response::BidPlaced { bid_id }),
                Err(e) => Err(e),
            }
        },
        ExecuteMsg::AdvanceCrank {  } => {
            let (processed_bid_items, transfers) = advance_crank(state);
            Ok(Response::CrankAdvanced { processed_bid_items, transfers })
        },
    }
}

/// The answer each query must produce.
pub open spec fn query_matches(
    m: StateModel,
    msg: QueryMsg,
    r: Result<QueryAnswer, ContractError>,
) -> bool {
    match msg {
        QueryMsg::Admin {  } => r == Ok::<QueryAnswer, ContractError>(
            QueryAnswer::AdminAddr(m.admin),
        ),
        QueryMsg::Auction { id } => match lookup(m.auctions, id.0 as u64) {
            Some(a) => r == Ok::<QueryAnswer, ContractError>(QueryAnswer::OneAuction(a)),
            None => r == Err::<QueryAnswer, ContractError>(ContractError::InvalidAuctionId),
        },
        QueryMsg::BidItemsByAuctionId { auction_id } => match r {
            Ok(QueryAnswer::ItemsByAuction(v)) => has_key(m.auctions, auction_id.0 as u64)
                && v.view() == items_of_auction(m.bid_items, auction_id.0),
            Err(e) => !has_key(m.auctions, auction_id.0 as u64) && e
                == ContractError::InvalidAuctionId,
            _ => false,
        },
        QueryMsg::BidItem { id } => match get_bid_item_spec(m, id) {
            Ok(item) => r == Ok::<QueryAnswer, ContractError>(QueryAnswer::OneBidItem(item)),
            Err(e) => r == Err::<QueryAnswer, ContractError>(e),
        },
        QueryMsg::BidItems { start_after } => match r {
            Ok(QueryAnswer::ItemPage(v)) => items_page_ok(
                m,
                start_after,
                PAGINATION_LIMIT,
                v.view(),
            ),
            _ => false,
        },
        QueryMsg::Auctions { start_after } => match r {
            Ok(QueryAnswer::AuctionPage(v)) => auctions_page_ok(
                m,
                start_after,
                PAGINATION_LIMIT,
                v.view(),
            ),
            _ => false,
        },
        QueryMsg::BidItemsById { bid_items_ids } => match get_bid_items_by_id_spec(
            m,
            bid_items_ids.view(),
        ) {
            Ok(s) => match r {
                Ok(QueryAnswer::ItemsById(v)) => v.view() == s,
                _ => false,
            },
            Err(e) => r == Err::<QueryAnswer, ContractError>(e),
        },
    }
}

/// Runs one read-only query against the state.
pub fn query(state: &State, msg: QueryMsg) -> (r: Result<QueryAnswer, ContractError>)
    requires
        state.wf(),
    ensures
        query_matches(state.view(), msg, r),
{
    match msg {
        QueryMsg::Admin {  } => Ok(QueryAnswer::AdminAddr(admin(state))),
        QueryMsg::Auction { id } => match get_auction(state, id) {
            Ok(a) => Ok(QueryAnswer::OneAuction(a)),
            Err(e) => Err(e),
        },
        QueryMsg::BidItemsByAuctionId { auction_id } => match get_bid_items_by_auction_id(
            state,
            auction_id,
        ) {
            Ok(v) => Ok(QueryAnswer::ItemsByAuction(v)),
            Err(e) => Err(e),
        },
        QueryMsg::BidItem { id } => match get_bid_item_by_id(state, id) {
            Ok(item) => Ok(QueryAnswer::OneBidItem(item)),
            Err(e) => Err(e),
        },
        QueryMsg::BidItems { start_after } => Ok(
            QueryAnswer::ItemPage(get_bid_items(state, start_after, PAGINATION_LIMIT)),
        ),
        QueryMsg::Auctions { start_after } => Ok(
            QueryAnswer::AuctionPage(get_auctions(state, start_after, PAGINATION_LIMIT)),
        ),
        QueryMsg::BidItemsById { bid_items_ids } => match get_bid_items_by_id(
            state,
            bid_items_ids,
        ) {
            Ok(v) => Ok(QueryAnswer::ItemsById(v)),
            Err(e) => Err(e),
        },
    }
}

} // verus!
