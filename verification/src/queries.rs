//! Read-only views of the system: single-entity reads, per-auction
//! scans, and paginated listings in ascending key order with an
//! exclusive cursor.

use vstd::prelude::*;

use crate::error::ContractError;
use crate::state::{
    compose_key, items_of_auction, key_hi, key_lo, split_key, Auction, AuctionId, BidItem,
    BidItemId, BidItemKey, State, StateModel,
};
use crate::store::{
    has_key, lemma_lookup_has_key, lemma_page_keys_in, lookup, page_keys,
};

verus! {

/// The stored admin identity.
pub fn admin(state: &State) -> (r: String)
    ensures
        r == state.view().admin,
{
    state.admin.clone()
}

/// The auction with the given id, or `InvalidAuctionId`.
pub fn get_auction(state: &State, id: AuctionId) -> (r: Result<Auction, ContractError>)
    requires
        state.wf(),
    ensures
        match lookup(state.view().auctions, id.0 as u64) {
            Some(a) => r == Ok::<Auction, ContractError>(a),
            None => r == Err::<Auction, ContractError>(ContractError::InvalidAuctionId),
        },
{
    match state.auctions.get(id.0 as u64) {
        None => Err(ContractError::InvalidAuctionId),
        Some(a) => Ok(a.clone()),
    }
}

/// What looking a bid item up by its id alone answers: the reverse
/// index locates the owning auction, then the item itself.
pub open spec fn get_bid_item_spec(m: StateModel, id: BidItemId) -> Result<
    BidItem,
    ContractError,
> {
    match lookup(m.bid_items_to_auctions, id.0 as u64) {
        None => Err(ContractError::InvalidBidItemId),
        Some(aid) => match lookup(m.bid_items, compose_key(aid.0, id.0)) {
            None => Err(ContractError::InvalidBidItemId),
            Some(item) => Ok(item),
        },
    }
}

/// The bid item with the given id, located through the reverse index,
/// or `InvalidBidItemId`.
pub fn get_bid_item_by_id(state: &State, id: BidItemId) -> (r: Result<BidItem, ContractError>)
    requires
        state.wf(),
    ensures
        r == get_bid_item_spec(state.view(), id),
{
    let auction_id = match state.bid_items_to_auctions.get(id.0 as u64) {
        None => {
            return Err(ContractError::InvalidBidItemId);
        },
        Some(a) => *a,
    };
    let key = crate::state::item_store_key(auction_id, id);
    match state.bid_items.get(key) {
        None => Err(ContractError::InvalidBidItemId),
        Some(item) => Ok(item.clone()),
    }
}

/// All bid items of one auction, in ascending item-id order, whatever
/// their status; `InvalidAuctionId` when the auction does not exist.
pub fn get_bid_items_by_auction_id(state: &State, auction_id: AuctionId) -> (r: Result<
    Vec<(BidItemId, BidItem)>,
    ContractError,
>)
    requires
        state.wf(),
    ensures
        match r {
            Ok(v) => has_key(state.view().auctions, auction_id.0 as u64) && v.view()
                == items_of_auction(state.view().bid_items, auction_id.0),
            Err(e) => !has_key(state.view().auctions, auction_id.0 as u64) && e
                == ContractError::InvalidAuctionId,
        },
{
    match state.auctions.get(auction_id.0 as u64) {
        None => {
            return Err(ContractError::InvalidAuctionId);
        },
        Some(_) => {
            proof {
                lemma_lookup_has_key(state.view().auctions, auction_id.0 as u64);
            }
        },
    }
    let ghost s = state.view().bid_items;
    let mut r: Vec<(BidItemId, BidItem)> = Vec::new();
    let n = state.bid_items.len();
    let mut i: usize = 0;
    proof {
        assert(s.subrange(0, n as int) =~= s);
        assert(Seq::<(BidItemId, BidItem)>::empty() + items_of_auction(s, auction_id.0)
            =~= items_of_auction(s, auction_id.0));
    }
    while i < n
        invariant
            i <= n,
            n == s.len(),
            s == state.view().bid_items,
            items_of_auction(s, auction_id.0) == r.view() + items_of_auction(
                s.subrange(i as int, n as int),
                auction_id.0,
            ),
        decreases n - i,
    {
        let k = state.bid_items.key_at(i);
        let ghost rem = s.subrange(i as int, n as int);
        proof {
            assert(rem[0] == s[i as int]);
            assert(rem.drop_first() =~= s.subrange(i as int + 1, n as int));
        }
        let (hi, lo) = split_key(k);
        if hi == auction_id.0 {
            let v = state.bid_items.value_at(i).clone();
            let ghost r0 = r.view();
            r.push((BidItemId(lo), v));
            proof {
                assert(r.view() =~= r0 + seq![(BidItemId(lo), v)]);
                assert((r0 + seq![(BidItemId(lo), v)]) + items_of_auction(
                    rem.drop_first(),
                    auction_id.0,
                ) =~= r0 + (seq![(BidItemId(lo), v)] + items_of_auction(
                    rem.drop_first(),
                    auction_id.0,
                )));
            }
        }
        i += 1;
    }
    proof {
        assert(s.subrange(n as int, n as int) =~= Seq::<(u64, BidItem)>::empty());
        assert(r.view() + Seq::<(BidItemId, BidItem)>::empty() =~= r.view());
    }
    Ok(r)
}

/// The cursor key an auction-listing cursor stands for.
pub open spec fn auction_cursor(start_after: Option<AuctionId>) -> Option<u64> {
    match start_after {
        None => None,
        Some(a) => Some(a.0 as u64),
    }
}

/// The cursor key a bid-item-listing cursor stands for.
pub open spec fn item_cursor(start_after: Option<BidItemKey>) -> Option<u64> {
    match start_after {
        None => None,
        Some(k) => Some(compose_key(k.auction_id.0, k.bid_item_id.0)),
    }
}

/// The result rows a paginated auction listing must carry, given the
/// page of keys it covers.
pub open spec fn auctions_page_ok(
    m: StateModel,
    start_after: Option<AuctionId>,
    limit: u32,
    r: Seq<(AuctionId, Auction)>,
) -> bool {
    let page = page_keys(m.auctions, auction_cursor(start_after), limit as nat);
    &&& r.len() == page.len()
    &&& forall|i: int|
        0 <= i < page.len() ==> (#[trigger] r[i]).0 == AuctionId(page[i] as u32) && Some(r[i].1)
            == lookup(m.auctions, page[i])
}

/// At most `limit` auctions with ids beyond the exclusive cursor, in
/// ascending id order.
pub fn get_auctions(state: &State, start_after: Option<AuctionId>, limit: u32) -> (r: Vec<
    (AuctionId, Auction),
>)
    requires
        state.wf(),
    ensures
        auctions_page_ok(state.view(), start_after, limit, r.view()),
{
    let cursor: Option<u64> = match start_after {
        None => None,
        Some(a) => Some(a.0 as u64),
    };
    let keys = state.auctions.keys_page(cursor, limit as usize);
    proof {
        lemma_page_keys_in(state.view().auctions, auction_cursor(start_after), limit as nat);
    }
    let mut r: Vec<(AuctionId, Auction)> = Vec::new();
    let n = keys.len();
    let mut i: usize = 0;
    while i < n
        invariant
            i <= n,
            n == keys.view().len(),
            keys.view() == page_keys(
                state.view().auctions,
                auction_cursor(start_after),
                limit as nat,
            ),
            state.wf(),
            r.view().len() == i,
            forall|j: int|
                0 <= j < i ==> (#[trigger] r.view()[j]).0 == AuctionId(keys.view()[j] as u32)
                    && Some(r.view()[j].1) == lookup(state.view().auctions, keys.view()[j]),
        decreases n - i,
    {
        let k = keys[i];
        proof {
            lemma_page_keys_in(state.view().auctions, auction_cursor(start_after), limit as nat);
            assert(k == page_keys(
                state.view().auctions,
                auction_cursor(start_after),
                limit as nat,
            )[i as int]);
            assert(has_key(state.view().auctions, k));
            lemma_lookup_has_key(state.view().auctions, k);
        }
        match state.auctions.get(k) {
            Some(a) => {
                r.push((AuctionId(k as u32), a.clone()));
            },
            None => {
                proof {
                    assert(false);
                }
            },
        }
        i += 1;
    }
    r
}

/// The result rows a paginated bid-item listing must carry, given the
/// page of keys it covers.
pub open spec fn items_page_ok(
    m: StateModel,
    start_after: Option<BidItemKey>,
    limit: u32,
    r: Seq<(BidItemKey, BidItem)>,
) -> bool {
    let page = page_keys(m.bid_items, item_cursor(start_after), limit as nat);
    &&& r.len() == page.len()
    &&& forall|i: int|
        0 <= i < page.len() ==> (#[trigger] r[i]).0 == (BidItemKey {
            auction_id: AuctionId(key_hi(page[i])),
            bid_item_id: BidItemId(key_lo(page[i])),
        }) && Some(r[i].1) == lookup(m.bid_items, page[i])
}

/// At most `limit` bid items with keys beyond the exclusive cursor, in
/// ascending (auction, item) key order.
pub fn get_bid_items(state: &State, start_after: Option<BidItemKey>, limit: u32) -> (r: Vec<
    (BidItemKey, BidItem),
>)
    requires
        state.wf(),
    ensures
        items_page_ok(state.view(), start_after, limit, r.view()),
{
    let cursor: Option<u64> = match start_after {
        None => None,
        Some(k) => Some(crate::state::item_store_key(k.auction_id, k.bid_item_id)),
    };
    let keys = state.bid_items.keys_page(cursor, limit as usize);
    proof {
        lemma_page_keys_in(state.view().bid_items, item_cursor(start_after), limit as nat);
    }
    let mut r: Vec<(BidItemKey, BidItem)> = Vec::new();
    let n = keys.len();
    let mut i: usize = 0;
    while i < n
        invariant
            i <= n,
            n == keys.view().len(),
            keys.view() == page_keys(
                state.view().bid_items,
                item_cursor(start_after),
                limit as nat,
            ),
            state.wf(),
            r.view().len() == i,
            forall|j: int|
                0 <= j < i ==> (#[trigger] r.view()[j]).0 == (BidItemKey {
                    auction_id: AuctionId(key_hi(keys.view()[j])),
                    bid_item_id: BidItemId(key_lo(keys.view()[j])),
                }) && Some(r.view()[j].1) == lookup(state.view().bid_items, keys.view()[j]),
        decreases n - i,
    {
        let k = keys[i];
        proof {
            lemma_page_keys_in(state.view().bid_items, item_cursor(start_after), limit as nat);
            assert(k == page_keys(
                state.view().bid_items,
                item_cursor(start_after),
                limit as nat,
            )[i as int]);
            assert(has_key(state.view().bid_items, k));
            lemma_lookup_has_key(state.view().bid_items, k);
        }
        let (hi, lo) = split_key(k);
        match state.bid_items.get(k) {
            Some(item) => {
                r.push((
                    BidItemKey { auction_id: AuctionId(hi), bid_item_id: BidItemId(lo) },
                    item.clone(),
                ));
            },
            None => {
                proof {
                    assert(false);
                }
            },
        }
        i += 1;
    }
    r
}

/// What looking several bid items up answers: the rows in the order
/// asked for, or the first failure.
pub open spec fn get_bid_items_by_id_spec(m: StateModel, ids: Seq<BidItemId>) -> Result<
    Seq<(BidItemId, BidItem)>,
    ContractError,
>
    decreases ids.len(),
{
    if ids.len() == 0 {
        Ok(Seq::empty())
    } else {
        match get_bid_item_spec(m, ids[0]) {
            Err(e) => Err(e),
            Ok(item) => match get_bid_items_by_id_spec(m, ids.drop_first()) {
                Err(e) => Err(e),
                Ok(rest) => Ok(seq![(ids[0], item)] + rest),
            },
        }
    }
}

/// The bid items with the given ids, each located through the reverse
/// index; fails on the first unknown id.
pub fn get_bid_items_by_id(state: &State, bid_items_ids: Vec<BidItemId>) -> (r: Result<
    Vec<(BidItemId, BidItem)>,
    ContractError,
>)
    requires
        state.wf(),
    ensures
        match r {
            Ok(v) => get_bid_items_by_id_spec(state.view(), bid_items_ids.view()) == Ok::<
                Seq<(BidItemId, BidItem)>,
                ContractError,
            >(v.view()),
            Err(e) => get_bid_items_by_id_spec(state.view(), bid_items_ids.view()) == Err::<
                Seq<(BidItemId, BidItem)>,
                ContractError,
            >(e),
        },
{
    let ghost ids = bid_items_ids.view();
    let mut r: Vec<(BidItemId, BidItem)> = Vec::new();
    let n = bid_items_ids.len();
    let mut i: usize = 0;
    proof {
        assert(ids.skip(0) =~= ids);
        if get_bid_items_by_id_spec(state.view(), ids) is Ok {
            assert(Seq::<(BidItemId, BidItem)>::empty() + get_bid_items_by_id_spec(
                state.view(),
                ids,
            ).unwrap() =~= get_bid_items_by_id_spec(state.view(), ids).unwrap());
        }
    }
    while i < n
        invariant
            i <= n,
            n == ids.len(),
            ids == bid_items_ids.view(),
            state.wf(),
            get_bid_items_by_id_spec(state.view(), ids) == (match get_bid_items_by_id_spec(
                state.view(),
                ids.skip(i as int),
            ) {
                Ok(rest) => Ok::<Seq<(BidItemId, BidItem)>, ContractError>(r.view() + rest),
                Err(e) => Err::<Seq<(BidItemId, BidItem)>, ContractError>(e),
            }),
        decreases n - i,
    {
        let ghost rest = ids.skip(i as int);
        proof {
            assert(rest[0] == ids[i as int]);
            assert(rest.drop_first() =~= ids.skip(i as int + 1));
        }
        let id = bid_items_ids[i];
        match get_bid_item_by_id(state, id) {
            Err(e) => {
                return Err(e);
            },
            Ok(item) => {
                let ghost r0 = r.view();
                r.push((id, item));
                proof {
                    assert(r.view() =~= r0 + seq![(id, item)]);
                    if get_bid_items_by_id_spec(state.view(), rest.drop_first()) is Ok {
                        let tail = get_bid_items_by_id_spec(
                            state.view(),
                            rest.drop_first(),
                        ).unwrap();
                        assert((r0 + seq![(id, item)]) + tail =~= r0 + (seq![(id, item)] + tail));
                    }
                }
            },
        }
        i += 1;
    }
    proof {
        assert(ids.skip(n as int) =~= Seq::<BidItemId>::empty());
        assert(r.view() + Seq::<(BidItemId, BidItem)>::empty() =~= r.view());
    }
    Ok(r)
}

} // verus!
