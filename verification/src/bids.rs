//! The bid ledger: recording bids and maintaining the winning-bid
//! index in constant time per insertion. A new bid supersedes the
//! current winner on a strictly higher amount, or on the same amount
//! placed strictly later.

use vstd::prelude::*;

use crate::error::ContractError;
use crate::state::{
    auctions_wf, bid_items_wf, bid_store_key, bids_wf, compose_key, counts_wf, inv, is_best,
    key_hi, key_lo, lemma_compose_key, outbids, prefers, queue_wf, reverse_index_wf,
    stores_sorted, winning_bids_wf, AuctionStatus, Bid, BidId, BidItemId, BidKey, State,
    StateModel, KEY_SPAN,
};
use crate::store::{
    has_key, insert_entry, lemma_entry_lookup, lemma_insert_entry, lemma_lookup_entry,
    lemma_lookup_has_key, lookup, sorted_entries,
};

verus! {

/// The bid a placement records.
pub open spec fn new_bid(sender: String, now: u64, amount: u128) -> Bid {
    Bid { amount: amount, bidder: sender, placed: now }
}

/// What `check_winning_bid` does: make the new bid the item's winning
/// bid if the item has none yet, or if it outbids the current one.
pub open spec fn check_winning_bid_spec(
    m: StateModel,
    bid_item_id: BidItemId,
    bid: Bid,
    key: BidKey,
) -> StateModel {
    let ik = bid_item_id.0 as u64;
    match lookup(m.winning_bids, ik) {
        None => StateModel { winning_bids: insert_entry(m.winning_bids, ik, key), ..m },
        Some(wk) => {
            let cur = lookup(m.bids, compose_key(bid_item_id.0, wk.bid_id.0)).unwrap();
            if outbids(bid, cur) {
                StateModel { winning_bids: insert_entry(m.winning_bids, ik, key), ..m }
            } else {
                m
            }
        },
    }
}

/// What `place_bid` does: reject an unknown bid item, and any bid on an
/// auction that is not `Active` — each leaving the state untouched —
/// else mint a bid id, record the bid, and update the winning-bid
/// index.
pub open spec fn place_bid_spec(
    m: StateModel,
    sender: String,
    now: u64,
    bid_item_id: BidItemId,
    amount: u128,
) -> (StateModel, Result<BidId, ContractError>) {
    match lookup(m.bid_items_to_auctions, bid_item_id.0 as u64) {
        None => (m, Err(ContractError::InvalidBidItemId)),
        Some(aid) => match lookup(m.auctions, aid.0 as u64) {
            None => (m, Err(ContractError::InvalidAuctionId)),
            Some(auction) => {
                if auction.current_state != AuctionStatus::Active {
                    (m, Err(ContractError::AuctionCompleted))
                } else {
                    let bid_id = m.next_bid_id;
                    let bid = new_bid(sender, now, amount);
                    let m1 = StateModel {
                        next_bid_id: (bid_id + 1) as u32,
                        bids: insert_entry(m.bids, compose_key(bid_item_id.0, bid_id), bid),
                        ..m
                    };
                    let key = BidKey { bid_item_id: bid_item_id, bid_id: BidId(bid_id) };
                    (check_winning_bid_spec(m1, bid_item_id, bid, key), Ok(BidId(bid_id)))
                }
            },
        },
    }
}

/// Placing a bid preserves the system invariant — in particular, the
/// winning-bid index still points at a recorded bid preferred over
/// every bid on its item.
pub proof fn lemma_place_bid_inv(
    m: StateModel,
    sender: String,
    now: u64,
    bid_item_id: BidItemId,
    amount: u128,
)
    requires
        inv(m),
        m.next_bid_id < u32::MAX,
    ensures
        inv(place_bid_spec(m, sender, now, bid_item_id, amount).0),
{
    let item32 = bid_item_id.0;
    let item64 = item32 as u64;
    if lookup(m.bid_items_to_auctions, item64) is None {
        return;
    }
    let aid = lookup(m.bid_items_to_auctions, item64).unwrap();
    if lookup(m.auctions, aid.0 as u64) is None {
        return;
    }
    let auction = lookup(m.auctions, aid.0 as u64).unwrap();
    if auction.current_state != AuctionStatus::Active {
        return;
    }
    let bid_id = m.next_bid_id;
    let bid = new_bid(sender, now, amount);
    let bk = compose_key(item32, bid_id);
    lemma_compose_key(item32, bid_id);
    assert(!has_key(m.bids, bk)) by {
        if has_key(m.bids, bk) {
            let j = choose|j: int| 0 <= j < m.bids.len() && (#[trigger] m.bids[j]).0 == bk;
            assert(key_lo(m.bids[j].0) < m.next_bid_id);
        }
    }
    lemma_insert_entry(m.bids, bk, bid);
    let bids1 = insert_entry(m.bids, bk, bid);
    let m1 = StateModel { next_bid_id: (bid_id + 1) as u32, bids: bids1, ..m };
    let bkey = BidKey { bid_item_id: bid_item_id, bid_id: BidId(bid_id) };
    let r = place_bid_spec(m, sender, now, bid_item_id, amount).0;
    assert(r == check_winning_bid_spec(m1, bid_item_id, bid, bkey));
    lemma_lookup_has_key(m.bid_items_to_auctions, item64);

    match lookup(m.winning_bids, item64) {
        None => {
            lemma_insert_entry(m.winning_bids, item64, bkey);
            assert(r.winning_bids == insert_entry(m.winning_bids, item64, bkey));
            // The item has no bids yet: each bid's item has a winning entry.
            assert(forall|j: int|
                0 <= j < m.bids.len() ==> key_hi((#[trigger] m.bids[j]).0) != item32) by {
                assert forall|j: int| 0 <= j < m.bids.len() implies key_hi(
                    (#[trigger] m.bids[j]).0,
                ) != item32 by {
                    if key_hi(m.bids[j].0) == item32 {
                        assert(has_key(m.winning_bids, item64));
                        lemma_lookup_has_key(m.winning_bids, item64);
                    }
                }
            }
            assert(bids_wf(r)) by {
                assert forall|j: int| 0 <= j < r.bids.len() implies {
                    let k = (#[trigger] r.bids[j]).0;
                    &&& key_lo(k) < r.next_bid_id
                    &&& has_key(r.bid_items_to_auctions, key_hi(k) as u64)
                    &&& has_key(r.winning_bids, key_hi(k) as u64)
                } by {
                    let k = r.bids[j].0;
                    if r.bids[j] == (bk, bid) {
                        assert(lookup(r.winning_bids, item64) == Some(bkey));
                        lemma_lookup_has_key(r.winning_bids, item64);
                    } else {
                        assert(m.bids.contains(r.bids[j]));
                        let x = choose|x: int|
                            0 <= x < m.bids.len() && (#[trigger] m.bids[x]) == r.bids[j];
                        assert(has_key(m.winning_bids, key_hi(k) as u64));
                        lemma_lookup_has_key(m.winning_bids, key_hi(k) as u64);
                        assert(lookup(r.winning_bids, key_hi(k) as u64) is Some) by {
                            if key_hi(k) as u64 == item64 {
                            } else {
                                assert(lookup(r.winning_bids, key_hi(k) as u64) == lookup(
                                    m.winning_bids,
                                    key_hi(k) as u64,
                                ));
                            }
                        }
                        lemma_lookup_has_key(r.winning_bids, key_hi(k) as u64);
                    }
                }
            }
            assert(winning_bids_wf(r)) by {
                assert forall|j: int| 0 <= j < r.winning_bids.len() implies {
                    let e = #[trigger] r.winning_bids[j];
                    &&& e.0 < KEY_SPAN
                    &&& is_best(r.bids, e.0 as u32, e.1)
                } by {
                    let e = r.winning_bids[j];
                    if e == (item64, bkey) {
                        assert(lookup(r.bids, compose_key(item32, bid_id)) == Some(bid));
                        assert forall|x: int|
                            0 <= x < r.bids.len() && key_hi((#[trigger] r.bids[x]).0)
                                == item32 implies prefers(
                            lookup(r.bids, compose_key(item32, bkey.bid_id.0)).unwrap(),
                            bkey.bid_id.0,
                            r.bids[x].1,
                            key_lo(r.bids[x].0),
                        ) by {
                            if r.bids[x] == (bk, bid) {
                            } else {
                                assert(m.bids.contains(r.bids[x]));
                                let y = choose|y: int|
                                    0 <= y < m.bids.len() && (#[trigger] m.bids[y]) == r.bids[x];
                                assert(key_hi(m.bids[y].0) != item32);
                            }
                        }
                    } else {
                        assert(m.winning_bids.contains(e));
                        let w = choose|w: int|
                            0 <= w < m.winning_bids.len() && (#[trigger] m.winning_bids[w]) == e;
                        assert(is_best(m.bids, e.0 as u32, e.1));
                        assert(e.0 != item64) by {
                            if e.0 == item64 {
                                assert(has_key(m.winning_bids, item64));
                                lemma_lookup_has_key(m.winning_bids, item64);
                            }
                        }
                        lemma_best_preserved(m.bids, bids1, bk, bid, e.0 as u32, e.1, item32);
                    }
                }
            }
        },
        Some(wk) => {
            lemma_lookup_entry(m.winning_bids, item64);
            let wi = choose|w: int|
                0 <= w < m.winning_bids.len() && (#[trigger] m.winning_bids[w]) == (item64, wk);
            assert(is_best(m.bids, item32, wk)) by {
                assert((item64 as u32) == item32);
            }
            let wck = compose_key(item32, wk.bid_id.0);
            lemma_compose_key(item32, wk.bid_id.0);
            let cur = lookup(m.bids, wck).unwrap();
            lemma_lookup_entry(m.bids, wck);
            let ci = choose|c: int| 0 <= c < m.bids.len() && (#[trigger] m.bids[c]) == (wck, cur);
            assert(key_lo(wck) < m.next_bid_id);
            assert(wk.bid_id.0 < bid_id);
            assert(wck != bk);
            assert(lookup(bids1, wck) == Some(cur));

            if outbids(bid, cur) {
                lemma_insert_entry(m.winning_bids, item64, bkey);
                assert(r.winning_bids == insert_entry(m.winning_bids, item64, bkey));
                assert(bids_wf(r)) by {
                    assert forall|j: int| 0 <= j < r.bids.len() implies {
                        let k = (#[trigger] r.bids[j]).0;
                        &&& key_lo(k) < r.next_bid_id
                        &&& has_key(r.bid_items_to_auctions, key_hi(k) as u64)
                        &&& has_key(r.winning_bids, key_hi(k) as u64)
                    } by {
                        let k = r.bids[j].0;
                        if r.bids[j] == (bk, bid) {
                            assert(lookup(r.winning_bids, item64) == Some(bkey));
                            lemma_lookup_has_key(r.winning_bids, item64);
                        } else {
                            assert(m.bids.contains(r.bids[j]));
                            let x = choose|x: int|
                                0 <= x < m.bids.len() && (#[trigger] m.bids[x]) == r.bids[j];
                            assert(has_key(m.winning_bids, key_hi(k) as u64));
                            lemma_lookup_has_key(m.winning_bids, key_hi(k) as u64);
                            assert(lookup(r.winning_bids, key_hi(k) as u64) is Some) by {
                                if key_hi(k) as u64 == item64 {
                                } else {
                                    assert(lookup(r.winning_bids, key_hi(k) as u64) == lookup(
                                        m.winning_bids,
                                        key_hi(k) as u64,
                                    ));
                                }
                            }
                            lemma_lookup_has_key(r.winning_bids, key_hi(k) as u64);
                        }
                    }
                }
                assert(winning_bids_wf(r)) by {
                    assert forall|j: int| 0 <= j < r.winning_bids.len() implies {
                        let e = #[trigger] r.winning_bids[j];
                        &&& e.0 < KEY_SPAN
                        &&& is_best(r.bids, e.0 as u32, e.1)
                    } by {
                        let e = r.winning_bids[j];
                        if e == (item64, bkey) {
                            assert(lookup(r.bids, compose_key(item32, bid_id)) == Some(bid));
                            assert forall|x: int|
                                0 <= x < r.bids.len() && key_hi((#[trigger] r.bids[x]).0)
                                    == item32 implies prefers(
                                lookup(r.bids, compose_key(item32, bkey.bid_id.0)).unwrap(),
                                bkey.bid_id.0,
                                r.bids[x].1,
                                key_lo(r.bids[x].0),
                            ) by {
                                if r.bids[x] == (bk, bid) {
                                } else {
                                    assert(m.bids.contains(r.bids[x]));
                                    let y = choose|y: int|
                                        0 <= y < m.bids.len() && (#[trigger] m.bids[y])
                                            == r.bids[x];
                                    assert(prefers(
                                        cur,
                                        wk.bid_id.0,
                                        m.bids[y].1,
                                        key_lo(m.bids[y].0),
                                    ));
                                }
                            }
                        } else {
                            assert(m.winning_bids.contains(e));
                            let w = choose|w: int|
                                0 <= w < m.winning_bids.len() && (#[trigger] m.winning_bids[w])
                                    == e;
                            assert(is_best(m.bids, e.0 as u32, e.1));
                            assert(e.0 != item64) by {
                                lemma_entry_lookup(r.winning_bids, j);
                                if e.0 == item64 {
                                    assert(lookup(r.winning_bids, item64) == Some(bkey));
                                    assert(e.1 == bkey);
                                }
                            }
                            lemma_best_preserved(m.bids, bids1, bk, bid, e.0 as u32, e.1, item32);
                        }
                    }
                }
            } else {
                assert(r.winning_bids == m.winning_bids);
                assert(bids_wf(r)) by {
                    assert forall|j: int| 0 <= j < r.bids.len() implies {
                        let k = (#[trigger] r.bids[j]).0;
                        &&& key_lo(k) < r.next_bid_id
                        &&& has_key(r.bid_items_to_auctions, key_hi(k) as u64)
                        &&& has_key(r.winning_bids, key_hi(k) as u64)
                    } by {
                        let k = r.bids[j].0;
                        if r.bids[j] == (bk, bid) {
                            lemma_lookup_has_key(m.winning_bids, item64);
                        } else {
                            assert(m.bids.contains(r.bids[j]));
                            let x = choose|x: int|
                                0 <= x < m.bids.len() && (#[trigger] m.bids[x]) == r.bids[j];
                        }
                    }
                }
                assert(winning_bids_wf(r)) by {
                    assert forall|j: int| 0 <= j < r.winning_bids.len() implies {
                        let e = #[trigger] r.winning_bids[j];
                        &&& e.0 < KEY_SPAN
                        &&& is_best(r.bids, e.0 as u32, e.1)
                    } by {
                        let e = r.winning_bids[j];
                        assert(is_best(m.bids, e.0 as u32, e.1));
                        if e.0 == item64 {
                            assert(e == (item64, wk)) by {
                                lemma_entry_lookup(m.winning_bids, j);
                            }
                            assert(lookup(r.bids, compose_key(item32, wk.bid_id.0)) == Some(cur));
                            assert forall|x: int|
                                0 <= x < r.bids.len() && key_hi((#[trigger] r.bids[x]).0)
                                    == item32 implies prefers(
                                lookup(r.bids, compose_key(item32, wk.bid_id.0)).unwrap(),
                                wk.bid_id.0,
                                r.bids[x].1,
                                key_lo(r.bids[x].0),
                            ) by {
                                if r.bids[x] == (bk, bid) {
                                    assert(!outbids(bid, cur));
                                    assert(key_lo(bk) == bid_id);
                                    assert(wk.bid_id.0 <= bid_id);
                                } else {
                                    assert(m.bids.contains(r.bids[x]));
                                    let y = choose|y: int|
                                        0 <= y < m.bids.len() && (#[trigger] m.bids[y])
                                            == r.bids[x];
                                    assert(prefers(
                                        cur,
                                        wk.bid_id.0,
                                        m.bids[y].1,
                                        key_lo(m.bids[y].0),
                                    ));
                                }
                            }
                        } else {
                            lemma_best_preserved(m.bids, bids1, bk, bid, e.0 as u32, e.1, item32);
                        }
                    }
                }
            }
        },
    }
    assert(stores_sorted(r));
    assert(auctions_wf(r));
    assert(bid_items_wf(r));
    assert(reverse_index_wf(r));
    assert(queue_wf(r));
    assert(counts_wf(r));
}

/// A winning entry of a different item keeps being best when a bid on
/// `item32` is inserted.
proof fn lemma_best_preserved(
    bids: Seq<(u64, Bid)>,
    bids1: Seq<(u64, Bid)>,
    bk: u64,
    bid: Bid,
    other: u32,
    wk: BidKey,
    item32: u32,
)
    requires
        is_best(bids, other, wk),
        bids1 == insert_entry(bids, bk, bid),
        sorted_entries(bids),
        !has_key(bids, bk),
        key_hi(bk) == item32,
        other != item32,
    ensures
        is_best(bids1, other, wk),
{
    lemma_insert_entry(bids, bk, bid);
    let ock = compose_key(other, wk.bid_id.0);
    lemma_compose_key(other, wk.bid_id.0);
    assert(ock != bk);
    assert(lookup(bids1, ock) == lookup(bids, ock));
    assert forall|x: int|
        0 <= x < bids1.len() && key_hi((#[trigger] bids1[x]).0) == other implies prefers(
        lookup(bids1, ock).unwrap(),
        wk.bid_id.0,
        bids1[x].1,
        key_lo(bids1[x].0),
    ) by {
        if bids1[x] == (bk, bid) {
            assert(key_hi(bk) == item32);
        } else {
            assert(bids.contains(bids1[x]));
            let y = choose|y: int| 0 <= y < bids.len() && (#[trigger] bids[y]) == bids1[x];
            assert(prefers(lookup(bids, ock).unwrap(), wk.bid_id.0, bids[y].1, key_lo(bids[y].0)));
        }
    }
}

/// Records `key` as the winning bid of the item if the item has no
/// winning bid yet or `item` outbids the current one.
pub fn check_winning_bid(state: &mut State, bid_item_id: BidItemId, item: Bid, key: BidKey)
    requires
        sorted_entries(old(state).view().winning_bids),
        sorted_entries(old(state).view().bids),
        match lookup(old(state).view().winning_bids, bid_item_id.0 as u64) {
            Some(wk) => lookup(
                old(state).view().bids,
                compose_key(bid_item_id.0, wk.bid_id.0),
            ) is Some,
            None => true,
        },
    ensures
        final(state).view() == check_winning_bid_spec(
            old(state).view(),
            bid_item_id,
            item,
            key,
        ),
{
    let existing: Option<BidKey> = match state.winning_bids.get(bid_item_id.0 as u64) {
        None => None,
        Some(wk) => Some(*wk),
    };
    match existing {
        None => {
            state.winning_bids.insert(bid_item_id.0 as u64, key);
        },
        Some(wk) => {
            let wck = bid_store_key(bid_item_id, wk.bid_id);
            match state.bids.get(wck) {
                Some(cur) => {
                    if item.amount > cur.amount || (item.amount == cur.amount && item.placed
                        > cur.placed) {
                        state.winning_bids.insert(bid_item_id.0 as u64, key);
                    }
                },
                None => {
                    proof {
                        assert(false);
                    }
                },
            }
        },
    }
}

/// Records a bid on a bid item, open to any caller; allowed only while
/// the owning auction is `Active`. Answers the fresh bid id.
pub fn place_bid(
    state: &mut State,
    sender: String,
    now: u64,
    bid_item_id: BidItemId,
    coins_to_bid: u128,
) -> (r: Result<BidId, ContractError>)
    requires
        old(state).wf(),
        old(state).view().next_bid_id < u32::MAX,
    ensures
        final(state).wf(),
        final(state).view() == place_bid_spec(
            old(state).view(),
            sender,
            now,
            bid_item_id,
            coins_to_bid,
        ).0,
        r == place_bid_spec(old(state).view(), sender, now, bid_item_id, coins_to_bid).1,
{
    proof {
        lemma_place_bid_inv(old(state).view(), sender, now, bid_item_id, coins_to_bid);
    }
    let auction_id = match state.bid_items_to_auctions.get(bid_item_id.0 as u64) {
        None => {
            return Err(ContractError::InvalidBidItemId);
        },
        Some(a) => *a,
    };
    let status = match state.auctions.get(auction_id.0 as u64) {
        None => {
            return Err(ContractError::InvalidAuctionId);
        },
        Some(auction) => auction.current_state,
    };
    if !(status == AuctionStatus::Active) {
        return Err(ContractError::AuctionCompleted);
    }
    let bid_id = BidId(state.next_bid_id);
    state.next_bid_id = state.next_bid_id + 1;
    let item = Bid { amount: coins_to_bid, bidder: sender, placed: now };
    let key = BidKey { bid_item_id: bid_item_id, bid_id: bid_id };
    let bkey = bid_store_key(bid_item_id, bid_id);
    state.bids.insert(bkey, item.clone());
    proof {
        let m = old(state).view();
        lemma_insert_entry(m.bids, bkey, item);
        match lookup(m.winning_bids, bid_item_id.0 as u64) {
            Some(wk) => {
                lemma_lookup_entry(m.winning_bids, bid_item_id.0 as u64);
                let w = choose|w: int|
                    0 <= w < m.winning_bids.len() && (#[trigger] m.winning_bids[w]) == (
                    bid_item_id.0 as u64,
                    wk,
                );
                assert(is_best(m.bids, bid_item_id.0, wk)) by {
                    assert(((bid_item_id.0 as u64) as u32) == bid_item_id.0);
                }
                let wck = compose_key(bid_item_id.0, wk.bid_id.0);
                assert(lookup(m.bids, wck) is Some);
                lemma_lookup_entry(m.bids, wck);
                let c = choose|c: int|
                    0 <= c < m.bids.len() && (#[trigger] m.bids[c]) == (
                    wck,
                    lookup(m.bids, wck).unwrap(),
                );
                lemma_compose_key(bid_item_id.0, wk.bid_id.0);
                lemma_compose_key(bid_item_id.0, bid_id.0);
                assert(key_lo(wck) < m.next_bid_id);
                assert(wck != bkey);
                assert(lookup(state.view().bids, wck) is Some);
            },
            None => {},
        }
    }
    check_winning_bid(state, bid_item_id, item, key);
    Ok(bid_id)
}

} // verus!
