//! The auction lifecycle: creating auctions with their initial bid
//! items, appending bid items later, and the auction status state
//! machine with its crank-queue bookkeeping.

use vstd::prelude::*;

use crate::error::ContractError;
use crate::msg::{InstantiateMsg, StatusNote};
use crate::state::{
    auction_item_count, auctions_wf, bid_items_wf, bids_wf, compose_key, counts_wf, inv, key_hi,
    key_lo, lemma_compose_key, lemma_item_count_insert_fresh, lemma_item_count_no_auction,
    lemma_key_recompose, queue_wf, reverse_index_wf, unresolved_wf, winning_bids_wf, Auction,
    AuctionId, AuctionStatus, BidItem, BidItemId, BidItemStatus, State, StateModel, KEY_SPAN,
};
use crate::store::{
    has_key, insert_entry, lemma_entry_lookup, lemma_insert_entry, lemma_lookup_entry,
    lemma_lookup_has_key, lookup, sorted_entries, StoreMap,
};

verus! {

/// The bid item a freshly added name produces.
pub open spec fn new_bid_item(name: String) -> BidItem {
    BidItem {
        name: name,
        total_bids: 0,
        total_coins: 0,
        winner: None,
        current_state: BidItemStatus::Active,
    }
}

/// Appends one bid item per name to auction `aid`, minting one item id
/// each and keeping the reverse index in step.
pub open spec fn add_items_spec(m: StateModel, aid: u32, items: Seq<String>) -> StateModel
    decreases items.len(),
{
    if items.len() == 0 {
        m
    } else {
        let iid = m.next_bid_item_id;
        let m1 = StateModel {
            next_bid_item_id: (iid + 1) as u32,
            bid_items: insert_entry(m.bid_items, compose_key(aid, iid), new_bid_item(items[0])),
            bid_items_to_auctions: insert_entry(
                m.bid_items_to_auctions,
                iid as u64,
                AuctionId(aid),
            ),
            ..m
        };
        add_items_spec(m1, aid, items.drop_first())
    }
}

/// What `create_auction` does: reject a non-admin caller untouched,
/// else mint an auction id, store the auction as `Active` with
/// `available_bid_items` equal to the number of names, and append one
/// bid item per name.
pub open spec fn create_auction_spec(
    m: StateModel,
    sender: String,
    name: String,
    items: Seq<String>,
) -> (StateModel, Result<AuctionId, ContractError>) {
    if sender.view() != m.admin.view() {
        (m, Err(ContractError::Unauthorized { sender }))
    } else {
        let aid = m.next_auction_id;
        let auction = Auction {
            name: name,
            available_bid_items: items.len() as u64,
            total_bids: 0,
            total_coins: 0,
            current_state: AuctionStatus::Active,
        };
        let m1 = StateModel {
            next_auction_id: (aid + 1) as u32,
            auctions: insert_entry(m.auctions, aid as u64, auction),
            ..m
        };
        (add_items_spec(m1, aid, items), Ok(AuctionId(aid)))
    }
}

/// What `add_bid_items` does: reject a non-admin caller, an unknown
/// auction, and an auction already pending completion or completed —
/// each leaving the state untouched — else append the items and raise
/// `available_bid_items` by their number.
pub open spec fn add_bid_items_spec(
    m: StateModel,
    sender: String,
    auction_id: AuctionId,
    items: Seq<String>,
) -> (StateModel, Result<u64, ContractError>) {
    if sender.view() != m.admin.view() {
        (m, Err(ContractError::Unauthorized { sender }))
    } else {
        match lookup(m.auctions, auction_id.0 as u64) {
            None => (m, Err(ContractError::InvalidAuctionId)),
            Some(auction) => {
                if auction.current_state == AuctionStatus::PendingCompletion
                    || auction.current_state == AuctionStatus::Completed {
                    (m, Err(ContractError::AuctionNonUpdateable))
                } else {
                    let updated = Auction {
                        available_bid_items: (auction.available_bid_items + items.len()) as u64,
                        ..auction
                    };
                    let m1 = StateModel {
                        auctions: insert_entry(m.auctions, auction_id.0 as u64, updated),
                        ..m
                    };
                    (add_items_spec(m1, auction_id.0, items), Ok(items.len() as u64))
                }
            },
        }
    }
}

/// Applies an accepted status transition, enqueuing the auction for the
/// crank when the new status is `PendingCompletion`.
pub open spec fn apply_status_spec(
    m: StateModel,
    id: AuctionId,
    auction: Auction,
    status: AuctionStatus,
) -> (StateModel, (StatusNote, Option<u64>)) {
    let m1 = StateModel {
        auctions: insert_entry(
            m.auctions,
            id.0 as u64,
            Auction { current_state: status, ..auction },
        ),
        ..m
    };
    if status == AuctionStatus::PendingCompletion {
        let m2 = StateModel {
            crank_queue: insert_entry(m1.crank_queue, id.0 as u64, ()),
            ..m1
        };
        (m2, (StatusNote::Transitioned, Some(m2.crank_queue.len() as u64)))
    } else {
        (m1, (StatusNote::Transitioned, None))
    }
}

/// What `set_auction_state` does: the status state machine. A non-admin
/// caller and an unknown auction are errors; a transition the machine
/// rejects answers with a descriptive note and leaves the state
/// untouched; an accepted transition is applied, enqueuing the auction
/// for the crank when it moves to `PendingCompletion`.
pub open spec fn set_auction_state_spec(
    m: StateModel,
    sender: String,
    id: AuctionId,
    status: AuctionStatus,
) -> (StateModel, Result<(StatusNote, Option<u64>), ContractError>) {
    if sender.view() != m.admin.view() {
        (m, Err(ContractError::Unauthorized { sender }))
    } else {
        match lookup(m.auctions, id.0 as u64) {
            None => (m, Err(ContractError::InvalidAuctionId)),
            Some(auction) => match auction.current_state {
                AuctionStatus::PendingCompletion => (
                    m,
                    Ok((StatusNote::AlreadyPendingCompletion, None)),
                ),
                AuctionStatus::Completed => (m, Ok((StatusNote::AlreadyCompleted, None))),
                AuctionStatus::Suspended => match status {
                    AuctionStatus::Suspended => (m, Ok((StatusNote::AlreadySuspended, None))),
                    AuctionStatus::Completed => (m, Ok((StatusNote::OnlyCrankMayComplete, None))),
                    _ => {
                        let (m2, note) = apply_status_spec(m, id, auction, status);
                        (m2, Ok(note))
                    },
                },
                AuctionStatus::Active => match status {
                    AuctionStatus::Completed => (m, Ok((StatusNote::OnlyCrankMayComplete, None))),
                    _ => {
                        let (m2, note) = apply_status_spec(m, id, auction, status);
                        (m2, Ok(note))
                    },
                },
            },
        }
    }
}

/// How `add_items_spec` changes the model: everything but the item
/// store, the reverse index and the item counter stays put; the fresh
/// items take the next `items.len()` minted ids under auction `aid`;
/// every other key keeps its binding.
pub proof fn lemma_add_items_effect(m: StateModel, aid: u32, items: Seq<String>)
    requires
        sorted_entries(m.bid_items),
        sorted_entries(m.bid_items_to_auctions),
        m.next_bid_item_id + items.len() <= u32::MAX,
        forall|i: int|
            0 <= i < m.bid_items.len() ==> key_lo((#[trigger] m.bid_items[i]).0)
                < m.next_bid_item_id,
        forall|i: int|
            0 <= i < m.bid_items_to_auctions.len() ==> (#[trigger] m.bid_items_to_auctions[i]).0
                < m.next_bid_item_id as u64,
    ensures
        ({
            let r = add_items_spec(m, aid, items);
            &&& r.admin == m.admin
            &&& r.next_auction_id == m.next_auction_id
            &&& r.next_bid_id == m.next_bid_id
            &&& r.auctions == m.auctions
            &&& r.bids == m.bids
            &&& r.winning_bids == m.winning_bids
            &&& r.crank_queue == m.crank_queue
            &&& r.next_bid_item_id == m.next_bid_item_id + items.len()
            &&& sorted_entries(r.bid_items)
            &&& sorted_entries(r.bid_items_to_auctions)
            &&& forall|j: int|
                0 <= j < items.len() ==> lookup(
                    r.bid_items,
                    compose_key(aid, (m.next_bid_item_id + j) as u32),
                ) == Some(new_bid_item(#[trigger] items[j]))
            &&& forall|k: u64|
                !(key_hi(k) == aid && m.next_bid_item_id <= key_lo(k) < m.next_bid_item_id
                    + items.len()) ==> #[trigger] lookup(r.bid_items, k) == lookup(m.bid_items, k)
            &&& forall|j: int|
                0 <= j < items.len() ==> #[trigger] lookup(
                    r.bid_items_to_auctions,
                    (m.next_bid_item_id + j) as u64,
                ) == Some(AuctionId(aid))
            &&& forall|x: u64|
                !(m.next_bid_item_id <= x < m.next_bid_item_id + items.len())
                    ==> #[trigger] lookup(r.bid_items_to_auctions, x) == lookup(
                    m.bid_items_to_auctions,
                    x,
                )
            &&& forall|i: int|
                0 <= i < r.bid_items.len() ==> m.bid_items.contains(#[trigger] r.bid_items[i]) || (
                key_hi(r.bid_items[i].0) == aid && m.next_bid_item_id <= key_lo(r.bid_items[i].0)
                    < m.next_bid_item_id + items.len())
            &&& forall|i: int|
                0 <= i < r.bid_items_to_auctions.len() ==> m.bid_items_to_auctions.contains(
                    #[trigger] r.bid_items_to_auctions[i],
                ) || (m.next_bid_item_id <= r.bid_items_to_auctions[i].0 < m.next_bid_item_id
                    + items.len() && r.bid_items_to_auctions[i].1 == AuctionId(aid))
            &&& auction_item_count(r.bid_items, aid) == auction_item_count(m.bid_items, aid)
                + items.len()
            &&& forall|a: u32|
                a != aid ==> #[trigger] auction_item_count(r.bid_items, a) == auction_item_count(
                    m.bid_items,
                    a,
                )
        }),
    decreases items.len(),
{
    if items.len() == 0 {
    } else {
        let iid = m.next_bid_item_id;
        let ik = compose_key(aid, iid);
        lemma_compose_key(aid, iid);
        assert(!has_key(m.bid_items, ik)) by {
            if has_key(m.bid_items, ik) {
                let i = choose|i: int|
                    0 <= i < m.bid_items.len() && (#[trigger] m.bid_items[i]).0 == ik;
                assert(key_lo(m.bid_items[i].0) < iid);
            }
        }
        lemma_insert_entry(m.bid_items, ik, new_bid_item(items[0]));
        lemma_insert_entry(m.bid_items_to_auctions, iid as u64, AuctionId(aid));
        lemma_item_count_insert_fresh(m.bid_items, ik, new_bid_item(items[0]), aid);
        assert(forall|a: u32|
            a != aid ==> #[trigger] auction_item_count(
                insert_entry(m.bid_items, ik, new_bid_item(items[0])),
                a,
            ) == auction_item_count(m.bid_items, a)) by {
            assert forall|a: u32| a != aid implies #[trigger] auction_item_count(
                insert_entry(m.bid_items, ik, new_bid_item(items[0])),
                a,
            ) == auction_item_count(m.bid_items, a) by {
                lemma_item_count_insert_fresh(m.bid_items, ik, new_bid_item(items[0]), a);
            }
        }
        let m1 = StateModel {
            next_bid_item_id: (iid + 1) as u32,
            bid_items: insert_entry(m.bid_items, ik, new_bid_item(items[0])),
            bid_items_to_auctions: insert_entry(
                m.bid_items_to_auctions,
                iid as u64,
                AuctionId(aid),
            ),
            ..m
        };
        assert(forall|i: int|
            0 <= i < m1.bid_items.len() ==> key_lo((#[trigger] m1.bid_items[i]).0)
                < m1.next_bid_item_id) by {
            assert forall|i: int| 0 <= i < m1.bid_items.len() implies key_lo(
                (#[trigger] m1.bid_items[i]).0,
            ) < m1.next_bid_item_id by {
                if m1.bid_items[i] == (ik, new_bid_item(items[0])) {
                    assert(key_lo(ik) == iid);
                } else {
                    assert(m.bid_items.contains(m1.bid_items[i]));
                    let j = choose|j: int|
                        0 <= j < m.bid_items.len() && (#[trigger] m.bid_items[j])
                            == m1.bid_items[i];
                }
            }
        }
        assert(forall|i: int|
            0 <= i < m1.bid_items_to_auctions.len() ==> (#[trigger] m1.bid_items_to_auctions[i]).0
                < m1.next_bid_item_id as u64) by {
            assert forall|i: int| 0 <= i < m1.bid_items_to_auctions.len() implies (
            #[trigger] m1.bid_items_to_auctions[i]).0 < m1.next_bid_item_id as u64 by {
                if m1.bid_items_to_auctions[i] == (iid as u64, AuctionId(aid)) {
                } else {
                    assert(m.bid_items_to_auctions.contains(m1.bid_items_to_auctions[i]));
                    let j = choose|j: int|
                        0 <= j < m.bid_items_to_auctions.len() && (
                        #[trigger] m.bid_items_to_auctions[j]) == m1.bid_items_to_auctions[i];
                }
            }
        }
        lemma_add_items_effect(m1, aid, items.drop_first());
        let r = add_items_spec(m1, aid, items.drop_first());
        assert(add_items_spec(m, aid, items) == r);
        assert(forall|j: int|
            0 <= j < items.len() ==> lookup(
                r.bid_items,
                compose_key(aid, (m.next_bid_item_id + j) as u32),
            ) == Some(new_bid_item(#[trigger] items[j]))) by {
            assert forall|j: int| 0 <= j < items.len() implies lookup(
                r.bid_items,
                compose_key(aid, (m.next_bid_item_id + j) as u32),
            ) == Some(new_bid_item(#[trigger] items[j])) by {
                if j == 0 {
                    lemma_compose_key(aid, iid);
                    assert(!(key_hi(ik) == aid && m1.next_bid_item_id <= key_lo(ik)
                        < m1.next_bid_item_id + items.drop_first().len()));
                    assert(lookup(r.bid_items, ik) == lookup(m1.bid_items, ik));
                } else {
                    assert(items.drop_first()[j - 1] == items[j]);
                    assert((m1.next_bid_item_id + (j - 1)) as u32 == (m.next_bid_item_id
                        + j) as u32);
                }
            }
        }
        assert(forall|k: u64|
            !(key_hi(k) == aid && m.next_bid_item_id <= key_lo(k) < m.next_bid_item_id
                + items.len()) ==> #[trigger] lookup(r.bid_items, k) == lookup(m.bid_items, k)) by {
            assert forall|k: u64|
                !(key_hi(k) == aid && m.next_bid_item_id <= key_lo(k) < m.next_bid_item_id
                    + items.len()) implies #[trigger] lookup(r.bid_items, k) == lookup(
                m.bid_items,
                k,
            ) by {
                assert(lookup(r.bid_items, k) == lookup(m1.bid_items, k));
                assert(k != ik) by {
                    lemma_compose_key(aid, iid);
                }
                assert(lookup(m1.bid_items, k) == lookup(m.bid_items, k));
            }
        }
        assert(forall|j: int|
            0 <= j < items.len() ==> #[trigger] lookup(
                r.bid_items_to_auctions,
                (m.next_bid_item_id + j) as u64,
            ) == Some(AuctionId(aid))) by {
            assert forall|j: int| 0 <= j < items.len() implies #[trigger] lookup(
                r.bid_items_to_auctions,
                (m.next_bid_item_id + j) as u64,
            ) == Some(AuctionId(aid)) by {
                if j == 0 {
                    assert(lookup(r.bid_items_to_auctions, iid as u64) == lookup(
                        m1.bid_items_to_auctions,
                        iid as u64,
                    ));
                } else {
                    assert((m1.next_bid_item_id + (j - 1)) as u64 == (m.next_bid_item_id
                        + j) as u64);
                }
            }
        }
        assert(forall|i: int|
            0 <= i < r.bid_items.len() ==> m.bid_items.contains(#[trigger] r.bid_items[i]) || (
            key_hi(r.bid_items[i].0) == aid && m.next_bid_item_id <= key_lo(r.bid_items[i].0)
                < m.next_bid_item_id + items.len())) by {
            assert forall|i: int|
                0 <= i < r.bid_items.len() implies m.bid_items.contains(#[trigger] r.bid_items[i])
                || (key_hi(r.bid_items[i].0) == aid && m.next_bid_item_id <= key_lo(
                r.bid_items[i].0,
            ) < m.next_bid_item_id + items.len()) by {
                if m1.bid_items.contains(r.bid_items[i]) {
                    let j = choose|j: int|
                        0 <= j < m1.bid_items.len() && (#[trigger] m1.bid_items[j])
                            == r.bid_items[i];
                    if m1.bid_items[j] == (ik, new_bid_item(items[0])) {
                        lemma_compose_key(aid, iid);
                    } else {
                        assert(m.bid_items.contains(m1.bid_items[j]));
                    }
                }
            }
        }
        assert(forall|i: int|
            0 <= i < r.bid_items_to_auctions.len() ==> m.bid_items_to_auctions.contains(
                #[trigger] r.bid_items_to_auctions[i],
            ) || (m.next_bid_item_id <= r.bid_items_to_auctions[i].0 < m.next_bid_item_id
                + items.len() && r.bid_items_to_auctions[i].1 == AuctionId(aid))) by {
            assert forall|i: int|
                0 <= i < r.bid_items_to_auctions.len() implies m.bid_items_to_auctions.contains(
                #[trigger] r.bid_items_to_auctions[i],
            ) || (m.next_bid_item_id <= r.bid_items_to_auctions[i].0 < m.next_bid_item_id
                + items.len() && r.bid_items_to_auctions[i].1 == AuctionId(aid)) by {
                if m1.bid_items_to_auctions.contains(r.bid_items_to_auctions[i]) {
                    let j = choose|j: int|
                        0 <= j < m1.bid_items_to_auctions.len() && (
                        #[trigger] m1.bid_items_to_auctions[j]) == r.bid_items_to_auctions[i];
                    if m1.bid_items_to_auctions[j] == (iid as u64, AuctionId(aid)) {
                    } else {
                        assert(m.bid_items_to_auctions.contains(m1.bid_items_to_auctions[j]));
                    }
                }
            }
        }
    }
}

/// Creating an auction preserves the system invariant.
pub proof fn lemma_create_auction_inv(m: StateModel, sender: String, name: String, items: Seq<String>)
    requires
        inv(m),
        m.next_auction_id < u32::MAX,
        m.next_bid_item_id + items.len() <= u32::MAX,
    ensures
        inv(create_auction_spec(m, sender, name, items).0),
{
    if sender.view() != m.admin.view() {
    } else {
        let aid = m.next_auction_id;
        let auction = Auction {
            name: name,
            available_bid_items: items.len() as u64,
            total_bids: 0,
            total_coins: 0,
            current_state: AuctionStatus::Active,
        };
        lemma_insert_entry(m.auctions, aid as u64, auction);
        let m1 = StateModel {
            next_auction_id: (aid + 1) as u32,
            auctions: insert_entry(m.auctions, aid as u64, auction),
            ..m
        };
        assert(!has_key(m.auctions, aid as u64)) by {
            if has_key(m.auctions, aid as u64) {
                let j = choose|j: int|
                    0 <= j < m.auctions.len() && (#[trigger] m.auctions[j]).0 == aid as u64;
            }
        }
        lemma_add_items_effect(m1, aid, items);
        let r = add_items_spec(m1, aid, items);
        assert(create_auction_spec(m, sender, name, items).0 == r);

        // Fresh-auction facts: nothing refers to `aid` yet.
        assert(forall|i: int|
            0 <= i < m.bid_items.len() ==> key_hi((#[trigger] m.bid_items[i]).0) != aid) by {
            assert forall|i: int| 0 <= i < m.bid_items.len() implies key_hi(
                (#[trigger] m.bid_items[i]).0,
            ) != aid by {
                let hi = key_hi(m.bid_items[i].0);
                assert(has_key(m.auctions, hi as u64));
                let j = choose|j: int|
                    0 <= j < m.auctions.len() && (#[trigger] m.auctions[j]).0 == hi as u64;
            }
        }
        lemma_item_count_no_auction(m.bid_items, aid);

        assert(auctions_wf(r)) by {
            assert forall|i: int| 0 <= i < r.auctions.len() implies (#[trigger] r.auctions[i]).0
                < r.next_auction_id as u64 by {
                if r.auctions[i] == (aid as u64, auction) {
                } else {
                    assert(m.auctions.contains(r.auctions[i]));
                    let j = choose|j: int|
                        0 <= j < m.auctions.len() && (#[trigger] m.auctions[j]) == r.auctions[i];
                }
            }
        }
        assert(bid_items_wf(r)) by {
            assert forall|i: int| 0 <= i < r.bid_items.len() implies {
                let k = (#[trigger] r.bid_items[i]).0;
                &&& key_lo(k) < r.next_bid_item_id
                &&& has_key(r.auctions, key_hi(k) as u64)
                &&& lookup(r.bid_items_to_auctions, key_lo(k) as u64) == Some(AuctionId(key_hi(k)))
            } by {
                let k = r.bid_items[i].0;
                if m.bid_items.contains(r.bid_items[i]) {
                    let j = choose|j: int|
                        0 <= j < m.bid_items.len() && (#[trigger] m.bid_items[j])
                            == r.bid_items[i];
                    assert(key_lo(k) < m.next_bid_item_id);
                    assert(has_key(m.auctions, key_hi(k) as u64));
                    lemma_lookup_has_key(m.auctions, key_hi(k) as u64);
                    assert(lookup(r.auctions, key_hi(k) as u64) is Some);
                    lemma_lookup_has_key(r.auctions, key_hi(k) as u64);
                    assert(lookup(r.bid_items_to_auctions, key_lo(k) as u64) == lookup(
                        m.bid_items_to_auctions,
                        key_lo(k) as u64,
                    ));
                } else {
                    assert(key_hi(k) == aid && m1.next_bid_item_id <= key_lo(k)
                        < m1.next_bid_item_id + items.len());
                    assert(lookup(r.auctions, aid as u64) == Some(auction));
                    lemma_lookup_has_key(r.auctions, aid as u64);
                    let j = key_lo(k) - m.next_bid_item_id;
                    assert(lookup(r.bid_items_to_auctions, (m.next_bid_item_id + j) as u64)
                        == Some(AuctionId(aid)));
                    assert((m.next_bid_item_id + j) as u64 == key_lo(k) as u64);
                }
            }
        }
        assert(unresolved_wf(r)) by {
            assert forall|i: int|
                0 <= i < r.bid_items.len() && (#[trigger] r.bid_items[i]).1.current_state
                    == BidItemStatus::Active implies r.bid_items[i].1.winner is None by {
                let e = r.bid_items[i];
                if m.bid_items.contains(e) {
                    let j = choose|j: int|
                        0 <= j < m.bid_items.len() && (#[trigger] m.bid_items[j]) == e;
                } else {
                    assert(key_hi(e.0) == aid && m1.next_bid_item_id <= key_lo(e.0)
                        < m1.next_bid_item_id + items.len());
                    lemma_entry_lookup(r.bid_items, i);
                    let j = key_lo(e.0) - m.next_bid_item_id;
                    assert(lookup(
                        r.bid_items,
                        compose_key(aid, (m.next_bid_item_id + j) as u32),
                    ) == Some(new_bid_item(items[j as int])));
                    lemma_key_recompose(e.0);
                    assert((m.next_bid_item_id + j) as u32 == key_lo(e.0));
                    assert(compose_key(aid, (m.next_bid_item_id + j) as u32) == e.0);
                    assert(e.1 == new_bid_item(items[j as int]));
                }
            }
        }
        assert(reverse_index_wf(r)) by {
            assert forall|i: int| 0 <= i < r.bid_items_to_auctions.len() implies {
                let e = #[trigger] r.bid_items_to_auctions[i];
                &&& e.0 < r.next_bid_item_id as u64
                &&& has_key(r.bid_items, compose_key(e.1.0, e.0 as u32))
            } by {
                let e = r.bid_items_to_auctions[i];
                if m.bid_items_to_auctions.contains(e) {
                    let j = choose|j: int|
                        0 <= j < m.bid_items_to_auctions.len() && (
                        #[trigger] m.bid_items_to_auctions[j]) == e;
                    let ck = compose_key(e.1.0, e.0 as u32);
                    assert(has_key(m.bid_items, ck));
                    lemma_lookup_has_key(m.bid_items, ck);
                    lemma_compose_key(e.1.0, e.0 as u32);
                    assert(key_lo(ck) < m.next_bid_item_id);
                    assert(lookup(r.bid_items, ck) == lookup(m.bid_items, ck));
                    lemma_lookup_has_key(r.bid_items, ck);
                } else {
                    assert(m.next_bid_item_id <= e.0 < m.next_bid_item_id + items.len() && e.1
                        == AuctionId(aid));
                    let j = e.0 - m.next_bid_item_id;
                    assert(lookup(
                        r.bid_items,
                        compose_key(aid, (m.next_bid_item_id + j) as u32),
                    ) == Some(new_bid_item(items[j as int])));
                    assert((m.next_bid_item_id + j) as u32 == e.0 as u32);
                    lemma_lookup_has_key(r.bid_items, compose_key(aid, e.0 as u32));
                }
            }
        }
        assert(bids_wf(r)) by {
            assert forall|i: int| 0 <= i < r.bids.len() implies {
                let k = (#[trigger] r.bids[i]).0;
                &&& key_lo(k) < r.next_bid_id
                &&& has_key(r.bid_items_to_auctions, key_hi(k) as u64)
                &&& has_key(r.winning_bids, key_hi(k) as u64)
            } by {
                let k = r.bids[i].0;
                assert(has_key(m.bid_items_to_auctions, key_hi(k) as u64));
                let j = choose|j: int|
                    0 <= j < m.bid_items_to_auctions.len() && (
                    #[trigger] m.bid_items_to_auctions[j]).0 == key_hi(k) as u64;
                assert(m.bid_items_to_auctions[j].0 < m.next_bid_item_id as u64);
                assert(lookup(r.bid_items_to_auctions, key_hi(k) as u64) == lookup(
                    m.bid_items_to_auctions,
                    key_hi(k) as u64,
                ));
                lemma_lookup_has_key(m.bid_items_to_auctions, key_hi(k) as u64);
                lemma_lookup_has_key(r.bid_items_to_auctions, key_hi(k) as u64);
            }
        }
        assert(winning_bids_wf(r));
        assert(queue_wf(r)) by {
            assert forall|i: int| 0 <= i < r.crank_queue.len() implies {
                let a = (#[trigger] r.crank_queue[i]).0;
                match lookup(r.auctions, a) {
                    Some(auc) => auc.current_state == AuctionStatus::PendingCompletion,
                    None => false,
                }
            } by {
                let a = r.crank_queue[i].0;
                assert(lookup(m.auctions, a) is Some);
                lemma_lookup_has_key(m.auctions, a);
                let j = choose|j: int|
                    0 <= j < m.auctions.len() && (#[trigger] m.auctions[j]).0 == a;
                assert(a < aid as u64);
                assert(lookup(r.auctions, a) == lookup(m.auctions, a));
            }
            assert forall|i: int|
                0 <= i < r.auctions.len() && (#[trigger] r.auctions[i]).1.current_state
                    == AuctionStatus::PendingCompletion implies has_key(
                r.crank_queue,
                r.auctions[i].0,
            ) by {
                if r.auctions[i] == (aid as u64, auction) {
                } else {
                    assert(m.auctions.contains(r.auctions[i]));
                    let j = choose|j: int|
                        0 <= j < m.auctions.len() && (#[trigger] m.auctions[j]) == r.auctions[i];
                }
            }
        }
        assert(counts_wf(r)) by {
            assert forall|i: int| 0 <= i < r.auctions.len() implies {
                let e = #[trigger] r.auctions[i];
                &&& e.0 < KEY_SPAN
                &&& e.1.available_bid_items == auction_item_count(r.bid_items, e.0 as u32)
                &&& auction_item_count(r.bid_items, e.0 as u32) <= r.next_bid_item_id
            } by {
                let e = r.auctions[i];
                if e == (aid as u64, auction) {
                    assert(auction_item_count(r.bid_items, aid) == items.len());
                } else {
                    assert(m.auctions.contains(e));
                    let j = choose|j: int|
                        0 <= j < m.auctions.len() && (#[trigger] m.auctions[j]) == e;
                    assert(e.0 < aid as u64);
                    assert(e.0 as u32 != aid);
                    assert(auction_item_count(r.bid_items, e.0 as u32) == auction_item_count(
                        m.bid_items,
                        e.0 as u32,
                    ));
                }
            }
        }
    }
}

/// Appending bid items preserves the system invariant.
pub proof fn lemma_add_bid_items_inv(
    m: StateModel,
    sender: String,
    auction_id: AuctionId,
    items: Seq<String>,
)
    requires
        inv(m),
        m.next_bid_item_id + items.len() <= u32::MAX,
    ensures
        inv(add_bid_items_spec(m, sender, auction_id, items).0),
{
    if sender.view() != m.admin.view() {
        return;
    }
    if lookup(m.auctions, auction_id.0 as u64) is None {
        return;
    }
    let auction = lookup(m.auctions, auction_id.0 as u64).unwrap();
    if auction.current_state == AuctionStatus::PendingCompletion || auction.current_state
        == AuctionStatus::Completed {
        return;
    }
    let aid = auction_id.0;
    lemma_lookup_entry(m.auctions, aid as u64);
    let ei = choose|i: int|
        0 <= i < m.auctions.len() && (#[trigger] m.auctions[i]) == (aid as u64, auction);
    assert(auction.available_bid_items == auction_item_count(m.bid_items, aid)) by {
        assert((aid as u64) as u32 == aid);
    }
    assert(auction_item_count(m.bid_items, aid) <= m.next_bid_item_id);
    let updated = Auction {
        available_bid_items: (auction.available_bid_items + items.len()) as u64,
        ..auction
    };
    lemma_insert_entry(m.auctions, aid as u64, updated);
    let m1 = StateModel { auctions: insert_entry(m.auctions, aid as u64, updated), ..m };
    assert(forall|x: u64|
        x != aid as u64 ==> #[trigger] lookup(m1.auctions, x) == lookup(m.auctions, x));
    lemma_add_items_effect(m1, aid, items);
    let r = add_items_spec(m1, aid, items);
    assert(add_bid_items_spec(m, sender, auction_id, items).0 == r);

    assert(auctions_wf(r)) by {
        assert forall|i: int| 0 <= i < r.auctions.len() implies (#[trigger] r.auctions[i]).0
            < r.next_auction_id as u64 by {
            lemma_entry_lookup(r.auctions, i);
            let e = r.auctions[i];
            if e.0 == aid as u64 {
                assert((aid as u64) < (m.next_auction_id as u64));
            } else {
                lemma_lookup_entry(m.auctions, e.0);
                let j = choose|j: int|
                    0 <= j < m.auctions.len() && (#[trigger] m.auctions[j]) == (
                    e.0,
                    lookup(m.auctions, e.0).unwrap(),
                );
            }
        }
    }
    assert(bid_items_wf(r)) by {
        assert forall|i: int| 0 <= i < r.bid_items.len() implies {
            let k = (#[trigger] r.bid_items[i]).0;
            &&& key_lo(k) < r.next_bid_item_id
            &&& has_key(r.auctions, key_hi(k) as u64)
            &&& lookup(r.bid_items_to_auctions, key_lo(k) as u64) == Some(AuctionId(key_hi(k)))
        } by {
            let k = r.bid_items[i].0;
            if m.bid_items.contains(r.bid_items[i]) {
                let j = choose|j: int|
                    0 <= j < m.bid_items.len() && (#[trigger] m.bid_items[j]) == r.bid_items[i];
                assert(has_key(m.auctions, key_hi(k) as u64));
                lemma_lookup_has_key(m.auctions, key_hi(k) as u64);
                assert(lookup(r.auctions, key_hi(k) as u64) is Some);
                lemma_lookup_has_key(r.auctions, key_hi(k) as u64);
                assert(lookup(r.bid_items_to_auctions, key_lo(k) as u64) == lookup(
                    m.bid_items_to_auctions,
                    key_lo(k) as u64,
                ));
            } else {
                assert(key_hi(k) == aid && m1.next_bid_item_id <= key_lo(k) < m1.next_bid_item_id
                    + items.len());
                assert(lookup(r.auctions, aid as u64) == Some(updated));
                lemma_lookup_has_key(r.auctions, aid as u64);
                let j = key_lo(k) - m.next_bid_item_id;
                assert(lookup(r.bid_items_to_auctions, (m.next_bid_item_id + j) as u64) == Some(
                    AuctionId(aid),
                ));
                assert((m.next_bid_item_id + j) as u64 == key_lo(k) as u64);
            }
        }
    }
    assert(unresolved_wf(r)) by {
        assert forall|i: int|
            0 <= i < r.bid_items.len() && (#[trigger] r.bid_items[i]).1.current_state
                == BidItemStatus::Active implies r.bid_items[i].1.winner is None by {
            let e = r.bid_items[i];
            if m.bid_items.contains(e) {
                let j = choose|j: int|
                    0 <= j < m.bid_items.len() && (#[trigger] m.bid_items[j]) == e;
            } else {
                assert(key_hi(e.0) == aid && m1.next_bid_item_id <= key_lo(e.0)
                    < m1.next_bid_item_id + items.len());
                lemma_entry_lookup(r.bid_items, i);
                let j = key_lo(e.0) - m.next_bid_item_id;
                assert(lookup(r.bid_items, compose_key(aid, (m.next_bid_item_id + j) as u32))
                    == Some(new_bid_item(items[j as int])));
                lemma_key_recompose(e.0);
                assert((m.next_bid_item_id + j) as u32 == key_lo(e.0));
                assert(compose_key(aid, (m.next_bid_item_id + j) as u32) == e.0);
                assert(e.1 == new_bid_item(items[j as int]));
            }
        }
    }
    assert(reverse_index_wf(r)) by {
        assert forall|i: int| 0 <= i < r.bid_items_to_auctions.len() implies {
            let e = #[trigger] r.bid_items_to_auctions[i];
            &&& e.0 < r.next_bid_item_id as u64
            &&& has_key(r.bid_items, compose_key(e.1.0, e.0 as u32))
        } by {
            let e = r.bid_items_to_auctions[i];
            if m.bid_items_to_auctions.contains(e) {
                let j = choose|j: int|
                    0 <= j < m.bid_items_to_auctions.len() && (
                    #[trigger] m.bid_items_to_auctions[j]) == e;
                let ck = compose_key(e.1.0, e.0 as u32);
                assert(has_key(m.bid_items, ck));
                lemma_lookup_has_key(m.bid_items, ck);
                lemma_compose_key(e.1.0, e.0 as u32);
                assert(key_lo(ck) < m.next_bid_item_id);
                assert(lookup(r.bid_items, ck) == lookup(m.bid_items, ck));
                lemma_lookup_has_key(r.bid_items, ck);
            } else {
                assert(m.next_bid_item_id <= e.0 < m.next_bid_item_id + items.len() && e.1
                    == AuctionId(aid));
                let j = e.0 - m.next_bid_item_id;
                assert(lookup(r.bid_items, compose_key(aid, (m.next_bid_item_id + j) as u32))
                    == Some(new_bid_item(items[j as int])));
                assert((m.next_bid_item_id + j) as u32 == e.0 as u32);
                lemma_lookup_has_key(r.bid_items, compose_key(aid, e.0 as u32));
            }
        }
    }
    assert(bids_wf(r)) by {
        assert forall|i: int| 0 <= i < r.bids.len() implies {
            let k = (#[trigger] r.bids[i]).0;
            &&& key_lo(k) < r.next_bid_id
            &&& has_key(r.bid_items_to_auctions, key_hi(k) as u64)
            &&& has_key(r.winning_bids, key_hi(k) as u64)
        } by {
            let k = r.bids[i].0;
            assert(has_key(m.bid_items_to_auctions, key_hi(k) as u64));
            let j = choose|j: int|
                0 <= j < m.bid_items_to_auctions.len() && (#[trigger] m.bid_items_to_auctions[j]).0
                    == key_hi(k) as u64;
            assert(m.bid_items_to_auctions[j].0 < m.next_bid_item_id as u64);
            assert(lookup(r.bid_items_to_auctions, key_hi(k) as u64) == lookup(
                m.bid_items_to_auctions,
                key_hi(k) as u64,
            ));
            lemma_lookup_has_key(m.bid_items_to_auctions, key_hi(k) as u64);
            lemma_lookup_has_key(r.bid_items_to_auctions, key_hi(k) as u64);
        }
    }
    assert(winning_bids_wf(r));
    assert(queue_wf(r)) by {
        assert forall|i: int| 0 <= i < r.crank_queue.len() implies {
            let a = (#[trigger] r.crank_queue[i]).0;
            match lookup(r.auctions, a) {
                Some(auc) => auc.current_state == AuctionStatus::PendingCompletion,
                None => false,
            }
        } by {
            let a = r.crank_queue[i].0;
            assert(a != aid as u64);
            assert(lookup(r.auctions, a) == lookup(m.auctions, a));
        }
        assert forall|i: int|
            0 <= i < r.auctions.len() && (#[trigger] r.auctions[i]).1.current_state
                == AuctionStatus::PendingCompletion implies has_key(
            r.crank_queue,
            r.auctions[i].0,
        ) by {
            lemma_entry_lookup(r.auctions, i);
            let e = r.auctions[i];
            if e.0 == aid as u64 {
                assert(e.1 == updated);
            } else {
                lemma_lookup_entry(m.auctions, e.0);
                let j = choose|j: int|
                    0 <= j < m.auctions.len() && (#[trigger] m.auctions[j]) == (
                    e.0,
                    lookup(m.auctions, e.0).unwrap(),
                );
            }
        }
    }
    assert(counts_wf(r)) by {
        assert forall|i: int| 0 <= i < r.auctions.len() implies {
            let e = #[trigger] r.auctions[i];
            &&& e.0 < KEY_SPAN
            &&& e.1.available_bid_items == auction_item_count(r.bid_items, e.0 as u32)
            &&& auction_item_count(r.bid_items, e.0 as u32) <= r.next_bid_item_id
        } by {
            lemma_entry_lookup(r.auctions, i);
            let e = r.auctions[i];
            if e.0 == aid as u64 {
                assert(e.1 == updated);
                assert(auction_item_count(r.bid_items, aid) == auction_item_count(m.bid_items, aid)
                    + items.len());
            } else {
                lemma_lookup_entry(m.auctions, e.0);
                let j = choose|j: int|
                    0 <= j < m.auctions.len() && (#[trigger] m.auctions[j]) == (
                    e.0,
                    lookup(m.auctions, e.0).unwrap(),
                );
                assert(e.0 < KEY_SPAN);
                assert(e.0 as u32 != aid) by {
                    assert((aid as u64) < KEY_SPAN);
                }
                assert(auction_item_count(r.bid_items, e.0 as u32) == auction_item_count(
                    m.bid_items,
                    e.0 as u32,
                ));
            }
        }
    }
}

/// An accepted status transition preserves the system invariant.
pub proof fn lemma_apply_status_inv(
    m: StateModel,
    id: AuctionId,
    auction: Auction,
    status: AuctionStatus,
)
    requires
        inv(m),
        lookup(m.auctions, id.0 as u64) == Some(auction),
        auction.current_state == AuctionStatus::Active || auction.current_state
            == AuctionStatus::Suspended,
        status != AuctionStatus::Completed,
    ensures
        inv(apply_status_spec(m, id, auction, status).0),
{
    let aid64 = id.0 as u64;
    let updated = Auction { current_state: status, ..auction };
    lemma_insert_entry(m.auctions, aid64, updated);
    lemma_lookup_entry(m.auctions, aid64);
    let ai = choose|i: int|
        0 <= i < m.auctions.len() && (#[trigger] m.auctions[i]) == (aid64, auction);
    let m1 = StateModel { auctions: insert_entry(m.auctions, aid64, updated), ..m };
    lemma_insert_entry(m.crank_queue, aid64, ());
    let r = apply_status_spec(m, id, auction, status).0;

    assert(auctions_wf(r)) by {
        assert forall|i: int| 0 <= i < r.auctions.len() implies (#[trigger] r.auctions[i]).0
            < r.next_auction_id as u64 by {
            lemma_entry_lookup(r.auctions, i);
            let e = r.auctions[i];
            if e.0 == aid64 {
            } else {
                lemma_lookup_entry(m.auctions, e.0);
                let j = choose|j: int|
                    0 <= j < m.auctions.len() && (#[trigger] m.auctions[j]) == (
                    e.0,
                    lookup(m.auctions, e.0).unwrap(),
                );
            }
        }
    }
    assert(bid_items_wf(r)) by {
        assert forall|i: int| 0 <= i < r.bid_items.len() implies {
            let k = (#[trigger] r.bid_items[i]).0;
            &&& key_lo(k) < r.next_bid_item_id
            &&& has_key(r.auctions, key_hi(k) as u64)
            &&& lookup(r.bid_items_to_auctions, key_lo(k) as u64) == Some(AuctionId(key_hi(k)))
        } by {
            let k = r.bid_items[i].0;
            assert(has_key(m.auctions, key_hi(k) as u64));
            lemma_lookup_has_key(m.auctions, key_hi(k) as u64);
            assert(lookup(r.auctions, key_hi(k) as u64) is Some);
            lemma_lookup_has_key(r.auctions, key_hi(k) as u64);
        }
    }
    assert(reverse_index_wf(r));
    assert(bids_wf(r));
    assert(winning_bids_wf(r));
    assert(queue_wf(r)) by {
        assert forall|i: int| 0 <= i < r.crank_queue.len() implies {
            let a = (#[trigger] r.crank_queue[i]).0;
            match lookup(r.auctions, a) {
                Some(auc) => auc.current_state == AuctionStatus::PendingCompletion,
                None => false,
            }
        } by {
            let a = r.crank_queue[i].0;
            if status == AuctionStatus::PendingCompletion {
                if r.crank_queue[i] == (aid64, ()) {
                    assert(lookup(r.auctions, aid64) == Some(updated));
                } else {
                    assert(m.crank_queue.contains(r.crank_queue[i]));
                    let j = choose|j: int|
                        0 <= j < m.crank_queue.len() && (#[trigger] m.crank_queue[j])
                            == r.crank_queue[i];
                    assert(lookup(m.auctions, a) is Some);
                    assert(a != aid64);
                    assert(lookup(r.auctions, a) == lookup(m.auctions, a));
                }
            } else {
                assert(lookup(m.auctions, a) is Some);
                assert(a != aid64);
                assert(lookup(r.auctions, a) == lookup(m.auctions, a));
            }
        }
        assert forall|i: int|
            0 <= i < r.auctions.len() && (#[trigger] r.auctions[i]).1.current_state
                == AuctionStatus::PendingCompletion implies has_key(
            r.crank_queue,
            r.auctions[i].0,
        ) by {
            lemma_entry_lookup(r.auctions, i);
            let e = r.auctions[i];
            if e.0 == aid64 {
                assert(e.1 == updated);
                assert(status == AuctionStatus::PendingCompletion);
                assert(lookup(r.crank_queue, aid64) == Some(()));
                lemma_lookup_has_key(r.crank_queue, aid64);
            } else {
                lemma_lookup_entry(m.auctions, e.0);
                let j = choose|j: int|
                    0 <= j < m.auctions.len() && (#[trigger] m.auctions[j]) == (
                    e.0,
                    lookup(m.auctions, e.0).unwrap(),
                );
                assert(has_key(m.crank_queue, e.0));
                lemma_lookup_has_key(m.crank_queue, e.0);
                if status == AuctionStatus::PendingCompletion {
                    assert(lookup(r.crank_queue, e.0) == lookup(m.crank_queue, e.0));
                }
                lemma_lookup_has_key(r.crank_queue, e.0);
            }
        }
    }
    assert(counts_wf(r)) by {
        assert forall|i: int| 0 <= i < r.auctions.len() implies {
            let e = #[trigger] r.auctions[i];
            &&& e.0 < KEY_SPAN
            &&& e.1.available_bid_items == auction_item_count(r.bid_items, e.0 as u32)
            &&& auction_item_count(r.bid_items, e.0 as u32) <= r.next_bid_item_id
        } by {
            lemma_entry_lookup(r.auctions, i);
            let e = r.auctions[i];
            if e.0 == aid64 {
                assert(e.1 == updated);
            } else {
                lemma_lookup_entry(m.auctions, e.0);
                let j = choose|j: int|
                    0 <= j < m.auctions.len() && (#[trigger] m.auctions[j]) == (
                    e.0,
                    lookup(m.auctions, e.0).unwrap(),
                );
            }
        }
    }
}

/// Drives the auction status state machine, admin-only. Answers the
/// note describing what happened and, when the auction was enqueued for
/// the crank, the queue's new size.
pub fn set_auction_state(
    state: &mut State,
    sender: String,
    id: AuctionId,
    status: AuctionStatus,
) -> (r: Result<(StatusNote, Option<u64>), ContractError>)
    requires
        old(state).wf(),
    ensures
        final(state).wf(),
        final(state).view() == set_auction_state_spec(old(state).view(), sender, id, status).0,
        r == set_auction_state_spec(old(state).view(), sender, id, status).1,
{
    if !(state.admin == sender) {
        return Err(ContractError::Unauthorized { sender });
    }
    let auction = match state.auctions.get(id.0 as u64) {
        None => {
            return Err(ContractError::InvalidAuctionId);
        },
        Some(a) => a.clone(),
    };
    match auction.current_state {
        AuctionStatus::PendingCompletion => Ok((StatusNote::AlreadyPendingCompletion, None)),
        AuctionStatus::Completed => Ok((StatusNote::AlreadyCompleted, None)),
        _ => {
            if status == AuctionStatus::Completed {
                return Ok((StatusNote::OnlyCrankMayComplete, None));
            }
            if auction.current_state == AuctionStatus::Suspended && status
                == AuctionStatus::Suspended {
                return Ok((StatusNote::AlreadySuspended, None));
            }
            proof {
                lemma_apply_status_inv(old(state).view(), id, auction, status);
            }
            let updated = Auction {
                name: auction.name,
                available_bid_items: auction.available_bid_items,
                total_bids: auction.total_bids,
                total_coins: auction.total_coins,
                current_state: status,
            };
            state.auctions.insert(id.0 as u64, updated);
            if status == AuctionStatus::PendingCompletion {
                state.crank_queue.insert(id.0 as u64, ());
                let count = state.crank_queue.len() as u64;
                Ok((StatusNote::Transitioned, Some(count)))
            } else {
                Ok((StatusNote::Transitioned, None))
            }
        },
    }
}

/// Creates an auction with one bid item per name, admin-only; answers
/// the fresh auction id.
pub fn create_auction(
    state: &mut State,
    sender: String,
    name: String,
    bid_items: Vec<String>,
) -> (r: Result<AuctionId, ContractError>)
    requires
        old(state).wf(),
        old(state).view().next_auction_id < u32::MAX,
        old(state).view().next_bid_item_id + bid_items.view().len() <= u32::MAX,
    ensures
        final(state).wf(),
        final(state).view() == create_auction_spec(
            old(state).view(),
            sender,
            name,
            bid_items.view(),
        ).0,
        r == create_auction_spec(old(state).view(), sender, name, bid_items.view()).1,
{
    proof {
        lemma_create_auction_inv(old(state).view(), sender, name, bid_items.view());
    }
    if !(state.admin == sender) {
        return Err(ContractError::Unauthorized { sender });
    }
    let auction_id = AuctionId(state.next_auction_id);
    state.next_auction_id = state.next_auction_id + 1;
    let auction = Auction {
        name: name,
        available_bid_items: bid_items.len() as u64,
        total_bids: 0,
        total_coins: 0,
        current_state: AuctionStatus::Active,
    };
    state.auctions.insert(auction_id.0 as u64, auction);
    add_bid_items_to_auction(state, bid_items, auction_id);
    Ok(auction_id)
}

/// Appends bid items to an existing auction, admin-only; rejected with
/// `AuctionNonUpdateable` once the auction is pending completion or
/// completed. Answers the number of items added.
pub fn add_bid_items(
    state: &mut State,
    sender: String,
    auction_id: AuctionId,
    bid_items: Vec<String>,
) -> (r: Result<u64, ContractError>)
    requires
        old(state).wf(),
        old(state).view().next_bid_item_id + bid_items.view().len() <= u32::MAX,
    ensures
        final(state).wf(),
        final(state).view() == add_bid_items_spec(
            old(state).view(),
            sender,
            auction_id,
            bid_items.view(),
        ).0,
        r == add_bid_items_spec(old(state).view(), sender, auction_id, bid_items.view()).1,
{
    proof {
        lemma_add_bid_items_inv(old(state).view(), sender, auction_id, bid_items.view());
    }
    if !(state.admin == sender) {
        return Err(ContractError::Unauthorized { sender });
    }
    let auction = match state.auctions.get(auction_id.0 as u64) {
        None => {
            return Err(ContractError::InvalidAuctionId);
        },
        Some(a) => a.clone(),
    };
    match auction.current_state {
        AuctionStatus::PendingCompletion | AuctionStatus::Completed => {
            return Err(ContractError::AuctionNonUpdateable);
        },
        _ => {},
    }
    proof {
        lemma_lookup_entry(old(state).view().auctions, auction_id.0 as u64);
        let ei = choose|i: int|
            0 <= i < old(state).view().auctions.len() && (#[trigger] old(
                state,
            ).view().auctions[i]) == (auction_id.0 as u64, auction);
        assert((auction_id.0 as u64) as u32 == auction_id.0);
        assert(auction.available_bid_items <= old(state).view().next_bid_item_id);
    }
    let count = bid_items.len() as u64;
    let updated = Auction {
        name: auction.name,
        available_bid_items: auction.available_bid_items + count,
        total_bids: auction.total_bids,
        total_coins: auction.total_coins,
        current_state: auction.current_state,
    };
    state.auctions.insert(auction_id.0 as u64, updated);
    add_bid_items_to_auction(state, bid_items, auction_id);
    Ok(count)
}

/// Sets up an empty system whose only configuration is the admin
/// identity.
pub fn instantiate(msg: InstantiateMsg) -> (s: State)
    ensures
        s.wf(),
        s.view().admin == msg.admin,
        s.view().next_auction_id == 0,
        s.view().next_bid_item_id == 0,
        s.view().next_bid_id == 0,
        s.view().auctions.len() == 0,
        s.view().bid_items.len() == 0,
        s.view().bid_items_to_auctions.len() == 0,
        s.view().bids.len() == 0,
        s.view().winning_bids.len() == 0,
        s.view().crank_queue.len() == 0,
{
    State {
        admin: msg.admin,
        next_auction_id: 0,
        next_bid_item_id: 0,
        next_bid_id: 0,
        auctions: StoreMap::new(),
        bid_items: StoreMap::new(),
        bid_items_to_auctions: StoreMap::new(),
        bids: StoreMap::new(),
        winning_bids: StoreMap::new(),
        crank_queue: StoreMap::new(),
    }
}

/// Appends one stored bid item per name to the auction, minting a fresh
/// item id for each and recording its owner in the reverse index.
fn add_bid_items_to_auction(state: &mut State, bid_items: Vec<String>, auction_id: AuctionId)
    requires
        sorted_entries(old(state).view().bid_items),
        sorted_entries(old(state).view().bid_items_to_auctions),
        old(state).view().next_bid_item_id + bid_items.view().len() <= u32::MAX,
    ensures
        final(state).view() == add_items_spec(
            old(state).view(),
            auction_id.0,
            bid_items.view(),
        ),
{
    let n = bid_items.len();
    let mut i: usize = 0;
    proof {
        assert(bid_items.view().skip(0) =~= bid_items.view());
    }
    while i < n
        invariant
            i <= n,
            n == bid_items.view().len(),
            sorted_entries(state.view().bid_items),
            sorted_entries(state.view().bid_items_to_auctions),
            state.view().next_bid_item_id == old(state).view().next_bid_item_id + i,
            old(state).view().next_bid_item_id + n <= u32::MAX,
            add_items_spec(old(state).view(), auction_id.0, bid_items.view()) == add_items_spec(
                state.view(),
                auction_id.0,
                bid_items.view().skip(i as int),
            ),
        decreases n - i,
    {
        let ghost m_cur = state.view();
        let iid = state.next_bid_item_id;
        state.next_bid_item_id = iid + 1;
        let item = BidItem {
            name: bid_items[i].clone(),
            total_bids: 0,
            total_coins: 0,
            winner: None,
            current_state: BidItemStatus::Active,
        };
        let key = crate::state::item_store_key(auction_id, BidItemId(iid));
        state.bid_items.insert(key, item);
        state.bid_items_to_auctions.insert(iid as u64, auction_id);
        proof {
            let rest = bid_items.view().skip(i as int);
            assert(rest[0] == bid_items.view()[i as int]);
            assert(rest.drop_first() =~= bid_items.view().skip(i as int + 1));
            let m1 = StateModel {
                next_bid_item_id: (iid + 1) as u32,
                bid_items: insert_entry(
                    m_cur.bid_items,
                    compose_key(auction_id.0, iid),
                    new_bid_item(rest[0]),
                ),
                bid_items_to_auctions: insert_entry(
                    m_cur.bid_items_to_auctions,
                    iid as u64,
                    AuctionId(auction_id.0),
                ),
                ..m_cur
            };
            assert(state.view() == m1);
            assert(add_items_spec(m_cur, auction_id.0, rest) == add_items_spec(
                m1,
                auction_id.0,
                rest.drop_first(),
            ));
        }
        i += 1;
    }
    proof {
        assert(bid_items.view().skip(n as int) =~= Seq::<String>::empty());
    }
}

} // verus!
