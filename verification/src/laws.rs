//! System-wide guarantees, each proved once and for all over the
//! operation specifications: item-count accounting, authorization and
//! rejection behaviour, the tie-break rule of the winning-bid index,
//! crank idempotence and bounded drainage, and pagination coverage.

use vstd::prelude::*;

use crate::bids::place_bid_spec;
use crate::crank::{
    active_item_keys, advance_crank_spec, complete_auctions_spec, crank_items_spec,
    crank_queue_spec, lemma_active_items_entries, lemma_complete_auction_inv,
    lemma_item_replace_inv, resolve_item_spec, CRANK_MAX_BID_ITEMS,
};
use crate::error::ContractError;
use crate::lifecycle::{add_bid_items_spec, create_auction_spec, lemma_add_items_effect};
use crate::state::{
    active_items, auction_item_count, bids_of_item, compose_key, inv, is_best, key_hi, key_lo,
    lemma_compose_key, outbids, Auction, AuctionId, AuctionStatus, Bid, BidId, BidItem,
    BidItemId, BidItemStatus, BidKey, StateModel, Transfer, KEY_SPAN,
};
use crate::store::{
    has_key, insert_entry, keys_of, lemma_insert_entry, lemma_lookup_entry, lemma_lookup_has_key,
    lemma_pages_contiguous, lookup, page_keys, remove_entry, sorted_entries,
};

verus! {

/// Listing auctions page by page — the second page cursored on the
/// first page's last id — yields one contiguous ascending prefix of
/// the full id sequence, with no overlap and no gap.
pub proof fn lemma_auction_pages_contiguous(m: StateModel, l1: nat, l2: nat)
    requires
        sorted_entries(m.auctions),
        l1 > 0,
        page_keys(m.auctions, None, l1).len() > 0,
    ensures
        ({
            let p1 = page_keys(m.auctions, None, l1);
            let p2 = page_keys(m.auctions, Some(p1.last()), l2);
            p1 + p2 == keys_of(m.auctions).take(
                if l1 + l2 <= m.auctions.len() {
                    (l1 + l2) as int
                } else {
                    m.auctions.len() as int
                },
            )
        }),
{
    lemma_pages_contiguous(m.auctions, l1, l2);
}

/// In every state the system can reach, an auction's
/// `available_bid_items` equals the number of bid items stored for it:
/// the count set at creation plus every later addition.
pub proof fn lemma_available_matches_item_count(m: StateModel, a: u64)
    requires
        inv(m),
        lookup(m.auctions, a) is Some,
    ensures
        a < KEY_SPAN,
        lookup(m.auctions, a).unwrap().available_bid_items == auction_item_count(
            m.bid_items,
            a as u32,
        ),
{
    lemma_lookup_entry(m.auctions, a);
    let i = choose|i: int|
        0 <= i < m.auctions.len() && (#[trigger] m.auctions[i]) == (
        a,
        lookup(m.auctions, a).unwrap(),
    );
    assert((a as u32) as u64 == a);
}

/// A successfully created auction starts with `available_bid_items`
/// equal to the number of item names passed in.
pub proof fn lemma_create_auction_available(
    m: StateModel,
    sender: String,
    name: String,
    items: Seq<String>,
)
    requires
        inv(m),
        m.next_auction_id < u32::MAX,
        m.next_bid_item_id + items.len() <= u32::MAX,
        sender.view() == m.admin.view(),
    ensures
        ({
            let s = create_auction_spec(m, sender, name, items);
            &&& s.1 is Ok
            &&& lookup(s.0.auctions, s.1.unwrap().0 as u64) is Some
            &&& lookup(s.0.auctions, s.1.unwrap().0 as u64).unwrap().available_bid_items
                == items.len()
        }),
{
    let aid = m.next_auction_id;
    let auction = Auction {
        name: name,
        available_bid_items: items.len() as u64,
        total_bids: 0,
        total_coins: 0,
        current_state: AuctionStatus::Active,
    };
    lemma_insert_entry(m.auctions, aid as u64, auction);
    let m1 = StateModel {
        next_auction_id: (aid + 1) as u32,
        auctions: insert_entry(m.auctions, aid as u64, auction),
        ..m
    };
    lemma_add_items_effect(m1, aid, items);
}

/// Appending items to an updateable auction raises its
/// `available_bid_items` by exactly the number of names passed in.
pub proof fn lemma_add_bid_items_available(
    m: StateModel,
    sender: String,
    auction_id: AuctionId,
    items: Seq<String>,
)
    requires
        inv(m),
        m.next_bid_item_id + items.len() <= u32::MAX,
        sender.view() == m.admin.view(),
        lookup(m.auctions, auction_id.0 as u64) is Some,
        lookup(m.auctions, auction_id.0 as u64).unwrap().current_state
            != AuctionStatus::PendingCompletion,
        lookup(m.auctions, auction_id.0 as u64).unwrap().current_state
            != AuctionStatus::Completed,
    ensures
        ({
            let s = add_bid_items_spec(m, sender, auction_id, items);
            &&& s.1 == Ok::<u64, ContractError>(items.len() as u64)
            &&& lookup(s.0.auctions, auction_id.0 as u64) is Some
            &&& lookup(s.0.auctions, auction_id.0 as u64).unwrap().available_bid_items == lookup(
                m.auctions,
                auction_id.0 as u64,
            ).unwrap().available_bid_items + items.len()
        }),
{
    let auction = lookup(m.auctions, auction_id.0 as u64).unwrap();
    lemma_lookup_entry(m.auctions, auction_id.0 as u64);
    let ei = choose|i: int|
        0 <= i < m.auctions.len() && (#[trigger] m.auctions[i]) == (
        auction_id.0 as u64,
        auction,
    );
    assert((auction_id.0 as u64) as u32 == auction_id.0);
    let updated = Auction {
        available_bid_items: (auction.available_bid_items + items.len()) as u64,
        ..auction
    };
    lemma_insert_entry(m.auctions, auction_id.0 as u64, updated);
    let m1 = StateModel {
        auctions: insert_entry(m.auctions, auction_id.0 as u64, updated),
        ..m
    };
    lemma_add_items_effect(m1, auction_id.0, items);
}

/// A non-admin caller of `create_auction` is rejected with
/// `Unauthorized`, and the state — in particular every auction and bid
/// item row — is left exactly as it was.
pub proof fn lemma_create_auction_unauthorized(
    m: StateModel,
    sender: String,
    name: String,
    items: Seq<String>,
)
    requires
        sender.view() != m.admin.view(),
    ensures
        create_auction_spec(m, sender, name, items).0 == m,
        create_auction_spec(m, sender, name, items).1 == Err::<AuctionId, ContractError>(
            ContractError::Unauthorized { sender },
        ),
{
}

/// `add_bid_items` on an auction pending completion or completed is
/// rejected with `AuctionNonUpdateable` and changes nothing.
pub proof fn lemma_add_bid_items_non_updateable(
    m: StateModel,
    sender: String,
    auction_id: AuctionId,
    items: Seq<String>,
)
    requires
        sender.view() == m.admin.view(),
        lookup(m.auctions, auction_id.0 as u64) is Some,
        lookup(m.auctions, auction_id.0 as u64).unwrap().current_state
            == AuctionStatus::PendingCompletion || lookup(
            m.auctions,
            auction_id.0 as u64,
        ).unwrap().current_state == AuctionStatus::Completed,
    ensures
        add_bid_items_spec(m, sender, auction_id, items).0 == m,
        add_bid_items_spec(m, sender, auction_id, items).1 == Err::<u64, ContractError>(
            ContractError::AuctionNonUpdateable,
        ),
{
}

/// `place_bid` on a bid item whose owning auction is no longer active
/// is rejected with `AuctionCompleted` and changes nothing.
pub proof fn lemma_place_bid_auction_completed(
    m: StateModel,
    sender: String,
    now: u64,
    bid_item_id: BidItemId,
    amount: u128,
)
    requires
        lookup(m.bid_items_to_auctions, bid_item_id.0 as u64) is Some,
        ({
            let aid = lookup(m.bid_items_to_auctions, bid_item_id.0 as u64).unwrap();
            &&& lookup(m.auctions, aid.0 as u64) is Some
            &&& lookup(m.auctions, aid.0 as u64).unwrap().current_state != AuctionStatus::Active
        }),
    ensures
        place_bid_spec(m, sender, now, bid_item_id, amount).0 == m,
        place_bid_spec(m, sender, now, bid_item_id, amount).1 == Err::<BidId, ContractError>(
            ContractError::AuctionCompleted,
        ),
{
}

/// Of two bids of the same amount placed on an item that had no bids
/// yet, at different times, the later one ends up recorded as the
/// item's winning bid.
pub proof fn lemma_later_equal_bid_wins(
    m: StateModel,
    bidder1: String,
    t1: u64,
    bidder2: String,
    t2: u64,
    bid_item_id: BidItemId,
    amount: u128,
)
    requires
        sorted_entries(m.bids),
        sorted_entries(m.winning_bids),
        m.next_bid_id + 1 < u32::MAX,
        lookup(m.bid_items_to_auctions, bid_item_id.0 as u64) is Some,
        ({
            let aid = lookup(m.bid_items_to_auctions, bid_item_id.0 as u64).unwrap();
            &&& lookup(m.auctions, aid.0 as u64) is Some
            &&& lookup(m.auctions, aid.0 as u64).unwrap().current_state == AuctionStatus::Active
        }),
        lookup(m.winning_bids, bid_item_id.0 as u64) is None,
        t2 > t1,
    ensures
        ({
            let s1 = place_bid_spec(m, bidder1, t1, bid_item_id, amount);
            let s2 = place_bid_spec(s1.0, bidder2, t2, bid_item_id, amount);
            &&& s1.1 is Ok
            &&& s2.1 is Ok
            &&& lookup(s2.0.winning_bids, bid_item_id.0 as u64) == Some(
                BidKey { bid_item_id: bid_item_id, bid_id: s2.1.unwrap() },
            )
        }),
{
    let item32 = bid_item_id.0;
    let item64 = item32 as u64;
    let bid_id1 = m.next_bid_id;
    let bid1 = Bid { amount: amount, bidder: bidder1, placed: t1 };
    let bk1 = compose_key(item32, bid_id1);
    let key1 = BidKey { bid_item_id: bid_item_id, bid_id: BidId(bid_id1) };
    lemma_compose_key(item32, bid_id1);
    lemma_insert_entry(m.bids, bk1, bid1);
    lemma_insert_entry(m.winning_bids, item64, key1);
    let s1 = place_bid_spec(m, bidder1, t1, bid_item_id, amount);
    assert(s1.0.winning_bids == insert_entry(m.winning_bids, item64, key1));
    assert(s1.0.bids == insert_entry(m.bids, bk1, bid1));
    assert(s1.0.next_bid_id == bid_id1 + 1);

    let bid_id2 = s1.0.next_bid_id;
    let bid2 = Bid { amount: amount, bidder: bidder2, placed: t2 };
    let bk2 = compose_key(item32, bid_id2);
    let key2 = BidKey { bid_item_id: bid_item_id, bid_id: BidId(bid_id2) };
    lemma_compose_key(item32, bid_id2);
    lemma_insert_entry(s1.0.bids, bk2, bid2);
    assert(bk2 != bk1);
    assert(lookup(insert_entry(s1.0.bids, bk2, bid2), bk1) == Some(bid1));
    assert(lookup(s1.0.winning_bids, item64) == Some(key1));
    assert(outbids(bid2, bid1));
    lemma_insert_entry(s1.0.winning_bids, item64, key2);
    let s2 = place_bid_spec(s1.0, bidder2, t2, bid_item_id, amount);
    assert(s2.0.winning_bids == insert_entry(s1.0.winning_bids, item64, key2));
}

/// Cranking with an empty queue performs no state change, emits no
/// transfer, and processes no item.
pub proof fn lemma_crank_idle(m: StateModel)
    requires
        m.crank_queue.len() == 0,
    ensures
        advance_crank_spec(m).0 == m,
        advance_crank_spec(m).1 == Seq::<Transfer>::empty(),
        advance_crank_spec(m).2 == 0,
{
}

/// Completing the item at the head of an auction's active list leaves
/// exactly the rest of the list active.
proof fn lemma_active_after_complete(items: Seq<(u64, BidItem)>, k: u64, v: BidItem, a: u32)
    requires
        sorted_entries(items),
        active_items(items, a).len() > 0,
        k == active_items(items, a)[0].0,
        v.current_state == BidItemStatus::Completed,
    ensures
        active_items(insert_entry(items, k, v), a) == active_items(items, a).drop_first(),
    decreases items.len(),
{
    let act = active_items(items, a);
    let ins = insert_entry(items, k, v);
    let h = items[0];
    let d = items.drop_first();
    assert(forall|i: int| 0 <= i < d.len() ==> (#[trigger] d[i]) == items[i + 1]);
    assert(sorted_entries(d));
    if key_hi(h.0) == a && h.1.current_state == BidItemStatus::Active {
        assert(act[0] == h);
        assert(k == h.0);
        assert(ins.drop_first() =~= d);
        assert(active_items(ins, a) == active_items(d, a));
        assert(act.drop_first() =~= active_items(d, a));
    } else {
        assert(act == active_items(d, a));
        lemma_active_items_entries(d, a);
        assert(d.contains(act[0]));
        let w = choose|w: int| 0 <= w < d.len() && (#[trigger] d[w]) == act[0];
        assert(items[w + 1] == act[0]);
        assert(items[0].0 < items[w + 1].0);
        assert(items[0].0 < k);
        lemma_active_after_complete(d, k, v, a);
        assert(ins[0] == h);
        assert(ins.drop_first() =~= insert_entry(d, k, v));
        assert(active_items(ins, a) == active_items(insert_entry(d, k, v), a));
    }
}

/// Running the crank over one auction's active items burns one unit of
/// budget per item, touches nothing but the item store, preserves the
/// invariant, and leaves `max(0, n - budget)` items active.
proof fn lemma_crank_items_run(m: StateModel, a: u32, b: nat)
    requires
        inv(m),
    ensures
        ({
            let ks = active_item_keys(m.bid_items, a);
            let res = crank_items_spec(m, ks, b);
            &&& inv(res.0)
            &&& res.0.auctions == m.auctions
            &&& res.0.crank_queue == m.crank_queue
            &&& res.0.bids == m.bids
            &&& res.0.winning_bids == m.winning_bids
            &&& res.0.bid_items_to_auctions == m.bid_items_to_auctions
            &&& res.0.admin == m.admin
            &&& res.0.next_auction_id == m.next_auction_id
            &&& res.0.next_bid_item_id == m.next_bid_item_id
            &&& res.0.next_bid_id == m.next_bid_id
            &&& active_items(res.0.bid_items, a).len() == (if ks.len() <= b {
                0int
            } else {
                ks.len() - b
            })
        }),
    decreases b,
{
    let act = active_items(m.bid_items, a);
    let ks = active_item_keys(m.bid_items, a);
    assert(ks.len() == act.len());
    if ks.len() == 0 || b == 0 {
        if ks.len() == 0 {
            assert(act.len() == 0);
        }
    } else {
        let k = ks[0];
        assert(k == act[0].0);
        lemma_active_items_entries(m.bid_items, a);
        assert(m.bid_items.contains(act[0]));
        let w = choose|w: int|
            0 <= w < m.bid_items.len() && (#[trigger] m.bid_items[w]) == act[0];
        assert(has_key(m.bid_items, k)) by {
            assert(m.bid_items[w].0 == k);
        }
        lemma_lookup_has_key(m.bid_items, k);
        let item = lookup(m.bid_items, k).unwrap();
        let step = resolve_item_spec(m, k);
        let m1 = step.0;
        if bids_of_item(m.bids, key_lo(k)).len() == 0 {
            let done = BidItem { current_state: BidItemStatus::Completed, ..item };
            lemma_item_replace_inv(m, k, done);
            lemma_active_after_complete(m.bid_items, k, done, a);
        } else {
            let wk = lookup(m.winning_bids, key_lo(k) as u64).unwrap();
            let wbid = lookup(m.bids, compose_key(key_lo(k), wk.bid_id.0)).unwrap();
            let done = BidItem {
                winner: Some(wbid.bidder),
                current_state: BidItemStatus::Completed,
                ..item
            };
            lemma_item_replace_inv(m, k, done);
            lemma_active_after_complete(m.bid_items, k, done, a);
        }
        assert(active_items(m1.bid_items, a) == act.drop_first());
        assert(active_item_keys(m1.bid_items, a) =~= ks.drop_first()) by {
            assert(forall|i: int|
                0 <= i < act.drop_first().len() ==> (#[trigger] active_item_keys(
                    m1.bid_items,
                    a,
                )[i]) == act.drop_first()[i].0 && act.drop_first()[i] == act[i + 1]
                    && ks.drop_first()[i] == ks[i + 1] && ks[i + 1] == act[i + 1].0);
        }
        lemma_crank_items_run(m1, a, (b - 1) as nat);
        assert(crank_items_spec(m1, active_item_keys(m1.bid_items, a), (b - 1) as nat)
            == crank_items_spec(m1, ks.drop_first(), (b - 1) as nat));
    }
}

/// One crank invocation on a queue holding exactly one auction: with
/// at most `CRANK_MAX_BID_ITEMS` active items the auction is completed
/// and dequeued; with more, exactly `CRANK_MAX_BID_ITEMS` items are
/// resolved and the auction stays queued.
proof fn lemma_crank_single_auction(m: StateModel, a: u64)
    requires
        inv(m),
        m.crank_queue == seq![(a, ())],
    ensures
        ({
            let n = active_items(m.bid_items, a as u32).len();
            let res = advance_crank_spec(m).0;
            &&& inv(res)
            &&& (n <= CRANK_MAX_BID_ITEMS ==> (lookup(res.auctions, a) is Some && lookup(
                res.auctions,
                a,
            ).unwrap().current_state == AuctionStatus::Completed && res.crank_queue.len() == 0))
            &&& (n > CRANK_MAX_BID_ITEMS ==> (res.crank_queue == m.crank_queue && res.auctions
                == m.auctions && active_items(res.bid_items, a as u32).len() == n
                - CRANK_MAX_BID_ITEMS))
        }),
{
    let q = m.crank_queue;
    assert(q[0] == (a, ()));
    assert(lookup(m.auctions, a) is Some);
    lemma_lookup_entry(m.auctions, a);
    let ax = choose|i: int|
        0 <= i < m.auctions.len() && (#[trigger] m.auctions[i]) == (
        a,
        lookup(m.auctions, a).unwrap(),
    );
    assert(a < KEY_SPAN);
    assert(((a as u32) as u64) == a);
    let a32 = a as u32;
    assert((q[0].0 as u32) == a32);
    let ks = active_item_keys(m.bid_items, a32);
    let n = active_items(m.bid_items, a32).len();
    assert(ks.len() == n);
    lemma_crank_items_run(m, a32, CRANK_MAX_BID_ITEMS as nat);
    let step = crank_items_spec(m, ks, CRANK_MAX_BID_ITEMS as nat);
    assert(q.drop_first() =~= Seq::<(u64, ())>::empty());
    let used: nat = if ks.len() <= CRANK_MAX_BID_ITEMS as nat {
        ks.len()
    } else {
        CRANK_MAX_BID_ITEMS as nat
    };
    let rest = crank_queue_spec(
        step.0,
        q.drop_first(),
        ((CRANK_MAX_BID_ITEMS as nat) - used) as nat,
    );
    assert(rest.0 == step.0);
    assert(rest.3 == Seq::<u64>::empty());
    let pass = crank_queue_spec(m, q, CRANK_MAX_BID_ITEMS as nat);
    assert(pass.0 == rest.0);
    assert(pass.3 == (if ks.len() <= CRANK_MAX_BID_ITEMS as nat {
        seq![q[0].0]
    } else {
        Seq::<u64>::empty()
    }) + rest.3);
    if n <= CRANK_MAX_BID_ITEMS {
        assert(pass.3 == seq![a] + Seq::<u64>::empty());
        assert(pass.3 =~= seq![a]);
        assert(lookup(step.0.auctions, a) is Some);
        lemma_complete_auction_inv(step.0, a);
        let auction = lookup(step.0.auctions, a).unwrap();
        let updated = Auction { current_state: AuctionStatus::Completed, ..auction };
        lemma_insert_entry(step.0.auctions, a, updated);
        let m1c = StateModel {
            auctions: insert_entry(step.0.auctions, a, updated),
            crank_queue: remove_entry(step.0.crank_queue, a),
            ..step.0
        };
        assert(seq![a].drop_first() =~= Seq::<u64>::empty());
        assert(complete_auctions_spec(m1c, seq![a].drop_first()) == m1c);
        assert(complete_auctions_spec(step.0, seq![a]) == m1c);
        assert(remove_entry(step.0.crank_queue, a) =~= Seq::<(u64, ())>::empty()) by {
            assert(step.0.crank_queue == q);
            assert(q[0].0 == a);
            assert(q.drop_first() =~= Seq::<(u64, ())>::empty());
        }
        assert(lookup(m1c.auctions, a) == Some(updated));
    } else {
        assert(pass.3 == Seq::<u64>::empty() + Seq::<u64>::empty());
        assert(pass.3 =~= Seq::<u64>::empty());
        assert(complete_auctions_spec(step.0, pass.3) == step.0);
    }
}

/// Resolving a bid item with bids completes it and records as winner
/// the bidder of a recorded bid preferred over every bid on the item —
/// highest amount, later placement winning ties.
pub proof fn lemma_crank_winner_is_best(m: StateModel, k: u64)
    requires
        inv(m),
        has_key(m.bid_items, k),
        bids_of_item(m.bids, key_lo(k)).len() > 0,
    ensures
        ({
            let r = resolve_item_spec(m, k).0;
            let item = lookup(r.bid_items, k).unwrap();
            &&& item.current_state == BidItemStatus::Completed
            &&& exists|wid: u32|
                #[trigger] is_best(
                    m.bids,
                    key_lo(k),
                    BidKey { bid_item_id: BidItemId(key_lo(k)), bid_id: BidId(wid) },
                ) && item.winner == Some(
                    lookup(m.bids, compose_key(key_lo(k), wid)).unwrap().bidder,
                )
        }),
{
    let item32 = key_lo(k);
    crate::crank::lemma_bids_of_item_witness(m.bids, item32);
    let j = choose|j: int| 0 <= j < m.bids.len() && key_hi((#[trigger] m.bids[j]).0) == item32;
    assert(has_key(m.winning_bids, item32 as u64));
    lemma_lookup_has_key(m.winning_bids, item32 as u64);
    let wk = lookup(m.winning_bids, item32 as u64).unwrap();
    lemma_lookup_entry(m.winning_bids, item32 as u64);
    let w = choose|w: int|
        0 <= w < m.winning_bids.len() && (#[trigger] m.winning_bids[w]) == (item32 as u64, wk);
    assert(is_best(m.bids, item32, wk)) by {
        assert(((item32 as u64) as u32) == item32);
    }
    lemma_lookup_has_key(m.bid_items, k);
    let item0 = lookup(m.bid_items, k).unwrap();
    let wbid = lookup(m.bids, compose_key(item32, wk.bid_id.0)).unwrap();
    let done = BidItem {
        winner: Some(wbid.bidder),
        current_state: BidItemStatus::Completed,
        ..item0
    };
    lemma_insert_entry(m.bid_items, k, done);
    let wkey = BidKey { bid_item_id: BidItemId(item32), bid_id: BidId(wk.bid_id.0) };
    assert(wkey == wk);
    assert(is_best(m.bids, key_lo(k), wkey));
}

/// Resolving a bid item that has no bids completes it with no winner
/// recorded and emits no transfer.
pub proof fn lemma_crank_no_bids_no_winner(m: StateModel, k: u64)
    requires
        inv(m),
        has_key(m.bid_items, k),
        lookup(m.bid_items, k).unwrap().current_state == BidItemStatus::Active,
        bids_of_item(m.bids, key_lo(k)).len() == 0,
    ensures
        ({
            let s = resolve_item_spec(m, k);
            &&& lookup(s.0.bid_items, k).unwrap().current_state == BidItemStatus::Completed
            &&& lookup(s.0.bid_items, k).unwrap().winner is None
            &&& s.1 == Seq::<Transfer>::empty()
        }),
{
    lemma_lookup_has_key(m.bid_items, k);
    let item = lookup(m.bid_items, k).unwrap();
    lemma_lookup_entry(m.bid_items, k);
    let j = choose|j: int|
        0 <= j < m.bid_items.len() && (#[trigger] m.bid_items[j]) == (k, item);
    assert(item.winner is None);
    let done = BidItem { current_state: BidItemStatus::Completed, ..item };
    lemma_insert_entry(m.bid_items, k, done);
}

/// Crank invocations applied one after another.
pub open spec fn iterate_crank(m: StateModel, rounds: nat) -> StateModel
    decreases rounds,
{
    if rounds == 0 {
        m
    } else {
        iterate_crank(advance_crank_spec(m).0, (rounds - 1) as nat)
    }
}

/// Once the queue is empty, further crank invocations change nothing.
pub proof fn lemma_iterate_idle(m: StateModel, rounds: nat)
    requires
        m.crank_queue.len() == 0,
    ensures
        iterate_crank(m, rounds) == m,
    decreases rounds,
{
    if rounds > 0 {
        lemma_crank_idle(m);
        lemma_iterate_idle(m, (rounds - 1) as nat);
    }
}

/// An auction queued alone for the crank, with `n` active items,
/// reaches `Completed` and leaves the queue after any number of crank
/// invocations that covers `n` at `CRANK_MAX_BID_ITEMS` items each —
/// that is, after ceiling(n / CRANK_MAX_BID_ITEMS) invocations, and
/// harmlessly under any further ones.
pub proof fn lemma_crank_drains_auction(m: StateModel, a: u64, rounds: nat)
    requires
        inv(m),
        m.crank_queue == seq![(a, ())],
        rounds >= 1,
        (CRANK_MAX_BID_ITEMS as nat) * rounds >= active_items(m.bid_items, a as u32).len(),
    ensures
        ({
            let m2 = iterate_crank(m, rounds);
            &&& lookup(m2.auctions, a) is Some
            &&& lookup(m2.auctions, a).unwrap().current_state == AuctionStatus::Completed
            &&& m2.crank_queue.len() == 0
        }),
    decreases rounds,
{
    let n = active_items(m.bid_items, a as u32).len();
    lemma_crank_single_auction(m, a);
    let m1 = advance_crank_spec(m).0;
    if n <= CRANK_MAX_BID_ITEMS {
        lemma_iterate_idle(m1, (rounds - 1) as nat);
    } else {
        assert(rounds >= 2);
        lemma_crank_drains_auction(m1, a, (rounds - 1) as nat);
    }
}

} // verus!

