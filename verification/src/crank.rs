//! The crank engine: the bounded, repeatable settlement step. Each
//! invocation drains at most `CRANK_MAX_BID_ITEMS` bid items across the
//! queued auctions in ascending id order, resolves each item's winner
//! from the winning-bid index, emits the payout transfers, and
//! completes auctions whose items are all resolved.

use vstd::prelude::*;

use crate::state::{
    active_items, auction_item_count, auctions_wf, bid_items_wf, bid_store_key, bids_of_item,
    bids_wf, compose_key, counts_wf, inv, is_best, item_store_key, key_hi, key_lo,
    lemma_compose_key, lemma_item_keys_same_keys, lemma_key_recompose, queue_wf,
    reverse_index_wf, unresolved_wf, winning_bids_wf, Auction, AuctionId, AuctionStatus, Bid,
    BidId, BidItem, BidItemId, BidItemStatus, State, StateModel, Transfer, KEY_SPAN,
};
use crate::store::{
    has_key, insert_entry, lemma_entry_lookup, lemma_insert_entry, lemma_lookup_entry,
    lemma_lookup_has_key, lemma_remove_entry, lookup, remove_entry,
};

verus! {

/// How many bid items one crank invocation may fully resolve.
pub const CRANK_MAX_BID_ITEMS: u32 = 3;

/// The payout one recorded bid gives rise to: the winning bid's amount
/// goes to the admin, any other bid is refunded to its bidder.
pub open spec fn transfer_for(admin: String, winning_bid_id: BidId, e: (BidId, Bid)) -> Transfer {
    Transfer {
        to: if e.0 == winning_bid_id {
            admin
        } else {
            e.1.bidder
        },
        amount: e.1.amount,
    }
}

/// The payouts for all bids on one item, in ascending bid-id order.
pub open spec fn transfers_for(
    admin: String,
    winning_bid_id: BidId,
    bids: Seq<(BidId, Bid)>,
) -> Seq<Transfer> {
    bids.map_values(|e: (BidId, Bid)| transfer_for(admin, winning_bid_id, e))
}

/// What resolving one bid item does: with no bids, the item is simply
/// completed; otherwise the winning-bid index names the winner, every
/// bid produces a transfer, and the item is completed with the winner
/// recorded.
pub open spec fn resolve_item_spec(m: StateModel, k: u64) -> (StateModel, Seq<Transfer>) {
    let item = lookup(m.bid_items, k).unwrap();
    let ibids = bids_of_item(m.bids, key_lo(k));
    if ibids.len() == 0 {
        let done = BidItem { current_state: BidItemStatus::Completed, ..item };
        (StateModel { bid_items: insert_entry(m.bid_items, k, done), ..m }, Seq::empty())
    } else {
        let wk = lookup(m.winning_bids, key_lo(k) as u64).unwrap();
        let wbid = lookup(m.bids, compose_key(key_lo(k), wk.bid_id.0)).unwrap();
        let done = BidItem {
            winner: Some(wbid.bidder),
            current_state: BidItemStatus::Completed,
            ..item
        };
        (
            StateModel { bid_items: insert_entry(m.bid_items, k, done), ..m },
            transfers_for(m.admin, wk.bid_id, ibids),
        )
    }
}

/// Resolves the given items in order until the budget runs out.
pub open spec fn crank_items_spec(m: StateModel, ks: Seq<u64>, budget: nat) -> (
    StateModel,
    Seq<Transfer>,
)
    decreases ks.len(),
{
    if ks.len() == 0 || budget == 0 {
        (m, Seq::empty())
    } else {
        let step = resolve_item_spec(m, ks[0]);
        let rest = crank_items_spec(step.0, ks.drop_first(), (budget - 1) as nat);
        (rest.0, step.1 + rest.1)
    }
}

/// The keys of one auction's active items, in ascending order.
pub open spec fn active_item_keys(items: Seq<(u64, BidItem)>, a: u32) -> Seq<u64> {
    active_items(items, a).map_values(|e: (u64, BidItem)| e.0)
}

/// Walks the queued auctions in ascending id order, resolving each
/// one's active items while budget remains, and collects the auctions
/// left with no active item. Yields the state, the transfers, the
/// budget left, and the auctions to complete.
///
/// Every queued auction is visited even once the budget is exhausted:
/// an auction that already has zero active items is still collected
/// for completion, since the queue holds exactly the auctions not yet
/// fully drained. Resolving items, by contrast, always spends budget,
/// so an exhausted budget leaves every remaining active item exactly
/// as it was.
pub open spec fn crank_queue_spec(m: StateModel, q: Seq<(u64, ())>, budget: nat) -> (
    StateModel,
    Seq<Transfer>,
    nat,
    Seq<u64>,
)
    decreases q.len(),
{
    if q.len() == 0 {
        (m, Seq::empty(), budget, Seq::empty())
    } else {
        let a = q[0].0 as u32;
        let ks = active_item_keys(m.bid_items, a);
        let step = crank_items_spec(m, ks, budget);
        let used: nat = if ks.len() <= budget {
            ks.len()
        } else {
            budget
        };
        let completed_here: Seq<u64> = if ks.len() <= budget {
            seq![q[0].0]
        } else {
            Seq::empty()
        };
        let rest = crank_queue_spec(step.0, q.drop_first(), (budget - used) as nat);
        (rest.0, step.1 + rest.1, rest.2, completed_here + rest.3)
    }
}

/// Marks each listed auction `Completed` and takes it out of the crank
/// queue.
pub open spec fn complete_auctions_spec(m: StateModel, cs: Seq<u64>) -> StateModel
    decreases cs.len(),
{
    if cs.len() == 0 {
        m
    } else {
        let a = cs[0];
        let auction = lookup(m.auctions, a).unwrap();
        let m1 = StateModel {
            auctions: insert_entry(
                m.auctions,
                a,
                Auction { current_state: AuctionStatus::Completed, ..auction },
            ),
            crank_queue: remove_entry(m.crank_queue, a),
            ..m
        };
        complete_auctions_spec(m1, cs.drop_first())
    }
}

/// What one crank invocation does: the state after, the transfers
/// emitted, and how many items were resolved.
pub open spec fn advance_crank_spec(m: StateModel) -> (StateModel, Seq<Transfer>, nat) {
    let pass = crank_queue_spec(m, m.crank_queue, CRANK_MAX_BID_ITEMS as nat);
    (
        complete_auctions_spec(pass.0, pass.3),
        pass.1,
        (CRANK_MAX_BID_ITEMS as nat - pass.2) as nat,
    )
}

/// Every active item of auction `a` is a stored entry with key prefix
/// `a` and status `Active`.
pub proof fn lemma_active_items_entries(items: Seq<(u64, BidItem)>, a: u32)
    ensures
        forall|i: int|
            0 <= i < active_items(items, a).len() ==> {
                let e = #[trigger] active_items(items, a)[i];
                &&& items.contains(e)
                &&& key_hi(e.0) == a
                &&& e.1.current_state == BidItemStatus::Active
            },
    decreases items.len(),
{
    if items.len() > 0 {
        let d = items.drop_first();
        lemma_active_items_entries(d, a);
        let act = active_items(items, a);
        assert forall|i: int| 0 <= i < act.len() implies {
            let e = #[trigger] act[i];
            &&& items.contains(e)
            &&& key_hi(e.0) == a
            &&& e.1.current_state == BidItemStatus::Active
        } by {
            if key_hi(items[0].0) == a && items[0].1.current_state == BidItemStatus::Active {
                if i == 0 {
                    assert(items[0] == act[0]);
                } else {
                    assert(act[i] == active_items(d, a)[i - 1]);
                    assert(d.contains(act[i]));
                    let j = choose|j: int| 0 <= j < d.len() && (#[trigger] d[j]) == act[i];
                    assert(items[j + 1] == act[i]);
                }
            } else {
                assert(act[i] == active_items(d, a)[i]);
                assert(d.contains(act[i]));
                let j = choose|j: int| 0 <= j < d.len() && (#[trigger] d[j]) == act[i];
                assert(items[j + 1] == act[i]);
            }
        }
    }
}

/// An item with at least one recorded bid appears among the bid
/// entries.
pub proof fn lemma_bids_of_item_witness(bids: Seq<(u64, Bid)>, i: u32)
    requires
        bids_of_item(bids, i).len() > 0,
    ensures
        exists|j: int| 0 <= j < bids.len() && key_hi((#[trigger] bids[j]).0) == i,
    decreases bids.len(),
{
    if bids.len() > 0 {
        if key_hi(bids[0].0) == i {
            assert(key_hi(bids[0].0) == i);
        } else {
            lemma_bids_of_item_witness(bids.drop_first(), i);
            let j = choose|j: int|
                0 <= j < bids.drop_first().len() && key_hi(
                    (#[trigger] bids.drop_first()[j]).0,
                ) == i;
            assert(key_hi(bids[j + 1].0) == i);
        }
    }
}

/// Replacing the value of a stored bid item preserves the system
/// invariant: the invariant constrains only the keys of the item store.
pub proof fn lemma_item_replace_inv(m: StateModel, k: u64, v: BidItem)
    requires
        inv(m),
        has_key(m.bid_items, k),
        v.current_state == BidItemStatus::Active ==> v.winner is None,
    ensures
        inv(StateModel { bid_items: insert_entry(m.bid_items, k, v), ..m }),
        forall|k2: u64|
            has_key(insert_entry(m.bid_items, k, v), k2) <==> #[trigger] has_key(m.bid_items, k2),
{
    lemma_insert_entry(m.bid_items, k, v);
    let bi1 = insert_entry(m.bid_items, k, v);
    let r = StateModel { bid_items: bi1, ..m };
    assert(forall|k2: u64| has_key(bi1, k2) <==> #[trigger] has_key(m.bid_items, k2)) by {
        assert forall|k2: u64| has_key(bi1, k2) <==> #[trigger] has_key(m.bid_items, k2) by {
            lemma_lookup_has_key(bi1, k2);
            lemma_lookup_has_key(m.bid_items, k2);
            if k2 == k {
            } else {
                assert(lookup(bi1, k2) == lookup(m.bid_items, k2));
            }
        }
    }
    assert(bid_items_wf(r)) by {
        assert forall|i: int| 0 <= i < r.bid_items.len() implies {
            let k2 = (#[trigger] r.bid_items[i]).0;
            &&& key_lo(k2) < r.next_bid_item_id
            &&& has_key(r.auctions, key_hi(k2) as u64)
            &&& lookup(r.bid_items_to_auctions, key_lo(k2) as u64) == Some(AuctionId(key_hi(k2)))
        } by {
            let k2 = r.bid_items[i].0;
            assert(has_key(bi1, k2)) by {
                assert(bi1[i].0 == k2);
            }
            assert(has_key(m.bid_items, k2));
            let j = choose|j: int|
                0 <= j < m.bid_items.len() && (#[trigger] m.bid_items[j]).0 == k2;
        }
    }
    assert(unresolved_wf(r)) by {
        assert forall|i: int|
            0 <= i < r.bid_items.len() && (#[trigger] r.bid_items[i]).1.current_state
                == BidItemStatus::Active implies r.bid_items[i].1.winner is None by {
            if bi1[i] == (k, v) {
            } else {
                assert(m.bid_items.contains(bi1[i]));
                let j = choose|j: int|
                    0 <= j < m.bid_items.len() && (#[trigger] m.bid_items[j]) == bi1[i];
            }
        }
    }
    assert(reverse_index_wf(r)) by {
        assert forall|i: int| 0 <= i < r.bid_items_to_auctions.len() implies {
            let e = #[trigger] r.bid_items_to_auctions[i];
            &&& e.0 < r.next_bid_item_id as u64
            &&& has_key(r.bid_items, compose_key(e.1.0, e.0 as u32))
        } by {
            let e = r.bid_items_to_auctions[i];
            assert(has_key(m.bid_items, compose_key(e.1.0, e.0 as u32)));
        }
    }
    assert(counts_wf(r)) by {
        assert(forall|i: int|
            0 <= i < m.bid_items.len() ==> (#[trigger] m.bid_items[i]).0 == bi1[i].0) by {
            assert forall|i: int|
                0 <= i < m.bid_items.len() implies (#[trigger] m.bid_items[i]).0 == bi1[i].0 by {
                assert(crate::store::keys_of(m.bid_items)[i] == m.bid_items[i].0);
                assert(crate::store::keys_of(bi1)[i] == bi1[i].0);
            }
        }
        lemma_item_keys_same_keys_all(m.bid_items, bi1);
        assert forall|i: int| 0 <= i < r.auctions.len() implies {
            let e = #[trigger] r.auctions[i];
            &&& e.0 < KEY_SPAN
            &&& e.1.available_bid_items == auction_item_count(r.bid_items, e.0 as u32)
            &&& auction_item_count(r.bid_items, e.0 as u32) <= r.next_bid_item_id
        } by {
            let e = r.auctions[i];
            assert(auction_item_count(bi1, e.0 as u32) == auction_item_count(
                m.bid_items,
                e.0 as u32,
            ));
        }
    }
}

/// A value replacement keeps every auction's item count, whatever the
/// auction.
proof fn lemma_item_keys_same_keys_all(s: Seq<(u64, BidItem)>, s2: Seq<(u64, BidItem)>)
    requires
        s.len() == s2.len(),
        forall|i: int| 0 <= i < s.len() ==> (#[trigger] s[i]).0 == s2[i].0,
    ensures
        forall|a: u32| #[trigger] auction_item_count(s2, a) == auction_item_count(s, a),
{
    assert forall|a: u32| #[trigger] auction_item_count(s2, a) == auction_item_count(s, a) by {
        lemma_item_keys_same_keys(s, s2, a);
    }
}

/// All bids recorded for one bid item, as id-value pairs in ascending
/// bid-id order.
pub fn get_bids_from_bid_item_id(state: &State, bid_item_id: BidItemId) -> (r: Vec<(BidId, Bid)>)
    ensures
        r.view() == bids_of_item(state.view().bids, bid_item_id.0),
{
    let ghost s = state.view().bids;
    let mut r: Vec<(BidId, Bid)> = Vec::new();
    let n = state.bids.len();
    let mut i: usize = 0;
    proof {
        assert(s.subrange(0, n as int) =~= s);
        assert(Seq::<(BidId, Bid)>::empty() + bids_of_item(s, bid_item_id.0) =~= bids_of_item(
            s,
            bid_item_id.0,
        ));
    }
    while i < n
        invariant
            i <= n,
            n == s.len(),
            s == state.view().bids,
            bids_of_item(s, bid_item_id.0) == r.view() + bids_of_item(
                s.subrange(i as int, n as int),
                bid_item_id.0,
            ),
        decreases n - i,
    {
        let k = state.bids.key_at(i);
        let ghost rem = s.subrange(i as int, n as int);
        proof {
            assert(rem[0] == s[i as int]);
            assert(rem.drop_first() =~= s.subrange(i as int + 1, n as int));
        }
        let (hi, lo) = crate::state::split_key(k);
        if hi == bid_item_id.0 {
            let v = state.bids.value_at(i).clone();
            let ghost r0 = r.view();
            r.push((BidId(lo), v));
            proof {
                assert(r.view() =~= r0 + seq![(BidId(lo), v)]);
                assert((r0 + seq![(BidId(lo), v)]) + bids_of_item(rem.drop_first(), bid_item_id.0)
                    =~= r0 + (seq![(BidId(lo), v)] + bids_of_item(
                    rem.drop_first(),
                    bid_item_id.0,
                )));
            }
        }
        i += 1;
    }
    proof {
        assert(s.subrange(n as int, n as int) =~= Seq::<(u64, Bid)>::empty());
        assert(r.view() + Seq::<(BidId, Bid)>::empty() =~= r.view());
    }
    r
}

/// The bid items of one auction still awaiting resolution, in
/// ascending item-id order.
pub fn get_pending_bid_items_by_auction_id(state: &State, auction_id: AuctionId) -> (r: Vec<
    (BidItemId, BidItem),
>)
    ensures
        ({
            let act = active_items(state.view().bid_items, auction_id.0);
            &&& r.view().len() == act.len()
            &&& forall|i: int|
                0 <= i < act.len() ==> (#[trigger] r.view()[i]) == (
                    BidItemId(key_lo(act[i].0)),
                    act[i].1,
                )
        }),
{
    let ghost s = state.view().bid_items;
    let mut r: Vec<(BidItemId, BidItem)> = Vec::new();
    let ghost mut acc: Seq<(u64, BidItem)> = Seq::empty();
    let n = state.bid_items.len();
    let mut i: usize = 0;
    proof {
        assert(s.subrange(0, n as int) =~= s);
        assert(Seq::<(u64, BidItem)>::empty() + active_items(s, auction_id.0) =~= active_items(
            s,
            auction_id.0,
        ));
    }
    while i < n
        invariant
            i <= n,
            n == s.len(),
            s == state.view().bid_items,
            active_items(s, auction_id.0) == acc + active_items(
                s.subrange(i as int, n as int),
                auction_id.0,
            ),
            r.view().len() == acc.len(),
            forall|j: int|
                0 <= j < acc.len() ==> (#[trigger] r.view()[j]) == (
                    BidItemId(key_lo(acc[j].0)),
                    acc[j].1,
                ),
        decreases n - i,
    {
        let k = state.bid_items.key_at(i);
        let ghost rem = s.subrange(i as int, n as int);
        proof {
            assert(rem[0] == s[i as int]);
            assert(rem.drop_first() =~= s.subrange(i as int + 1, n as int));
        }
        let (hi, lo) = crate::state::split_key(k);
        let is_active = match state.bid_items.value_at(i).current_state {
            BidItemStatus::Active => true,
            BidItemStatus::Completed => false,
        };
        if hi == auction_id.0 && is_active {
            let v = state.bid_items.value_at(i).clone();
            let ghost r0 = r.view();
            let ghost entry = s[i as int];
            r.push((BidItemId(lo), v));
            proof {
                let acc0 = acc;
                acc = acc + seq![entry];
                assert(r.view() =~= r0 + seq![(BidItemId(lo), v)]);
                assert((acc0 + seq![entry]) + active_items(rem.drop_first(), auction_id.0) =~= acc0
                    + (seq![entry] + active_items(rem.drop_first(), auction_id.0)));
            }
        }
        i += 1;
    }
    proof {
        assert(s.subrange(n as int, n as int) =~= Seq::<(u64, BidItem)>::empty());
        assert(acc + Seq::<(u64, BidItem)>::empty() =~= acc);
    }
    r
}

/// The payout transfers for one resolved item's bids: the winning bid's
/// amount to the admin, every other bid refunded to its own bidder.
pub fn process_bids(state: &State, winning_bid_id: BidId, bids: &Vec<(BidId, Bid)>) -> (r: Vec<
    Transfer,
>)
    ensures
        r.view() == transfers_for(state.view().admin, winning_bid_id, bids.view()),
{
    let mut r: Vec<Transfer> = Vec::new();
    let n = bids.len();
    let mut i: usize = 0;
    while i < n
        invariant
            i <= n,
            n == bids.view().len(),
            r.view().len() == i,
            forall|j: int|
                0 <= j < i ==> (#[trigger] r.view()[j]) == transfer_for(
                    state.view().admin,
                    winning_bid_id,
                    bids.view()[j],
                ),
        decreases n - i,
    {
        let e = &bids[i];
        let to = if e.0 == winning_bid_id {
            state.admin.clone()
        } else {
            e.1.bidder.clone()
        };
        r.push(Transfer { to: to, amount: e.1.amount });
        i += 1;
    }
    proof {
        assert(r.view() =~= transfers_for(state.view().admin, winning_bid_id, bids.view()));
    }
    r
}

/// Completing one auction preserves the system invariant.
pub proof fn lemma_complete_auction_inv(m: StateModel, a: u64)
    requires
        inv(m),
        lookup(m.auctions, a) is Some,
    ensures
        ({
            let auction = lookup(m.auctions, a).unwrap();
            let r = StateModel {
                auctions: insert_entry(
                    m.auctions,
                    a,
                    Auction { current_state: AuctionStatus::Completed, ..auction },
                ),
                crank_queue: remove_entry(m.crank_queue, a),
                ..m
            };
            inv(r)
        }),
{
    let auction = lookup(m.auctions, a).unwrap();
    let updated = Auction { current_state: AuctionStatus::Completed, ..auction };
    lemma_insert_entry(m.auctions, a, updated);
    lemma_remove_entry(m.crank_queue, a);
    lemma_lookup_entry(m.auctions, a);
    let ax = choose|i: int| 0 <= i < m.auctions.len() && (#[trigger] m.auctions[i]) == (a, auction);
    let r = StateModel {
        auctions: insert_entry(m.auctions, a, updated),
        crank_queue: remove_entry(m.crank_queue, a),
        ..m
    };
    assert(auctions_wf(r)) by {
        assert forall|i: int| 0 <= i < r.auctions.len() implies (#[trigger] r.auctions[i]).0
            < r.next_auction_id as u64 by {
            lemma_entry_lookup(r.auctions, i);
            let e = r.auctions[i];
            if e.0 == a {
            } else {
                lemma_lookup_entry(m.auctions, e.0);
                let j = choose|j: int|
                    0 <= j < m.auctions.len() && (#[trigger] m.auctions[j]) == (
                    e.0,
                    lookup(m.auctions, e.0).unwrap(),
                );
            }
        }
    }
    assert(bid_items_wf(r)) by {
        assert forall|i: int| 0 <= i < r.bid_items.len() implies {
            let k = (#[trigger] r.bid_items[i]).0;
            &&& key_lo(k) < r.next_bid_item_id
            &&& has_key(r.auctions, key_hi(k) as u64)
            &&& lookup(r.bid_items_to_auctions, key_lo(k) as u64) == Some(AuctionId(key_hi(k)))
        } by {
            let k = r.bid_items[i].0;
            assert(has_key(m.auctions, key_hi(k) as u64));
            lemma_lookup_has_key(m.auctions, key_hi(k) as u64);
            assert(lookup(r.auctions, key_hi(k) as u64) is Some);
            lemma_lookup_has_key(r.auctions, key_hi(k) as u64);
        }
    }
    assert(reverse_index_wf(r));
    assert(bids_wf(r));
    assert(winning_bids_wf(r));
    assert(queue_wf(r)) by {
        assert forall|i: int| 0 <= i < r.crank_queue.len() implies {
            let qa = (#[trigger] r.crank_queue[i]).0;
            match lookup(r.auctions, qa) {
                Some(auc) => auc.current_state == AuctionStatus::PendingCompletion,
                None => false,
            }
        } by {
            let qa = r.crank_queue[i].0;
            assert(qa != a);
            assert(m.crank_queue.contains(r.crank_queue[i]));
            let j = choose|j: int|
                0 <= j < m.crank_queue.len() && (#[trigger] m.crank_queue[j]) == r.crank_queue[i];
            assert(lookup(r.auctions, qa) == lookup(m.auctions, qa));
        }
        assert forall|i: int|
            0 <= i < r.auctions.len() && (#[trigger] r.auctions[i]).1.current_state
                == AuctionStatus::PendingCompletion implies has_key(
            r.crank_queue,
            r.auctions[i].0,
        ) by {
            lemma_entry_lookup(r.auctions, i);
            let e = r.auctions[i];
            if e.0 == a {
                assert(e.1 == updated);
            } else {
                lemma_lookup_entry(m.auctions, e.0);
                let j = choose|j: int|
                    0 <= j < m.auctions.len() && (#[trigger] m.auctions[j]) == (
                    e.0,
                    lookup(m.auctions, e.0).unwrap(),
                );
                assert(has_key(m.crank_queue, e.0));
                lemma_lookup_has_key(m.crank_queue, e.0);
                assert(lookup(r.crank_queue, e.0) == lookup(m.crank_queue, e.0));
                lemma_lookup_has_key(r.crank_queue, e.0);
            }
        }
    }
    assert(counts_wf(r)) by {
        assert forall|i: int| 0 <= i < r.auctions.len() implies {
            let e = #[trigger] r.auctions[i];
            &&& e.0 < KEY_SPAN
            &&& e.1.available_bid_items == auction_item_count(r.bid_items, e.0 as u32)
            &&& auction_item_count(r.bid_items, e.0 as u32) <= r.next_bid_item_id
        } by {
            lemma_entry_lookup(r.auctions, i);
            let e = r.auctions[i];
            if e.0 == a {
                assert(e.1 == updated);
            } else {
                lemma_lookup_entry(m.auctions, e.0);
                let j = choose|j: int|
                    0 <= j < m.auctions.len() && (#[trigger] m.auctions[j]) == (
                    e.0,
                    lookup(m.auctions, e.0).unwrap(),
                );
            }
        }
    }
}

/// The queued auction ids, in ascending order, as the crank will visit
/// them.
#[verifier::loop_isolation(false)]
pub fn extract_auction_ids_to_process(state: &State) -> (r: Vec<AuctionId>)
    requires
        state.wf(),
    ensures
        r.view().len() == state.view().crank_queue.len(),
        forall|i: int|
            0 <= i < r.view().len() ==> (#[trigger] r.view()[i]).0 as u64
                == state.view().crank_queue[i].0,
{
    let mut r: Vec<AuctionId> = Vec::new();
    let n = state.crank_queue.len();
    let mut i: usize = 0;
    while i < n
        invariant
            i <= n,
            r.view().len() == i,
            forall|j: int|
                0 <= j < i ==> (#[trigger] r.view()[j]).0 as u64
                    == state.view().crank_queue[j].0,
        decreases n - i,
    {
        let a = state.crank_queue.key_at(i);
        proof {
            let q = state.view().crank_queue;
            assert(lookup(state.view().auctions, q[i as int].0) is Some);
            lemma_lookup_entry(state.view().auctions, q[i as int].0);
            let j = choose|j: int|
                0 <= j < state.view().auctions.len() && (#[trigger] state.view().auctions[j]) == (
                q[i as int].0,
                lookup(state.view().auctions, q[i as int].0).unwrap(),
            );
            assert(q[i as int].0 < KEY_SPAN);
        }
        r.push(AuctionId(a as u32));
        i += 1;
    }
    r
}

/// Resolves one bid item: completes it, records its winner if it has
/// bids, and appends the payout transfers.
fn resolve_bid_item(
    state: &mut State,
    auction_id: AuctionId,
    bid_item_id: BidItemId,
    transfers: &mut Vec<Transfer>,
)
    requires
        old(state).wf(),
        has_key(old(state).view().bid_items, compose_key(auction_id.0, bid_item_id.0)),
    ensures
        final(state).wf(),
        final(state).view() == resolve_item_spec(
            old(state).view(),
            compose_key(auction_id.0, bid_item_id.0),
        ).0,
        final(transfers).view() == old(transfers).view() + resolve_item_spec(
            old(state).view(),
            compose_key(auction_id.0, bid_item_id.0),
        ).1,
{
    let ghost m = old(state).view();
    let ik = item_store_key(auction_id, bid_item_id);
    proof {
        lemma_lookup_has_key(m.bid_items, ik);
    }
    let item = match state.bid_items.get(ik) {
        Some(it) => it.clone(),
        None => {
            proof {
                assert(false);
            }
            return;
        },
    };
    let bids = get_bids_from_bid_item_id(state, bid_item_id);
    if bids.len() > 0 {
        proof {
            lemma_bids_of_item_witness(m.bids, bid_item_id.0);
            let j = choose|j: int|
                0 <= j < m.bids.len() && key_hi((#[trigger] m.bids[j]).0) == bid_item_id.0;
            assert(has_key(m.winning_bids, key_hi(m.bids[j].0) as u64));
            lemma_lookup_has_key(m.winning_bids, bid_item_id.0 as u64);
        }
        let wk = match state.winning_bids.get(bid_item_id.0 as u64) {
            Some(w) => *w,
            None => {
                proof {
                    assert(false);
                }
                return;
            },
        };
        proof {
            lemma_lookup_entry(m.winning_bids, bid_item_id.0 as u64);
            let w = choose|w: int|
                0 <= w < m.winning_bids.len() && (#[trigger] m.winning_bids[w]) == (
                bid_item_id.0 as u64,
                wk,
            );
            assert(is_best(m.bids, bid_item_id.0, wk)) by {
                assert(((bid_item_id.0 as u64) as u32) == bid_item_id.0);
            }
        }
        let wbk = bid_store_key(bid_item_id, wk.bid_id);
        let wbid = match state.bids.get(wbk) {
            Some(b) => b.clone(),
            None => {
                proof {
                    assert(false);
                }
                return;
            },
        };
        let mut new_transfers = process_bids(state, wk.bid_id, &bids);
        transfers.append(&mut new_transfers);
        let done = BidItem {
            name: item.name,
            total_bids: item.total_bids,
            total_coins: item.total_coins,
            winner: Some(wbid.bidder),
            current_state: BidItemStatus::Completed,
        };
        proof {
            lemma_item_replace_inv(m, ik, done);
            lemma_compose_key(auction_id.0, bid_item_id.0);
        }
        state.bid_items.insert(ik, done);
    } else {
        let done = BidItem {
            name: item.name,
            total_bids: item.total_bids,
            total_coins: item.total_coins,
            winner: item.winner,
            current_state: BidItemStatus::Completed,
        };
        proof {
            lemma_item_replace_inv(m, ik, done);
            lemma_compose_key(auction_id.0, bid_item_id.0);
            assert(old(transfers).view() + Seq::<Transfer>::empty() =~= old(transfers).view());
        }
        state.bid_items.insert(ik, done);
    }
}

/// One crank invocation, open to any caller: resolves up to
/// `CRANK_MAX_BID_ITEMS` bid items across the queued auctions in
/// ascending id order, completes the auctions left with no active
/// item, and answers how many items were resolved together with the
/// payout transfers.
///
/// Exhausted budget leaves every remaining active item untouched for
/// the next invocation; but a queued auction with no active item left
/// is completed and dequeued even then, keeping the queue equal to the
/// set of auctions not yet fully drained.
#[verifier::loop_isolation(false)]
#[verifier::rlimit(100)]
pub fn advance_crank(state: &mut State) -> (r: (u64, Vec<Transfer>))
    requires
        old(state).wf(),
    ensures
        final(state).wf(),
        final(state).view() == advance_crank_spec(old(state).view()).0,
        r.1.view() == advance_crank_spec(old(state).view()).1,
        r.0 as nat == advance_crank_spec(old(state).view()).2,
        r.0 <= CRANK_MAX_BID_ITEMS as u64,
{
    let ghost m0 = old(state).view();
    let ghost q = m0.crank_queue;
    let ghost pass = crank_queue_spec(m0, q, CRANK_MAX_BID_ITEMS as nat);
    let auction_ids = extract_auction_ids_to_process(state);
    let mut processed: u32 = 0;
    let mut transfers: Vec<Transfer> = Vec::new();
    let mut auctions_completed: Vec<AuctionId> = Vec::new();
    let ghost mut cs_acc: Seq<u64> = Seq::empty();
    let na = auction_ids.len();
    let mut ai: usize = 0;
    proof {
        assert(q.skip(0) =~= q);
        assert(Seq::<Transfer>::empty() + pass.1 =~= pass.1);
        assert(Seq::<u64>::empty() + pass.3 =~= pass.3);
    }
    while ai < na
        invariant
            ai <= na,
            processed <= CRANK_MAX_BID_ITEMS,
            inv(state.view()),
            state.view().auctions == m0.auctions,
            state.view().crank_queue == m0.crank_queue,
            state.view().bids == m0.bids,
            state.view().winning_bids == m0.winning_bids,
            state.view().bid_items_to_auctions == m0.bid_items_to_auctions,
            state.view().admin == m0.admin,
            state.view().next_auction_id == m0.next_auction_id,
            state.view().next_bid_item_id == m0.next_bid_item_id,
            state.view().next_bid_id == m0.next_bid_id,
            pass.0 == crank_queue_spec(
                state.view(),
                q.skip(ai as int),
                (CRANK_MAX_BID_ITEMS - processed) as nat,
            ).0,
            pass.1 == transfers.view() + crank_queue_spec(
                state.view(),
                q.skip(ai as int),
                (CRANK_MAX_BID_ITEMS - processed) as nat,
            ).1,
            pass.2 == crank_queue_spec(
                state.view(),
                q.skip(ai as int),
                (CRANK_MAX_BID_ITEMS - processed) as nat,
            ).2,
            pass.3 == cs_acc + crank_queue_spec(
                state.view(),
                q.skip(ai as int),
                (CRANK_MAX_BID_ITEMS - processed) as nat,
            ).3,
            auctions_completed.view().len() == cs_acc.len(),
            forall|i: int|
                0 <= i < cs_acc.len() ==> (#[trigger] auctions_completed.view()[i]).0 as u64
                    == cs_acc[i],
            forall|i: int|
                0 <= i < cs_acc.len() ==> lookup(m0.auctions, #[trigger] cs_acc[i]) is Some,
        decreases na - ai,
    {
        let auction_id = auction_ids[ai];
        let ghost m_enter = state.view();
        let ghost p0 = processed;
        let ghost b0 = (CRANK_MAX_BID_ITEMS - processed) as nat;
        let items_vec = get_pending_bid_items_by_auction_id(state, auction_id);
        let ghost act = active_items(m_enter.bid_items, auction_id.0);
        let ghost ks = active_item_keys(m_enter.bid_items, auction_id.0);
        let ghost inner = crank_items_spec(m_enter, ks, b0);
        let ghost t_base = transfers.view();
        proof {
            lemma_active_items_entries(m_enter.bid_items, auction_id.0);
            assert(ks.len() == act.len());
            assert forall|x: int| 0 <= x < ks.len() implies has_key(
                m_enter.bid_items,
                #[trigger] ks[x],
            ) && ks[x] == compose_key(auction_id.0, items_vec.view()[x].0.0) by {
                assert(ks[x] == act[x].0);
                assert(m_enter.bid_items.contains(act[x]));
                let w = choose|w: int|
                    0 <= w < m_enter.bid_items.len() && (#[trigger] m_enter.bid_items[w])
                        == act[x];
                assert(m_enter.bid_items[w].0 == ks[x]);
                lemma_key_recompose(act[x].0);
                assert(items_vec.view()[x].0 == BidItemId(key_lo(act[x].0)));
            }
            assert(ks.skip(0) =~= ks);
            assert(t_base.subrange(0, t_base.len() as int) =~= t_base);
            assert(t_base.subrange(t_base.len() as int, t_base.len() as int) =~= Seq::<
                Transfer,
            >::empty());
            assert(Seq::<Transfer>::empty() + inner.1 =~= inner.1);
        }
        let ni = items_vec.len();
        let mut j: usize = 0;
        while j < ni && processed < CRANK_MAX_BID_ITEMS
            invariant
                j <= ni,
                processed == p0 + j,
                processed <= CRANK_MAX_BID_ITEMS,
                inv(state.view()),
                state.view().auctions == m_enter.auctions,
                state.view().crank_queue == m_enter.crank_queue,
                state.view().bids == m_enter.bids,
                state.view().winning_bids == m_enter.winning_bids,
                state.view().bid_items_to_auctions == m_enter.bid_items_to_auctions,
                state.view().admin == m_enter.admin,
                state.view().next_auction_id == m_enter.next_auction_id,
                state.view().next_bid_item_id == m_enter.next_bid_item_id,
                state.view().next_bid_id == m_enter.next_bid_id,
                forall|x: int|
                    0 <= x < ks.len() ==> has_key(state.view().bid_items, #[trigger] ks[x]),
                transfers.view().len() >= t_base.len(),
                transfers.view().subrange(0, t_base.len() as int) == t_base,
                inner.0 == crank_items_spec(state.view(), ks.skip(j as int), (b0 - j) as nat).0,
                inner.1 == transfers.view().subrange(
                    t_base.len() as int,
                    transfers.view().len() as int,
                ) + crank_items_spec(state.view(), ks.skip(j as int), (b0 - j) as nat).1,
            decreases ni - j,
        {
            let bid_item_id = items_vec[j].0;
            let ghost m_prev = state.view();
            let ghost t_prev = transfers.view();
            let ghost rest_pre = ks.skip(j as int);
            proof {
                assert(rest_pre[0] == ks[j as int]);
                assert(rest_pre.drop_first() =~= ks.skip(j as int + 1));
                assert(compose_key(auction_id.0, bid_item_id.0) == ks[j as int]);
            }
            resolve_bid_item(state, auction_id, bid_item_id, &mut transfers);
            proof {
                let k = ks[j as int];
                let step = resolve_item_spec(m_prev, k);
                let item = lookup(m_prev.bid_items, k).unwrap();
                if bids_of_item(m_prev.bids, key_lo(k)).len() == 0 {
                    let done = BidItem { current_state: BidItemStatus::Completed, ..item };
                    lemma_item_replace_inv(m_prev, k, done);
                } else {
                    let wk = lookup(m_prev.winning_bids, key_lo(k) as u64).unwrap();
                    let wbid = lookup(m_prev.bids, compose_key(key_lo(k), wk.bid_id.0)).unwrap();
                    let done = BidItem {
                        winner: Some(wbid.bidder),
                        current_state: BidItemStatus::Completed,
                        ..item
                    };
                    lemma_item_replace_inv(m_prev, k, done);
                }
                assert(transfers.view() == t_prev + step.1);
                assert(transfers.view().subrange(0, t_base.len() as int) =~= t_base) by {
                    assert(forall|x: int|
                        0 <= x < t_base.len() ==> (#[trigger] transfers.view()[x]) == t_prev[x]);
                }
                let rec = crank_items_spec(
                    state.view(),
                    ks.skip(j as int + 1),
                    (b0 - j - 1) as nat,
                );
                assert(crank_items_spec(m_prev, rest_pre, (b0 - j) as nat).0 == rec.0);
                assert(crank_items_spec(m_prev, rest_pre, (b0 - j) as nat).1 == step.1 + rec.1);
                assert(transfers.view().subrange(
                    t_base.len() as int,
                    transfers.view().len() as int,
                ) =~= t_prev.subrange(t_base.len() as int, t_prev.len() as int) + step.1);
                assert((t_prev.subrange(t_base.len() as int, t_prev.len() as int) + step.1) + rec.1
                    =~= t_prev.subrange(t_base.len() as int, t_prev.len() as int) + (step.1
                    + rec.1));
            }
            j += 1;
            processed += 1;
        }
        proof {
            let tailspec = crank_items_spec(state.view(), ks.skip(j as int), (b0 - j) as nat);
            if j == ni {
                assert(ks.skip(ni as int) =~= Seq::<u64>::empty());
            } else {
                assert(processed == CRANK_MAX_BID_ITEMS);
                assert(b0 - j == 0);
            }
            assert(tailspec.0 == state.view());
            assert(tailspec.1 == Seq::<Transfer>::empty());
            let delta = transfers.view().subrange(
                t_base.len() as int,
                transfers.view().len() as int,
            );
            assert(delta + Seq::<Transfer>::empty() =~= delta);
            assert(inner.0 == state.view());
            assert(inner.1 == delta);
            assert(transfers.view() =~= t_base + delta);

            let qrest = q.skip(ai as int);
            assert(qrest[0] == q[ai as int]);
            assert(qrest.drop_first() =~= q.skip(ai as int + 1));
            assert(auction_ids.view()[ai as int].0 as u64 == q[ai as int].0);
            assert((q[ai as int].0 as u32) == auction_id.0);
            assert(active_item_keys(m_enter.bid_items, q[ai as int].0 as u32) == ks);
            assert(j as nat == (if ks.len() <= b0 {
                ks.len()
            } else {
                b0
            }));
            let rest2 = crank_queue_spec(
                state.view(),
                q.skip(ai as int + 1),
                (CRANK_MAX_BID_ITEMS - processed) as nat,
            );
            assert(crank_queue_spec(m_enter, qrest, b0).0 == rest2.0);
            assert(crank_queue_spec(m_enter, qrest, b0).1 == inner.1 + rest2.1);
            assert(crank_queue_spec(m_enter, qrest, b0).2 == rest2.2);
            assert((t_base + delta) + rest2.1 =~= t_base + (delta + rest2.1));
        }
        if j == items_vec.len() {
            auctions_completed.push(auction_id);
            proof {
                let cs0 = cs_acc;
                cs_acc = cs_acc + seq![q[ai as int].0];
                assert(m0.crank_queue[ai as int].0 == q[ai as int].0);
                assert(lookup(m0.auctions, q[ai as int].0) is Some);
                let rest2 = crank_queue_spec(
                    state.view(),
                    q.skip(ai as int + 1),
                    (CRANK_MAX_BID_ITEMS - processed) as nat,
                );
                assert(crank_queue_spec(m_enter, q.skip(ai as int), b0).3 == seq![q[ai as int].0]
                    + rest2.3);
                assert((cs0 + seq![q[ai as int].0]) + rest2.3 =~= cs0 + (seq![q[ai as int].0]
                    + rest2.3));
            }
        } else {
            proof {
                let rest2 = crank_queue_spec(
                    state.view(),
                    q.skip(ai as int + 1),
                    (CRANK_MAX_BID_ITEMS - processed) as nat,
                );
                assert(crank_queue_spec(m_enter, q.skip(ai as int), b0).3 == Seq::<u64>::empty()
                    + rest2.3);
                assert(Seq::<u64>::empty() + rest2.3 =~= rest2.3);
            }
        }
        ai += 1;
    }
    let ghost mc = state.view();
    proof {
        assert(q.skip(na as int) =~= Seq::<(u64, ())>::empty());
        assert(transfers.view() + Seq::<Transfer>::empty() =~= transfers.view());
        assert(cs_acc + Seq::<u64>::empty() =~= cs_acc);
        assert(pass.0 == mc);
        assert(pass.1 == transfers.view());
        assert(pass.2 == (CRANK_MAX_BID_ITEMS - processed) as nat);
        assert(pass.3 == cs_acc);
        assert(cs_acc.skip(0) =~= cs_acc);
    }
    let nc = auctions_completed.len();
    let mut ci: usize = 0;
    while ci < nc
        invariant
            ci <= nc,
            inv(state.view()),
            forall|i: int|
                ci <= i < cs_acc.len() ==> lookup(
                    state.view().auctions,
                    #[trigger] cs_acc[i],
                ) is Some,
            complete_auctions_spec(mc, cs_acc) == complete_auctions_spec(
                state.view(),
                cs_acc.skip(ci as int),
            ),
        decreases nc - ci,
    {
        let a_id = auctions_completed[ci];
        let ghost m_prev = state.view();
        let ghost a64 = cs_acc[ci as int];
        proof {
            assert(auctions_completed.view()[ci as int].0 as u64 == cs_acc[ci as int]);
        }
        let auction = match state.auctions.get(a_id.0 as u64) {
            Some(a) => a.clone(),
            None => {
                proof {
                    assert(false);
                }
                return (0, Vec::new());
            },
        };
        proof {
            lemma_complete_auction_inv(m_prev, a64);
            let rest = cs_acc.skip(ci as int);
            assert(rest[0] == a64);
            assert(rest.drop_first() =~= cs_acc.skip(ci as int + 1));
        }
        let updated = Auction {
            name: auction.name,
            available_bid_items: auction.available_bid_items,
            total_bids: auction.total_bids,
            total_coins: auction.total_coins,
            current_state: AuctionStatus::Completed,
        };
        state.auctions.insert(a_id.0 as u64, updated);
        state.crank_queue.remove(a_id.0 as u64);
        proof {
            lemma_insert_entry(m_prev.auctions, a64, updated);
            assert forall|i: int| ci + 1 <= i < cs_acc.len() implies lookup(
                state.view().auctions,
                #[trigger] cs_acc[i],
            ) is Some by {
                if cs_acc[i] == a64 {
                } else {
                    assert(lookup(state.view().auctions, cs_acc[i]) == lookup(
                        m_prev.auctions,
                        cs_acc[i],
                    ));
                }
            }
        }
        ci += 1;
    }
    proof {
        assert(cs_acc.skip(nc as int) =~= Seq::<u64>::empty());
        assert(state.view() == advance_crank_spec(m0).0);
    }
    (processed as u64, transfers)
}

} // verus!
