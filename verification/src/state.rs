//! The auction system's data model: auctions, bid items, bids, the
//! winning-bid index, the crank queue, and the monotonic identifier
//! counters, together with the cross-entity consistency invariant that
//! every operation preserves.

use vstd::prelude::*;

use crate::store::{has_key, insert_entry, lookup, sorted_entries, StoreMap};

verus! {

/// Width of one identifier component inside a composite `u64` key.
pub const KEY_SPAN: u64 = 0x1_0000_0000;

/// Identifier of an auction, minted from a monotonic counter.
#[derive(Clone, Copy, PartialEq, Eq, Structural, Debug, Hash)]
pub struct AuctionId(pub u32);

/// Identifier of a bid item, minted from a monotonic counter shared by
/// all auctions.
#[derive(Clone, Copy, PartialEq, Eq, Structural, Debug, Hash)]
pub struct BidItemId(pub u32);

/// Identifier of a bid, minted from a monotonic counter shared by all
/// bid items.
#[derive(Clone, Copy, PartialEq, Eq, Structural, Debug, Hash)]
pub struct BidId(pub u32);

#[derive(Clone, Copy, PartialEq, Eq, Structural, Debug)]
pub enum AuctionStatus {
    Active,
    Suspended,
    PendingCompletion,
    Completed,
}

#[derive(Clone, Copy, PartialEq, Eq, Structural, Debug)]
pub enum BidItemStatus {
    Active,
    Completed,
}

#[derive(Debug)]
pub struct Auction {
    pub name: String,
    pub available_bid_items: u64,
    pub total_bids: u64,
    pub total_coins: u128,
    pub current_state: AuctionStatus,
}

impl Clone for Auction {
    fn clone(&self) -> (r: Self)
        ensures
            r == *self,
    {
        Auction {
            name: self.name.clone(),
            available_bid_items: self.available_bid_items,
            total_bids: self.total_bids,
            total_coins: self.total_coins,
            current_state: self.current_state,
        }
    }
}

#[derive(Debug)]
pub struct BidItem {
    pub name: String,
    pub total_bids: u64,
    pub total_coins: u128,
    pub winner: Option<String>,
    pub current_state: BidItemStatus,
}

impl Clone for BidItem {
    fn clone(&self) -> (r: Self)
        ensures
            r == *self,
    {
        let winner = match &self.winner {
            Some(w) => Some(w.clone()),
            None => None,
        };
        BidItem {
            name: self.name.clone(),
            total_bids: self.total_bids,
            total_coins: self.total_coins,
            winner,
            current_state: self.current_state,
        }
    }
}

#[derive(Debug)]
pub struct Bid {
    pub amount: u128,
    pub bidder: String,
    pub placed: u64,
}

impl Clone for Bid {
    fn clone(&self) -> (r: Self)
        ensures
            r == *self,
    {
        Bid { amount: self.amount, bidder: self.bidder.clone(), placed: self.placed }
    }
}

/// One settlement payout emitted by the crank: the winning bid's amount
/// goes to the admin, every other bid's amount back to its bidder.
#[derive(Debug)]
pub struct Transfer {
    pub to: String,
    pub amount: u128,
}

impl Clone for Transfer {
    fn clone(&self) -> (r: Self)
        ensures
            r == *self,
    {
        Transfer { to: self.to.clone(), amount: self.amount }
    }
}

/// Primary key of a bid item: the owning auction first, so all items of
/// one auction are contiguous in the ordered store.
#[derive(Clone, Copy, PartialEq, Eq, Structural, Debug)]
pub struct BidItemKey {
    pub auction_id: AuctionId,
    pub bid_item_id: BidItemId,
}

/// Primary key of a bid: the owning bid item first, so all bids on one
/// item are contiguous in the ordered store.
#[derive(Clone, Copy, PartialEq, Eq, Structural, Debug)]
pub struct BidKey {
    pub bid_item_id: BidItemId,
    pub bid_id: BidId,
}

/// The composite `u64` key with `hi` in the upper and `lo` in the lower
/// half; numeric order on the result is lexicographic order on the pair.
pub open spec fn compose_key(hi: u32, lo: u32) -> u64 {
    ((hi as int) * (KEY_SPAN as int) + (lo as int)) as u64
}

pub open spec fn key_hi(k: u64) -> u32 {
    ((k as int) / (KEY_SPAN as int)) as u32
}

pub open spec fn key_lo(k: u64) -> u32 {
    ((k as int) % (KEY_SPAN as int)) as u32
}

pub proof fn lemma_compose_key(hi: u32, lo: u32)
    ensures
        compose_key(hi, lo) == (hi as int) * (KEY_SPAN as int) + (lo as int),
        key_hi(compose_key(hi, lo)) == hi,
        key_lo(compose_key(hi, lo)) == lo,
{
    assert(hi < 0x1_0000_0000 && lo < 0x1_0000_0000 ==> 0 <= (hi as int) * 0x1_0000_0000 + (
    lo as int) < 0x1_0000_0000_0000_0000) by (nonlinear_arith);
    assert(hi < 0x1_0000_0000 && lo < 0x1_0000_0000 ==> ((hi as int) * 0x1_0000_0000 + (lo as int))
        / 0x1_0000_0000 == hi as int) by (nonlinear_arith);
    assert(hi < 0x1_0000_0000 && lo < 0x1_0000_0000 ==> ((hi as int) * 0x1_0000_0000 + (lo as int))
        % 0x1_0000_0000 == lo as int) by (nonlinear_arith);
    assert(KEY_SPAN as int == 0x1_0000_0000);
}

/// A composite key is rebuilt from its halves.
pub proof fn lemma_key_recompose(k: u64)
    ensures
        compose_key(key_hi(k), key_lo(k)) == k,
{
    assert(((k as int) / 0x1_0000_0000) * 0x1_0000_0000 + (k as int) % 0x1_0000_0000 == k as int)
        by (nonlinear_arith);
    assert(0 <= (k as int) / 0x1_0000_0000 < 0x1_0000_0000) by (nonlinear_arith);
    assert(0 <= (k as int) % 0x1_0000_0000 < 0x1_0000_0000) by (nonlinear_arith);
    assert(KEY_SPAN as int == 0x1_0000_0000);
}

/// Builds the composite key of a bid item.
pub fn item_store_key(auction_id: AuctionId, bid_item_id: BidItemId) -> (k: u64)
    ensures
        k == compose_key(auction_id.0, bid_item_id.0),
        key_hi(k) == auction_id.0,
        key_lo(k) == bid_item_id.0,
{
    proof {
        lemma_compose_key(auction_id.0, bid_item_id.0);
    }
    (auction_id.0 as u64) * KEY_SPAN + (bid_item_id.0 as u64)
}

/// Builds the composite key of a bid.
pub fn bid_store_key(bid_item_id: BidItemId, bid_id: BidId) -> (k: u64)
    ensures
        k == compose_key(bid_item_id.0, bid_id.0),
        key_hi(k) == bid_item_id.0,
        key_lo(k) == bid_id.0,
{
    proof {
        lemma_compose_key(bid_item_id.0, bid_id.0);
    }
    (bid_item_id.0 as u64) * KEY_SPAN + (bid_id.0 as u64)
}

/// Splits a composite key into its halves.
pub fn split_key(k: u64) -> (r: (u32, u32))
    ensures
        r.0 == key_hi(k),
        r.1 == key_lo(k),
{
    ((k / KEY_SPAN) as u32, (k % KEY_SPAN) as u32)
}

/// The whole persisted state of the auction system.
pub struct State {
    pub admin: String,
    pub next_auction_id: u32,
    pub next_bid_item_id: u32,
    pub next_bid_id: u32,
    pub auctions: StoreMap<Auction>,
    pub bid_items: StoreMap<BidItem>,
    pub bid_items_to_auctions: StoreMap<AuctionId>,
    pub bids: StoreMap<Bid>,
    pub winning_bids: StoreMap<BidKey>,
    pub crank_queue: StoreMap<()>,
}

/// The mathematical model of the state: each store as its sorted entry
/// sequence.
pub ghost struct StateModel {
    pub admin: String,
    pub next_auction_id: u32,
    pub next_bid_item_id: u32,
    pub next_bid_id: u32,
    pub auctions: Seq<(u64, Auction)>,
    pub bid_items: Seq<(u64, BidItem)>,
    pub bid_items_to_auctions: Seq<(u64, AuctionId)>,
    pub bids: Seq<(u64, Bid)>,
    pub winning_bids: Seq<(u64, BidKey)>,
    pub crank_queue: Seq<(u64, ())>,
}

impl View for State {
    type V = StateModel;

    open spec fn view(&self) -> StateModel {
        StateModel {
            admin: self.admin,
            next_auction_id: self.next_auction_id,
            next_bid_item_id: self.next_bid_item_id,
            next_bid_id: self.next_bid_id,
            auctions: self.auctions.view(),
            bid_items: self.bid_items.view(),
            bid_items_to_auctions: self.bid_items_to_auctions.view(),
            bids: self.bids.view(),
            winning_bids: self.winning_bids.view(),
            crank_queue: self.crank_queue.view(),
        }
    }
}

/// The keys of the bid items belonging to auction `a`, in ascending
/// order.
pub open spec fn auction_item_keys(items: Seq<(u64, BidItem)>, a: u32) -> Seq<u64>
    decreases items.len(),
{
    if items.len() == 0 {
        Seq::empty()
    } else if key_hi(items[0].0) == a {
        seq![items[0].0] + auction_item_keys(items.drop_first(), a)
    } else {
        auction_item_keys(items.drop_first(), a)
    }
}

/// How many bid items belong to auction `a`.
pub open spec fn auction_item_count(items: Seq<(u64, BidItem)>, a: u32) -> nat {
    auction_item_keys(items, a).len()
}

/// The bid items of auction `a` still `Active`, as store entries in
/// ascending key order: exactly what one crank pass may resolve.
pub open spec fn active_items(items: Seq<(u64, BidItem)>, a: u32) -> Seq<(u64, BidItem)>
    decreases items.len(),
{
    if items.len() == 0 {
        Seq::empty()
    } else if key_hi(items[0].0) == a && items[0].1.current_state == BidItemStatus::Active {
        seq![items[0]] + active_items(items.drop_first(), a)
    } else {
        active_items(items.drop_first(), a)
    }
}

/// The bid items of auction `a`, as id-value pairs in ascending id
/// order.
pub open spec fn items_of_auction(items: Seq<(u64, BidItem)>, a: u32) -> Seq<(BidItemId, BidItem)>
    decreases items.len(),
{
    if items.len() == 0 {
        Seq::empty()
    } else if key_hi(items[0].0) == a {
        seq![(BidItemId(key_lo(items[0].0)), items[0].1)] + items_of_auction(
            items.drop_first(),
            a,
        )
    } else {
        items_of_auction(items.drop_first(), a)
    }
}

/// Inserting a fresh bid-item key raises exactly its auction's item
/// count.
pub proof fn lemma_item_count_insert_fresh(s: Seq<(u64, BidItem)>, k: u64, v: BidItem, a: u32)
    requires
        sorted_entries(s),
        !has_key(s, k),
    ensures
        auction_item_count(insert_entry(s, k, v), a) == auction_item_count(s, a) + (if key_hi(k)
            == a {
            1int
        } else {
            0int
        }),
    decreases s.len(),
{
    let ins = insert_entry(s, k, v);
    if s.len() == 0 {
        assert(ins.drop_first() =~= s);
    } else if k < s[0].0 {
        assert(ins.drop_first() =~= s);
        assert(ins[0] == (k, v));
    } else if k == s[0].0 {
        assert(has_key(s, k)) by {
            assert(s[0].0 == k);
        }
    } else {
        let d = s.drop_first();
        assert(sorted_entries(d)) by {
            assert(forall|i: int| 0 <= i < d.len() ==> (#[trigger] d[i]) == s[i + 1]);
        }
        crate::store::lemma_has_key_drop_first(s, k);
        lemma_item_count_insert_fresh(d, k, v, a);
        assert(ins[0] == s[0]);
        assert(ins.drop_first() =~= insert_entry(d, k, v));
    }
}

/// An auction no bid-item key points at has zero items.
pub proof fn lemma_item_count_no_auction(s: Seq<(u64, BidItem)>, a: u32)
    requires
        forall|i: int| 0 <= i < s.len() ==> key_hi((#[trigger] s[i]).0) != a,
    ensures
        auction_item_count(s, a) == 0,
    decreases s.len(),
{
    if s.len() > 0 {
        let d = s.drop_first();
        assert(forall|i: int| 0 <= i < d.len() ==> (#[trigger] d[i]) == s[i + 1]);
        lemma_item_count_no_auction(d, a);
    }
}

/// Item keys alone determine which items an auction has.
pub proof fn lemma_item_keys_same_keys(s1: Seq<(u64, BidItem)>, s2: Seq<(u64, BidItem)>, a: u32)
    requires
        s1.len() == s2.len(),
        forall|i: int| 0 <= i < s1.len() ==> (#[trigger] s1[i]).0 == s2[i].0,
    ensures
        auction_item_keys(s1, a) == auction_item_keys(s2, a),
    decreases s1.len(),
{
    if s1.len() > 0 {
        let d1 = s1.drop_first();
        let d2 = s2.drop_first();
        assert(forall|i: int| 0 <= i < d1.len() ==> (#[trigger] d1[i]) == s1[i + 1]);
        assert(forall|i: int| 0 <= i < d2.len() ==> (#[trigger] d2[i]) == s2[i + 1]);
        lemma_item_keys_same_keys(d1, d2, a);
    }
}

/// The bids recorded for bid item `i`, as id-value pairs in ascending
/// bid-id order.
pub open spec fn bids_of_item(bids: Seq<(u64, Bid)>, i: u32) -> Seq<(BidId, Bid)>
    decreases bids.len(),
{
    if bids.len() == 0 {
        Seq::empty()
    } else if key_hi(bids[0].0) == i {
        seq![(BidId(key_lo(bids[0].0)), bids[0].1)] + bids_of_item(bids.drop_first(), i)
    } else {
        bids_of_item(bids.drop_first(), i)
    }
}

/// Whether a newly placed bid supersedes the current winning bid: a
/// strictly higher amount, or the same amount placed strictly later.
pub open spec fn outbids(new: Bid, cur: Bid) -> bool {
    new.amount > cur.amount || (new.amount == cur.amount && new.placed > cur.placed)
}

/// The winning bid `w` (with id `wid`) is preferred over bid `b` (with
/// id `bid2`): higher amount, or later placement at the same amount, or
/// at a full tie the bid recorded first.
pub open spec fn prefers(w: Bid, wid: u32, b: Bid, bid2: u32) -> bool {
    w.amount > b.amount || (w.amount == b.amount && (w.placed > b.placed || (w.placed == b.placed
        && wid <= bid2)))
}

/// The winning-bid entry of item `i` points at a recorded bid that is
/// preferred over every bid recorded for `i`.
pub open spec fn is_best(bids: Seq<(u64, Bid)>, i: u32, wk: BidKey) -> bool {
    &&& wk.bid_item_id.0 == i
    &&& lookup(bids, compose_key(i, wk.bid_id.0)) is Some
    &&& forall|j: int|
        0 <= j < bids.len() && key_hi((#[trigger] bids[j]).0) == i ==> prefers(
            lookup(bids, compose_key(i, wk.bid_id.0)).unwrap(),
            wk.bid_id.0,
            bids[j].1,
            key_lo(bids[j].0),
        )
}

/// Every store is sorted by key.
pub open spec fn stores_sorted(m: StateModel) -> bool {
    &&& sorted_entries(m.auctions)
    &&& sorted_entries(m.bid_items)
    &&& sorted_entries(m.bid_items_to_auctions)
    &&& sorted_entries(m.bids)
    &&& sorted_entries(m.winning_bids)
    &&& sorted_entries(m.crank_queue)
}

/// Auction keys are plain identifiers below the auction counter.
pub open spec fn auctions_wf(m: StateModel) -> bool {
    forall|i: int|
        0 <= i < m.auctions.len() ==> (#[trigger] m.auctions[i]).0 < m.next_auction_id as u64
}

/// Bid-item keys compose an existing auction with an item id below the
/// item counter, and agree with the reverse index.
pub open spec fn bid_items_wf(m: StateModel) -> bool {
    forall|i: int|
        0 <= i < m.bid_items.len() ==> {
            let k = (#[trigger] m.bid_items[i]).0;
            &&& key_lo(k) < m.next_bid_item_id
            &&& has_key(m.auctions, key_hi(k) as u64)
            &&& lookup(m.bid_items_to_auctions, key_lo(k) as u64) == Some(AuctionId(key_hi(k)))
        }
}

/// A bid item still `Active` has no winner recorded: the winner field
/// is written only when the crank completes the item.
pub open spec fn unresolved_wf(m: StateModel) -> bool {
    forall|i: int|
        0 <= i < m.bid_items.len() ==> ((#[trigger] m.bid_items[i]).1.current_state
            == BidItemStatus::Active ==> m.bid_items[i].1.winner is None)
}

/// Every reverse-index entry points back at a stored bid item.
pub open spec fn reverse_index_wf(m: StateModel) -> bool {
    forall|i: int|
        0 <= i < m.bid_items_to_auctions.len() ==> {
            let e = #[trigger] m.bid_items_to_auctions[i];
            &&& e.0 < m.next_bid_item_id as u64
            &&& has_key(m.bid_items, compose_key(e.1.0, e.0 as u32))
        }
}

/// Bid keys compose a known bid item with a bid id below the bid
/// counter, and every bid item with a bid has a winning-bid entry.
pub open spec fn bids_wf(m: StateModel) -> bool {
    forall|i: int|
        0 <= i < m.bids.len() ==> {
            let k = (#[trigger] m.bids[i]).0;
            &&& key_lo(k) < m.next_bid_id
            &&& has_key(m.bid_items_to_auctions, key_hi(k) as u64)
            &&& has_key(m.winning_bids, key_hi(k) as u64)
        }
}

/// Every winning-bid entry points at a recorded bid for its item and
/// that bid is preferred over all bids recorded for the item.
pub open spec fn winning_bids_wf(m: StateModel) -> bool {
    forall|i: int|
        0 <= i < m.winning_bids.len() ==> {
            let e = #[trigger] m.winning_bids[i];
            &&& e.0 < KEY_SPAN
            &&& is_best(m.bids, e.0 as u32, e.1)
        }
}

/// The crank queue holds exactly the auctions in `PendingCompletion`.
pub open spec fn queue_wf(m: StateModel) -> bool {
    &&& forall|i: int|
        0 <= i < m.crank_queue.len() ==> {
            let a = (#[trigger] m.crank_queue[i]).0;
            match lookup(m.auctions, a) {
                Some(auc) => auc.current_state == AuctionStatus::PendingCompletion,
                None => false,
            }
        }
    &&& forall|i: int|
        0 <= i < m.auctions.len() ==> ((#[trigger] m.auctions[i]).1.current_state
            == AuctionStatus::PendingCompletion ==> has_key(m.crank_queue, m.auctions[i].0))
}

/// Each auction's `available_bid_items` equals the number of bid items
/// stored for it, and that number never exceeds the item counter.
pub open spec fn counts_wf(m: StateModel) -> bool {
    forall|i: int|
        0 <= i < m.auctions.len() ==> {
            let e = #[trigger] m.auctions[i];
            &&& e.0 < KEY_SPAN
            &&& e.1.available_bid_items == auction_item_count(m.bid_items, e.0 as u32)
            &&& auction_item_count(m.bid_items, e.0 as u32) <= m.next_bid_item_id
        }
}

/// The cross-entity consistency invariant of the whole system.
pub open spec fn inv(m: StateModel) -> bool {
    &&& stores_sorted(m)
    &&& auctions_wf(m)
    &&& bid_items_wf(m)
    &&& unresolved_wf(m)
    &&& reverse_index_wf(m)
    &&& bids_wf(m)
    &&& winning_bids_wf(m)
    &&& queue_wf(m)
    &&& counts_wf(m)
}

impl State {
    /// Well-formedness of the executable state: its model satisfies the
    /// system invariant.
    pub open spec fn wf(&self) -> bool {
        inv(self.view())
    }
}

} // verus!
