use bidding::bids::place_bid;
use bidding::crank::{advance_crank, get_bids_from_bid_item_id, get_pending_bid_items_by_auction_id, process_bids};
use bidding::error::ContractError;
use bidding::lifecycle::{add_bid_items, create_auction, instantiate, set_auction_state};
use bidding::msg::{InstantiateMsg, StatusNote};
use bidding::queries::{
    admin, get_auction, get_auctions, get_bid_item_by_id, get_bid_items,
    get_bid_items_by_auction_id,
};
use bidding::state::{AuctionId, AuctionStatus, BidItemId, BidItemStatus, State};

fn setup(admin_name: &str) -> State {
    instantiate(InstantiateMsg {
        admin: admin_name.to_string(),
    })
}

fn create(state: &mut State, name: &str, items: &[&str]) -> AuctionId {
    let names: Vec<String> = items.iter().map(|s| s.to_string()).collect();
    create_auction(state, admin(state), name.to_string(), names).unwrap()
}

fn item_ids(state: &State, auction_id: AuctionId) -> Vec<BidItemId> {
    get_pending_bid_items_by_auction_id(state, auction_id)
        .into_iter()
        .map(|p| p.0)
        .collect()
}

fn enqueue(state: &mut State, auction_id: AuctionId) {
    set_auction_state(
        state,
        admin(state),
        auction_id,
        AuctionStatus::PendingCompletion,
    )
    .unwrap();
}

#[test]
fn available_bid_items_counts_names() {
    let mut state = setup("owner");
    let auction_id = create(&mut state, "stock", &["a", "b", "c"]);

    let auction = get_auction(&state, auction_id).unwrap();
    assert_eq!(auction.available_bid_items, 3);

    add_bid_items(
        &mut state,
        "owner".to_string(),
        auction_id,
        vec!["d".to_string(), "e".to_string()],
    )
    .unwrap();

    let auction = get_auction(&state, auction_id).unwrap();
    assert_eq!(auction.available_bid_items, 5);
}

#[test]
fn higher_bid_wins_after_crank() {
    let mut state = setup("owner");
    let auction_id = create(&mut state, "art", &["painting"]);
    let item = item_ids(&state, auction_id)[0];

    place_bid(&mut state, "alice".to_string(), 1, item, 4).unwrap();
    place_bid(&mut state, "bob".to_string(), 2, item, 1).unwrap();

    enqueue(&mut state, auction_id);
    let (processed, transfers) = advance_crank(&mut state);
    assert_eq!(processed, 1);

    let resolved = get_bid_item_by_id(&state, item).unwrap();
    assert_eq!(resolved.winner, Some("alice".to_string()));
    assert!(matches!(resolved.current_state, BidItemStatus::Completed));

    // The winning amount goes to the admin, the losing bid is refunded.
    assert_eq!(transfers.len(), 2);
    assert_eq!(transfers[0].to, "owner".to_string());
    assert_eq!(transfers[0].amount, 4);
    assert_eq!(transfers[1].to, "bob".to_string());
    assert_eq!(transfers[1].amount, 1);
}

#[test]
fn later_equal_bid_wins() {
    let mut state = setup("owner");
    let auction_id = create(&mut state, "art", &["sculpture"]);
    let item = item_ids(&state, auction_id)[0];

    place_bid(&mut state, "alice".to_string(), 10, item, 5).unwrap();
    place_bid(&mut state, "bob".to_string(), 20, item, 5).unwrap();

    enqueue(&mut state, auction_id);
    advance_crank(&mut state);

    let resolved = get_bid_item_by_id(&state, item).unwrap();
    assert_eq!(resolved.winner, Some("bob".to_string()));
}

#[test]
fn earlier_equal_bid_stays_on_tied_time() {
    let mut state = setup("owner");
    let auction_id = create(&mut state, "art", &["print"]);
    let item = item_ids(&state, auction_id)[0];

    place_bid(&mut state, "alice".to_string(), 7, item, 5).unwrap();
    place_bid(&mut state, "bob".to_string(), 7, item, 5).unwrap();

    enqueue(&mut state, auction_id);
    advance_crank(&mut state);

    let resolved = get_bid_item_by_id(&state, item).unwrap();
    assert_eq!(resolved.winner, Some("alice".to_string()));
}

#[test]
fn crank_drains_in_bounded_batches() {
    let mut state = setup("owner");
    let auction_id = create(
        &mut state,
        "bulk",
        &["i1", "i2", "i3", "i4", "i5", "i6", "i7"],
    );
    enqueue(&mut state, auction_id);

    let (processed, _) = advance_crank(&mut state);
    assert_eq!(processed, 3);
    let auction = get_auction(&state, auction_id).unwrap();
    assert!(matches!(
        auction.current_state,
        AuctionStatus::PendingCompletion
    ));

    let (processed, _) = advance_crank(&mut state);
    assert_eq!(processed, 3);

    let (processed, _) = advance_crank(&mut state);
    assert_eq!(processed, 1);

    // ceil(7 / 3) = 3 invocations drained the auction.
    let auction = get_auction(&state, auction_id).unwrap();
    assert!(matches!(auction.current_state, AuctionStatus::Completed));
    assert_eq!(get_pending_bid_items_by_auction_id(&state, auction_id).len(), 0);
}

#[test]
fn crank_after_drain_changes_nothing() {
    let mut state = setup("owner");
    let auction_id = create(&mut state, "small", &["x", "y"]);
    let item = item_ids(&state, auction_id)[0];
    place_bid(&mut state, "alice".to_string(), 1, item, 9).unwrap();
    enqueue(&mut state, auction_id);
    advance_crank(&mut state);

    let before = get_auction(&state, auction_id).unwrap();
    let (processed, transfers) = advance_crank(&mut state);
    assert_eq!(processed, 0);
    assert_eq!(transfers.len(), 0);
    let after = get_auction(&state, auction_id).unwrap();
    assert_eq!(after.name, before.name);
    assert!(matches!(after.current_state, AuctionStatus::Completed));
}

#[test]
fn item_without_bids_completes_without_winner() {
    let mut state = setup("owner");
    let auction_id = create(&mut state, "quiet", &["silent"]);
    let item = item_ids(&state, auction_id)[0];

    enqueue(&mut state, auction_id);
    let (processed, transfers) = advance_crank(&mut state);
    assert_eq!(processed, 1);
    assert_eq!(transfers.len(), 0);

    let resolved = get_bid_item_by_id(&state, item).unwrap();
    assert_eq!(resolved.winner, None);
    assert!(matches!(resolved.current_state, BidItemStatus::Completed));
}

#[test]
fn pagination_covers_all_without_overlap() {
    let mut state = setup("owner");
    for n in 0..15 {
        create(&mut state, &format!("auction {n}"), &["a", "b"]);
    }

    let page1 = get_auctions(&state, None, 10);
    assert_eq!(page1.len(), 10);
    for (i, row) in page1.iter().enumerate() {
        assert_eq!(row.0, AuctionId(i as u32));
    }

    let cursor = page1[9].0;
    let page2 = get_auctions(&state, Some(cursor), 10);
    assert_eq!(page2.len(), 5);
    for (i, row) in page2.iter().enumerate() {
        assert_eq!(row.0, AuctionId(10 + i as u32));
    }
}

#[test]
fn bid_item_pagination_uses_default_limit() {
    let mut state = setup("owner");
    create(&mut state, "one", &["a", "b", "c", "d", "e", "f"]);
    create(&mut state, "two", &["g", "h", "i", "j", "k", "l"]);

    let page = get_bid_items(&state, None, 10);
    assert_eq!(page.len(), 10);
    let rest = get_bid_items(&state, Some(page[9].0), 10);
    assert_eq!(rest.len(), 2);
}

#[test]
fn add_bid_items_rejected_once_pending() {
    let mut state = setup("owner");
    let auction_id = create(&mut state, "locked", &["a"]);
    enqueue(&mut state, auction_id);

    let err = add_bid_items(
        &mut state,
        "owner".to_string(),
        auction_id,
        vec!["late".to_string()],
    )
    .unwrap_err();
    assert!(matches!(err, ContractError::AuctionNonUpdateable));
}

#[test]
fn place_bid_rejected_on_completed_auction() {
    let mut state = setup("owner");
    let auction_id = create(&mut state, "done", &["a"]);
    let item = item_ids(&state, auction_id)[0];
    enqueue(&mut state, auction_id);
    advance_crank(&mut state);

    let err = place_bid(&mut state, "alice".to_string(), 5, item, 10).unwrap_err();
    assert!(matches!(err, ContractError::AuctionCompleted));
}

#[test]
fn place_bid_rejected_on_suspended_auction() {
    let mut state = setup("owner");
    let auction_id = create(&mut state, "paused", &["a"]);
    let item = item_ids(&state, auction_id)[0];
    set_auction_state(
        &mut state,
        "owner".to_string(),
        auction_id,
        AuctionStatus::Suspended,
    )
    .unwrap();

    let err = place_bid(&mut state, "alice".to_string(), 5, item, 10).unwrap_err();
    assert!(matches!(err, ContractError::AuctionCompleted));
}

#[test]
fn non_admin_create_rejected_without_rows() {
    let mut state = setup("owner");
    let err = create_auction(
        &mut state,
        "mallory".to_string(),
        "sneaky".to_string(),
        vec!["a".to_string()],
    )
    .unwrap_err();
    assert!(matches!(err, ContractError::Unauthorized { .. }));

    assert_eq!(get_auctions(&state, None, 10).len(), 0);
    assert_eq!(get_bid_items(&state, None, 10).len(), 0);
}

#[test]
fn unknown_ids_are_rejected() {
    let mut state = setup("owner");
    let err = get_auction(&state, AuctionId(7)).unwrap_err();
    assert!(matches!(err, ContractError::InvalidAuctionId));

    let err = get_bid_item_by_id(&state, BidItemId(7)).unwrap_err();
    assert!(matches!(err, ContractError::InvalidBidItemId));

    let err = get_bid_items_by_auction_id(&state, AuctionId(7)).unwrap_err();
    assert!(matches!(err, ContractError::InvalidAuctionId));

    let err = place_bid(&mut state, "alice".to_string(), 1, BidItemId(7), 10).unwrap_err();
    assert!(matches!(err, ContractError::InvalidBidItemId));
}

#[test]
fn status_machine_notes() {
    let mut state = setup("owner");
    let auction_id = create(&mut state, "machine", &["a"]);

    // Only the crank may complete an auction.
    let (note, _) = set_auction_state(
        &mut state,
        "owner".to_string(),
        auction_id,
        AuctionStatus::Completed,
    )
    .unwrap();
    assert!(matches!(note, StatusNote::OnlyCrankMayComplete));

    let (note, _) = set_auction_state(
        &mut state,
        "owner".to_string(),
        auction_id,
        AuctionStatus::Suspended,
    )
    .unwrap();
    assert!(matches!(note, StatusNote::Transitioned));

    let (note, _) = set_auction_state(
        &mut state,
        "owner".to_string(),
        auction_id,
        AuctionStatus::Suspended,
    )
    .unwrap();
    assert!(matches!(note, StatusNote::AlreadySuspended));

    let (note, count) = set_auction_state(
        &mut state,
        "owner".to_string(),
        auction_id,
        AuctionStatus::PendingCompletion,
    )
    .unwrap();
    assert!(matches!(note, StatusNote::Transitioned));
    assert_eq!(count, Some(1));

    let (note, _) = set_auction_state(
        &mut state,
        "owner".to_string(),
        auction_id,
        AuctionStatus::Active,
    )
    .unwrap();
    assert!(matches!(note, StatusNote::AlreadyPendingCompletion));

    advance_crank(&mut state);
    let (note, _) = set_auction_state(
        &mut state,
        "owner".to_string(),
        auction_id,
        AuctionStatus::Active,
    )
    .unwrap();
    assert!(matches!(note, StatusNote::AlreadyCompleted));
}

#[test]
fn process_bids_routes_amounts() {
    let mut state = setup("owner");
    let auction_id = create(&mut state, "route", &["lot"]);
    let item = item_ids(&state, auction_id)[0];

    place_bid(&mut state, "alice".to_string(), 1, item, 2).unwrap();
    place_bid(&mut state, "bob".to_string(), 2, item, 9).unwrap();
    place_bid(&mut state, "carol".to_string(), 3, item, 4).unwrap();

    let bids = get_bids_from_bid_item_id(&state, item);
    assert_eq!(bids.len(), 3);
    // Bob's bid of 9 is the winner; its id is the second minted.
    let winning = bids[1].0;
    let transfers = process_bids(&state, winning, &bids);
    assert_eq!(transfers.len(), 3);
    assert_eq!(transfers[0].to, "alice".to_string());
    assert_eq!(transfers[0].amount, 2);
    assert_eq!(transfers[1].to, "owner".to_string());
    assert_eq!(transfers[1].amount, 9);
    assert_eq!(transfers[2].to, "carol".to_string());
    assert_eq!(transfers[2].amount, 4);
}

#[test]
fn auction_with_no_items_completes_on_first_crank() {
    let mut state = setup("owner");
    let auction_id = create(&mut state, "empty", &[]);
    enqueue(&mut state, auction_id);

    let (processed, transfers) = advance_crank(&mut state);
    assert_eq!(processed, 0);
    assert_eq!(transfers.len(), 0);
    let auction = get_auction(&state, auction_id).unwrap();
    assert!(matches!(auction.current_state, AuctionStatus::Completed));
}
