use bidding::contract::{execute, query};
use bidding::lifecycle::instantiate;
use bidding::msg::{ExecuteMsg, InstantiateMsg, QueryAnswer, QueryMsg, Response};
use bidding::state::{AuctionId, BidItem, BidItemId, BidItemKey, State};

fn setup(admin: &str) -> State {
    instantiate(InstantiateMsg { admin: admin.to_string() })
}

fn created_auction_id(resp: Response) -> AuctionId {
    match resp {
        Response::AuctionCreated { auction_id } => auction_id,
        _ => panic!("expected an auction to be created"),
    }
}

#[test]
fn instantiation() {
    let sender_address = "owner".to_string();
    let state = setup("owner");

    let resp = match query(&state, QueryMsg::Admin {}).unwrap() {
        QueryAnswer::AdminAddr(addr) => addr,
        _ => panic!("expected the admin address"),
    };

    assert_eq!(resp, sender_address);
}

#[test]
fn create_auction() {
    let mut state = setup("owner");

    let bid_items = vec![
        "My first bid item".to_string(),
        "My second bid item".to_string(),
    ];

    let resp = execute(
        &mut state,
        "owner".to_string(),
        0,
        ExecuteMsg::CreateAuction {
            name: "TestAuction #1".to_string(),
            bid_items,
        },
    )
    .unwrap();

    let auction_id = created_auction_id(resp);

    let resp = match query(&state, QueryMsg::Auction { id: auction_id }).unwrap() {
        QueryAnswer::OneAuction(auction) => auction,
        _ => panic!("expected an auction"),
    };

    assert_eq!(resp.name, "TestAuction #1");
}

#[test]
fn set_auction_state() {
    let mut state = setup("owner");

    let bid_items = vec![
        "My first bid item".to_string(),
        "My second bid item".to_string(),
    ];

    let resp = execute(
        &mut state,
        "owner".to_string(),
        0,
        ExecuteMsg::CreateAuction {
            name: "TestAuction #1".to_string(),
            bid_items,
        },
    )
    .unwrap();

    let auction_id = created_auction_id(resp);

    let resp = execute(
        &mut state,
        "owner".to_string(),
        0,
        ExecuteMsg::SetAuctionState {
            id: auction_id,
            status: bidding::state::AuctionStatus::PendingCompletion,
        },
    )
    .unwrap();

    let auctions_crank_queue_count = match resp {
        Response::StatusUpdated {
            crank_queue_count, ..
        } => crank_queue_count.unwrap(),
        _ => panic!("expected a status update"),
    };

    assert_eq!(auctions_crank_queue_count, 1);
}

#[test]
fn advance_crank() {
    let mut state = setup("owner");
    let mut now: u64 = 0;

    let bid_items = vec![
        "TA1 1st bid item".to_string(),
        "TA1 2nd bid item".to_string(),
        "TA1 3rd bid item".to_string(),
        "TA1 4th bid item".to_string(),
        "TA1 5th bid item".to_string(),
    ];

    let resp = execute(
        &mut state,
        "owner".to_string(),
        now,
        ExecuteMsg::CreateAuction {
            name: "TestAuction #1".to_string(),
            bid_items,
        },
    )
    .unwrap();

    let auction_id = created_auction_id(resp);

    let bid_items = vec![
        "TA1 6th bid item".to_string(),
        "TA1 7th bid item".to_string(),
    ];

    execute(
        &mut state,
        "owner".to_string(),
        now,
        ExecuteMsg::AddBidItems {
            auction_id,
            bid_items,
        },
    )
    .unwrap();

    let resp: Vec<(BidItemId, BidItem)> =
        match query(&state, QueryMsg::BidItemsByAuctionId { auction_id }).unwrap() {
            QueryAnswer::ItemsByAuction(items) => items,
            _ => panic!("expected the auction's bid items"),
        };

    assert_eq!(resp.len(), 7);

    for bid_item in resp {
        if bid_item.1.name == "TA1 2nd bid item" {
            for coins_to_bid in [4u128, 1] {
                now += 1;
                execute(
                    &mut state,
                    "user".to_string(),
                    now,
                    ExecuteMsg::PlaceBid {
                        bid_item_id: bid_item.0,
                        coins_to_bid,
                    },
                )
                .unwrap();
            }
        } else if bid_item.1.name == "TA1 4th bid item" {
            for coins_to_bid in [8u128, 10, 16] {
                now += 1;
                execute(
                    &mut state,
                    "user".to_string(),
                    now,
                    ExecuteMsg::PlaceBid {
                        bid_item_id: bid_item.0,
                        coins_to_bid,
                    },
                )
                .unwrap();
            }
        } else if bid_item.1.name == "TA1 6th bid item" {
            for coins_to_bid in [36u128, 35, 5] {
                now += 1;
                execute(
                    &mut state,
                    "user".to_string(),
                    now,
                    ExecuteMsg::PlaceBid {
                        bid_item_id: bid_item.0,
                        coins_to_bid,
                    },
                )
                .unwrap();
            }
        }
    }

    let resp = execute(
        &mut state,
        "owner".to_string(),
        now,
        ExecuteMsg::SetAuctionState {
            id: auction_id,
            status: bidding::state::AuctionStatus::PendingCompletion,
        },
    )
    .unwrap();

    let auctions_crank_queue_count = match resp {
        Response::StatusUpdated {
            crank_queue_count, ..
        } => crank_queue_count.unwrap(),
        _ => panic!("expected a status update"),
    };

    assert_eq!(auctions_crank_queue_count, 1);

    for sender in ["owner", "user", "owner", "user"] {
        execute(
            &mut state,
            sender.to_string(),
            now,
            ExecuteMsg::AdvanceCrank {},
        )
        .unwrap();
    }
}

#[test]
fn get_paginated_auctions() {
    let mut state = setup("owner");

    let total_auctions = 15;

    for num in 0..total_auctions {
        let bid_items = vec![
            "My first bid item".to_string(),
            "My second bid item".to_string(),
        ];

        let auction_name = format!("TestAuction #{num}");

        execute(
            &mut state,
            "owner".to_string(),
            0,
            ExecuteMsg::CreateAuction {
                name: auction_name,
                bid_items,
            },
        )
        .unwrap();
    }

    let resp = match query(&state, QueryMsg::Auctions { start_after: None }).unwrap() {
        QueryAnswer::AuctionPage(page) => page,
        _ => panic!("expected a page of auctions"),
    };

    assert_eq!(resp.len(), 10);
}

#[test]
fn get_bid_items_by_ids() {
    let mut state = setup("owner");

    let bid_items = vec![
        "My first bid item".to_string(),
        "My second bid item".to_string(),
    ];

    execute(
        &mut state,
        "owner".to_string(),
        0,
        ExecuteMsg::CreateAuction {
            name: "TestAuction #1".to_string(),
            bid_items,
        },
    )
    .unwrap();

    let resp: Vec<(BidItemKey, BidItem)> =
        match query(&state, QueryMsg::BidItems { start_after: None }).unwrap() {
            QueryAnswer::ItemPage(page) => page,
            _ => panic!("expected a page of bid items"),
        };

    let mut bid_items_ids: Vec<BidItemId> = vec![];
    bid_items_ids.push(resp[0].0.bid_item_id);
    bid_items_ids.push(resp[1].0.bid_item_id);

    let resp: Vec<(BidItemId, BidItem)> =
        match query(&state, QueryMsg::BidItemsById { bid_items_ids }).unwrap() {
            QueryAnswer::ItemsById(items) => items,
            _ => panic!("expected the bid items"),
        };

    assert_eq!(resp[0].1.name, "My first bid item".to_string());
    assert_eq!(resp[1].1.name, "My second bid item".to_string());
}
