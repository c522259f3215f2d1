//! Tests of the two arbiters and of the drop handler, on concrete pools.

use blutgang_health::dropped_listener_step;
use blutgang_health::escape_poverty;
use blutgang_health::make_poverty;
use blutgang_health::normalize_head;
use blutgang_health::send_dropped_to_poverty;
use blutgang_health::HeadResult;
use blutgang_health::HealthError;
use blutgang_health::Rpc;
use blutgang_health::Status;
use blutgang_health::WsChannelErr;

fn node(url: &str, is_erroring: bool) -> Rpc {
    Rpc {
        url: url.to_string(),
        status: Status { is_erroring },
    }
}

// Construct a hypothetical RPC and heads list for testing
fn dummy_head_check() -> Vec<HeadResult> {
    vec![
        HeadResult {
            rpc_list_index: 0,
            reported_head: 18177557,
        },
        HeadResult {
            rpc_list_index: 1,
            reported_head: 18193012,
        },
        HeadResult {
            rpc_list_index: 2,
            reported_head: 0,
        },
    ]
}

#[test]
fn test_poverty() {
    // Create a mock RPC list and poverty list
    let rpc1 = Rpc::default();
    let rpc2 = Rpc::default();
    let rpc3 = Rpc::default();

    let mut rpc_list = vec![rpc1, rpc2, rpc3];
    let mut poverty_list: Vec<Rpc> = vec![];

    // Test with dummy head results
    let heads = dummy_head_check();

    // Call the make_poverty function
    let result = make_poverty(&mut rpc_list, &mut poverty_list, heads);
    assert!(result.is_ok());

    // Only 1 RPC should be in the rpc list
    assert_eq!(rpc_list.len(), 1);

    // The poverty list should now contain 2 RPCs
    assert_eq!(poverty_list.len(), 2);
}

#[test]
fn test_escape() {
    // Create a mock RPC list and poverty list
    let mut rpc1 = Rpc::default();
    rpc1.status.is_erroring = true;

    let rpc2 = Rpc::default();
    let mut rpc3 = Rpc::default();
    rpc3.status.is_erroring = true;

    let mut rpc_list = vec![rpc2];
    let mut poverty_list = vec![rpc1, rpc3];

    // Test with dummy head results
    let heads = vec![
        HeadResult {
            rpc_list_index: 0,
            reported_head: 18177557,
        },
        HeadResult {
            rpc_list_index: 1,
            reported_head: 18193012,
        },
    ];

    // Call the escape_poverty function
    let result = escape_poverty(&mut rpc_list, &mut poverty_list, heads, 18193012);
    assert!(result.is_ok());

    // RPC3 should have escaped poverty
    assert_eq!(rpc_list.len(), 2);

    // The poverty list should have 1 RPC
    assert_eq!(poverty_list.len(), 1);
}

#[test]
fn pool_arbiter_agrees_on_max_and_partitions() {
    let mut rpc_list = vec![node("a", false), node("b", false), node("c", false)];
    let mut poverty_list: Vec<Rpc> = vec![];

    let result = make_poverty(&mut rpc_list, &mut poverty_list, dummy_head_check());

    // The agreed head is the maximum reported head.
    assert_eq!(result.unwrap(), 18193012);

    // Nodes 0 and 2 are demoted; only node 1 reported the agreed head.
    assert_eq!(rpc_list.len(), 1);
    assert_eq!(rpc_list[0].url, "b");
    assert!(!rpc_list[0].status.is_erroring);

    assert_eq!(poverty_list.len(), 2);
    assert_eq!(poverty_list[0].url, "a");
    assert_eq!(poverty_list[1].url, "c");
    assert!(poverty_list[0].status.is_erroring);
    assert!(poverty_list[1].status.is_erroring);

    // Not one node is lost: the combined membership count is unchanged.
    assert_eq!(rpc_list.len() + poverty_list.len(), 3);
}

#[test]
fn pool_arbiter_handles_results_in_any_arrival_order() {
    // The same poll pass as above, arriving in a different order over the
    // fan-in channel, partitions the pools identically.
    let mut rpc_list = vec![node("a", false), node("b", false), node("c", false)];
    let mut poverty_list: Vec<Rpc> = vec![];

    let heads = vec![
        HeadResult {
            rpc_list_index: 2,
            reported_head: 0,
        },
        HeadResult {
            rpc_list_index: 0,
            reported_head: 18177557,
        },
        HeadResult {
            rpc_list_index: 1,
            reported_head: 18193012,
        },
    ];

    let result = make_poverty(&mut rpc_list, &mut poverty_list, heads);
    assert_eq!(result.unwrap(), 18193012);

    assert_eq!(rpc_list.len(), 1);
    assert_eq!(rpc_list[0].url, "b");

    // Demotions arrive in result order: node 2 first, then node 0.
    assert_eq!(poverty_list.len(), 2);
    assert_eq!(poverty_list[0].url, "c");
    assert_eq!(poverty_list[1].url, "a");
}

#[test]
fn pool_arbiter_of_empty_pool_agrees_on_zero() {
    let mut rpc_list: Vec<Rpc> = vec![];
    let mut poverty_list: Vec<Rpc> = vec![];

    let result = make_poverty(&mut rpc_list, &mut poverty_list, vec![]);

    // An empty poll-result set agrees on head 0 and demotes nothing.
    assert_eq!(result.unwrap(), 0);
    assert!(rpc_list.is_empty());
    assert!(poverty_list.is_empty());
}

#[test]
fn lone_node_is_never_demoted() {
    // A pool of one node is never demoted, whatever it reports: its own
    // head is the agreed head, even when it is the sentinel 0.
    for reported in [0u64, 1, 18193012, u64::MAX] {
        let mut rpc_list = vec![node("only", false)];
        let mut poverty_list: Vec<Rpc> = vec![];

        let heads = vec![HeadResult {
            rpc_list_index: 0,
            reported_head: reported,
        }];

        let result = make_poverty(&mut rpc_list, &mut poverty_list, heads);
        assert_eq!(result.unwrap(), reported);
        assert_eq!(rpc_list.len(), 1);
        assert_eq!(rpc_list[0].url, "only");
        assert!(poverty_list.is_empty());
    }
}

#[test]
fn pool_arbiter_is_idempotent_without_an_intervening_poll() {
    let mut rpc_list = vec![node("a", false), node("b", false), node("c", false)];
    let mut poverty_list: Vec<Rpc> = vec![];

    let agreed = make_poverty(&mut rpc_list, &mut poverty_list, dummy_head_check())
        .unwrap();
    assert_eq!(rpc_list.len(), 1);
    assert_eq!(poverty_list.len(), 2);

    // Without an intervening poll the surviving nodes still stand at the
    // already-enforced agreed head, so a second pass is a no-op.
    let heads_again = vec![HeadResult {
        rpc_list_index: 0,
        reported_head: agreed,
    }];
    let second = make_poverty(&mut rpc_list, &mut poverty_list, heads_again);
    assert_eq!(second.unwrap(), agreed);
    assert_eq!(rpc_list.len(), 1);
    assert_eq!(rpc_list[0].url, "b");
    assert_eq!(poverty_list.len(), 2);
}

#[test]
fn recovery_arbiter_promotes_only_caught_up_nodes() {
    let mut rpc_list = vec![node("active", false)];
    let mut poverty_list = vec![node("behind", true), node("caught_up", true)];

    let heads = vec![
        HeadResult {
            rpc_list_index: 0,
            reported_head: 18177557,
        },
        HeadResult {
            rpc_list_index: 1,
            reported_head: 18193012,
        },
    ];

    let result = escape_poverty(&mut rpc_list, &mut poverty_list, heads, 18193012);
    assert!(result.is_ok());

    // Only the second node reported at or above the agreed head.
    assert_eq!(rpc_list.len(), 2);
    assert_eq!(rpc_list[0].url, "active");
    assert_eq!(rpc_list[1].url, "caught_up");
    assert!(!rpc_list[1].status.is_erroring);

    assert_eq!(poverty_list.len(), 1);
    assert_eq!(poverty_list[0].url, "behind");
    assert!(poverty_list[0].status.is_erroring);
}

#[test]
fn recovery_arbiter_without_results_promotes_nothing() {
    let mut rpc_list: Vec<Rpc> = vec![];
    let mut poverty_list = vec![node("behind", true)];

    let result = escape_poverty(&mut rpc_list, &mut poverty_list, vec![], 42);
    assert!(result.is_ok());
    assert!(rpc_list.is_empty());
    assert_eq!(poverty_list.len(), 1);
    assert_eq!(poverty_list[0].url, "behind");
}

#[test]
fn normalize_head_keeps_response_and_zeroes_failure() {
    let ok = normalize_head(3, Some(18193012));
    assert_eq!(ok.rpc_list_index, 3);
    assert_eq!(ok.reported_head, 18193012);

    // A transport error or an exceeded deadline becomes the sentinel head 0.
    let failed = normalize_head(7, None);
    assert_eq!(failed.rpc_list_index, 7);
    assert_eq!(failed.reported_head, 0);
}

#[test]
fn dropped_node_moves_to_poverty() {
    let mut rpc_list = vec![node("a", false), node("b", false)];
    let mut poverty_list: Vec<Rpc> = vec![];

    send_dropped_to_poverty(&mut rpc_list, &mut poverty_list, 0);

    assert_eq!(rpc_list.len(), 1);
    assert_eq!(rpc_list[0].url, "b");
    assert_eq!(poverty_list.len(), 1);
    assert_eq!(poverty_list[0].url, "a");
}

#[test]
fn stale_drop_notification_mutates_nothing() {
    // A notification naming an index no longer present in the active pool
    // results in no pool mutation, but the listener still reports the index
    // back so that migration and reconnect are attempted.
    let mut rpc_list = vec![node("a", false)];
    let mut poverty_list: Vec<Rpc> = vec![];

    let step = dropped_listener_step(
        &mut rpc_list,
        &mut poverty_list,
        Some(WsChannelErr::Closed(5)),
    );
    assert_eq!(step.unwrap(), 5);

    assert_eq!(rpc_list.len(), 1);
    assert_eq!(rpc_list[0].url, "a");
    assert!(poverty_list.is_empty());
}

#[test]
fn closed_notification_channel_is_fatal() {
    let mut rpc_list = vec![node("a", false)];
    let mut poverty_list: Vec<Rpc> = vec![];

    let step = dropped_listener_step(&mut rpc_list, &mut poverty_list, None);
    match step {
        Err(HealthError::InvalidResponse(m)) => {
            assert_eq!(m, "Expected WsChannelErr!");
        }
        _ => panic!("expected a protocol-violation error"),
    }

    // The pools are untouched.
    assert_eq!(rpc_list.len(), 1);
    assert!(poverty_list.is_empty());
}

#[test]
fn error_message_is_exposed() {
    let err = HealthError::InvalidResponse("broken channel".to_string());
    assert_eq!(err.message().as_str(), "broken channel");
}

#[test]
fn demoted_node_recovers_after_catching_up() {
    // One full story: a node falls behind, is demoted, then catches up and
    // is promoted back.
    let mut rpc_list = vec![node("steady", false), node("flaky", false)];
    let mut poverty_list: Vec<Rpc> = vec![];

    let heads = vec![
        HeadResult {
            rpc_list_index: 0,
            reported_head: 100,
        },
        HeadResult {
            rpc_list_index: 1,
            reported_head: 0,
        },
    ];
    let agreed = make_poverty(&mut rpc_list, &mut poverty_list, heads).unwrap();
    assert_eq!(agreed, 100);
    assert_eq!(rpc_list.len(), 1);
    assert_eq!(poverty_list.len(), 1);
    assert_eq!(poverty_list[0].url, "flaky");

    let poverty_heads = vec![HeadResult {
        rpc_list_index: 0,
        reported_head: 101,
    }];
    escape_poverty(&mut rpc_list, &mut poverty_list, poverty_heads, agreed).unwrap();

    assert_eq!(rpc_list.len(), 2);
    assert_eq!(rpc_list[1].url, "flaky");
    assert!(!rpc_list[1].status.is_erroring);
    assert!(poverty_list.is_empty());
}
