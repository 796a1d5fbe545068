use guardian::duress::{get_followed_users_map_info, DuressLog, PreferenceStore};
use guardian::errors::StoreError;
use guardian::follows::FollowGraph;
use guardian::invites::InviteLedger;
use guardian::log_error_chain;
use guardian::registry::{register_user, register_with_id};
use guardian::types::{CancelDuressRequest, DuressState, Invite, RegisterRequest, User, UserPreferences};
use guardian::users::UserDirectory;

fn register_request(code: &str) -> RegisterRequest {
    RegisterRequest {
        invite_code: code.to_string(),
        normal_pin: "1234".to_string(),
        duress_pin: "9999".to_string(),
    }
}

#[test]
fn issue_and_redeem_scenario() {
    // Issue invite code C for user U1, redeem it twice: the count walks 1, 2.
    let mut ledger = InviteLedger::new();
    let mut users = UserDirectory::new();
    let resp = ledger.issue_at("u1", "C".to_string(), 1_000).unwrap();
    assert_eq!(resp.invite_code, "C");
    assert_eq!(ledger.get_invite("C").unwrap().redemption_count, 0);

    let u2 = register_with_id(&mut ledger, &mut users, &register_request("C"), "u2".to_string())
        .unwrap();
    assert_eq!(u2.id, "u2");
    assert_eq!(u2.invite_code, "C");
    assert_eq!(ledger.get_invite("C").unwrap().redemption_count, 1);

    let u3 = register_with_id(&mut ledger, &mut users, &register_request("C"), "u3".to_string())
        .unwrap();
    assert_eq!(u3.id, "u3");
    assert_eq!(ledger.get_invite("C").unwrap().redemption_count, 2);
    assert_eq!(users.len(), 2);
}

#[test]
fn redeem_unknown_code_is_invalid() {
    let mut ledger = InviteLedger::new();
    assert_eq!(ledger.redeem("nope"), Err(StoreError::InvalidInviteCode));
    assert_eq!(ledger.len(), 0);
}

#[test]
fn register_with_unknown_code_changes_nothing() {
    let mut ledger = InviteLedger::new();
    let mut users = UserDirectory::new();
    let r = register_user(&mut ledger, &mut users, &register_request("missing"));
    assert_eq!(r, Err(StoreError::InvalidInviteCode));
    assert_eq!(users.len(), 0);
    assert_eq!(ledger.len(), 0);
}

#[test]
fn register_user_draws_a_36_char_id() {
    let mut ledger = InviteLedger::new();
    let mut users = UserDirectory::new();
    ledger.issue_at("u1", "C".to_string(), 1_000).unwrap();
    let u = register_user(&mut ledger, &mut users, &register_request("C")).unwrap();
    assert_eq!(u.id.chars().count(), 36);
    assert_eq!(users.len(), 1);
}

#[test]
fn register_conflicting_id_is_refused() {
    let mut ledger = InviteLedger::new();
    let mut users = UserDirectory::new();
    ledger.issue_at("u1", "C".to_string(), 1_000).unwrap();
    register_with_id(&mut ledger, &mut users, &register_request("C"), "dup".to_string()).unwrap();
    let r = register_with_id(&mut ledger, &mut users, &register_request("C"), "dup".to_string());
    assert_eq!(r, Err(StoreError::Conflict));
    // The refused attempt redeemed nothing.
    assert_eq!(ledger.get_invite("C").unwrap().redemption_count, 1);
}

#[test]
fn issue_rate_limit_admits_five_in_window() {
    let mut ledger = InviteLedger::new();
    let now = 1_000u64;
    for k in 0..5u32 {
        let code = format!("code-{}", k);
        assert!(ledger.issue_at("x", code, now).is_ok());
    }
    let sixth = ledger.issue_at("x", "code-5".to_string(), now);
    assert_eq!(sixth, Err(StoreError::RateLimitExceeded));
    assert_eq!(ledger.len(), 5);
    // Another issuer is not limited by x's invites.
    assert!(ledger.issue_at("y", "other".to_string(), now).is_ok());
}

#[test]
fn issue_rate_limit_window_rolls() {
    let mut ledger = InviteLedger::new();
    let created = 1_000u64;
    for k in 0..5u32 {
        let code = format!("code-{}", k);
        assert!(ledger.issue_at("x", code, created).is_ok());
    }
    // One window later the old invites no longer count.
    let later = created + 604_800;
    assert!(ledger.issue_at("x", "fresh".to_string(), later).is_ok());
}

#[test]
fn issue_colliding_code_is_a_conflict() {
    let mut ledger = InviteLedger::new();
    ledger.issue_at("x", "same".to_string(), 1_000).unwrap();
    let r = ledger.issue_at("y", "same".to_string(), 1_000);
    assert_eq!(r, Err(StoreError::Conflict));
    assert_eq!(ledger.len(), 1);
}

#[test]
fn create_invite_draws_a_36_char_code() {
    let mut ledger = InviteLedger::new();
    let resp = ledger.create_invite("u1").unwrap();
    assert_eq!(resp.invite_code.chars().count(), 36);
    assert_eq!(ledger.len(), 1);
    assert_eq!(ledger.get_invite(&resp.invite_code).unwrap().invitor_id, "u1");
}

#[test]
fn get_user_invites_filters_by_issuer() {
    let mut ledger = InviteLedger::new();
    ledger.issue_at("a", "c1".to_string(), 10).unwrap();
    ledger.issue_at("b", "c2".to_string(), 20).unwrap();
    ledger.issue_at("a", "c3".to_string(), 30).unwrap();
    let mine = ledger.get_user_invites("a");
    assert_eq!(mine.len(), 2);
    assert_eq!(mine[0].code, "c1");
    assert_eq!(mine[1].code, "c3");
}

#[test]
fn update_invite_overwrites_by_code() {
    let mut ledger = InviteLedger::new();
    ledger.issue_at("a", "c1".to_string(), 10).unwrap();
    let replacement = Invite {
        code: "c1".to_string(),
        invitor_id: "b".to_string(),
        redemption_count: 7,
        created_at: 99,
    };
    assert_eq!(ledger.update_invite(replacement), Ok(()));
    let got = ledger.get_invite("c1").unwrap();
    assert_eq!(got.invitor_id, "b");
    assert_eq!(got.redemption_count, 7);
    assert_eq!(got.created_at, 99);

    let absent = Invite {
        code: "c9".to_string(),
        invitor_id: "b".to_string(),
        redemption_count: 0,
        created_at: 0,
    };
    assert_eq!(ledger.update_invite(absent), Err(StoreError::NotFound));
    assert_eq!(ledger.len(), 1);
}

#[test]
fn save_invite_is_an_upsert() {
    let mut ledger = InviteLedger::new();
    ledger.save_invite(Invite {
        code: "c".to_string(),
        invitor_id: "a".to_string(),
        redemption_count: 0,
        created_at: 1,
    });
    ledger.save_invite(Invite {
        code: "c".to_string(),
        invitor_id: "a".to_string(),
        redemption_count: 5,
        created_at: 1,
    });
    assert_eq!(ledger.len(), 1);
    assert_eq!(ledger.get_invite("c").unwrap().redemption_count, 5);
}

#[test]
fn follow_twice_yields_one_edge() {
    let mut graph = FollowGraph::new();
    graph.add_follow("alice", "bob");
    graph.add_follow("alice", "bob");
    let followers = graph.list_followers("bob");
    assert_eq!(followers, vec!["alice".to_string()]);
    assert_eq!(graph.len(), 1);
}

#[test]
fn unfollow_absent_edge_is_a_noop() {
    let mut graph = FollowGraph::new();
    graph.add_follow("alice", "bob");
    graph.add_follow("carol", "bob");
    graph.remove_follow("nobody", "bob");
    graph.remove_follow("alice", "dora");
    assert_eq!(graph.len(), 2);
    let followers = graph.list_followers("bob");
    assert_eq!(followers, vec!["alice".to_string(), "carol".to_string()]);
}

#[test]
fn followers_scenario() {
    // Two followers of bob, then one unfollows: a stable order remains.
    let mut graph = FollowGraph::new();
    graph.add_follow("alice", "bob");
    graph.add_follow("carol", "bob");
    assert_eq!(graph.list_followers("bob"), vec!["alice".to_string(), "carol".to_string()]);
    graph.remove_follow("alice", "bob");
    assert_eq!(graph.list_followers("bob"), vec!["carol".to_string()]);
    assert_eq!(graph.len(), 1);
}

#[test]
fn get_follows_returns_matching_edges() {
    let mut graph = FollowGraph::new();
    graph.add_follow("alice", "bob");
    graph.add_follow("alice", "carol");
    graph.add_follow("dora", "bob");
    let toward_bob = graph.get_follows("bob");
    assert_eq!(toward_bob.len(), 2);
    assert_eq!(toward_bob[0].follower_id, "alice");
    assert_eq!(toward_bob[1].follower_id, "dora");
    assert_eq!(graph.list_following("alice"), vec!["bob".to_string(), "carol".to_string()]);
}

fn one_user(id: &str) -> User {
    User {
        id: id.to_string(),
        invite_code: "C".to_string(),
        normal_pin: "1234".to_string(),
        duress_pin: "9999".to_string(),
    }
}

#[test]
fn duress_lifecycle_scenario() {
    let mut users = UserDirectory::new();
    users.save_user(one_user("u"));
    let mut log = DuressLog::new();
    log.log_duress_event("u", "panic", "help", "2024-10-05T11:57:33Z");
    assert_eq!(log.get_duress_record("u").unwrap().state, DuressState::Active);

    // A wrong pin leaves the state active.
    let wrong = CancelDuressRequest { normal_pin: "0000".to_string(), confirm: true };
    assert_eq!(log.cancel_duress("u", &wrong, &users), Err(StoreError::InvalidPin));
    assert_eq!(log.get_duress_record("u").unwrap().state, DuressState::Active);

    // Without the confirmation flag nothing happens either.
    let unconfirmed = CancelDuressRequest { normal_pin: "1234".to_string(), confirm: false };
    assert_eq!(log.cancel_duress("u", &unconfirmed, &users), Err(StoreError::Validation));
    assert_eq!(log.get_duress_record("u").unwrap().state, DuressState::Active);

    // The right pin cancels.
    let right = CancelDuressRequest { normal_pin: "1234".to_string(), confirm: true };
    assert_eq!(log.cancel_duress("u", &right, &users), Ok(()));
    assert_eq!(log.get_duress_record("u").unwrap().state, DuressState::Cancelled);

    // Cancelled is terminal until a new trigger re-enters active.
    assert_eq!(log.cancel_duress("u", &right, &users), Err(StoreError::NotFound));
    log.log_duress_event("u", "panic", "again", "2024-10-06T00:00:00Z");
    assert_eq!(log.get_duress_record("u").unwrap().state, DuressState::Active);
    assert_eq!(log.len(), 1);
}

#[test]
fn duress_second_trigger_supersedes() {
    let mut log = DuressLog::new();
    log.log_duress_event("u", "panic", "first", "t1");
    log.log_duress_event("u", "panic", "second", "t2");
    assert_eq!(log.len(), 1);
    let rec = log.get_duress_record("u").unwrap();
    assert_eq!(rec.message, "second");
    assert_eq!(rec.timestamp, "t2");
}

#[test]
fn cancel_for_unknown_user_is_not_found() {
    let users = UserDirectory::new();
    let mut log = DuressLog::new();
    let req = CancelDuressRequest { normal_pin: "1234".to_string(), confirm: true };
    assert_eq!(log.cancel_duress("ghost", &req, &users), Err(StoreError::NotFound));
}

#[test]
fn enable_test_mode_always_succeeds() {
    let log = DuressLog::new();
    assert_eq!(log.enable_test_mode("u"), Ok(()));
}

#[test]
fn preferences_default_and_overwrite() {
    let mut store = PreferenceStore::new();
    let d = store.get_user_preferences("u");
    assert!(d.broadcast_duress);
    assert!(d.receive_duress_broadcasts);

    store.update_user_preferences(
        "u",
        UserPreferences { broadcast_duress: false, receive_duress_broadcasts: true },
    );
    let p = store.get_user_preferences("u");
    assert!(!p.broadcast_duress);
    assert!(p.receive_duress_broadcasts);

    // The latest write wins whole.
    store.update_user_preferences(
        "u",
        UserPreferences { broadcast_duress: true, receive_duress_broadcasts: false },
    );
    let p2 = store.get_user_preferences("u");
    assert!(p2.broadcast_duress);
    assert!(!p2.receive_duress_broadcasts);
    assert_eq!(store.len(), 1);
}

#[test]
fn map_info_joins_follows_and_duress() {
    let mut graph = FollowGraph::new();
    graph.add_follow("me", "calm");
    graph.add_follow("me", "loud");
    let mut log = DuressLog::new();
    log.log_duress_event("loud", "panic", "help", "t9");

    let rows = get_followed_users_map_info("me", &graph, &log);
    assert_eq!(rows.len(), 2);
    assert_eq!(rows[0].user_id, "calm");
    assert!(!rows[0].duress);
    assert_eq!(rows[0].last_checkin, "");
    assert_eq!(rows[1].user_id, "loud");
    assert!(rows[1].duress);
    assert_eq!(rows[1].last_checkin, "t9");
}

#[test]
fn error_chain_reports_io_detail() {
    let io = StoreError::Io("disk on fire".to_string());
    let lines = log_error_chain(&io);
    assert_eq!(lines, vec!["storage unavailable".to_string(), "disk on fire".to_string()]);

    let plain = log_error_chain(&StoreError::NotFound);
    assert_eq!(plain, vec!["record not found".to_string()]);
    assert_eq!(
        StoreError::RateLimitExceeded.message(),
        "invite limit exceeded for the last 168 hours"
    );
}

#[test]
fn save_user_upserts_and_get_user_finds() {
    let mut users = UserDirectory::new();
    users.save_user(one_user("a"));
    users.save_user(one_user("b"));
    users.save_user(one_user("a"));
    assert_eq!(users.len(), 2);
    assert_eq!(users.get_user("a").unwrap().normal_pin, "1234");
    assert!(users.get_user("zzz").is_none());
}

#[test]
fn duplicate_copies_every_field() {
    let u = one_user("a");
    let copy = u.duplicate();
    assert_eq!(copy.id, u.id);
    assert_eq!(copy.invite_code, u.invite_code);
    assert_eq!(copy.normal_pin, u.normal_pin);
    assert_eq!(copy.duress_pin, u.duress_pin);
}

#[test]
fn every_redemption_counts() {
    // A burst of redemptions of one code loses no increment.
    let mut ledger = InviteLedger::new();
    ledger.issue_at("u1", "C".to_string(), 1_000).unwrap();
    for k in 0..4u32 {
        assert_eq!(ledger.redeem("C"), Ok(k + 1));
    }
    assert_eq!(ledger.get_invite("C").unwrap().redemption_count, 4);
}
