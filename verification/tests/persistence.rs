use guardian::codec::{decode_fields, encode_fields};
use guardian::duress::{DuressLog, PreferenceStore};
use guardian::follows::FollowGraph;
use guardian::invites::InviteLedger;
use guardian::records::{
    decode_duress, decode_follow, decode_invite, decode_pref, decode_user, encode_duress,
    encode_follow, encode_invite, encode_pref, encode_user,
};
use guardian::types::{DuressRecord, DuressState, Follow, Invite, User, UserPreferences};
use guardian::users::UserDirectory;
use guardian::duress::PreferenceRecord;

#[test]
fn fields_round_trip_with_special_bytes() {
    let fields: Vec<Vec<u8>> = vec![
        b"a|b".to_vec(),
        b"c\\d".to_vec(),
        b"e\nf".to_vec(),
        Vec::new(),
        b"plain".to_vec(),
    ];
    let line = encode_fields(&fields);
    // The separator only joins fields: four separators for five fields,
    // and the separator inside the first field is escaped away.
    assert_eq!(line.iter().filter(|&&b| b == 124).count(), 4);
    let back = decode_fields(line.as_slice()).unwrap();
    assert_eq!(back, fields);
}

#[test]
fn broken_escape_is_corrupt() {
    assert!(decode_fields(&[92]).is_none());
    assert!(decode_fields(&[97, 92, 113]).is_none());
    // A healthy line with no special bytes is itself.
    let simple = decode_fields(b"ab".as_slice()).unwrap();
    assert_eq!(simple, vec![b"ab".to_vec()]);
    // The empty line is one empty field.
    let empty = decode_fields(b"".as_slice()).unwrap();
    assert_eq!(empty, vec![Vec::<u8>::new()]);
}

#[test]
fn invite_line_round_trip() {
    let inv = Invite {
        code: "c0de|with\\bytes".to_string(),
        invitor_id: "issuer one".to_string(),
        redemption_count: 4_294_967_295,
        created_at: 18_000_000_000,
    };
    let line = encode_invite(&inv);
    let back = decode_invite(line.as_slice()).unwrap();
    assert_eq!(back.code, inv.code);
    assert_eq!(back.invitor_id, inv.invitor_id);
    assert_eq!(back.redemption_count, inv.redemption_count);
    assert_eq!(back.created_at, inv.created_at);
}

#[test]
fn invite_line_with_bad_number_is_corrupt() {
    let fields: Vec<Vec<u8>> = vec![
        b"code".to_vec(),
        b"issuer".to_vec(),
        b"12x".to_vec(),
        b"100".to_vec(),
    ];
    let line = encode_fields(&fields);
    assert!(decode_invite(line.as_slice()).is_none());
    // A count past the 32-bit range is corrupt too.
    let fields2: Vec<Vec<u8>> = vec![
        b"code".to_vec(),
        b"issuer".to_vec(),
        b"4294967296".to_vec(),
        b"100".to_vec(),
    ];
    let line2 = encode_fields(&fields2);
    assert!(decode_invite(line2.as_slice()).is_none());
}

#[test]
fn user_line_round_trip() {
    let u = User {
        id: "u-1".to_string(),
        invite_code: "caf\u{00e9}".to_string(),
        normal_pin: "12|34".to_string(),
        duress_pin: "98\n76".to_string(),
    };
    let line = encode_user(&u);
    let back = decode_user(line.as_slice()).unwrap();
    assert_eq!(back.id, u.id);
    assert_eq!(back.invite_code, u.invite_code);
    assert_eq!(back.normal_pin, u.normal_pin);
    assert_eq!(back.duress_pin, u.duress_pin);
    // Too few fields is corrupt.
    assert!(decode_user(encode_fields(&vec![b"only".to_vec()]).as_slice()).is_none());
    // Bytes that are not text are corrupt.
    let bad = encode_fields(&vec![vec![0xff, 0xfe], b"c".to_vec(), b"n".to_vec(), b"d".to_vec()]);
    assert!(decode_user(bad.as_slice()).is_none());
}

#[test]
fn follow_and_duress_and_pref_lines_round_trip() {
    let e = Follow { follower_id: "a|a".to_string(), followed_id: "b\\b".to_string() };
    let eb = decode_follow(encode_follow(&e).as_slice()).unwrap();
    assert_eq!(eb.follower_id, e.follower_id);
    assert_eq!(eb.followed_id, e.followed_id);

    let d = DuressRecord {
        user_id: "u".to_string(),
        duress_type: "panic".to_string(),
        message: "l1\nl2".to_string(),
        timestamp: "t".to_string(),
        state: DuressState::Cancelled,
    };
    let db = decode_duress(encode_duress(&d).as_slice()).unwrap();
    assert_eq!(db.user_id, d.user_id);
    assert_eq!(db.message, d.message);
    assert_eq!(db.state, DuressState::Cancelled);

    let p = PreferenceRecord {
        user_id: "u".to_string(),
        preferences: UserPreferences { broadcast_duress: false, receive_duress_broadcasts: true },
    };
    let pb = decode_pref(encode_pref(&p).as_slice()).unwrap();
    assert_eq!(pb.user_id, "u");
    assert!(!pb.preferences.broadcast_duress);
    assert!(pb.preferences.receive_duress_broadcasts);

    // A made-up state byte is corrupt.
    let bad = encode_fields(&vec![
        b"u".to_vec(),
        b"panic".to_vec(),
        b"m".to_vec(),
        b"t".to_vec(),
        b"X".to_vec(),
    ]);
    assert!(decode_duress(bad.as_slice()).is_none());
}

#[test]
fn ledger_survives_its_lines() {
    let mut ledger = InviteLedger::new();
    ledger.issue_at("a", "c1".to_string(), 10).unwrap();
    ledger.issue_at("b", "c2".to_string(), 20).unwrap();
    ledger.redeem("c2").unwrap();
    let lines = ledger.to_lines();
    assert_eq!(lines.len(), 2);
    let (back, skipped) = InviteLedger::from_lines(&lines);
    assert_eq!(skipped, 0);
    assert_eq!(back.len(), 2);
    assert_eq!(back.get_invite("c1").unwrap().redemption_count, 0);
    assert_eq!(back.get_invite("c2").unwrap().redemption_count, 1);
}

#[test]
fn corrupt_lines_are_skipped_not_fatal() {
    let mut ledger = InviteLedger::new();
    ledger.issue_at("a", "good".to_string(), 10).unwrap();
    let mut lines = ledger.to_lines();
    lines.push(vec![92]);
    lines.push(b"too|few".to_vec());
    let (back, skipped) = InviteLedger::from_lines(&lines);
    assert_eq!(skipped, 2);
    assert_eq!(back.len(), 1);
    assert!(back.get_invite("good").is_some());
}

#[test]
fn directory_graph_log_and_prefs_survive_their_lines() {
    let mut users = UserDirectory::new();
    users.save_user(User {
        id: "u1".to_string(),
        invite_code: "c".to_string(),
        normal_pin: "1".to_string(),
        duress_pin: "2".to_string(),
    });
    let (users2, skipped_u) = UserDirectory::from_lines(&users.to_lines());
    assert_eq!(skipped_u, 0);
    assert_eq!(users2.get_user("u1").unwrap().invite_code, "c");

    let mut graph = FollowGraph::new();
    graph.add_follow("a", "b");
    graph.add_follow("c", "b");
    let (graph2, skipped_g) = FollowGraph::from_lines(&graph.to_lines());
    assert_eq!(skipped_g, 0);
    assert_eq!(graph2.list_followers("b"), vec!["a".to_string(), "c".to_string()]);

    let mut log = DuressLog::new();
    log.log_duress_event("u", "panic", "m", "t");
    let (log2, skipped_d) = DuressLog::from_lines(&log.to_lines());
    assert_eq!(skipped_d, 0);
    assert_eq!(log2.get_duress_record("u").unwrap().state, DuressState::Active);

    let mut prefs = PreferenceStore::new();
    prefs.update_user_preferences(
        "u",
        UserPreferences { broadcast_duress: false, receive_duress_broadcasts: false },
    );
    let (prefs2, skipped_p) = PreferenceStore::from_lines(&prefs.to_lines());
    assert_eq!(skipped_p, 0);
    assert!(!prefs2.get_user_preferences("u").broadcast_duress);
    assert!(!prefs2.get_user_preferences("u").receive_duress_broadcasts);
}

#[test]
fn loading_duplicate_keys_keeps_the_last_write() {
    let i1 = Invite {
        code: "c".to_string(),
        invitor_id: "a".to_string(),
        redemption_count: 1,
        created_at: 10,
    };
    let i2 = Invite {
        code: "c".to_string(),
        invitor_id: "a".to_string(),
        redemption_count: 9,
        created_at: 10,
    };
    let lines = vec![encode_invite(&i1), encode_invite(&i2)];
    let (ledger, skipped) = InviteLedger::from_lines(&lines);
    assert_eq!(skipped, 0);
    assert_eq!(ledger.len(), 1);
    assert_eq!(ledger.get_invite("c").unwrap().redemption_count, 9);
}
