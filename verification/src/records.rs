//! How each record is written as one line's fields and read back.
//! Reading accepts exactly the well-formed lines; anything else is one
//! corrupt record, to be skipped, never a crash.

use vstd::prelude::*;
use vstd::utf8::{decode_utf8, encode_utf8, valid_utf8};
use crate::codec::{
    dec, dec_digits, decode_fields, enc_fields, encode_fields, encode_u64, is_digits,
    lemma_codec_round_trip, lemma_dec_digits_val, num_val, parse_u32, parse_u64,
};
use crate::text::{bytes_to_string, string_to_bytes};
use crate::types::{
    DuressRecord, DuressRecordModel, DuressState, Follow, FollowModel, Invite, InviteModel, User,
    UserModel, UserPreferences,
};
use crate::duress::{PreferenceModel, PreferenceRecord};

verus! {

/// The stored form of a duress state: one byte.
pub open spec fn state_field(s: DuressState) -> Seq<u8> {
    match s {
        DuressState::Active => seq![65u8],
        DuressState::Cancelled => seq![67u8],
    }
}

/// The stored form of a flag: one digit byte.
pub open spec fn bool_field(b: bool) -> Seq<u8> {
    if b {
        seq![49u8]
    } else {
        seq![48u8]
    }
}

// ---------------------------------------------------------------------
// Users
// ---------------------------------------------------------------------

/// A user's four fields, in stored order.
pub open spec fn user_fields(m: UserModel) -> Seq<Seq<u8>> {
    seq![
        encode_utf8(m.id),
        encode_utf8(m.invite_code),
        encode_utf8(m.normal_pin),
        encode_utf8(m.duress_pin),
    ]
}

/// A user's line.
pub open spec fn user_line_of(m: UserModel) -> Seq<u8> {
    enc_fields(user_fields(m))
}

/// What a user line's fields must look like, and the user they name.
pub open spec fn user_of_fields(fs: Seq<Seq<u8>>) -> Option<UserModel> {
    if fs.len() == 4 && valid_utf8(fs[0]) && valid_utf8(fs[1]) && valid_utf8(fs[2]) && valid_utf8(
        fs[3],
    ) {
        Some(
            UserModel {
                id: decode_utf8(fs[0]),
                invite_code: decode_utf8(fs[1]),
                normal_pin: decode_utf8(fs[2]),
                duress_pin: decode_utf8(fs[3]),
            },
        )
    } else {
        None
    }
}

/// What one stored line names, if it is a well-formed user record.
pub open spec fn user_of_line(line: Seq<u8>) -> Option<UserModel> {
    match dec(line) {
        None => None,
        Some(fs) => user_of_fields(fs),
    }
}

/// Write one user as its line.
pub fn encode_user(user: &User) -> (r: Vec<u8>)
    ensures
        r@ == user_line_of(user@),
{
    let mut fields: Vec<Vec<u8>> = Vec::new();
    fields.push(string_to_bytes(user.id.as_str()));
    fields.push(string_to_bytes(user.invite_code.as_str()));
    fields.push(string_to_bytes(user.normal_pin.as_str()));
    fields.push(string_to_bytes(user.duress_pin.as_str()));
    proof {
        assert(fields.deep_view() =~~= user_fields(user@));
    }
    encode_fields(&fields)
}

/// Read one line back as a user, or report it corrupt.
pub fn decode_user(line: &[u8]) -> (r: Option<User>)
    ensures
        r is Some <==> user_of_line(line@) is Some,
        r matches Some(u) ==> user_of_line(line@) == Some(u@),
{
    let mut fields = match decode_fields(line) {
        None => {
            return None;
        },
        Some(f) => f,
    };
    let ghost fs = dec(line@)->Some_0;
    proof {
        assert(fields.deep_view() == fs);
    }
    if fields.len() != 4 {
        return None;
    }
    proof {
        assert(fields[0].deep_view() =~= fields[0]@);
        assert(fields[1].deep_view() =~= fields[1]@);
        assert(fields[2].deep_view() =~= fields[2]@);
        assert(fields[3].deep_view() =~= fields[3]@);
    }
    let f3 = fields.pop().unwrap();
    let f2 = fields.pop().unwrap();
    let f1 = fields.pop().unwrap();
    let f0 = fields.pop().unwrap();
    let id = match bytes_to_string(f0) {
        None => {
            return None;
        },
        Some(s) => s,
    };
    let invite_code = match bytes_to_string(f1) {
        None => {
            return None;
        },
        Some(s) => s,
    };
    let normal_pin = match bytes_to_string(f2) {
        None => {
            return None;
        },
        Some(s) => s,
    };
    let duress_pin = match bytes_to_string(f3) {
        None => {
            return None;
        },
        Some(s) => s,
    };
    Some(User { id, invite_code, normal_pin, duress_pin })
}

/// A user's line reads back as exactly that user.
pub proof fn lemma_user_line_round_trip(m: UserModel)
    ensures
        user_of_line(user_line_of(m)) == Some(m),
{
    broadcast use vstd::utf8::encode_utf8_valid_utf8, vstd::utf8::encode_utf8_decode_utf8;

    lemma_codec_round_trip(user_fields(m));
    assert(user_of_fields(user_fields(m)) matches Some(m2) && m2 =~= m);
}

// ---------------------------------------------------------------------
// Invites
// ---------------------------------------------------------------------

/// An invite's four fields, in stored order: code, issuer, tally,
/// creation instant.
pub open spec fn invite_fields(m: InviteModel) -> Seq<Seq<u8>> {
    seq![
        encode_utf8(m.code),
        encode_utf8(m.invitor_id),
        dec_digits(m.redemption_count as u64),
        dec_digits(m.created_at),
    ]
}

/// An invite's line.
pub open spec fn invite_line_of(m: InviteModel) -> Seq<u8> {
    enc_fields(invite_fields(m))
}

/// What an invite line's fields must look like, and the invite they name.
pub open spec fn invite_of_fields(fs: Seq<Seq<u8>>) -> Option<InviteModel> {
    if fs.len() == 4 && valid_utf8(fs[0]) && valid_utf8(fs[1]) && is_digits(fs[2]) && num_val(
        fs[2],
    ) <= u32::MAX && is_digits(fs[3]) && num_val(fs[3]) <= u64::MAX {
        Some(
            InviteModel {
                code: decode_utf8(fs[0]),
                invitor_id: decode_utf8(fs[1]),
                redemption_count: num_val(fs[2]) as u32,
                created_at: num_val(fs[3]) as u64,
            },
        )
    } else {
        None
    }
}

/// What one stored line names, if it is a well-formed invite record.
pub open spec fn invite_of_line(line: Seq<u8>) -> Option<InviteModel> {
    match dec(line) {
        None => None,
        Some(fs) => invite_of_fields(fs),
    }
}

/// Write one invite as its line.
pub fn encode_invite(invite: &Invite) -> (r: Vec<u8>)
    ensures
        r@ == invite_line_of(invite@),
{
    let mut fields: Vec<Vec<u8>> = Vec::new();
    fields.push(string_to_bytes(invite.code.as_str()));
    fields.push(string_to_bytes(invite.invitor_id.as_str()));
    fields.push(encode_u64(invite.redemption_count as u64));
    fields.push(encode_u64(invite.created_at));
    proof {
        assert(fields.deep_view() =~~= invite_fields(invite@));
    }
    encode_fields(&fields)
}

/// Read one line back as an invite, or report it corrupt.
pub fn decode_invite(line: &[u8]) -> (r: Option<Invite>)
    ensures
        r is Some <==> invite_of_line(line@) is Some,
        r matches Some(inv) ==> invite_of_line(line@) == Some(inv@),
{
    let mut fields = match decode_fields(line) {
        None => {
            return None;
        },
        Some(f) => f,
    };
    let ghost fs = dec(line@)->Some_0;
    proof {
        assert(fields.deep_view() == fs);
    }
    if fields.len() != 4 {
        return None;
    }
    proof {
        assert(fields[0].deep_view() =~= fields[0]@);
        assert(fields[1].deep_view() =~= fields[1]@);
        assert(fields[2].deep_view() =~= fields[2]@);
        assert(fields[3].deep_view() =~= fields[3]@);
    }
    let created_at = match parse_u64(fields[3].as_slice()) {
        None => {
            return None;
        },
        Some(v) => v,
    };
    let redemption_count = match parse_u32(fields[2].as_slice()) {
        None => {
            return None;
        },
        Some(v) => v,
    };
    let _created_field = fields.pop().unwrap();
    let _count_field = fields.pop().unwrap();
    let invitor_bytes = fields.pop().unwrap();
    let code_bytes = fields.pop().unwrap();
    let code = match bytes_to_string(code_bytes) {
        None => {
            return None;
        },
        Some(s) => s,
    };
    let invitor_id = match bytes_to_string(invitor_bytes) {
        None => {
            return None;
        },
        Some(s) => s,
    };
    Some(Invite { code, invitor_id, redemption_count, created_at })
}

/// An invite's line reads back as exactly that invite.
pub proof fn lemma_invite_line_round_trip(m: InviteModel)
    ensures
        invite_of_line(invite_line_of(m)) == Some(m),
{
    broadcast use vstd::utf8::encode_utf8_valid_utf8, vstd::utf8::encode_utf8_decode_utf8;

    lemma_codec_round_trip(invite_fields(m));
    lemma_dec_digits_val(m.redemption_count as u64);
    lemma_dec_digits_val(m.created_at);
    assert(invite_of_fields(invite_fields(m)) matches Some(m2) && m2 =~= m);
}

// ---------------------------------------------------------------------
// Follow edges
// ---------------------------------------------------------------------

/// An edge's two fields, in stored order.
pub open spec fn follow_fields(m: FollowModel) -> Seq<Seq<u8>> {
    seq![encode_utf8(m.follower_id), encode_utf8(m.followed_id)]
}

/// An edge's line.
pub open spec fn follow_line_of(m: FollowModel) -> Seq<u8> {
    enc_fields(follow_fields(m))
}

/// What an edge line's fields must look like, and the edge they name.
pub open spec fn follow_of_fields(fs: Seq<Seq<u8>>) -> Option<FollowModel> {
    if fs.len() == 2 && valid_utf8(fs[0]) && valid_utf8(fs[1]) {
        Some(FollowModel { follower_id: decode_utf8(fs[0]), followed_id: decode_utf8(fs[1]) })
    } else {
        None
    }
}

/// What one stored line names, if it is a well-formed edge record.
pub open spec fn follow_of_line(line: Seq<u8>) -> Option<FollowModel> {
    match dec(line) {
        None => None,
        Some(fs) => follow_of_fields(fs),
    }
}

/// Write one edge as its line.
pub fn encode_follow(follow: &Follow) -> (r: Vec<u8>)
    ensures
        r@ == follow_line_of(follow@),
{
    let mut fields: Vec<Vec<u8>> = Vec::new();
    fields.push(string_to_bytes(follow.follower_id.as_str()));
    fields.push(string_to_bytes(follow.followed_id.as_str()));
    proof {
        assert(fields.deep_view() =~~= follow_fields(follow@));
    }
    encode_fields(&fields)
}

/// Read one line back as an edge, or report it corrupt.
pub fn decode_follow(line: &[u8]) -> (r: Option<Follow>)
    ensures
        r is Some <==> follow_of_line(line@) is Some,
        r matches Some(e) ==> follow_of_line(line@) == Some(e@),
{
    let mut fields = match decode_fields(line) {
        None => {
            return None;
        },
        Some(f) => f,
    };
    let ghost fs = dec(line@)->Some_0;
    proof {
        assert(fields.deep_view() == fs);
    }
    if fields.len() != 2 {
        return None;
    }
    proof {
        assert(fields[0].deep_view() =~= fields[0]@);
        assert(fields[1].deep_view() =~= fields[1]@);
    }
    let followed_bytes = fields.pop().unwrap();
    let follower_bytes = fields.pop().unwrap();
    let follower_id = match bytes_to_string(follower_bytes) {
        None => {
            return None;
        },
        Some(s) => s,
    };
    let followed_id = match bytes_to_string(followed_bytes) {
        None => {
            return None;
        },
        Some(s) => s,
    };
    Some(Follow { follower_id, followed_id })
}

/// An edge's line reads back as exactly that edge.
pub proof fn lemma_follow_line_round_trip(m: FollowModel)
    ensures
        follow_of_line(follow_line_of(m)) == Some(m),
{
    broadcast use vstd::utf8::encode_utf8_valid_utf8, vstd::utf8::encode_utf8_decode_utf8;

    lemma_codec_round_trip(follow_fields(m));
    assert(follow_of_fields(follow_fields(m)) matches Some(m2) && m2 =~= m);
}

// ---------------------------------------------------------------------
// Duress records
// ---------------------------------------------------------------------

/// A duress record's five fields, in stored order.
pub open spec fn duress_fields(m: DuressRecordModel) -> Seq<Seq<u8>> {
    seq![
        encode_utf8(m.user_id),
        encode_utf8(m.duress_type),
        encode_utf8(m.message),
        encode_utf8(m.timestamp),
        state_field(m.state),
    ]
}

/// A duress record's line.
pub open spec fn duress_line_of(m: DuressRecordModel) -> Seq<u8> {
    enc_fields(duress_fields(m))
}

/// What a stored state byte names.
pub open spec fn state_of_field(f: Seq<u8>) -> Option<DuressState> {
    if f == seq![65u8] {
        Some(DuressState::Active)
    } else if f == seq![67u8] {
        Some(DuressState::Cancelled)
    } else {
        None
    }
}

/// What a duress line's fields must look like, and the record they name.
pub open spec fn duress_of_fields(fs: Seq<Seq<u8>>) -> Option<DuressRecordModel> {
    if fs.len() == 5 && valid_utf8(fs[0]) && valid_utf8(fs[1]) && valid_utf8(fs[2]) && valid_utf8(
        fs[3],
    ) && state_of_field(fs[4]) is Some {
        Some(
            DuressRecordModel {
                user_id: decode_utf8(fs[0]),
                duress_type: decode_utf8(fs[1]),
                message: decode_utf8(fs[2]),
                timestamp: decode_utf8(fs[3]),
                state: state_of_field(fs[4])->Some_0,
            },
        )
    } else {
        None
    }
}

/// What one stored line names, if it is a well-formed duress record.
pub open spec fn duress_of_line(line: Seq<u8>) -> Option<DuressRecordModel> {
    match dec(line) {
        None => None,
        Some(fs) => duress_of_fields(fs),
    }
}

/// Write one duress record as its line.
pub fn encode_duress(record: &DuressRecord) -> (r: Vec<u8>)
    ensures
        r@ == duress_line_of(record@),
{
    let mut fields: Vec<Vec<u8>> = Vec::new();
    fields.push(string_to_bytes(record.user_id.as_str()));
    fields.push(string_to_bytes(record.duress_type.as_str()));
    fields.push(string_to_bytes(record.message.as_str()));
    fields.push(string_to_bytes(record.timestamp.as_str()));
    let mut state: Vec<u8> = Vec::new();
    match record.state {
        DuressState::Active => state.push(65),
        DuressState::Cancelled => state.push(67),
    }
    proof {
        assert(state@ =~= state_field(record@.state));
    }
    fields.push(state);
    proof {
        assert(fields.deep_view() =~~= duress_fields(record@));
    }
    encode_fields(&fields)
}

/// Read one line back as a duress record, or report it corrupt.
pub fn decode_duress(line: &[u8]) -> (r: Option<DuressRecord>)
    ensures
        r is Some <==> duress_of_line(line@) is Some,
        r matches Some(rec) ==> duress_of_line(line@) == Some(rec@),
{
    let mut fields = match decode_fields(line) {
        None => {
            return None;
        },
        Some(f) => f,
    };
    let ghost fs = dec(line@)->Some_0;
    proof {
        assert(fields.deep_view() == fs);
    }
    if fields.len() != 5 {
        return None;
    }
    proof {
        assert(fields[0].deep_view() =~= fields[0]@);
        assert(fields[1].deep_view() =~= fields[1]@);
        assert(fields[2].deep_view() =~= fields[2]@);
        assert(fields[3].deep_view() =~= fields[3]@);
        assert(fields[4].deep_view() =~= fields[4]@);
    }
    let state_bytes = fields.pop().unwrap();
    let state = if state_bytes.len() == 1 && state_bytes[0] == 65 {
        proof {
            assert(state_bytes@ =~= seq![65u8]);
        }
        DuressState::Active
    } else if state_bytes.len() == 1 && state_bytes[0] == 67 {
        proof {
            assert(state_bytes@ =~= seq![67u8]);
        }
        DuressState::Cancelled
    } else {
        proof {
            if state_bytes@ == seq![65u8] {
                assert(state_bytes@.len() == 1 && state_bytes@[0] == 65);
            }
            if state_bytes@ == seq![67u8] {
                assert(state_bytes@.len() == 1 && state_bytes@[0] == 67);
            }
            assert(state_of_field(fs[4]) is None);
        }
        return None;
    };
    let timestamp_bytes = fields.pop().unwrap();
    let message_bytes = fields.pop().unwrap();
    let type_bytes = fields.pop().unwrap();
    let user_bytes = fields.pop().unwrap();
    let user_id = match bytes_to_string(user_bytes) {
        None => {
            return None;
        },
        Some(s) => s,
    };
    let duress_type = match bytes_to_string(type_bytes) {
        None => {
            return None;
        },
        Some(s) => s,
    };
    let message = match bytes_to_string(message_bytes) {
        None => {
            return None;
        },
        Some(s) => s,
    };
    let timestamp = match bytes_to_string(timestamp_bytes) {
        None => {
            return None;
        },
        Some(s) => s,
    };
    Some(DuressRecord { user_id, duress_type, message, timestamp, state })
}

/// A duress record's line reads back as exactly that record.
pub proof fn lemma_duress_line_round_trip(m: DuressRecordModel)
    ensures
        duress_of_line(duress_line_of(m)) == Some(m),
{
    broadcast use vstd::utf8::encode_utf8_valid_utf8, vstd::utf8::encode_utf8_decode_utf8;

    lemma_codec_round_trip(duress_fields(m));
    if m.state is Active {
        assert(state_field(m.state) =~= seq![65u8]);
    } else {
        assert(state_field(m.state) =~= seq![67u8]);
    }
    assert(seq![65u8][0] == 65u8);
    assert(seq![67u8][0] == 67u8);
    assert(seq![65u8] != seq![67u8]);
    assert(state_of_field(state_field(m.state)) == Some(m.state));
    assert(duress_of_fields(duress_fields(m)) matches Some(m2) && m2 =~= m);
}

// ---------------------------------------------------------------------
// Preference rows
// ---------------------------------------------------------------------

/// A preference row's three fields, in stored order.
pub open spec fn pref_fields(m: PreferenceModel) -> Seq<Seq<u8>> {
    seq![
        encode_utf8(m.user_id),
        bool_field(m.preferences.broadcast_duress),
        bool_field(m.preferences.receive_duress_broadcasts),
    ]
}

/// A preference row's line.
pub open spec fn pref_line_of(m: PreferenceModel) -> Seq<u8> {
    enc_fields(pref_fields(m))
}

/// What a stored flag byte names.
pub open spec fn bool_of_field(f: Seq<u8>) -> Option<bool> {
    if f == seq![49u8] {
        Some(true)
    } else if f == seq![48u8] {
        Some(false)
    } else {
        None
    }
}

/// What a preference line's fields must look like, and the row they name.
pub open spec fn pref_of_fields(fs: Seq<Seq<u8>>) -> Option<PreferenceModel> {
    if fs.len() == 3 && valid_utf8(fs[0]) && bool_of_field(fs[1]) is Some && bool_of_field(
        fs[2],
    ) is Some {
        Some(
            PreferenceModel {
                user_id: decode_utf8(fs[0]),
                preferences: UserPreferences {
                    broadcast_duress: bool_of_field(fs[1])->Some_0,
                    receive_duress_broadcasts: bool_of_field(fs[2])->Some_0,
                },
            },
        )
    } else {
        None
    }
}

/// What one stored line names, if it is a well-formed preference row.
pub open spec fn pref_of_line(line: Seq<u8>) -> Option<PreferenceModel> {
    match dec(line) {
        None => None,
        Some(fs) => pref_of_fields(fs),
    }
}

/// Write one flag as its digit byte.
fn push_bool_field(fields: &mut Vec<Vec<u8>>, b: bool)
    ensures
        final(fields).deep_view() == old(fields).deep_view().push(bool_field(b)),
{
    let mut f: Vec<u8> = Vec::new();
    if b {
        f.push(49);
    } else {
        f.push(48);
    }
    proof {
        assert(f@ =~= bool_field(b));
    }
    fields.push(f);
    proof {
        assert(fields.deep_view() =~~= old(fields).deep_view().push(bool_field(b)));
    }
}

/// Write one preference row as its line.
pub fn encode_pref(record: &PreferenceRecord) -> (r: Vec<u8>)
    ensures
        r@ == pref_line_of(record@),
{
    let mut fields: Vec<Vec<u8>> = Vec::new();
    fields.push(string_to_bytes(record.user_id.as_str()));
    push_bool_field(&mut fields, record.preferences.broadcast_duress);
    push_bool_field(&mut fields, record.preferences.receive_duress_broadcasts);
    proof {
        assert(fields.deep_view() =~~= pref_fields(record@));
    }
    encode_fields(&fields)
}

/// Read one flag byte back.
fn parse_bool_field(f: &Vec<u8>) -> (r: Option<bool>)
    ensures
        r == bool_of_field(f@),
{
    if f.len() == 1 && f[0] == 49 {
        proof {
            assert(f@ =~= seq![49u8]);
        }
        Some(true)
    } else if f.len() == 1 && f[0] == 48 {
        proof {
            assert(f@ =~= seq![48u8]);
        }
        Some(false)
    } else {
        proof {
            if f@ == seq![49u8] {
                assert(f@.len() == 1 && f@[0] == 49);
            }
            if f@ == seq![48u8] {
                assert(f@.len() == 1 && f@[0] == 48);
            }
        }
        None
    }
}

/// Read one line back as a preference row, or report it corrupt.
pub fn decode_pref(line: &[u8]) -> (r: Option<PreferenceRecord>)
    ensures
        r is Some <==> pref_of_line(line@) is Some,
        r matches Some(rec) ==> pref_of_line(line@) == Some(rec@),
{
    let mut fields = match decode_fields(line) {
        None => {
            return None;
        },
        Some(f) => f,
    };
    let ghost fs = dec(line@)->Some_0;
    proof {
        assert(fields.deep_view() == fs);
    }
    if fields.len() != 3 {
        return None;
    }
    proof {
        assert(fields[0].deep_view() =~= fields[0]@);
        assert(fields[1].deep_view() =~= fields[1]@);
        assert(fields[2].deep_view() =~= fields[2]@);
    }
    let receive = match parse_bool_field(&fields[2]) {
        None => {
            return None;
        },
        Some(b) => b,
    };
    let broadcast = match parse_bool_field(&fields[1]) {
        None => {
            return None;
        },
        Some(b) => b,
    };
    let _ = fields.pop().unwrap();
    let _ = fields.pop().unwrap();
    let user_bytes = fields.pop().unwrap();
    let user_id = match bytes_to_string(user_bytes) {
        None => {
            return None;
        },
        Some(s) => s,
    };
    Some(
        PreferenceRecord {
            user_id,
            preferences: UserPreferences {
                broadcast_duress: broadcast,
                receive_duress_broadcasts: receive,
            },
        },
    )
}

/// A preference row's line reads back as exactly that row.
pub proof fn lemma_pref_line_round_trip(m: PreferenceModel)
    ensures
        pref_of_line(pref_line_of(m)) == Some(m),
{
    broadcast use vstd::utf8::encode_utf8_valid_utf8, vstd::utf8::encode_utf8_decode_utf8;

    lemma_codec_round_trip(pref_fields(m));
    if m.preferences.broadcast_duress {
        assert(bool_field(m.preferences.broadcast_duress) =~= seq![49u8]);
    } else {
        assert(bool_field(m.preferences.broadcast_duress) =~= seq![48u8]);
    }
    if m.preferences.receive_duress_broadcasts {
        assert(bool_field(m.preferences.receive_duress_broadcasts) =~= seq![49u8]);
    } else {
        assert(bool_field(m.preferences.receive_duress_broadcasts) =~= seq![48u8]);
    }
    assert(seq![48u8][0] == 48u8);
    assert(seq![49u8][0] == 49u8);
    assert(seq![48u8] != seq![49u8]);
    assert(bool_of_field(bool_field(m.preferences.broadcast_duress)) == Some(
        m.preferences.broadcast_duress,
    ));
    assert(pref_of_fields(pref_fields(m)) matches Some(m2) && m2 =~= m);
}

} // verus!
