//! The duress state machine and the broadcast preferences, one current
//! record per user, plus the read-side map join over the follow graph.

use vstd::prelude::*;
use crate::errors::StoreError;
use crate::follows::{following_of, FollowGraph};
use crate::text::str_eq;
use crate::types::{
    CancelDuressRequest, DuressRecord, DuressRecordModel, DuressState, MapInfo, MapInfoModel,
    UserPreferences,
};
use crate::users::{has_id, user_with_id, UserDirectory};
use vstd::pervasive::VecAdditionalExecFns;

verus! {

/// No two records speak of the same user.
pub open spec fn record_users_unique(s: Seq<DuressRecordModel>) -> bool {
    forall|i: int, j: int|
        0 <= i < j < s.len() ==> #[trigger] s[i].user_id != #[trigger] s[j].user_id
}

/// Some record speaks of this user.
pub open spec fn has_record(s: Seq<DuressRecordModel>, user_id: Seq<char>) -> bool {
    exists|i: int| 0 <= i < s.len() && #[trigger] s[i].user_id == user_id
}

/// The position of this user's record; meaningful only under `has_record`.
pub open spec fn index_of_record(s: Seq<DuressRecordModel>, user_id: Seq<char>) -> int {
    choose|i: int| 0 <= i < s.len() && #[trigger] s[i].user_id == user_id
}

/// This user's record; meaningful only under `has_record`.
pub open spec fn record_of(s: Seq<DuressRecordModel>, user_id: Seq<char>) -> DuressRecordModel {
    s[index_of_record(s, user_id)]
}

/// This user's duress state: absent means no record at all.
pub open spec fn state_of(s: Seq<DuressRecordModel>, user_id: Seq<char>) -> Option<DuressState> {
    if has_record(s, user_id) {
        Some(record_of(s, user_id).state)
    } else {
        None
    }
}

/// One trigger: the user's record is written or overwritten with the new
/// active one; a second trigger supersedes, never duplicates.
pub open spec fn trigger_transition(
    s: Seq<DuressRecordModel>,
    m: DuressRecordModel,
) -> Seq<DuressRecordModel> {
    if has_record(s, m.user_id) {
        s.map_values(|e: DuressRecordModel| if e.user_id == m.user_id {
            m
        } else {
            e
        })
    } else {
        s.push(m)
    }
}

/// One cancellation: the user's record turns cancelled, every other
/// record stays as it was.
pub open spec fn cancel_transition(
    s: Seq<DuressRecordModel>,
    user_id: Seq<char>,
) -> Seq<DuressRecordModel> {
    s.map_values(|e: DuressRecordModel| if e.user_id == user_id {
        DuressRecordModel { state: DuressState::Cancelled, ..e }
    } else {
        e
    })
}

/// The collection of duress records, one current record per user.
pub struct DuressLog {
    records: Vec<DuressRecord>,
}

impl View for DuressLog {
    type V = Seq<DuressRecordModel>;

    closed spec fn view(&self) -> Seq<DuressRecordModel> {
        self.records.deep_view()
    }
}

impl DuressLog {
    /// The collection invariant: user ids are unique keys.
    pub open spec fn wf(&self) -> bool {
        record_users_unique(self@)
    }

    /// An empty log.
    pub fn new() -> (r: DuressLog)
        ensures
            r@ == Seq::<DuressRecordModel>::empty(),
            r.wf(),
    {
        let r = DuressLog { records: Vec::new() };
        proof {
            assert(r@ =~= Seq::<DuressRecordModel>::empty());
        }
        r
    }

    /// How many records exist at all.
    pub fn len(&self) -> (n: usize)
        ensures
            n == self@.len(),
    {
        self.records.len()
    }

    /// This user's current record, if any.
    #[verifier::loop_isolation(false)]
    pub fn get_duress_record(&self, user_id: &str) -> (r: Option<&DuressRecord>)
        requires
            self.wf(),
        ensures
            r is Some <==> has_record(self@, user_id@),
            r matches Some(rec) ==> rec@ == record_of(self@, user_id@) && rec@.user_id == user_id@,
    {
        let n = self.records.len();
        let mut i: usize = 0;
        while i < n
            invariant
                n == self@.len(),
                i <= n,
                n == self.records.len(),
                self.wf(),
                forall|j: int| 0 <= j < i ==> #[trigger] self@[j].user_id != user_id@,
            decreases n - i,
        {
            if str_eq(self.records[i].user_id.as_str(), user_id) {
                proof {
                    assert(self@[i as int].user_id == user_id@);
                    let k = index_of_record(self@, user_id@);
                    assert(0 <= k < self@.len() && self@[k].user_id == user_id@);
                    assert(k == i as int);
                }
                return Some(&self.records[i]);
            }
            i += 1;
        }
        proof {
            assert(!has_record(self@, user_id@));
        }
        None
    }

    /// Write or overwrite this user's current record whole, keyed by its
    /// user id: the store-level put the trigger and the loader share.
    #[verifier::loop_isolation(false)]
    pub fn put_record(&mut self, record: DuressRecord)
        requires
            old(self).wf(),
        ensures
            final(self)@ == trigger_transition(old(self)@, record@),
            final(self).wf(),
    {
        let ghost s0 = old(self)@;
        let ghost m = record@;
        let n = self.records.len();
        let mut i: usize = 0;
        while i < n
            invariant
                n == self@.len(),
                i <= n,
                n == self.records.len(),
                self@ == s0,
                self.wf(),
                m == record@,
                forall|j: int| 0 <= j < i ==> #[trigger] self@[j].user_id != m.user_id,
            decreases n - i,
        {
            if str_eq(self.records[i].user_id.as_str(), record.user_id.as_str()) {
                proof {
                    assert(s0[i as int].user_id == m.user_id);
                    assert(has_record(s0, m.user_id));
                }
                self.records.set(i, record);
                proof {
                    lemma_overwrite_record_at(s0, m, i as int, self@);
                }
                return ;
            }
            i += 1;
        }
        proof {
            assert(!has_record(s0, m.user_id));
        }
        self.records.push(record);
        proof {
            assert(self@ =~= s0.push(m));
            assert(record_users_unique(self@));
        }
    }

    /// Record a duress event: write or overwrite the user's current
    /// record as active.  Never fails on missing prior state; a trigger
    /// while already active supersedes the message and timestamp.
    pub fn log_duress_event(&mut self, user_id: &str, duress_type: &str, message: &str, timestamp: &str)
        requires
            old(self).wf(),
        ensures
            final(self)@ == trigger_transition(
                old(self)@,
                (DuressRecordModel {
                    user_id: user_id@,
                    duress_type: duress_type@,
                    message: message@,
                    timestamp: timestamp@,
                    state: DuressState::Active,
                }),
            ),
            final(self).wf(),
    {
        let fresh = DuressRecord {
            user_id: user_id.to_owned(),
            duress_type: duress_type.to_owned(),
            message: message.to_owned(),
            timestamp: timestamp.to_owned(),
            state: DuressState::Active,
        };
        self.put_record(fresh);
    }

    /// Cancel the user's active duress: demands the confirmation flag and
    /// the user's stored normal pin, and an active record to cancel.  On
    /// any refusal the log is left exactly as it was.
    #[verifier::loop_isolation(false)]
    pub fn cancel_duress(&mut self, user_id: &str, request: &CancelDuressRequest, users: &UserDirectory) -> (r:
        Result<(), StoreError>)
        requires
            old(self).wf(),
            users.wf(),
        ensures
            !request.confirm ==> r == Err::<(), StoreError>(StoreError::Validation),
            request.confirm && !has_id(users@, user_id@) ==> r == Err::<(), StoreError>(
                StoreError::NotFound,
            ),
            request.confirm && has_id(users@, user_id@) && user_with_id(users@, user_id@).normal_pin
                != request.normal_pin@ ==> r == Err::<(), StoreError>(StoreError::InvalidPin),
            request.confirm && has_id(users@, user_id@) && user_with_id(users@, user_id@).normal_pin
                == request.normal_pin@ && state_of(old(self)@, user_id@) != Some(
                DuressState::Active,
            ) ==> r == Err::<(), StoreError>(StoreError::NotFound),
            r is Err ==> final(self)@ == old(self)@,
            r is Ok <==> request.confirm && has_id(users@, user_id@) && user_with_id(
                users@,
                user_id@,
            ).normal_pin == request.normal_pin@ && state_of(old(self)@, user_id@) == Some(
                DuressState::Active,
            ),
            r is Ok ==> final(self)@ == cancel_transition(old(self)@, user_id@),
            final(self).wf(),
    {
        if !request.confirm {
            return Err(StoreError::Validation);
        }
        let stored_pin_ok = match users.get_user(user_id) {
            None => {
                return Err(StoreError::NotFound);
            },
            Some(user) => str_eq(user.normal_pin.as_str(), request.normal_pin.as_str()),
        };
        if !stored_pin_ok {
            return Err(StoreError::InvalidPin);
        }
        let ghost s0 = old(self)@;
        let n = self.records.len();
        let mut i: usize = 0;
        while i < n
            invariant
                n == self@.len(),
                i <= n,
                n == self.records.len(),
                self@ == s0,
                self.wf(),
                forall|j: int| 0 <= j < i ==> #[trigger] self@[j].user_id != user_id@,
            decreases n - i,
        {
            if str_eq(self.records[i].user_id.as_str(), user_id) {
                proof {
                    assert(self@[i as int].user_id == user_id@);
                    let k = index_of_record(s0, user_id@);
                    assert(0 <= k < s0.len() && s0[k].user_id == user_id@);
                    assert(k == i as int);
                }
                let rec = &self.records[i];
                let is_active = rec.state == DuressState::Active;
                if !is_active {
                    return Err(StoreError::NotFound);
                }
                let cancelled = DuressRecord {
                    user_id: rec.user_id.clone(),
                    duress_type: rec.duress_type.clone(),
                    message: rec.message.clone(),
                    timestamp: rec.timestamp.clone(),
                    state: DuressState::Cancelled,
                };
                proof {
                    assert(cancelled@ == (DuressRecordModel {
                        state: DuressState::Cancelled,
                        ..s0[i as int]
                    }));
                }
                self.records.set(i, cancelled);
                proof {
                    lemma_cancel_record_at(s0, user_id@, i as int, self@);
                }
                return Ok(());
            }
            i += 1;
        }
        proof {
            assert(!has_record(s0, user_id@));
        }
        Err(StoreError::NotFound)
    }

    /// A stub the service keeps for its clients: test mode changes no
    /// stored state and always succeeds.
    pub fn enable_test_mode(&self, user_id: &str) -> (r: Result<(), StoreError>)
        ensures
            r is Ok,
    {
        let _ = user_id;
        Ok(())
    }
}

/// What one stored preference row holds: the user it belongs to and the
/// two flags.
pub struct PreferenceRecord {
    pub user_id: String,
    pub preferences: UserPreferences,
}

/// The model of a [`PreferenceRecord`].
#[verifier::ext_equal]
pub struct PreferenceModel {
    pub user_id: Seq<char>,
    pub preferences: UserPreferences,
}

impl View for PreferenceRecord {
    type V = PreferenceModel;

    open spec fn view(&self) -> PreferenceModel {
        PreferenceModel { user_id: self.user_id@, preferences: self.preferences }
    }
}

impl DeepView for PreferenceRecord {
    type V = PreferenceModel;

    open spec fn deep_view(&self) -> PreferenceModel {
        self.view()
    }
}

/// Some row speaks of this user.
pub open spec fn has_preferences(s: Seq<PreferenceModel>, user_id: Seq<char>) -> bool {
    exists|i: int| 0 <= i < s.len() && #[trigger] s[i].user_id == user_id
}

/// The position of this user's row; meaningful only under
/// `has_preferences`.
pub open spec fn index_of_preferences(s: Seq<PreferenceModel>, user_id: Seq<char>) -> int {
    choose|i: int| 0 <= i < s.len() && #[trigger] s[i].user_id == user_id
}

/// What this user reads back: the stored flags, or both flags on when no
/// row exists.
pub open spec fn preferences_of(s: Seq<PreferenceModel>, user_id: Seq<char>) -> UserPreferences {
    if has_preferences(s, user_id) {
        s[index_of_preferences(s, user_id)].preferences
    } else {
        UserPreferences { broadcast_duress: true, receive_duress_broadcasts: true }
    }
}

/// One overwrite: the user's row is replaced whole, or appended when
/// absent; the latest write wins.
pub open spec fn put_preferences(
    s: Seq<PreferenceModel>,
    m: PreferenceModel,
) -> Seq<PreferenceModel> {
    if has_preferences(s, m.user_id) {
        s.map_values(|e: PreferenceModel| if e.user_id == m.user_id {
            m
        } else {
            e
        })
    } else {
        s.push(m)
    }
}

/// The collection of preference rows, one row per user.
pub struct PreferenceStore {
    entries: Vec<PreferenceRecord>,
}

impl View for PreferenceStore {
    type V = Seq<PreferenceModel>;

    closed spec fn view(&self) -> Seq<PreferenceModel> {
        self.entries.deep_view()
    }
}

impl PreferenceStore {
    /// The collection invariant: user ids are unique keys.
    pub open spec fn wf(&self) -> bool {
        forall|i: int, j: int|
            0 <= i < j < self@.len() ==> #[trigger] self@[i].user_id != #[trigger] self@[j].user_id
    }

    /// An empty store.
    pub fn new() -> (r: PreferenceStore)
        ensures
            r@ == Seq::<PreferenceModel>::empty(),
            r.wf(),
    {
        let r = PreferenceStore { entries: Vec::new() };
        proof {
            assert(r@ =~= Seq::<PreferenceModel>::empty());
        }
        r
    }

    /// How many rows exist at all.
    pub fn len(&self) -> (n: usize)
        ensures
            n == self@.len(),
    {
        self.entries.len()
    }

    /// This user's preferences; both flags default to on when no row was
    /// ever written.
    #[verifier::loop_isolation(false)]
    pub fn get_user_preferences(&self, user_id: &str) -> (r: UserPreferences)
        requires
            self.wf(),
        ensures
            r == preferences_of(self@, user_id@),
    {
        let n = self.entries.len();
        let mut i: usize = 0;
        while i < n
            invariant
                n == self@.len(),
                i <= n,
                n == self.entries.len(),
                self.wf(),
                forall|j: int| 0 <= j < i ==> #[trigger] self@[j].user_id != user_id@,
            decreases n - i,
        {
            if str_eq(self.entries[i].user_id.as_str(), user_id) {
                proof {
                    assert(self@[i as int].user_id == user_id@);
                    let k = index_of_preferences(self@, user_id@);
                    assert(0 <= k < self@.len() && self@[k].user_id == user_id@);
                    assert(k == i as int);
                }
                return self.entries[i].preferences;
            }
            i += 1;
        }
        proof {
            assert(!has_preferences(self@, user_id@));
        }
        UserPreferences::defaults()
    }

    /// Write or overwrite this user's row whole, keyed by its user id:
    /// the store-level put the update and the loader share.
    #[verifier::loop_isolation(false)]
    pub fn put_pref_record(&mut self, record: PreferenceRecord)
        requires
            old(self).wf(),
        ensures
            final(self)@ == put_preferences(old(self)@, record@),
            final(self).wf(),
    {
        let ghost s0 = old(self)@;
        let ghost m = record@;
        let n = self.entries.len();
        let mut i: usize = 0;
        while i < n
            invariant
                n == self@.len(),
                i <= n,
                n == self.entries.len(),
                self@ == s0,
                self.wf(),
                m == record@,
                forall|j: int| 0 <= j < i ==> #[trigger] self@[j].user_id != m.user_id,
            decreases n - i,
        {
            if str_eq(self.entries[i].user_id.as_str(), record.user_id.as_str()) {
                proof {
                    assert(s0[i as int].user_id == m.user_id);
                    assert(has_preferences(s0, m.user_id));
                }
                self.entries.set(i, record);
                proof {
                    lemma_overwrite_pref_at(s0, m, i as int, self@);
                }
                return ;
            }
            i += 1;
        }
        proof {
            assert(!has_preferences(s0, m.user_id));
        }
        self.entries.push(record);
        proof {
            assert(self@ =~= s0.push(m));
        }
    }

    /// Overwrite this user's preferences whole; the latest write wins.
    pub fn update_user_preferences(&mut self, user_id: &str, preferences: UserPreferences)
        requires
            old(self).wf(),
        ensures
            final(self)@ == put_preferences(
                old(self)@,
                (PreferenceModel { user_id: user_id@, preferences }),
            ),
            final(self).wf(),
    {
        let fresh = PreferenceRecord { user_id: user_id.to_owned(), preferences };
        self.put_pref_record(fresh);
    }
}

/// One row of the map view for a followed user: the id stands in for the
/// username, the duress flag and check-in instant come from the user's
/// current record, and no location collection exists in this core.
pub open spec fn map_info_row(log: Seq<DuressRecordModel>, fid: Seq<char>) -> MapInfoModel {
    MapInfoModel {
        user_id: fid,
        username: fid,
        location: Seq::<char>::empty(),
        duress: state_of(log, fid) == Some(DuressState::Active),
        last_checkin: if has_record(log, fid) {
            record_of(log, fid).timestamp
        } else {
            Seq::<char>::empty()
        },
    }
}

/// The whole map view: one row per followed user, in edge order.
pub open spec fn map_info_of(
    log: Seq<DuressRecordModel>,
    following: Seq<Seq<char>>,
) -> Seq<MapInfoModel> {
    following.map_values(|fid: Seq<char>| map_info_row(log, fid))
}

/// The read-side join: the duress flag and last check-in of every user
/// `user_id` follows, drawn from the follow graph's forward edges and the
/// duress log, in edge order.
#[verifier::loop_isolation(false)]
pub fn get_followed_users_map_info(user_id: &str, graph: &FollowGraph, log: &DuressLog) -> (r: Vec<
    MapInfo,
>)
    requires
        log.wf(),
    ensures
        r.deep_view() == map_info_of(log@, following_of(graph@, user_id@)),
{
    let following = graph.list_following(user_id);
    let ghost fids = following.deep_view();
    let n = following.len();
    let mut out: Vec<MapInfo> = Vec::new();
    let mut i: usize = 0;
    proof {
        assert(out.deep_view() =~= map_info_of(log@, fids.take(0)));
    }
    while i < n
        invariant
            n == fids.len(),
            i <= n,
            n == following.len(),
            fids == following.deep_view(),
            out.deep_view() == map_info_of(log@, fids.take(i as int)),
        decreases n - i,
    {
        let fid = &following[i];
        let ghost before = out.deep_view();
        let row = match log.get_duress_record(fid.as_str()) {
            Some(rec) => MapInfo {
                user_id: fid.clone(),
                username: fid.clone(),
                location: String::new(),
                duress: rec.state == DuressState::Active,
                last_checkin: rec.timestamp.clone(),
            },
            None => MapInfo {
                user_id: fid.clone(),
                username: fid.clone(),
                location: String::new(),
                duress: false,
                last_checkin: String::new(),
            },
        };
        proof {
            assert(row@ == map_info_row(log@, fids[i as int]));
        }
        out.push(row);
        proof {
            assert(out.deep_view() =~= before.push(row@));
            assert(fids.take(i + 1) =~= fids.take(i as int).push(fids[i as int]));
            assert(map_info_of(log@, fids.take(i + 1)) =~= map_info_of(
                log@,
                fids.take(i as int),
            ).push(map_info_row(log@, fids[i as int])));
            assert(out.deep_view() =~= map_info_of(log@, fids.take(i + 1)));
        }
        i += 1;
    }
    proof {
        assert(fids.take(n as int) =~= fids);
    }
    out
}


/// The state after reading stored lines in order: each well-formed line
/// is put into the collection, each corrupt one is skipped.
pub open spec fn loaded_duress(state: Seq<DuressRecordModel>, lines: Seq<Seq<u8>>) -> Seq<DuressRecordModel>
    decreases lines.len(),
{
    if lines.len() == 0 {
        state
    } else {
        match crate::records::duress_of_line(lines[0]) {
            Some(m) => loaded_duress(trigger_transition(state, m), lines.drop_first()),
            None => loaded_duress(state, lines.drop_first()),
        }
    }
}

/// How many of the stored lines are corrupt.
pub open spec fn corrupt_duress_lines(lines: Seq<Seq<u8>>) -> nat
    decreases lines.len(),
{
    if lines.len() == 0 {
        0nat
    } else {
        (if crate::records::duress_of_line(lines[0]) is None {
            1nat
        } else {
            0nat
        }) + corrupt_duress_lines(lines.drop_first())
    }
}

/// The stored lines of the whole collection, one per record, in order.
pub open spec fn duress_lines_of(s: Seq<DuressRecordModel>) -> Seq<Seq<u8>> {
    s.map_values(|m: DuressRecordModel| crate::records::duress_line_of(m))
}

impl DuressLog {
    /// Rebuild the collection from its stored lines, skipping each
    /// corrupt line; the count of skipped lines comes back beside it.
    #[verifier::loop_isolation(false)]
    pub fn from_lines(lines: &Vec<Vec<u8>>) -> (r: (DuressLog, usize))
        ensures
            r.0@ == loaded_duress(Seq::<DuressRecordModel>::empty(), lines.deep_view()),
            r.0.wf(),
            r.1 == corrupt_duress_lines(lines.deep_view()),
    {
        let ghost all = lines.deep_view();
        let mut coll = DuressLog::new();
        let mut skipped: usize = 0;
        let n = lines.len();
        let mut i: usize = 0;
        proof {
            assert(all.skip(0) =~= all);
        }
        while i < n
            invariant
                n == all.len(),
                i <= n,
                n == lines.len(),
                all == lines.deep_view(),
                coll.wf(),
                skipped <= i,
                loaded_duress(Seq::<DuressRecordModel>::empty(), all) == loaded_duress(
                    coll@,
                    all.skip(i as int),
                ),
                corrupt_duress_lines(all) == skipped + corrupt_duress_lines(all.skip(i as int)),
            decreases n - i,
        {
            let ghost rest = all.skip(i as int);
            proof {
                assert(rest[0] =~= lines[i as int]@);
                assert(rest.drop_first() =~= all.skip(i + 1));
            }
            match crate::records::decode_duress(lines[i].as_slice()) {
                Some(rec) => {
                    proof {
                        assert(crate::records::duress_of_line(rest[0]) == Some(rec@));
                    }
                    coll.put_record(rec);
                },
                None => {
                    proof {
                        assert(crate::records::duress_of_line(rest[0]) is None);
                    }
                    skipped += 1;
                },
            }
            i += 1;
        }
        proof {
            assert(all.skip(n as int) =~= Seq::<Seq<u8>>::empty());
        }
        (coll, skipped)
    }

    /// The stored lines of the whole collection, in record order.
    #[verifier::loop_isolation(false)]
    pub fn to_lines(&self) -> (r: Vec<Vec<u8>>)
        ensures
            r.deep_view() == duress_lines_of(self@),
    {
        let n = self.records.len();
        let mut out: Vec<Vec<u8>> = Vec::new();
        let mut i: usize = 0;
        proof {
            assert(out.deep_view() =~~= duress_lines_of(self@.take(0)));
        }
        while i < n
            invariant
                n == self@.len(),
                i <= n,
                n == self.records.len(),
                out.deep_view() == duress_lines_of(self@.take(i as int)),
            decreases n - i,
        {
            let ghost before = out.deep_view();
            out.push(crate::records::encode_duress(&self.records[i]));
            proof {
                assert(self@.take(i + 1) =~= self@.take(i as int).push(self@[i as int]));
                assert(out.deep_view() =~~= before.push(crate::records::duress_line_of(
                    self@[i as int],
                )));
                assert(out.deep_view() =~~= duress_lines_of(self@.take(i + 1)));
            }
            i += 1;
        }
        proof {
            assert(self@.take(n as int) =~= self@);
        }
        out
    }
}

/// The state after reading stored lines in order: each well-formed line
/// is put into the collection, each corrupt one is skipped.
pub open spec fn loaded_prefs(state: Seq<PreferenceModel>, lines: Seq<Seq<u8>>) -> Seq<PreferenceModel>
    decreases lines.len(),
{
    if lines.len() == 0 {
        state
    } else {
        match crate::records::pref_of_line(lines[0]) {
            Some(m) => loaded_prefs(put_preferences(state, m), lines.drop_first()),
            None => loaded_prefs(state, lines.drop_first()),
        }
    }
}

/// How many of the stored lines are corrupt.
pub open spec fn corrupt_prefs_lines(lines: Seq<Seq<u8>>) -> nat
    decreases lines.len(),
{
    if lines.len() == 0 {
        0nat
    } else {
        (if crate::records::pref_of_line(lines[0]) is None {
            1nat
        } else {
            0nat
        }) + corrupt_prefs_lines(lines.drop_first())
    }
}

/// The stored lines of the whole collection, one per record, in order.
pub open spec fn prefs_lines_of(s: Seq<PreferenceModel>) -> Seq<Seq<u8>> {
    s.map_values(|m: PreferenceModel| crate::records::pref_line_of(m))
}

impl PreferenceStore {
    /// Rebuild the collection from its stored lines, skipping each
    /// corrupt line; the count of skipped lines comes back beside it.
    #[verifier::loop_isolation(false)]
    pub fn from_lines(lines: &Vec<Vec<u8>>) -> (r: (PreferenceStore, usize))
        ensures
            r.0@ == loaded_prefs(Seq::<PreferenceModel>::empty(), lines.deep_view()),
            r.0.wf(),
            r.1 == corrupt_prefs_lines(lines.deep_view()),
    {
        let ghost all = lines.deep_view();
        let mut coll = PreferenceStore::new();
        let mut skipped: usize = 0;
        let n = lines.len();
        let mut i: usize = 0;
        proof {
            assert(all.skip(0) =~= all);
        }
        while i < n
            invariant
                n == all.len(),
                i <= n,
                n == lines.len(),
                all == lines.deep_view(),
                coll.wf(),
                skipped <= i,
                loaded_prefs(Seq::<PreferenceModel>::empty(), all) == loaded_prefs(
                    coll@,
                    all.skip(i as int),
                ),
                corrupt_prefs_lines(all) == skipped + corrupt_prefs_lines(all.skip(i as int)),
            decreases n - i,
        {
            let ghost rest = all.skip(i as int);
            proof {
                assert(rest[0] =~= lines[i as int]@);
                assert(rest.drop_first() =~= all.skip(i + 1));
            }
            match crate::records::decode_pref(lines[i].as_slice()) {
                Some(rec) => {
                    proof {
                        assert(crate::records::pref_of_line(rest[0]) == Some(rec@));
                    }
                    coll.put_pref_record(rec);
                },
                None => {
                    proof {
                        assert(crate::records::pref_of_line(rest[0]) is None);
                    }
                    skipped += 1;
                },
            }
            i += 1;
        }
        proof {
            assert(all.skip(n as int) =~= Seq::<Seq<u8>>::empty());
        }
        (coll, skipped)
    }

    /// The stored lines of the whole collection, in record order.
    #[verifier::loop_isolation(false)]
    pub fn to_lines(&self) -> (r: Vec<Vec<u8>>)
        ensures
            r.deep_view() == prefs_lines_of(self@),
    {
        let n = self.entries.len();
        let mut out: Vec<Vec<u8>> = Vec::new();
        let mut i: usize = 0;
        proof {
            assert(out.deep_view() =~~= prefs_lines_of(self@.take(0)));
        }
        while i < n
            invariant
                n == self@.len(),
                i <= n,
                n == self.entries.len(),
                out.deep_view() == prefs_lines_of(self@.take(i as int)),
            decreases n - i,
        {
            let ghost before = out.deep_view();
            out.push(crate::records::encode_pref(&self.entries[i]));
            proof {
                assert(self@.take(i + 1) =~= self@.take(i as int).push(self@[i as int]));
                assert(out.deep_view() =~~= before.push(crate::records::pref_line_of(
                    self@[i as int],
                )));
                assert(out.deep_view() =~~= prefs_lines_of(self@.take(i + 1)));
            }
            i += 1;
        }
        proof {
            assert(self@.take(n as int) =~= self@);
        }
        out
    }
}


/// Overwriting position `at`, which speaks of the new record's user, is
/// the trigger transition, and keeps the user ids unique.
proof fn lemma_overwrite_record_at(
    s0: Seq<DuressRecordModel>,
    m: DuressRecordModel,
    at: int,
    s1: Seq<DuressRecordModel>,
)
    requires
        record_users_unique(s0),
        0 <= at < s0.len(),
        s0[at].user_id == m.user_id,
        s1.len() == s0.len(),
        s1[at] == m,
        forall|j: int| 0 <= j < s0.len() && j != at ==> #[trigger] s1[j] == s0[j],
    ensures
        s1 == trigger_transition(s0, m),
        record_users_unique(s1),
{
    assert(has_record(s0, m.user_id));
    assert forall|j: int| 0 <= j < s0.len() && j != at implies #[trigger] s0[j].user_id
        != m.user_id by {
        assert(s0[at].user_id == m.user_id);
    }
    assert forall|j: int| 0 <= j < s0.len() implies #[trigger] trigger_transition(s0, m)[j]
        == s1[j] by {
        if j != at {
            assert(s0[j].user_id != m.user_id);
        }
    }
    assert(s1 =~= trigger_transition(s0, m));
    assert forall|a: int, b: int| 0 <= a < b < s1.len() implies #[trigger] s1[a].user_id
        != #[trigger] s1[b].user_id by {
        assert(s1[a].user_id == s0[a].user_id);
        assert(s1[b].user_id == s0[b].user_id);
    }
}

/// Turning position `at`, which speaks of the user, cancelled is the
/// cancel transition, and keeps the user ids unique.
proof fn lemma_cancel_record_at(
    s0: Seq<DuressRecordModel>,
    user_id: Seq<char>,
    at: int,
    s1: Seq<DuressRecordModel>,
)
    requires
        record_users_unique(s0),
        0 <= at < s0.len(),
        s0[at].user_id == user_id,
        s1.len() == s0.len(),
        s1[at] == (DuressRecordModel { state: DuressState::Cancelled, ..s0[at] }),
        forall|j: int| 0 <= j < s0.len() && j != at ==> #[trigger] s1[j] == s0[j],
    ensures
        s1 == cancel_transition(s0, user_id),
        record_users_unique(s1),
{
    assert forall|j: int| 0 <= j < s0.len() && j != at implies #[trigger] s0[j].user_id
        != user_id by {
        assert(s0[at].user_id == user_id);
    }
    assert forall|j: int| 0 <= j < s0.len() implies #[trigger] cancel_transition(s0, user_id)[j]
        == s1[j] by {
        if j != at {
            assert(s0[j].user_id != user_id);
        }
    }
    assert(s1 =~= cancel_transition(s0, user_id));
    assert forall|a: int, b: int| 0 <= a < b < s1.len() implies #[trigger] s1[a].user_id
        != #[trigger] s1[b].user_id by {
        assert(s1[a].user_id == s0[a].user_id);
        assert(s1[b].user_id == s0[b].user_id);
    }
}

/// Overwriting position `at`, which speaks of the new row's user, is the
/// preference put, and keeps the user ids unique.
proof fn lemma_overwrite_pref_at(
    s0: Seq<PreferenceModel>,
    m: PreferenceModel,
    at: int,
    s1: Seq<PreferenceModel>,
)
    requires
        forall|i: int, j: int|
            0 <= i < j < s0.len() ==> #[trigger] s0[i].user_id != #[trigger] s0[j].user_id,
        0 <= at < s0.len(),
        s0[at].user_id == m.user_id,
        s1.len() == s0.len(),
        s1[at] == m,
        forall|j: int| 0 <= j < s0.len() && j != at ==> #[trigger] s1[j] == s0[j],
    ensures
        s1 == put_preferences(s0, m),
        forall|i: int, j: int|
            0 <= i < j < s1.len() ==> #[trigger] s1[i].user_id != #[trigger] s1[j].user_id,
{
    assert(has_preferences(s0, m.user_id));
    assert forall|j: int| 0 <= j < s0.len() && j != at implies #[trigger] s0[j].user_id
        != m.user_id by {
        assert(s0[at].user_id == m.user_id);
    }
    assert forall|j: int| 0 <= j < s0.len() implies #[trigger] put_preferences(s0, m)[j]
        == s1[j] by {
        if j != at {
            assert(s0[j].user_id != m.user_id);
        }
    }
    assert(s1 =~= put_preferences(s0, m));
    assert forall|a: int, b: int| 0 <= a < b < s1.len() implies #[trigger] s1[a].user_id
        != #[trigger] s1[b].user_id by {
        assert(s1[a].user_id == s0[a].user_id);
        assert(s1[b].user_id == s0[b].user_id);
    }
}

} // verus!
