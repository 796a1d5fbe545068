//! The invite ledger: invite creation, rate-limited issuance, and the
//! atomic redemption-count increment.
//!
//! Every mutating method takes the ledger exclusively for its whole
//! read-modify-write span; a backend maps that onto its collection lock
//! or onto one conditional update expression.

use vstd::prelude::*;
use vstd::seq_lib::*;
use crate::errors::StoreError;
use crate::sequences::lemma_filter_push;
use crate::sources;
use crate::text::str_eq;
use crate::types::{Invite, InviteModel, InviteResponse, INVITE_RATE_LIMIT, WINDOW_SECONDS};
use vstd::pervasive::VecAdditionalExecFns;

verus! {

/// No two invites carry the same code.
pub open spec fn codes_unique(s: Seq<InviteModel>) -> bool {
    forall|i: int, j: int| 0 <= i < j < s.len() ==> #[trigger] s[i].code != #[trigger] s[j].code
}

/// Some invite carries this code.
pub open spec fn has_code(s: Seq<InviteModel>, code: Seq<char>) -> bool {
    exists|i: int| 0 <= i < s.len() && #[trigger] s[i].code == code
}

/// The position of the invite carrying this code; meaningful only under
/// `has_code`.
pub open spec fn index_of_code(s: Seq<InviteModel>, code: Seq<char>) -> int {
    choose|i: int| 0 <= i < s.len() && #[trigger] s[i].code == code
}

/// The invite carrying this code; meaningful only under `has_code`.
pub open spec fn invite_with_code(s: Seq<InviteModel>, code: Seq<char>) -> InviteModel {
    s[index_of_code(s, code)]
}

/// The same invite with its redemption tally one higher.
pub open spec fn bumped(m: InviteModel) -> InviteModel {
    InviteModel { redemption_count: ((m.redemption_count + 1) as u32), ..m }
}

/// One redemption: the invite carrying the code is bumped, every other
/// invite stays as it was.
pub open spec fn redeem_transition(s: Seq<InviteModel>, code: Seq<char>) -> Seq<InviteModel> {
    s.map_values(|m: InviteModel| if m.code == code {
        bumped(m)
    } else {
        m
    })
}

/// One keyed replacement: the invite carrying the new record's code is
/// overwritten, every other invite stays as it was.
pub open spec fn replace_by_code(s: Seq<InviteModel>, m: InviteModel) -> Seq<InviteModel> {
    s.map_values(|e: InviteModel| if e.code == m.code {
        m
    } else {
        e
    })
}

/// Insert-or-overwrite, keyed by the code.
pub open spec fn put_by_code(s: Seq<InviteModel>, m: InviteModel) -> Seq<InviteModel> {
    if has_code(s, m.code) {
        replace_by_code(s, m)
    } else {
        s.push(m)
    }
}

/// Being an invite of this issuer.
pub open spec fn invitor_pred(invitor_id: Seq<char>) -> spec_fn(InviteModel) -> bool {
    |m: InviteModel| m.invitor_id == invitor_id
}

/// Being an invite of this issuer created within the window trailing `now`.
pub open spec fn recent_pred(invitor_id: Seq<char>, now: u64) -> spec_fn(InviteModel) -> bool {
    |m: InviteModel| m.invitor_id == invitor_id && m.in_window(now)
}

/// All invites one issuer created, in creation order.
pub open spec fn by_invitor(s: Seq<InviteModel>, invitor_id: Seq<char>) -> Seq<InviteModel> {
    s.filter(invitor_pred(invitor_id))
}

/// How many invites this issuer created within the window trailing `now`.
pub open spec fn recent_count(s: Seq<InviteModel>, invitor_id: Seq<char>, now: u64) -> nat {
    s.filter(recent_pred(invitor_id, now)).len()
}

/// The collection of invites, with at most one invite per code.
pub struct InviteLedger {
    invites: Vec<Invite>,
}

impl View for InviteLedger {
    type V = Seq<InviteModel>;

    closed spec fn view(&self) -> Seq<InviteModel> {
        self.invites.deep_view()
    }
}

impl InviteLedger {
    /// The collection invariant: codes are unique keys.
    pub open spec fn wf(&self) -> bool {
        codes_unique(self@)
    }

    /// An empty ledger.
    pub fn new() -> (r: InviteLedger)
        ensures
            r@ == Seq::<InviteModel>::empty(),
            r.wf(),
    {
        let r = InviteLedger { invites: Vec::new() };
        proof {
            assert(r@ =~= Seq::<InviteModel>::empty());
        }
        r
    }

    /// How many invites exist at all.
    pub fn len(&self) -> (n: usize)
        ensures
            n == self@.len(),
    {
        self.invites.len()
    }

    /// The invite carrying `code`, if any: a point lookup by primary key.
    #[verifier::loop_isolation(false)]
    pub fn get_invite(&self, code: &str) -> (r: Option<&Invite>)
        requires
            self.wf(),
        ensures
            r is Some <==> has_code(self@, code@),
            r matches Some(inv) ==> inv@ == invite_with_code(self@, code@) && inv@.code == code@,
    {
        let n = self.invites.len();
        let mut i: usize = 0;
        while i < n
            invariant
                n == self@.len(),
                i <= n,
                n == self.invites.len(),
                self.wf(),
                forall|j: int| 0 <= j < i ==> #[trigger] self@[j].code != code@,
            decreases n - i,
        {
            if str_eq(self.invites[i].code.as_str(), code) {
                proof {
                    assert(self@[i as int].code == code@);
                    let k = index_of_code(self@, code@);
                    assert(0 <= k < self@.len() && self@[k].code == code@);
                    assert(k == i as int);
                }
                return Some(&self.invites[i]);
            }
            i += 1;
        }
        proof {
            assert(!has_code(self@, code@));
        }
        None
    }

    /// Every invite this issuer created, in creation order: the scan the
    /// rate limiter is counted from.
    #[verifier::loop_isolation(false)]
    pub fn get_user_invites(&self, invitor_id: &str) -> (r: Vec<&Invite>)
        ensures
            r.deep_view() == by_invitor(self@, invitor_id@),
    {
        let ghost pred = invitor_pred(invitor_id@);
        let n = self.invites.len();
        let mut out: Vec<&Invite> = Vec::new();
        let mut i: usize = 0;
        proof {
            assert(self@.take(0).filter(pred) =~= Seq::<InviteModel>::empty());
            assert(out.deep_view() =~= Seq::<InviteModel>::empty());
        }
        while i < n
            invariant
                n == self@.len(),
                i <= n,
                n == self.invites.len(),
                pred == invitor_pred(invitor_id@),
                out.deep_view() == self@.take(i as int).filter(pred),
            decreases n - i,
        {
            let ghost prefix = self@.take(i as int);
            let ghost here = self@[i as int];
            proof {
                assert(self@.take(i + 1) =~= prefix.push(here));
                lemma_filter_push(prefix, here, pred);
            }
            let ghost before = out.deep_view();
            if str_eq(self.invites[i].invitor_id.as_str(), invitor_id) {
                out.push(&self.invites[i]);
                proof {
                    assert(out.deep_view() =~= before.push(here));
                    assert(pred(here));
                    assert(prefix.filter(pred) + seq![here] =~= before.push(here));
                    assert(out.deep_view() =~= self@.take(i + 1).filter(pred));
                }
            } else {
                proof {
                    assert(!pred(here));
                    assert(prefix.filter(pred) + Seq::<InviteModel>::empty() =~= before);
                    assert(out.deep_view() =~= self@.take(i + 1).filter(pred));
                }
            }
            i += 1;
        }
        proof {
            assert(self@.take(n as int) =~= self@);
        }
        out
    }

    /// How many of this issuer's invites were created within the window
    /// trailing `now`.
    #[verifier::loop_isolation(false)]
    pub fn count_recent(&self, invitor_id: &str, now: u64) -> (n: usize)
        ensures
            n as nat == recent_count(self@, invitor_id@, now),
    {
        let ghost pred = recent_pred(invitor_id@, now);
        let total = self.invites.len();
        let mut count: usize = 0;
        let mut i: usize = 0;
        proof {
            assert(self@.take(0).filter(pred) =~= Seq::<InviteModel>::empty());
        }
        while i < total
            invariant
                total == self@.len(),
                i <= total,
                total == self.invites.len(),
                pred == recent_pred(invitor_id@, now),
                count as nat == self@.take(i as int).filter(pred).len(),
                count <= i,
            decreases total - i,
        {
            let ghost prefix = self@.take(i as int);
            let ghost here = self@[i as int];
            proof {
                assert(self@.take(i + 1) =~= prefix.push(here));
                lemma_filter_push(prefix, here, pred);
            }
            let inv = &self.invites[i];
            let recent = inv.created_at >= now || now - inv.created_at < WINDOW_SECONDS;
            proof {
                assert(recent == here.in_window(now));
            }
            if recent && str_eq(inv.invitor_id.as_str(), invitor_id) {
                proof {
                    assert(pred(here));
                    assert(self@.take(i + 1).filter(pred).len() == prefix.filter(pred).len() + 1);
                }
                count += 1;
            } else {
                proof {
                    assert(!pred(here));
                    assert(prefix.filter(pred) + Seq::<InviteModel>::empty() =~= prefix.filter(
                        pred,
                    ));
                    assert(self@.take(i + 1).filter(pred).len() == prefix.filter(pred).len());
                }
            }
            i += 1;
        }
        proof {
            assert(self@.take(total as int) =~= self@);
        }
        count
    }

    /// Insert-or-overwrite, keyed by the record's code: a plain put.
    #[verifier::loop_isolation(false)]
    pub fn save_invite(&mut self, invite: Invite)
        requires
            old(self).wf(),
        ensures
            final(self)@ == put_by_code(old(self)@, invite@),
            final(self).wf(),
    {
        let ghost s0 = old(self)@;
        let ghost m = invite@;
        let n = self.invites.len();
        let mut i: usize = 0;
        while i < n
            invariant
                n == self@.len(),
                i <= n,
                n == self.invites.len(),
                self@ == s0,
                self.wf(),
                m == invite@,
                forall|j: int| 0 <= j < i ==> #[trigger] self@[j].code != m.code,
            decreases n - i,
        {
            if str_eq(self.invites[i].code.as_str(), invite.code.as_str()) {
                proof {
                    assert(s0[i as int].code == m.code);
                    assert(has_code(s0, m.code));
                }
                self.invites.set(i, invite);
                proof {
                    lemma_replace_at(s0, m, i as int, self@);
                }
                return ;
            }
            i += 1;
        }
        proof {
            assert(!has_code(s0, m.code));
        }
        self.invites.push(invite);
        proof {
            assert(self@ =~= s0.push(m));
            assert(codes_unique(self@));
        }
    }

    /// Overwrite the invite carrying the record's code; absent codes are
    /// reported, never created.
    #[verifier::loop_isolation(false)]
    pub fn update_invite(&mut self, invite: Invite) -> (r: Result<(), StoreError>)
        requires
            old(self).wf(),
        ensures
            r is Ok <==> has_code(old(self)@, invite@.code),
            r is Ok ==> final(self)@ == replace_by_code(old(self)@, invite@),
            r is Err ==> r == Err::<(), StoreError>(StoreError::NotFound) && final(self)@ == old(
                self,
            )@,
            final(self).wf(),
    {
        let ghost s0 = old(self)@;
        let ghost m = invite@;
        let n = self.invites.len();
        let mut i: usize = 0;
        while i < n
            invariant
                n == self@.len(),
                i <= n,
                n == self.invites.len(),
                self@ == s0,
                self.wf(),
                m == invite@,
                forall|j: int| 0 <= j < i ==> #[trigger] self@[j].code != m.code,
            decreases n - i,
        {
            if str_eq(self.invites[i].code.as_str(), invite.code.as_str()) {
                proof {
                    assert(s0[i as int].code == m.code);
                    assert(has_code(s0, m.code));
                }
                self.invites.set(i, invite);
                proof {
                    lemma_replace_at(s0, m, i as int, self@);
                }
                return Ok(());
            }
            i += 1;
        }
        proof {
            assert(!has_code(s0, m.code));
        }
        Err(StoreError::NotFound)
    }

    /// Atomically increment the redemption tally of the invite carrying
    /// `code`: one registration, one increment, under exclusive hold for
    /// the whole read-modify-write span.  Returns the new tally.
    #[verifier::loop_isolation(false)]
    pub fn redeem(&mut self, code: &str) -> (r: Result<u32, StoreError>)
        requires
            old(self).wf(),
        ensures
            r == Err::<u32, StoreError>(StoreError::InvalidInviteCode) <==> !has_code(
                old(self)@,
                code@,
            ),
            r == Err::<u32, StoreError>(StoreError::Conflict) <==> has_code(old(self)@, code@)
                && invite_with_code(old(self)@, code@).redemption_count == u32::MAX,
            r is Err ==> final(self)@ == old(self)@,
            r is Ok <==> has_code(old(self)@, code@) && invite_with_code(
                old(self)@,
                code@,
            ).redemption_count < u32::MAX,
            r matches Ok(c) ==> c == invite_with_code(old(self)@, code@).redemption_count + 1
                && final(self)@ == redeem_transition(old(self)@, code@),
            final(self).wf(),
    {
        let ghost s0 = old(self)@;
        let n = self.invites.len();
        let mut i: usize = 0;
        while i < n
            invariant
                n == self@.len(),
                i <= n,
                n == self.invites.len(),
                self@ == s0,
                self.wf(),
                forall|j: int| 0 <= j < i ==> #[trigger] self@[j].code != code@,
            decreases n - i,
        {
            if str_eq(self.invites[i].code.as_str(), code) {
                proof {
                    assert(s0[i as int].code == code@);
                    let k = index_of_code(s0, code@);
                    assert(0 <= k < s0.len() && s0[k].code == code@);
                    assert(k == i as int);
                }
                let current = self.invites[i].redemption_count;
                if current == u32::MAX {
                    return Err(StoreError::Conflict);
                }
                let refreshed = Invite {
                    code: self.invites[i].code.clone(),
                    invitor_id: self.invites[i].invitor_id.clone(),
                    redemption_count: current + 1,
                    created_at: self.invites[i].created_at,
                };
                proof {
                    assert(refreshed@ == bumped(s0[i as int]));
                }
                self.invites.set(i, refreshed);
                proof {
                    assert forall|j: int| 0 <= j < s0.len() && j != i as int implies #[trigger] s0[j].code
                        != code@ by {
                        assert(s0[i as int].code == code@);
                    }
                    assert(redeem_transition(s0, code@).len() == s0.len());
                    assert forall|j: int| 0 <= j < s0.len() implies #[trigger] redeem_transition(
                        s0,
                        code@,
                    )[j] == self@[j] by {
                        if j != i as int {
                            assert(s0[j].code != code@);
                        }
                    }
                    assert(self@ =~= redeem_transition(s0, code@));
                    assert forall|a: int, b: int| 0 <= a < b < self@.len() implies #[trigger] self@[a].code
                        != #[trigger] self@[b].code by {
                        assert(self@[a].code == s0[a].code);
                        assert(self@[b].code == s0[b].code);
                    }
                }
                return Ok(current + 1);
            }
            i += 1;
        }
        proof {
            assert(!has_code(s0, code@));
        }
        Err(StoreError::InvalidInviteCode)
    }

    /// Record one freshly issued invite, every input made explicit: the
    /// drawn code and the clock reading `now`.  Refuses issuers at the
    /// window's limit, and codes that collide with an existing invite.
    pub fn issue_at(&mut self, invitor_id: &str, code: String, now: u64) -> (r: Result<
        InviteResponse,
        StoreError,
    >)
        requires
            old(self).wf(),
        ensures
            r == Err::<InviteResponse, StoreError>(StoreError::RateLimitExceeded) <==> recent_count(
                old(self)@,
                invitor_id@,
                now,
            ) >= INVITE_RATE_LIMIT,
            r == Err::<InviteResponse, StoreError>(StoreError::Conflict) <==> recent_count(
                old(self)@,
                invitor_id@,
                now,
            ) < INVITE_RATE_LIMIT && has_code(old(self)@, code@),
            r is Err ==> final(self)@ == old(self)@,
            r is Ok <==> recent_count(old(self)@, invitor_id@, now) < INVITE_RATE_LIMIT
                && !has_code(old(self)@, code@),
            r matches Ok(resp) ==> resp.invite_code@ == code@ && final(self)@ == old(self)@.push(
                (InviteModel {
                    code: code@,
                    invitor_id: invitor_id@,
                    redemption_count: 0,
                    created_at: now,
                }),
            ),
            final(self).wf(),
    {
        let recent = self.count_recent(invitor_id, now);
        if recent >= INVITE_RATE_LIMIT {
            return Err(StoreError::RateLimitExceeded);
        }
        if self.get_invite(code.as_str()).is_some() {
            return Err(StoreError::Conflict);
        }
        let ghost s0 = self@;
        let fresh = Invite {
            code: code.clone(),
            invitor_id: invitor_id.to_owned(),
            redemption_count: 0,
            created_at: now,
        };
        self.invites.push(fresh);
        proof {
            assert(self@ =~= s0.push(
                InviteModel {
                    code: code@,
                    invitor_id: invitor_id@,
                    redemption_count: 0,
                    created_at: now,
                },
            ));
            assert(codes_unique(self@));
        }
        Ok(InviteResponse { invite_code: code })
    }

    /// Issue an invite for `invitor_id`: draw a fresh random code, read
    /// the clock, and record the invite.  Whatever code and instant came
    /// back, the outcome is pinned: at the limit the ledger is untouched
    /// and the issuer is refused; on success exactly the new invite was
    /// appended; a colliding code leaves the ledger untouched.  On an
    /// empty ledger every drawn code and every clock reading succeed, so
    /// issuance is owed there.
    pub fn create_invite(&mut self, invitor_id: &str) -> (r: Result<InviteResponse, StoreError>)
        requires
            old(self).wf(),
        ensures
            old(self)@.len() == 0 ==> r is Ok,
            r is Err ==> final(self)@ == old(self)@ && (r == Err::<InviteResponse, StoreError>(
                StoreError::RateLimitExceeded,
            ) || r == Err::<InviteResponse, StoreError>(StoreError::Conflict)),
            r matches Ok(resp) ==> {
                &&& resp.invite_code@.len() == 36
                &&& final(self)@.len() == old(self)@.len() + 1
                &&& final(self)@.take(old(self)@.len() as int) == old(self)@
                &&& final(self)@.last().code == resp.invite_code@
                &&& final(self)@.last().invitor_id == invitor_id@
                &&& final(self)@.last().redemption_count == 0
                &&& !has_code(old(self)@, resp.invite_code@)
                &&& recent_count(old(self)@, invitor_id@, final(self)@.last().created_at)
                    < INVITE_RATE_LIMIT
            },
            final(self).wf(),
    {
        let ghost s0 = self@;
        let code = sources::fresh_identifier();
        let now = sources::current_seconds();
        proof {
            if s0.len() == 0 {
                assert(s0.filter(recent_pred(invitor_id@, now)) =~= Seq::<InviteModel>::empty());
                assert(recent_count(s0, invitor_id@, now) == 0);
                assert(!has_code(s0, code@));
            }
        }
        let r = self.issue_at(invitor_id, code, now);
        proof {
            if r is Ok {
                assert(self@.take(s0.len() as int) =~= s0);
            }
        }
        r
    }
}

/// Overwriting position `at`, which carries the new record's code, is the
/// keyed replacement, and keeps the codes unique.
proof fn lemma_replace_at(s0: Seq<InviteModel>, m: InviteModel, at: int, s1: Seq<InviteModel>)
    requires
        codes_unique(s0),
        0 <= at < s0.len(),
        s0[at].code == m.code,
        s1.len() == s0.len(),
        s1[at] == m,
        forall|j: int| 0 <= j < s0.len() && j != at ==> #[trigger] s1[j] == s0[j],
    ensures
        s1 == replace_by_code(s0, m),
        codes_unique(s1),
{
    assert forall|j: int| 0 <= j < s0.len() && j != at implies #[trigger] s0[j].code != m.code by {
        assert(s0[at].code == m.code);
    }
    assert(replace_by_code(s0, m).len() == s0.len());
    assert forall|j: int| 0 <= j < s0.len() implies #[trigger] replace_by_code(s0, m)[j]
        == s1[j] by {
        if j != at {
            assert(s0[j].code != m.code);
        }
    }
    assert(s1 =~= replace_by_code(s0, m));
    assert forall|a: int, b: int| 0 <= a < b < s1.len() implies #[trigger] s1[a].code
        != #[trigger] s1[b].code by {
        assert(s1[a].code == s0[a].code);
        assert(s1[b].code == s0[b].code);
    }
}


/// The state after reading stored lines in order: each well-formed line
/// is put into the collection, each corrupt one is skipped.
pub open spec fn loaded_invites(state: Seq<InviteModel>, lines: Seq<Seq<u8>>) -> Seq<InviteModel>
    decreases lines.len(),
{
    if lines.len() == 0 {
        state
    } else {
        match crate::records::invite_of_line(lines[0]) {
            Some(m) => loaded_invites(put_by_code(state, m), lines.drop_first()),
            None => loaded_invites(state, lines.drop_first()),
        }
    }
}

/// How many of the stored lines are corrupt.
pub open spec fn corrupt_invites_lines(lines: Seq<Seq<u8>>) -> nat
    decreases lines.len(),
{
    if lines.len() == 0 {
        0nat
    } else {
        (if crate::records::invite_of_line(lines[0]) is None {
            1nat
        } else {
            0nat
        }) + corrupt_invites_lines(lines.drop_first())
    }
}

/// The stored lines of the whole collection, one per record, in order.
pub open spec fn invites_lines_of(s: Seq<InviteModel>) -> Seq<Seq<u8>> {
    s.map_values(|m: InviteModel| crate::records::invite_line_of(m))
}

impl InviteLedger {
    /// Rebuild the collection from its stored lines, skipping each
    /// corrupt line; the count of skipped lines comes back beside it.
    #[verifier::loop_isolation(false)]
    pub fn from_lines(lines: &Vec<Vec<u8>>) -> (r: (InviteLedger, usize))
        ensures
            r.0@ == loaded_invites(Seq::<InviteModel>::empty(), lines.deep_view()),
            r.0.wf(),
            r.1 == corrupt_invites_lines(lines.deep_view()),
    {
        let ghost all = lines.deep_view();
        let mut coll = InviteLedger::new();
        let mut skipped: usize = 0;
        let n = lines.len();
        let mut i: usize = 0;
        proof {
            assert(all.skip(0) =~= all);
        }
        while i < n
            invariant
                n == all.len(),
                i <= n,
                n == lines.len(),
                all == lines.deep_view(),
                coll.wf(),
                skipped <= i,
                loaded_invites(Seq::<InviteModel>::empty(), all) == loaded_invites(
                    coll@,
                    all.skip(i as int),
                ),
                corrupt_invites_lines(all) == skipped + corrupt_invites_lines(all.skip(i as int)),
            decreases n - i,
        {
            let ghost rest = all.skip(i as int);
            proof {
                assert(rest[0] =~= lines[i as int]@);
                assert(rest.drop_first() =~= all.skip(i + 1));
            }
            match crate::records::decode_invite(lines[i].as_slice()) {
                Some(rec) => {
                    proof {
                        assert(crate::records::invite_of_line(rest[0]) == Some(rec@));
                    }
                    coll.save_invite(rec);
                },
                None => {
                    proof {
                        assert(crate::records::invite_of_line(rest[0]) is None);
                    }
                    skipped += 1;
                },
            }
            i += 1;
        }
        proof {
            assert(all.skip(n as int) =~= Seq::<Seq<u8>>::empty());
        }
        (coll, skipped)
    }

    /// The stored lines of the whole collection, in record order.
    #[verifier::loop_isolation(false)]
    pub fn to_lines(&self) -> (r: Vec<Vec<u8>>)
        ensures
            r.deep_view() == invites_lines_of(self@),
    {
        let n = self.invites.len();
        let mut out: Vec<Vec<u8>> = Vec::new();
        let mut i: usize = 0;
        proof {
            assert(out.deep_view() =~~= invites_lines_of(self@.take(0)));
        }
        while i < n
            invariant
                n == self@.len(),
                i <= n,
                n == self.invites.len(),
                out.deep_view() == invites_lines_of(self@.take(i as int)),
            decreases n - i,
        {
            let ghost before = out.deep_view();
            out.push(crate::records::encode_invite(&self.invites[i]));
            proof {
                assert(self@.take(i + 1) =~= self@.take(i as int).push(self@[i as int]));
                assert(out.deep_view() =~~= before.push(crate::records::invite_line_of(
                    self@[i as int],
                )));
                assert(out.deep_view() =~~= invites_lines_of(self@.take(i + 1)));
            }
            i += 1;
        }
        proof {
            assert(self@.take(n as int) =~= self@);
        }
        out
    }
}

} // verus!
