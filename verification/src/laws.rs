//! The laws the collections obey, stated over the same transitions the
//! executable contracts are written with, and proved once and for all.

use vstd::prelude::*;
use vstd::seq_lib::*;
use crate::duress::{
    cancel_transition, has_record, record_of, record_users_unique, state_of, trigger_transition,
};
use crate::follows::{
    add_edge, edges_unique, followed_pred, followers_of, has_edge, keep_pred, remove_edge,
    same_edge,
};
use crate::invites::{
    codes_unique, has_code, index_of_code, invite_with_code, recent_count, recent_pred,
    redeem_transition,
};
use crate::sequences::{lemma_filter_all, lemma_filter_push};
use crate::types::{DuressState, DuressRecordModel, FollowModel, InviteModel, INVITE_RATE_LIMIT,
    WINDOW_SECONDS};

verus! {

// ---------------------------------------------------------------------
// Redemption: no increment is ever lost.
// ---------------------------------------------------------------------

/// The ledger after `n` redemptions of one code, one after the other, in
/// any serialization of concurrent calls.
pub open spec fn redeem_many(s: Seq<InviteModel>, code: Seq<char>, n: nat) -> Seq<InviteModel>
    decreases n,
{
    if n == 0 {
        s
    } else {
        redeem_transition(redeem_many(s, code, (n - 1) as nat), code)
    }
}

/// After `n` redemptions of one code, the invite carrying that code shows
/// a tally exactly `n` higher, and every other invite is exactly as it
/// was: no increment is lost, whatever order the calls serialized in.
pub proof fn lemma_redeem_many_pointwise(s: Seq<InviteModel>, code: Seq<char>, n: nat)
    requires
        forall|j: int|
            0 <= j < s.len() && (#[trigger] s[j]).code == code ==> s[j].redemption_count + n
                <= u32::MAX,
    ensures
        redeem_many(s, code, n).len() == s.len(),
        forall|j: int| 0 <= j < s.len() ==> (#[trigger] redeem_many(s, code, n)[j]).code
            == s[j].code,
        forall|j: int| 0 <= j < s.len() ==> (#[trigger] redeem_many(s, code, n)[j]).invitor_id
            == s[j].invitor_id,
        forall|j: int| 0 <= j < s.len() ==> (#[trigger] redeem_many(s, code, n)[j]).created_at
            == s[j].created_at,
        forall|j: int|
            0 <= j < s.len() ==> (#[trigger] redeem_many(s, code, n)[j]).redemption_count == s[
                j
            ].redemption_count + (if s[j].code == code {
                n as int
            } else {
                0
            }),
    decreases n,
{
    if n == 0 {
    } else {
        lemma_redeem_many_pointwise(s, code, (n - 1) as nat);
    }
}

/// The law of lost updates: a burst of `n` redemptions of one invite ends
/// with that invite's tally exactly `n` higher.
pub proof fn lemma_concurrent_redeems_count(s: Seq<InviteModel>, code: Seq<char>, n: nat)
    requires
        codes_unique(s),
        has_code(s, code),
        invite_with_code(s, code).redemption_count + n <= u32::MAX,
    ensures
        codes_unique(redeem_many(s, code, n)),
        has_code(redeem_many(s, code, n), code),
        invite_with_code(redeem_many(s, code, n), code).redemption_count == invite_with_code(
            s,
            code,
        ).redemption_count + n,
        forall|j: int|
            0 <= j < s.len() && (#[trigger] s[j]).code != code ==> redeem_many(s, code, n)[j] == s[
                j
            ],
{
    let k = index_of_code(s, code);
    assert(0 <= k < s.len() && s[k].code == code);
    assert forall|j: int| 0 <= j < s.len() && (#[trigger] s[j]).code == code implies s[
        j
    ].redemption_count + n <= u32::MAX by {
        assert(j == k || (j < k && s[j].code != s[k].code) || (k < j && s[k].code != s[j].code));
    }
    lemma_redeem_many_pointwise(s, code, n);
    let t = redeem_many(s, code, n);
    assert forall|a: int, b: int| 0 <= a < b < t.len() implies #[trigger] t[a].code
        != #[trigger] t[b].code by {
        assert(t[a].code == s[a].code && t[b].code == s[b].code);
    }
    assert(t[k].code == code);
    let k2 = index_of_code(t, code);
    assert(0 <= k2 < t.len() && t[k2].code == code);
    assert(k2 == k);
    assert forall|j: int| 0 <= j < s.len() && (#[trigger] s[j]).code != code implies t[j] == s[
        j
    ] by {
        assert(t[j].redemption_count == s[j].redemption_count);
        assert(t[j] =~= s[j]);
    }
}

// ---------------------------------------------------------------------
// Follow graph: idempotence, exact-pair removal.
// ---------------------------------------------------------------------

/// Matching one ordered pair exactly.
pub open spec fn pair_pred(follower_id: Seq<char>, followed_id: Seq<char>) -> spec_fn(
    FollowModel,
) -> bool {
    |e: FollowModel| e.follower_id == follower_id && e.followed_id == followed_id
}

/// How many edges join this ordered pair.
pub open spec fn edge_count(
    s: Seq<FollowModel>,
    follower_id: Seq<char>,
    followed_id: Seq<char>,
) -> nat {
    s.filter(pair_pred(follower_id, followed_id)).len()
}

/// Being exactly this id.
pub open spec fn eq_pred(x: Seq<char>) -> spec_fn(Seq<char>) -> bool {
    |y: Seq<char>| y == x
}

/// How often one id occurs in a listing.
pub open spec fn occurrences(s: Seq<Seq<char>>, x: Seq<char>) -> nat {
    s.filter(eq_pred(x)).len()
}

/// An id occurs in the follower listing of `b` exactly as often as an
/// edge joins the pair: listing followers invents and drops nothing.
pub proof fn lemma_follower_occurrences(s: Seq<FollowModel>, a: Seq<char>, b: Seq<char>)
    ensures
        occurrences(followers_of(s, b), a) == edge_count(s, a, b),
    decreases s.len(),
{
    let eq_a = eq_pred(a);
    let project = |e: FollowModel| e.follower_id;
    if s.len() == 0 {
        assert(s.filter(followed_pred(b)) =~= Seq::<FollowModel>::empty());
        assert(followers_of(s, b) =~= Seq::<Seq<char>>::empty());
        assert(followers_of(s, b).filter(eq_a) =~= Seq::<Seq<char>>::empty());
        assert(s.filter(pair_pred(a, b)) =~= Seq::<FollowModel>::empty());
    } else {
        let prefix = s.drop_last();
        let last = s.last();
        lemma_follower_occurrences(prefix, a, b);
        assert(s =~= prefix.push(last));
        lemma_filter_push(prefix, last, followed_pred(b));
        lemma_filter_push(prefix, last, pair_pred(a, b));
        let fp = prefix.filter(followed_pred(b));
        if followed_pred(b)(last) {
            assert(s.filter(followed_pred(b)) == fp + seq![last]);
            assert((fp + seq![last]).map_values(project) =~= fp.map_values(project).push(
                last.follower_id,
            ));
            assert(followers_of(s, b) == fp.map_values(project).push(last.follower_id));
            lemma_filter_push(fp.map_values(project), last.follower_id, eq_a);
            assert(followers_of(prefix, b) == fp.map_values(project));
            if last.follower_id == a {
                assert(pair_pred(a, b)(last));
                assert(occurrences(followers_of(s, b), a) == occurrences(followers_of(prefix, b), a)
                    + 1);
                assert(edge_count(s, a, b) == edge_count(prefix, a, b) + 1);
            } else {
                assert(!pair_pred(a, b)(last));
                assert(followers_of(prefix, b).filter(eq_a) + Seq::<Seq<char>>::empty()
                    =~= followers_of(prefix, b).filter(eq_a));
                assert(prefix.filter(pair_pred(a, b)) + Seq::<FollowModel>::empty() =~= prefix.filter(
                    pair_pred(a, b),
                ));
                assert(occurrences(followers_of(s, b), a) == occurrences(
                    followers_of(prefix, b),
                    a,
                ));
                assert(edge_count(s, a, b) == edge_count(prefix, a, b));
            }
        } else {
            assert(!pair_pred(a, b)(last));
            assert(fp + Seq::<FollowModel>::empty() =~= fp);
            assert(s.filter(followed_pred(b)) == fp);
            assert(followers_of(s, b) == followers_of(prefix, b));
            assert(prefix.filter(pair_pred(a, b)) + Seq::<FollowModel>::empty() =~= prefix.filter(
                pair_pred(a, b),
            ));
            assert(edge_count(s, a, b) == edge_count(prefix, a, b));
        }
    }
}

/// In a graph whose pairs are unique, a joined pair stands exactly once,
/// an unjoined pair not at all.
pub proof fn lemma_edge_count_unique(s: Seq<FollowModel>, a: Seq<char>, b: Seq<char>)
    requires
        edges_unique(s),
    ensures
        edge_count(s, a, b) == (if has_edge(s, a, b) {
            1nat
        } else {
            0nat
        }),
    decreases s.len(),
{
    if s.len() == 0 {
        assert(s.filter(pair_pred(a, b)) =~= Seq::<FollowModel>::empty());
        assert(!has_edge(s, a, b));
    } else {
        let prefix = s.drop_last();
        let last = s.last();
        assert(edges_unique(prefix));
        lemma_edge_count_unique(prefix, a, b);
        assert(s =~= prefix.push(last));
        lemma_filter_push(prefix, last, pair_pred(a, b));
        if pair_pred(a, b)(last) {
            assert forall|i: int| 0 <= i < prefix.len() implies !((#[trigger] prefix[i]).follower_id
                == a && prefix[i].followed_id == b) by {
                assert(!same_edge(s[i], s[s.len() - 1]));
            }
            assert(!has_edge(prefix, a, b));
            assert(edge_count(s, a, b) == edge_count(prefix, a, b) + 1);
            assert(s[s.len() - 1].follower_id == a && s[s.len() - 1].followed_id == b);
            assert(has_edge(s, a, b));
        } else {
            assert(prefix.filter(pair_pred(a, b)) + Seq::<FollowModel>::empty() =~= prefix.filter(
                pair_pred(a, b),
            ));
            assert(edge_count(s, a, b) == edge_count(prefix, a, b));
            if has_edge(s, a, b) {
                let w = choose|i: int|
                    0 <= i < s.len() && (#[trigger] s[i]).follower_id == a && s[i].followed_id
                        == b;
                assert(w < s.len() - 1);
                assert(prefix[w] == s[w]);
                assert(has_edge(prefix, a, b));
            }
            if has_edge(prefix, a, b) {
                let w = choose|i: int|
                    0 <= i < prefix.len() && (#[trigger] prefix[i]).follower_id == a && prefix[
                        i
                    ].followed_id == b;
                assert(s[w] == prefix[w]);
                assert(has_edge(s, a, b));
            }
        }
    }
}

/// Following twice is following once: the second insertion of the same
/// pair changes nothing, and the follower listing of `b` then names `a`
/// exactly once.
pub proof fn lemma_follow_twice_one_edge(s: Seq<FollowModel>, a: Seq<char>, b: Seq<char>)
    requires
        edges_unique(s),
    ensures
        add_edge(add_edge(s, a, b), a, b) == add_edge(s, a, b),
        occurrences(followers_of(add_edge(add_edge(s, a, b), a, b), b), a) == 1,
{
    let s1 = add_edge(s, a, b);
    if has_edge(s, a, b) {
        assert(s1 == s);
    } else {
        assert(s1 == s.push(FollowModel { follower_id: a, followed_id: b }));
        assert(s1[s.len() as int].follower_id == a && s1[s.len() as int].followed_id == b);
        assert(has_edge(s1, a, b));
        assert forall|i: int, j: int| 0 <= i < j < s1.len() implies !same_edge(
            #[trigger] s1[i],
            #[trigger] s1[j],
        ) by {
            if j < s.len() {
                assert(!same_edge(s[i], s[j]));
            } else {
                assert(s1[i] == s[i]);
                assert(!has_edge(s, a, b));
            }
        }
    }
    assert(has_edge(s1, a, b));
    assert(edges_unique(s1));
    assert(add_edge(s1, a, b) == s1);
    lemma_follower_occurrences(s1, a, b);
    lemma_edge_count_unique(s1, a, b);
}

/// Unfollowing a pair that is not joined changes nothing at all: the
/// no-op leaves every other edge untouched.
pub proof fn lemma_unfollow_absent_noop(s: Seq<FollowModel>, a: Seq<char>, b: Seq<char>)
    requires
        !has_edge(s, a, b),
    ensures
        remove_edge(s, a, b) == s,
{
    assert forall|i: int| 0 <= i < s.len() implies keep_pred(a, b)(#[trigger] s[i]) by {
        if s[i].follower_id == a && s[i].followed_id == b {
            assert(has_edge(s, a, b));
        }
    }
    lemma_filter_all(s, keep_pred(a, b));
}

// ---------------------------------------------------------------------
// Issuance: the rolling window admits at most the limit.
// ---------------------------------------------------------------------

/// One issuance attempt as the ledger sees it: below the limit and with a
/// fresh code the invite is appended, otherwise nothing changes.
pub open spec fn issue_step(
    s: Seq<InviteModel>,
    x: Seq<char>,
    code: Seq<char>,
    now: u64,
) -> Seq<InviteModel> {
    if recent_count(s, x, now) < INVITE_RATE_LIMIT && !has_code(s, code) {
        s.push(InviteModel { code, invitor_id: x, redemption_count: 0, created_at: now })
    } else {
        s
    }
}

/// Whether one issuance attempt succeeds.
pub open spec fn issue_succeeds(s: Seq<InviteModel>, x: Seq<char>, code: Seq<char>, now: u64) -> bool {
    recent_count(s, x, now) < INVITE_RATE_LIMIT && !has_code(s, code)
}

/// The ledger after a burst of issuance attempts by one issuer, each a
/// pair of a clock reading and a drawn code, serialized in call order.
pub open spec fn issue_burst(
    s: Seq<InviteModel>,
    x: Seq<char>,
    calls: Seq<(u64, Seq<char>)>,
) -> Seq<InviteModel>
    decreases calls.len(),
{
    if calls.len() == 0 {
        s
    } else {
        issue_burst(issue_step(s, x, calls[0].1, calls[0].0), x, calls.drop_first())
    }
}

/// How many attempts of the burst succeed.
pub open spec fn issue_successes(
    s: Seq<InviteModel>,
    x: Seq<char>,
    calls: Seq<(u64, Seq<char>)>,
) -> nat
    decreases calls.len(),
{
    if calls.len() == 0 {
        0nat
    } else {
        (if issue_succeeds(s, x, calls[0].1, calls[0].0) {
            1nat
        } else {
            0nat
        }) + issue_successes(issue_step(s, x, calls[0].1, calls[0].0), x, calls.drop_first())
    }
}

/// Appending one invite raises a recent count by one exactly when the new
/// invite belongs to the issuer and lies in the window.
proof fn lemma_recent_count_push(s: Seq<InviteModel>, m: InviteModel, x: Seq<char>, t: u64)
    ensures
        recent_count(s.push(m), x, t) == recent_count(s, x, t) + (if m.invitor_id == x
            && m.in_window(t) {
            1int
        } else {
            0int
        }),
{
    lemma_filter_push(s, m, recent_pred(x, t));
    if recent_pred(x, t)(m) {
    } else {
        assert(s.filter(recent_pred(x, t)) + Seq::<InviteModel>::empty() =~= s.filter(
            recent_pred(x, t),
        ));
    }
}

/// The engine of the rate-limit law: if at every call instant of the
/// burst the issuer already shows at least `c` recent invites, at most
/// `limit - c` attempts can succeed.
proof fn lemma_issue_burst_bound(
    s: Seq<InviteModel>,
    x: Seq<char>,
    calls: Seq<(u64, Seq<char>)>,
    c: nat,
)
    requires
        forall|k: int| 0 <= k < calls.len() ==> recent_count(s, x, (#[trigger] calls[k]).0) >= c,
        forall|i: int, j: int|
            0 <= i <= j < calls.len() ==> (#[trigger] calls[j]).0 < (#[trigger] calls[i]).0
                + WINDOW_SECONDS,
    ensures
        c + issue_successes(s, x, calls) <= (if c < INVITE_RATE_LIMIT {
            INVITE_RATE_LIMIT as nat
        } else {
            c
        }),
    decreases calls.len(),
{
    if calls.len() == 0 {
    } else {
        let now = calls[0].0;
        let code = calls[0].1;
        let rest = calls.drop_first();
        assert(forall|k: int| 0 <= k < rest.len() ==> #[trigger] rest[k] == calls[k + 1]);
        if issue_succeeds(s, x, code, now) {
            let m = InviteModel { code, invitor_id: x, redemption_count: 0, created_at: now };
            let s1 = s.push(m);
            assert(recent_count(s, x, now) >= c);
            assert(recent_count(s, x, now) < INVITE_RATE_LIMIT);
            assert(c < INVITE_RATE_LIMIT);
            assert forall|k: int| 0 <= k < rest.len() implies recent_count(
                s1,
                x,
                (#[trigger] rest[k]).0,
            ) >= c + 1 by {
                let t = rest[k].0;
                assert(calls[k + 1].0 < calls[0].0 + WINDOW_SECONDS);
                assert(m.in_window(t));
                lemma_recent_count_push(s, m, x, t);
                assert(recent_count(s, x, t) >= c);
            }
            lemma_issue_burst_bound(s1, x, rest, (c + 1) as nat);
        } else {
            assert(issue_step(s, x, code, now) == s);
            lemma_issue_burst_bound(s, x, rest, c);
        }
    }
}

/// The rate-limit law: within one window span, however many issuance
/// attempts one issuer makes and in whatever order they serialize, at
/// most the limit of them succeed; every further attempt is refused.
pub proof fn lemma_issue_burst_at_most_limit(
    s: Seq<InviteModel>,
    x: Seq<char>,
    calls: Seq<(u64, Seq<char>)>,
)
    requires
        forall|i: int, j: int|
            0 <= i <= j < calls.len() ==> (#[trigger] calls[j]).0 < (#[trigger] calls[i]).0
                + WINDOW_SECONDS,
    ensures
        issue_successes(s, x, calls) <= INVITE_RATE_LIMIT,
{
    lemma_issue_burst_bound(s, x, calls, 0);
}

// ---------------------------------------------------------------------
// Duress: the lifecycle of one user's record.
// ---------------------------------------------------------------------

/// A trigger leaves the log keyed uniquely and the user's record exactly
/// the triggered one.
pub proof fn lemma_trigger_state(s: Seq<DuressRecordModel>, m: DuressRecordModel)
    requires
        record_users_unique(s),
    ensures
        record_users_unique(trigger_transition(s, m)),
        has_record(trigger_transition(s, m), m.user_id),
        record_of(trigger_transition(s, m), m.user_id) == m,
        state_of(trigger_transition(s, m), m.user_id) == Some(m.state),
{
    let t = trigger_transition(s, m);
    if has_record(s, m.user_id) {
        let k = choose|i: int| 0 <= i < s.len() && #[trigger] s[i].user_id == m.user_id;
        assert(t.len() == s.len());
        assert forall|j: int| 0 <= j < s.len() && j != k implies #[trigger] s[j].user_id
            != m.user_id by {
            assert(s[k].user_id == m.user_id);
        }
        assert(t[k] == m);
        assert forall|j: int| 0 <= j < t.len() && j != k implies #[trigger] t[j] == s[j] by {
            assert(s[j].user_id != m.user_id);
        }
        assert forall|a: int, b: int| 0 <= a < b < t.len() implies #[trigger] t[a].user_id
            != #[trigger] t[b].user_id by {
            assert(t[a].user_id == s[a].user_id);
            assert(t[b].user_id == s[b].user_id);
        }
        assert(t[k].user_id == m.user_id);
        let k2 = choose|i: int| 0 <= i < t.len() && #[trigger] t[i].user_id == m.user_id;
        assert(k2 == k);
    } else {
        assert(t == s.push(m));
        assert(t[s.len() as int] == m);
        assert forall|a: int, b: int| 0 <= a < b < t.len() implies #[trigger] t[a].user_id
            != #[trigger] t[b].user_id by {
            if b < s.len() {
                assert(s[a].user_id != s[b].user_id);
            } else {
                assert(t[a] == s[a]);
                assert(!has_record(s, m.user_id));
            }
        }
        let k2 = choose|i: int| 0 <= i < t.len() && #[trigger] t[i].user_id == m.user_id;
        assert(t[k2].user_id == m.user_id);
        assert(k2 == s.len());
    }
}

/// A cancellation leaves the log keyed uniquely, turns the user's record
/// cancelled, and touches nothing else.
pub proof fn lemma_cancel_state(s: Seq<DuressRecordModel>, user_id: Seq<char>)
    requires
        record_users_unique(s),
        has_record(s, user_id),
    ensures
        record_users_unique(cancel_transition(s, user_id)),
        has_record(cancel_transition(s, user_id), user_id),
        state_of(cancel_transition(s, user_id), user_id) == Some(DuressState::Cancelled),
        forall|j: int|
            0 <= j < s.len() && (#[trigger] s[j]).user_id != user_id ==> cancel_transition(
                s,
                user_id,
            )[j] == s[j],
{
    let t = cancel_transition(s, user_id);
    let k = choose|i: int| 0 <= i < s.len() && #[trigger] s[i].user_id == user_id;
    assert(s[k].user_id == user_id);
    assert(t[k].user_id == user_id && t[k].state == DuressState::Cancelled);
    assert forall|a: int, b: int| 0 <= a < b < t.len() implies #[trigger] t[a].user_id
        != #[trigger] t[b].user_id by {
        assert(t[a].user_id == s[a].user_id);
        assert(t[b].user_id == s[b].user_id);
    }
    let k2 = choose|i: int| 0 <= i < t.len() && #[trigger] t[i].user_id == user_id;
    assert(t[k2].user_id == user_id);
    assert(k2 == k);
}

/// The duress lifecycle law: a trigger puts the user's record in the
/// active state, a valid cancellation turns exactly it cancelled, and a
/// later trigger returns the state to active.
pub proof fn lemma_duress_lifecycle(
    s: Seq<DuressRecordModel>,
    first: DuressRecordModel,
    second: DuressRecordModel,
)
    requires
        record_users_unique(s),
        first.state == DuressState::Active,
        second.state == DuressState::Active,
        second.user_id == first.user_id,
    ensures
        state_of(trigger_transition(s, first), first.user_id) == Some(DuressState::Active),
        state_of(
            cancel_transition(trigger_transition(s, first), first.user_id),
            first.user_id,
        ) == Some(DuressState::Cancelled),
        state_of(
            trigger_transition(
                cancel_transition(trigger_transition(s, first), first.user_id),
                second,
            ),
            first.user_id,
        ) == Some(DuressState::Active),
{
    lemma_trigger_state(s, first);
    let s1 = trigger_transition(s, first);
    lemma_cancel_state(s1, first.user_id);
    let s2 = cancel_transition(s1, first.user_id);
    lemma_trigger_state(s2, second);
}

} // verus!
