//! Registration: redeem an invite, then create the user, as one flow.

use vstd::prelude::*;
use crate::errors::StoreError;
use crate::invites::{has_code, invite_with_code, redeem_transition, InviteLedger};
use crate::sources;
use crate::types::{RegisterRequest, User, UserModel};
use crate::users::{has_id, UserDirectory};

verus! {

/// Register a user under a caller-chosen id: the invite carrying the
/// request's code is redeemed (its tally rises by exactly one), then the
/// user is created.  Every failure leaves both collections untouched.
pub fn register_with_id(
    ledger: &mut InviteLedger,
    users: &mut UserDirectory,
    req: &RegisterRequest,
    user_id: String,
) -> (r: Result<User, StoreError>)
    requires
        old(ledger).wf(),
        old(users).wf(),
    ensures
        has_id(old(users)@, user_id@) ==> r == Err::<User, StoreError>(StoreError::Conflict),
        !has_id(old(users)@, user_id@) && !has_code(old(ledger)@, req.invite_code@) ==> r == Err::<
            User,
            StoreError,
        >(StoreError::InvalidInviteCode),
        !has_id(old(users)@, user_id@) && has_code(old(ledger)@, req.invite_code@)
            && invite_with_code(old(ledger)@, req.invite_code@).redemption_count == u32::MAX ==> r
            == Err::<User, StoreError>(StoreError::Conflict),
        r is Err ==> final(ledger)@ == old(ledger)@ && final(users)@ == old(users)@,
        r is Ok <==> !has_id(old(users)@, user_id@) && has_code(old(ledger)@, req.invite_code@)
            && invite_with_code(old(ledger)@, req.invite_code@).redemption_count < u32::MAX,
        r matches Ok(u) ==> u@ == (UserModel {
            id: user_id@,
            invite_code: req.invite_code@,
            normal_pin: req.normal_pin@,
            duress_pin: req.duress_pin@,
        }) && final(users)@ == old(users)@.push(u@) && final(ledger)@ == redeem_transition(
            old(ledger)@,
            req.invite_code@,
        ),
        final(ledger).wf(),
        final(users).wf(),
{
    if users.get_user(user_id.as_str()).is_some() {
        return Err(StoreError::Conflict);
    }
    match ledger.redeem(req.invite_code.as_str()) {
        Err(e) => Err(e),
        Ok(_) => {
            let user = User {
                id: user_id,
                invite_code: req.invite_code.clone(),
                normal_pin: req.normal_pin.clone(),
                duress_pin: req.duress_pin.clone(),
            };
            let ghost u0 = users@;
            let copy = user.duplicate();
            users.save_user(copy);
            proof {
                assert(users@ == u0.push(user@));
            }
            Ok(user)
        },
    }
}

/// Register a user under a freshly drawn random id.  Whatever id came
/// back, the outcome is pinned: on success the invite's tally rose by
/// exactly one and exactly the new user was appended; every failure
/// leaves both collections untouched.  Only a drawn id that collides with
/// a registered one can fail beyond the invite's own conditions, so on an
/// empty directory a redeemable code is owed success, and an unknown code
/// is owed exactly the invalid-code refusal.
pub fn register_user(ledger: &mut InviteLedger, users: &mut UserDirectory, req: &RegisterRequest) -> (r:
    Result<User, StoreError>)
    requires
        old(ledger).wf(),
        old(users).wf(),
    ensures
        old(users)@.len() == 0 && has_code(old(ledger)@, req.invite_code@) && invite_with_code(
            old(ledger)@,
            req.invite_code@,
        ).redemption_count < u32::MAX ==> r is Ok,
        old(users)@.len() == 0 && !has_code(old(ledger)@, req.invite_code@) ==> r == Err::<
            User,
            StoreError,
        >(StoreError::InvalidInviteCode),
        r is Err ==> final(ledger)@ == old(ledger)@ && final(users)@ == old(users)@ && (r == Err::<
            User,
            StoreError,
        >(StoreError::Conflict) || r == Err::<User, StoreError>(StoreError::InvalidInviteCode)),
        r == Err::<User, StoreError>(StoreError::InvalidInviteCode) ==> !has_code(
            old(ledger)@,
            req.invite_code@,
        ),
        r matches Ok(u) ==> {
            &&& u@.id.len() == 36
            &&& u@.invite_code == req.invite_code@
            &&& u@.normal_pin == req.normal_pin@
            &&& u@.duress_pin == req.duress_pin@
            &&& !has_id(old(users)@, u@.id)
            &&& has_code(old(ledger)@, req.invite_code@)
            &&& invite_with_code(old(ledger)@, req.invite_code@).redemption_count < u32::MAX
            &&& final(users)@ == old(users)@.push(u@)
            &&& final(ledger)@ == redeem_transition(old(ledger)@, req.invite_code@)
        },
        final(ledger).wf(),
        final(users).wf(),
{
    let user_id = sources::fresh_identifier();
    proof {
        if old(users)@.len() == 0 {
            assert(!has_id(old(users)@, user_id@));
        }
    }
    register_with_id(ledger, users, req, user_id)
}

} // verus!
