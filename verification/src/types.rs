//! The records of every collection, the request and response shapes, and
//! the mathematical model of each: contracts speak of the models, never of
//! the executable representation.

use vstd::prelude::*;

verus! {

/// Seconds in the trailing window that bounds invite issuance.
pub const WINDOW_SECONDS: u64 = 604800;

/// How many invites one issuer may create within one window.
pub const INVITE_RATE_LIMIT: usize = 5;

/// A registered user; created once at registration, immutable thereafter.
#[derive(Debug, PartialEq, Eq)]
pub struct User {
    pub id: String,
    pub invite_code: String,
    pub normal_pin: String,
    pub duress_pin: String,
}

/// The model of a [`User`].
#[verifier::ext_equal]
pub struct UserModel {
    pub id: Seq<char>,
    pub invite_code: Seq<char>,
    pub normal_pin: Seq<char>,
    pub duress_pin: Seq<char>,
}

impl View for User {
    type V = UserModel;

    open spec fn view(&self) -> UserModel {
        UserModel {
            id: self.id@,
            invite_code: self.invite_code@,
            normal_pin: self.normal_pin@,
            duress_pin: self.duress_pin@,
        }
    }
}

impl DeepView for User {
    type V = UserModel;

    open spec fn deep_view(&self) -> UserModel {
        self.view()
    }
}

impl User {
    /// A field-for-field copy.
    pub fn duplicate(&self) -> (r: User)
        ensures
            r@ == self@,
    {
        User {
            id: self.id.clone(),
            invite_code: self.invite_code.clone(),
            normal_pin: self.normal_pin.clone(),
            duress_pin: self.duress_pin.clone(),
        }
    }
}

/// An invite code with its redemption tally; never deleted, only mutated.
pub struct Invite {
    pub code: String,
    pub invitor_id: String,
    pub redemption_count: u32,
    pub created_at: u64,
}

/// The model of an [`Invite`]; `created_at` is in seconds.
#[verifier::ext_equal]
pub struct InviteModel {
    pub code: Seq<char>,
    pub invitor_id: Seq<char>,
    pub redemption_count: u32,
    pub created_at: u64,
}

impl View for Invite {
    type V = InviteModel;

    open spec fn view(&self) -> InviteModel {
        InviteModel {
            code: self.code@,
            invitor_id: self.invitor_id@,
            redemption_count: self.redemption_count,
            created_at: self.created_at,
        }
    }
}

impl DeepView for Invite {
    type V = InviteModel;

    open spec fn deep_view(&self) -> InviteModel {
        self.view()
    }
}

impl InviteModel {
    /// Whether this invite still counts against the issuer's rate limit
    /// when judged at `now`: its creation lies less than one window back.
    /// A creation instant at or beyond `now` (clock skew) still counts.
    pub open spec fn in_window(&self, now: u64) -> bool {
        now < self.created_at + WINDOW_SECONDS
    }
}

impl Invite {
    /// A field-for-field copy.
    pub fn duplicate(&self) -> (r: Invite)
        ensures
            r@ == self@,
    {
        Invite {
            code: self.code.clone(),
            invitor_id: self.invitor_id.clone(),
            redemption_count: self.redemption_count,
            created_at: self.created_at,
        }
    }
}

/// One directed follow edge; at most one per ordered pair.
pub struct Follow {
    pub follower_id: String,
    pub followed_id: String,
}

/// The model of a [`Follow`] edge.
#[verifier::ext_equal]
pub struct FollowModel {
    pub follower_id: Seq<char>,
    pub followed_id: Seq<char>,
}

impl View for Follow {
    type V = FollowModel;

    open spec fn view(&self) -> FollowModel {
        FollowModel { follower_id: self.follower_id@, followed_id: self.followed_id@ }
    }
}

impl DeepView for Follow {
    type V = FollowModel;

    open spec fn deep_view(&self) -> FollowModel {
        self.view()
    }
}

/// The duress state of one user's current record.
#[derive(Clone, Copy, PartialEq, Eq, Structural, Debug)]
pub enum DuressState {
    Active,
    Cancelled,
}

/// One user's current duress record; one per user at a time.
pub struct DuressRecord {
    pub user_id: String,
    pub duress_type: String,
    pub message: String,
    pub timestamp: String,
    pub state: DuressState,
}

/// The model of a [`DuressRecord`].
#[verifier::ext_equal]
pub struct DuressRecordModel {
    pub user_id: Seq<char>,
    pub duress_type: Seq<char>,
    pub message: Seq<char>,
    pub timestamp: Seq<char>,
    pub state: DuressState,
}

impl View for DuressRecord {
    type V = DuressRecordModel;

    open spec fn view(&self) -> DuressRecordModel {
        DuressRecordModel {
            user_id: self.user_id@,
            duress_type: self.duress_type@,
            message: self.message@,
            timestamp: self.timestamp@,
            state: self.state,
        }
    }
}

impl DeepView for DuressRecord {
    type V = DuressRecordModel;

    open spec fn deep_view(&self) -> DuressRecordModel {
        self.view()
    }
}

/// Broadcast preferences; absent means both flags are on.
#[derive(Clone, Copy, PartialEq, Eq, Structural, Debug)]
pub struct UserPreferences {
    pub broadcast_duress: bool,
    pub receive_duress_broadcasts: bool,
}

impl UserPreferences {
    /// What a user without a stored record gets.
    pub fn defaults() -> (r: UserPreferences)
        ensures
            r.broadcast_duress,
            r.receive_duress_broadcasts,
    {
        UserPreferences { broadcast_duress: true, receive_duress_broadcasts: true }
    }
}

/// What one registration request carries.
pub struct RegisterRequest {
    pub invite_code: String,
    pub normal_pin: String,
    pub duress_pin: String,
}

/// What one invite-issuance request carries.
pub struct InviteRequest {
    pub user_id: String,
}

/// The code handed back by a successful issuance.
#[derive(Debug, PartialEq, Eq)]
pub struct InviteResponse {
    pub invite_code: String,
}

/// What one follow or unfollow request carries: the other user of the edge.
pub struct FollowRequest {
    pub user_id: String,
}

/// What one duress-cancellation request carries.
pub struct CancelDuressRequest {
    pub normal_pin: String,
    pub confirm: bool,
}

/// One row of the map view: a followed user's last-known whereabouts and
/// duress flag.
pub struct MapInfo {
    pub user_id: String,
    pub username: String,
    pub location: String,
    pub duress: bool,
    pub last_checkin: String,
}

/// The model of a [`MapInfo`] row.
#[verifier::ext_equal]
pub struct MapInfoModel {
    pub user_id: Seq<char>,
    pub username: Seq<char>,
    pub location: Seq<char>,
    pub duress: bool,
    pub last_checkin: Seq<char>,
}

impl View for MapInfo {
    type V = MapInfoModel;

    open spec fn view(&self) -> MapInfoModel {
        MapInfoModel {
            user_id: self.user_id@,
            username: self.username@,
            location: self.location@,
            duress: self.duress,
            last_checkin: self.last_checkin@,
        }
    }
}

impl DeepView for MapInfo {
    type V = MapInfoModel;

    open spec fn deep_view(&self) -> MapInfoModel {
        self.view()
    }
}

} // verus!
