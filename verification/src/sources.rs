//! Values that only the environment can give: the wall clock and fresh
//! random identifiers.  Every caller states what holds of its own result
//! whatever value comes back from here.

use vstd::prelude::*;

verus! {

/// Relies on `uuid::Uuid::new_v4` and its `Display` impl: a freshly drawn
/// random identifier, printed in the hyphenated form of 36 characters.
/// Nothing can be promised of the drawn value itself.
#[verifier::external_body]
pub(crate) fn fresh_identifier() -> (r: String)
    ensures
        r@.len() == 36,
{
    uuid::Uuid::new_v4().to_string()
}

/// Relies on `chrono::Utc::now` and `DateTime::timestamp`: the current
/// wall clock as whole seconds since the epoch.  Nothing can be promised
/// of the value read.
#[verifier::external_body]
pub(crate) fn clock_seconds() -> i64 {
    chrono::Utc::now().timestamp()
}

/// The current time in the model's clock domain: a reading from before the
/// epoch counts as the epoch itself.
pub fn current_seconds() -> u64 {
    let t: i64 = clock_seconds();
    if t < 0 {
        0
    } else {
        t as u64
    }
}

} // verus!
