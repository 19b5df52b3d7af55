//! User records.

use vstd::prelude::*;

verus! {

#[derive(Debug)]
pub struct User {
    pub active: bool,
    pub username: String,
    pub email: String,
    pub sign_in_count: u64,
}

/// A user who is active and has signed in once.
pub fn build_user(email: String, username: String) -> (user: User)
    ensures
        user.active,
        user.username@ == username@,
        user.email@ == email@,
        user.sign_in_count == 1,
{
    User { active: true, username: username, email: email, sign_in_count: 1 }
}

/// A user who is active and has signed in once.
pub fn build_user_shorthand(email: String, username: String) -> (user: User)
    ensures
        user.active,
        user.username@ == username@,
        user.email@ == email@,
        user.sign_in_count == 1,
{
    User { active: true, username, email, sign_in_count: 1 }
}

} // verus!
