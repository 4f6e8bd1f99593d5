//! Identity-level value types: groups, claims, applications and the
//! authentication token issued at the end of a successful negotiation.

use vstd::prelude::*;

verus! {

/// A group membership carried inside a token.
#[derive(Debug, Clone, PartialEq, Eq)]
pub struct Group {
    pub name: String,
    pub uuid: String,
}

/// An ephemeral, session-scoped attribute granted to a session.
#[derive(Debug, Clone, PartialEq, Eq)]
pub struct Claim {
    pub name: String,
    pub uuid: String,
}

/// An application context a session may be bound to.
#[derive(Debug, Clone, PartialEq, Eq)]
pub struct Application {
    pub name: String,
    pub uuid: String,
}

/// The identity assertion issued as the terminal artifact of a successful
/// authentication; immutable, and bounded by the session it was issued
/// for.
#[derive(Debug, Clone, PartialEq, Eq)]
pub struct UserAuthToken {
    pub name: String,
    pub displayname: String,
    pub uuid: String,
    pub application: Option<Application>,
    pub groups: Vec<Group>,
    pub claims: Vec<Claim>,
}

} // verus!
