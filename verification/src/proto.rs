//! The request/response envelope: each operation is a paired value that
//! carries its payload and nothing more. Whoami is the only operation
//! that is idempotent and side-effect-free by construction.

use vstd::prelude::*;
use crate::auth::AuthState;
use crate::entry::Entry;
use crate::entry::ModifyList;
use crate::filter::Filter;
use crate::types::UserAuthToken;

verus! {

/// The empty acknowledgement returned by create, delete, modify and
/// revive operations.
#[derive(Debug, PartialEq, Eq)]
pub struct OperationResponse {}

impl OperationResponse {
    /// The acknowledgement value.
    pub fn new(_u: ()) -> (r: Self)
        ensures
            r == (OperationResponse {  }),
    {
        OperationResponse {  }
    }
}

/// A search over live entries, selecting by filter.
#[derive(Debug, PartialEq, Eq)]
pub struct SearchRequest {
    pub filter: Filter,
}

impl SearchRequest {
    /// Wraps the selecting filter.
    pub fn new(filter: Filter) -> (r: Self)
        ensures
            r.filter == filter,
    {
        SearchRequest { filter: filter }
    }
}

/// The entries a search matched.
#[derive(Debug, PartialEq, Eq)]
pub struct SearchResponse {
    pub entries: Vec<Entry>,
}

impl SearchResponse {
    /// Wraps the matched entries, in the order the backend returned them.
    pub fn new(entries: Vec<Entry>) -> (r: Self)
        ensures
            r.entries == entries,
    {
        SearchResponse { entries: entries }
    }
}

/// Creation of one or more complete entries.
#[derive(Debug, PartialEq, Eq)]
pub struct CreateRequest {
    pub entries: Vec<Entry>,
}

impl CreateRequest {
    /// Wraps the entries to create, in order.
    pub fn new(entries: Vec<Entry>) -> (r: Self)
        ensures
            r.entries == entries,
    {
        CreateRequest { entries: entries }
    }
}

/// Deletion of every entry the filter selects.
#[derive(Debug, PartialEq, Eq)]
pub struct DeleteRequest {
    pub filter: Filter,
}

impl DeleteRequest {
    /// Wraps the selecting filter.
    pub fn new(filter: Filter) -> (r: Self)
        ensures
            r.filter == filter,
    {
        DeleteRequest { filter: filter }
    }
}

/// A mutation of every entry the filter selects, by the given list.
#[derive(Debug, PartialEq, Eq)]
pub struct ModifyRequest {
    pub filter: Filter,
    pub modlist: ModifyList,
}

impl ModifyRequest {
    /// Wraps the selecting filter and the mutations to apply.
    pub fn new(filter: Filter, modlist: ModifyList) -> (r: Self)
        ensures
            r.filter == filter,
            r.modlist == modlist,
    {
        ModifyRequest { filter: filter, modlist: modlist }
    }
}

/// The response to an authentication step: the session identifier that
/// binds the negotiation, and the state reached.
#[derive(Debug)]
pub struct AuthResponse {
    pub sessionid: u128,
    pub state: AuthState,
}

/// A search over recycled (soft-deleted) entries.
#[derive(Debug, PartialEq, Eq)]
pub struct SearchRecycledRequest {
    pub filter: Filter,
}

impl SearchRecycledRequest {
    /// Wraps the selecting filter.
    pub fn new(filter: Filter) -> (r: Self)
        ensures
            r.filter == filter,
    {
        SearchRecycledRequest { filter: filter }
    }
}

/// Revival of recycled entries the filter selects.
#[derive(Debug, PartialEq, Eq)]
pub struct ReviveRecycledRequest {
    pub filter: Filter,
}

impl ReviveRecycledRequest {
    /// Wraps the selecting filter.
    pub fn new(filter: Filter) -> (r: Self)
        ensures
            r.filter == filter,
    {
        ReviveRecycledRequest { filter: filter }
    }
}

/// A request for the caller's own entry and current token; carries no
/// payload.
#[derive(Debug, PartialEq, Eq)]
pub struct WhoamiRequest {}

impl WhoamiRequest {
    /// The empty request.
    pub fn new() -> (r: Self)
        ensures
            r == (WhoamiRequest {  }),
    {
        WhoamiRequest {  }
    }
}

/// The caller's own entry together with the token in force.
#[derive(Debug)]
pub struct WhoamiResponse {
    pub youare: Entry,
    pub uat: UserAuthToken,
}

impl WhoamiResponse {
    /// Pairs the caller's entry with the current token.
    pub fn new(e: Entry, uat: UserAuthToken) -> (r: Self)
        ensures
            r.youare == e,
            r.uat == uat,
    {
        WhoamiResponse { youare: e, uat: uat }
    }
}

} // verus!
