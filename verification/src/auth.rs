//! The authentication negotiation state machine.
//!
//! A negotiation starts with an `Init` step naming a principal, and then
//! advances through `Creds` steps until it ends in `Success` or `Denied`.
//! The store enforces legal step ordering only: credential verification
//! is delegated, its verdict arrives here as a [`CredDecision`], and no
//! secret is ever held in a session record. Once a session is terminal,
//! every further step on its identifier is rejected with an
//! invalid-session error; a denial always carries the one generic reason,
//! never which part of a check failed.

use vstd::prelude::*;
use crate::errors::OperationError;
use crate::types::UserAuthToken;

verus! {

/// A credential supplied by the client in a `Creds` step.
#[derive(Debug, Clone, PartialEq, Eq)]
pub enum AuthCredential {
    Anonymous,
    Password(String),
}

/// One client step of the negotiation: name a principal, or submit
/// credentials for the session in progress.
#[derive(Debug, Clone, PartialEq, Eq)]
pub enum AuthStep {
    // name, application id?
    Init(String, Option<String>),
    Creds(Vec<AuthCredential>),
}

/// The request envelope carrying one step.
#[derive(Debug)]
pub struct AuthRequest {
    pub step: AuthStep,
}

/// A credential mechanism the server currently accepts for a principal.
#[derive(Debug, Clone, PartialEq, Eq)]
pub enum AuthAllowed {
    Anonymous,
    Password,
}

/// The server's view of a negotiation after a step.
#[derive(Debug, PartialEq, Eq)]
pub enum AuthState {
    // Everything is good, and a token is issued for the client to view.
    Success(UserAuthToken),
    // Something was bad; the session is terminated.
    Denied(String),
    // Continue to auth, allowed mechanisms listed.
    Continue(Vec<AuthAllowed>),
}

/// The delegated verifier's verdict on one `Creds` submission: issue a
/// token, refuse, or require further factors from the given mechanisms.
#[derive(Debug)]
pub enum CredDecision {
    Grant(UserAuthToken),
    Reject,
    Require(Vec<AuthAllowed>),
}

/// The generic denial reason. A denial never says which part of a check
/// failed, to avoid credential-enumeration side channels.
pub open spec fn generic_denied_reason() -> Seq<char> {
    "authentication denied"@
}

/// The one reason string every denial carries.
pub fn denied_reason() -> (r: String)
    ensures
        r@ == generic_denied_reason(),
{
    "authentication denied".to_owned()
}

/// The mechanism a credential answers to.
pub fn credential_mechanism(c: &AuthCredential) -> (r: AuthAllowed)
    ensures
        r == mechanism_of(*c),
{
    match c {
        AuthCredential::Anonymous => AuthAllowed::Anonymous,
        AuthCredential::Password(_) => AuthAllowed::Password,
    }
}

/// The mechanism a credential answers to, in the model.
pub open spec fn mechanism_of(c: AuthCredential) -> AuthAllowed {
    match c {
        AuthCredential::Anonymous => AuthAllowed::Anonymous,
        AuthCredential::Password(_) => AuthAllowed::Password,
    }
}

/// Structural equality of mechanisms, decided by variant.
pub fn mech_eq(a: &AuthAllowed, b: &AuthAllowed) -> (r: bool)
    ensures
        r == (*a == *b),
{
    match (a, b) {
        (AuthAllowed::Anonymous, AuthAllowed::Anonymous) => true,
        (AuthAllowed::Password, AuthAllowed::Password) => true,
        _ => false,
    }
}

/// Every supplied credential answers to a mechanism in the allowed list.
pub open spec fn creds_within(creds: Seq<AuthCredential>, allowed: Seq<AuthAllowed>) -> bool {
    forall|i: int|
        0 <= i < creds.len() ==> allowed.contains(mechanism_of(#[trigger] creds[i]))
}

/// Checks that every supplied credential uses a currently allowed
/// mechanism; a submission outside the allowed set can never satisfy the
/// policy and must be refused before any secret is examined.
pub fn creds_allowed(creds: &Vec<AuthCredential>, allowed: &Vec<AuthAllowed>) -> (r: bool)
    ensures
        r == creds_within(creds@, allowed@),
{
    let mut i: usize = 0;
    while i < creds.len()
        invariant
            i <= creds@.len(),
            forall|j: int| 0 <= j < i ==> allowed@.contains(mechanism_of(#[trigger] creds@[j])),
        decreases creds@.len() - i,
    {
        let m = credential_mechanism(&creds[i]);
        let mut found = false;
        let mut k: usize = 0;
        while k < allowed.len()
            invariant
                k <= allowed@.len(),
                m == mechanism_of(creds@[i as int]),
                i < creds@.len(),
                found <==> (exists|u: int| 0 <= u < k && allowed@[u] == m),
            decreases allowed@.len() - k,
        {
            if mech_eq(&allowed[k], &m) {
                found = true;
            }
            k = k + 1;
        }
        if !found {
            proof {
                assert(!allowed@.contains(mechanism_of(creds@[i as int])));
            }
            return false;
        }
        i = i + 1;
    }
    true
}

// ---------------------------------------------------------------------------
// The session store
// ---------------------------------------------------------------------------

/// The state a session record can be in: awaiting credentials with the
/// listed mechanisms, or terminal (succeeded or denied; no difference
/// matters afterwards).
#[derive(Debug)]
pub enum SessionSlot {
    InProgress(Vec<AuthAllowed>),
    Terminal,
}

/// One session record.
#[derive(Debug)]
pub struct SessionEntry {
    pub sid: u128,
    pub slot: SessionSlot,
}

/// The server-side store of negotiations, keyed by the opaque session
/// identifier; one record per negotiation, identifiers never reused.
pub struct SessionStore {
    sessions: Vec<SessionEntry>,
}

impl SessionStore {
    /// Session identifiers are unique across the store.
    pub closed spec fn wf(self) -> bool {
        forall|i: int, j: int|
            0 <= i < j < self.sessions@.len() ==> (#[trigger] self.sessions@[i].sid) != (
            #[trigger] self.sessions@[j].sid)
    }

    /// A negotiation with this identifier exists.
    pub closed spec fn has_session(self, sid: u128) -> bool {
        exists|i: int| 0 <= i < self.sessions@.len() && (#[trigger] self.sessions@[i].sid) == sid
    }

    /// The negotiation exists and has ended, in success or denial.
    pub closed spec fn session_terminal(self, sid: u128) -> bool {
        exists|i: int|
            0 <= i < self.sessions@.len() && (#[trigger] self.sessions@[i].sid) == sid
                && self.sessions@[i].slot matches SessionSlot::Terminal
    }

    /// The negotiation exists and awaits credentials.
    pub closed spec fn session_live(self, sid: u128) -> bool {
        exists|i: int|
            0 <= i < self.sessions@.len() && (#[trigger] self.sessions@[i].sid) == sid
                && self.sessions@[i].slot matches SessionSlot::InProgress(_)
    }

    /// The mechanisms a live negotiation currently awaits.
    pub closed spec fn session_mechs(self, sid: u128) -> Seq<AuthAllowed> {
        let i = choose|i: int|
            0 <= i < self.sessions@.len() && (#[trigger] self.sessions@[i].sid) == sid
                && self.sessions@[i].slot matches SessionSlot::InProgress(_);
        match self.sessions@[i].slot {
            SessionSlot::InProgress(ms) => ms@,
            SessionSlot::Terminal => Seq::empty(),
        }
    }

    /// Sessions other than `sid` are untouched between two states.
    pub open spec fn others_unchanged(pre: SessionStore, post: SessionStore, sid: u128) -> bool {
        forall|s2: u128|
            s2 != sid ==> ((#[trigger] post.has_session(s2)) == pre.has_session(s2)
                && post.session_terminal(s2) == pre.session_terminal(s2) && post.session_live(s2)
                == pre.session_live(s2) && (pre.session_live(s2) ==> post.session_mechs(s2)
                == pre.session_mechs(s2)))
    }

    /// An empty store: no negotiation known.
    pub fn new() -> (r: SessionStore)
        ensures
            r.wf(),
            forall|sid: u128| !r.has_session(sid),
    {
        SessionStore { sessions: Vec::new() }
    }

    /// What one `Init` step does to the store: a colliding identifier is
    /// rejected unchanged; otherwise a known principal opens a live
    /// session and is told the acceptable mechanisms, an unknown one is
    /// denied with the generic reason and the session is terminal at
    /// once.
    pub open spec fn init_transition(
        pre: SessionStore,
        post: SessionStore,
        sid: u128,
        offered: Option<Vec<AuthAllowed>>,
        r: Result<AuthState, OperationError>,
    ) -> bool {
        &&& (pre.has_session(sid) ==> r == Err::<AuthState, OperationError>(
            OperationError::InvalidSessionState,
        ) && post == pre)
        &&& (!pre.has_session(sid) ==> {
            &&& post.has_session(sid)
            &&& Self::others_unchanged(pre, post, sid)
            &&& match offered {
                Some(ms) => {
                    &&& r matches Ok(AuthState::Continue(m2)) && m2@ == ms@
                    &&& post.session_live(sid)
                    &&& !post.session_terminal(sid)
                    &&& post.session_mechs(sid) == ms@
                },
                None => {
                    &&& r matches Ok(AuthState::Denied(msg)) && msg@ == generic_denied_reason()
                    &&& post.session_terminal(sid)
                    &&& !post.session_live(sid)
                },
            }
        })
    }

    /// What one `Creds` step does to the store: an unknown or terminal
    /// session is rejected unchanged; a live one ends in success or
    /// denial, or stays live awaiting further factors, exactly as the
    /// delegated verifier decided.
    pub open spec fn creds_transition(
        pre: SessionStore,
        post: SessionStore,
        sid: u128,
        decision: CredDecision,
        r: Result<AuthState, OperationError>,
    ) -> bool {
        &&& ((!pre.has_session(sid) || pre.session_terminal(sid)) ==> r == Err::<
            AuthState,
            OperationError,
        >(OperationError::InvalidSessionState) && post == pre)
        &&& (pre.session_live(sid) && !pre.session_terminal(sid) ==> {
            &&& post.has_session(sid)
            &&& Self::others_unchanged(pre, post, sid)
            &&& match decision {
                CredDecision::Grant(tok) => {
                    &&& r == Ok::<AuthState, OperationError>(AuthState::Success(tok))
                    &&& post.session_terminal(sid)
                    &&& !post.session_live(sid)
                },
                CredDecision::Reject => {
                    &&& r matches Ok(AuthState::Denied(msg)) && msg@ == generic_denied_reason()
                    &&& post.session_terminal(sid)
                    &&& !post.session_live(sid)
                },
                CredDecision::Require(ms) => {
                    &&& r matches Ok(AuthState::Continue(m2)) && m2@ == ms@
                    &&& post.session_live(sid)
                    &&& !post.session_terminal(sid)
                    &&& post.session_mechs(sid) == ms@
                },
            }
        })
    }

    fn find_index(&self, sid: u128) -> (r: Option<usize>)
        ensures
            match r {
                Some(i) => i < self.sessions@.len() && self.sessions@[i as int].sid == sid,
                None => !self.has_session(sid),
            },
    {
        let mut i: usize = 0;
        while i < self.sessions.len()
            invariant
                i <= self.sessions@.len(),
                forall|j: int| 0 <= j < i ==> (#[trigger] self.sessions@[j].sid) != sid,
            decreases self.sessions@.len() - i,
        {
            if self.sessions[i].sid == sid {
                return Some(i);
            }
            i = i + 1;
        }
        None
    }

    /// Runs one `Init` step under a caller-chosen session identifier.
    pub fn begin_with(&mut self, sid: u128, offered: Option<Vec<AuthAllowed>>) -> (r: Result<
        AuthState,
        OperationError,
    >)
        requires
            old(self).wf(),
        ensures
            final(self).wf(),
            Self::init_transition(*old(self), *final(self), sid, offered, r),
    {
        match self.find_index(sid) {
            Some(_) => {
                proof {
                    assert(self.has_session(sid));
                }
                Err(OperationError::InvalidSessionState)
            },
            None => {
                let ghost pre = *self;
                let res: Result<AuthState, OperationError>;
                match offered {
                    Some(ms) => {
                        let stored = clone_mechs(&ms);
                        self.sessions.push(
                            SessionEntry { sid, slot: SessionSlot::InProgress(stored) },
                        );
                        res = Ok(AuthState::Continue(ms));
                    },
                    None => {
                        self.sessions.push(SessionEntry { sid, slot: SessionSlot::Terminal });
                        res = Ok(AuthState::Denied(denied_reason()));
                    },
                }
                proof {
                    let n = pre.sessions@.len();
                    assert(self.sessions@[n as int].sid == sid);
                    assert forall|j: int| 0 <= j < n implies (#[trigger] pre.sessions@[j].sid)
                        != sid by {}
                    assert(self.wf());
                    assert(self.has_session(sid));
                    lemma_store_extended(pre, *self, sid);
                    if self.sessions@[n as int].slot matches SessionSlot::InProgress(_) {
                        assert(self.session_live(sid));
                        assert(!self.session_terminal(sid));
                        lemma_unique_slot(*self, sid, n as int);
                    } else {
                        assert(self.session_terminal(sid));
                        assert(!self.session_live(sid));
                    }
                }
                res
            },
        }
    }

    /// Runs one `Init` step under a freshly generated random session
    /// identifier, and returns that identifier with the resulting state.
    pub fn begin(&mut self, offered: Option<Vec<AuthAllowed>>) -> (r: (
        u128,
        Result<AuthState, OperationError>,
    ))
        requires
            old(self).wf(),
        ensures
            final(self).wf(),
            Self::init_transition(*old(self), *final(self), r.0, offered, r.1),
    {
        let sid = fresh_session_id();
        let res = self.begin_with(sid, offered);
        (sid, res)
    }

    /// Runs one `Creds` step: enforces that the session is live, applies
    /// the delegated verifier's decision, and shapes the response. A
    /// denial carries only the generic reason.
    pub fn step_creds(&mut self, sid: u128, decision: CredDecision) -> (r: Result<
        AuthState,
        OperationError,
    >)
        requires
            old(self).wf(),
        ensures
            final(self).wf(),
            Self::creds_transition(*old(self), *final(self), sid, decision, r),
    {
        let idx = self.find_index(sid);
        match idx {
            None => Err(OperationError::InvalidSessionState),
            Some(i) => {
                let ghost pre = *self;
                let live = match &self.sessions[i].slot {
                    SessionSlot::InProgress(_) => true,
                    SessionSlot::Terminal => false,
                };
                if !live {
                    proof {
                        assert(self.session_terminal(sid));
                    }
                    return Err(OperationError::InvalidSessionState);
                }
                proof {
                    assert(self.session_live(sid));
                    lemma_unique_slot(*self, sid, i as int);
                    assert(!self.session_terminal(sid));
                }
                let res: Result<AuthState, OperationError>;
                match decision {
                    CredDecision::Grant(tok) => {
                        self.sessions[i] = SessionEntry { sid, slot: SessionSlot::Terminal };
                        res = Ok(AuthState::Success(tok));
                    },
                    CredDecision::Reject => {
                        self.sessions[i] = SessionEntry { sid, slot: SessionSlot::Terminal };
                        res = Ok(AuthState::Denied(denied_reason()));
                    },
                    CredDecision::Require(ms) => {
                        let stored = clone_mechs(&ms);
                        self.sessions[i] = SessionEntry {
                            sid,
                            slot: SessionSlot::InProgress(stored),
                        };
                        res = Ok(AuthState::Continue(ms));
                    },
                }
                proof {
                    assert(self.sessions@ =~= pre.sessions@.update(
                        i as int,
                        self.sessions@[i as int],
                    ));
                    assert(self.wf());
                    assert(self.sessions@[i as int].sid == sid);
                    assert(self.has_session(sid));
                    lemma_store_updated(pre, *self, sid, i as int);
                    if self.sessions@[i as int].slot matches SessionSlot::InProgress(_) {
                        assert(self.session_live(sid));
                        lemma_unique_slot(*self, sid, i as int);
                        assert(!self.session_terminal(sid));
                    } else {
                        assert(self.session_terminal(sid));
                        lemma_unique_slot(*self, sid, i as int);
                        assert(!self.session_live(sid));
                    }
                }
                res
            },
        }
    }
}

impl SessionStore {
    /// Expires an unresolved negotiation after its inactivity window: a
    /// live session transitions to an implicit denial (terminal), so it
    /// is never retrievable indefinitely; an unknown or already terminal
    /// session reports the invalid-session error and nothing changes.
    pub fn expire_session(&mut self, sid: u128) -> (r: Result<(), OperationError>)
        requires
            old(self).wf(),
        ensures
            final(self).wf(),
            (!old(self).has_session(sid) || old(self).session_terminal(sid)) ==> r == Err::<
                (),
                OperationError,
            >(OperationError::InvalidSessionState) && *final(self) == *old(self),
            (old(self).session_live(sid) && !old(self).session_terminal(sid)) ==> (r == Ok::<
                (),
                OperationError,
            >(()) && final(self).session_terminal(sid) && !final(self).session_live(sid)
                && Self::others_unchanged(*old(self), *final(self), sid)),
    {
        let idx = self.find_index(sid);
        match idx {
            None => Err(OperationError::InvalidSessionState),
            Some(i) => {
                let ghost pre = *self;
                let live = match &self.sessions[i].slot {
                    SessionSlot::InProgress(_) => true,
                    SessionSlot::Terminal => false,
                };
                if !live {
                    proof {
                        assert(self.session_terminal(sid));
                    }
                    return Err(OperationError::InvalidSessionState);
                }
                proof {
                    assert(self.session_live(sid));
                    lemma_unique_slot(*self, sid, i as int);
                    assert(!self.session_terminal(sid));
                }
                self.sessions[i] = SessionEntry { sid, slot: SessionSlot::Terminal };
                proof {
                    assert(self.sessions@ =~= pre.sessions@.update(
                        i as int,
                        self.sessions@[i as int],
                    ));
                    assert(self.wf());
                    assert(self.sessions@[i as int].sid == sid);
                    assert(self.sessions@[i as int].slot matches SessionSlot::Terminal);
                    assert(self.session_terminal(sid));
                    lemma_unique_slot(*self, sid, i as int);
                    assert(!self.session_live(sid));
                    lemma_store_updated(pre, *self, sid, i as int);
                }
                Ok(())
            },
        }
    }
}

/// In a well-formed store the record at a known index for `sid` is the
/// only one, so the liveness and terminality of `sid` are decided by
/// that record, and `session_mechs` reads it.
proof fn lemma_unique_slot(s: SessionStore, sid: u128, i: int)
    requires
        s.wf(),
        0 <= i < s.sessions@.len(),
        s.sessions@[i].sid == sid,
    ensures
        s.session_live(sid) <==> s.sessions@[i].slot matches SessionSlot::InProgress(_),
        s.session_terminal(sid) <==> s.sessions@[i].slot matches SessionSlot::Terminal,
        s.sessions@[i].slot matches SessionSlot::InProgress(ms) ==> s.session_mechs(sid) == ms@,
{
    assert forall|j: int|
        0 <= j < s.sessions@.len() && (#[trigger] s.sessions@[j].sid) == sid implies j == i by {}
}

/// A helper for `others_unchanged`: if every record of `pre` is kept at
/// its index in `post` and every added or changed record carries `sid`,
/// then no session other than `sid` changes.
proof fn lemma_others_unchanged(pre: SessionStore, post: SessionStore, sid: u128)
    requires
        pre.wf(),
        post.wf(),
        pre.sessions@.len() <= post.sessions@.len(),
        forall|j: int|
            0 <= j < pre.sessions@.len() && (#[trigger] pre.sessions@[j].sid) != sid
                ==> post.sessions@[j] == pre.sessions@[j],
        forall|j: int|
            0 <= j < post.sessions@.len() && (#[trigger] post.sessions@[j].sid) != sid
                ==> j < pre.sessions@.len() && post.sessions@[j] == pre.sessions@[j],
    ensures
        SessionStore::others_unchanged(pre, post, sid),
{
    let n = pre.sessions@.len() as int;
    assert forall|s2: u128| s2 != sid implies ((#[trigger] post.has_session(s2))
        == pre.has_session(s2) && post.session_terminal(s2) == pre.session_terminal(s2)
        && post.session_live(s2) == pre.session_live(s2) && (pre.session_live(s2)
        ==> post.session_mechs(s2) == pre.session_mechs(s2))) by {
        if pre.has_session(s2) {
            let j = choose|j: int| 0 <= j < n && (#[trigger] pre.sessions@[j].sid) == s2;
            assert(post.sessions@[j] == pre.sessions@[j]);
            assert(post.has_session(s2));
        }
        if post.has_session(s2) {
            let j = choose|j: int|
                0 <= j < post.sessions@.len() && (#[trigger] post.sessions@[j].sid) == s2;
            assert(pre.sessions@[j] == post.sessions@[j]);
            assert(pre.has_session(s2));
        }
        if pre.session_terminal(s2) {
            let j = choose|j: int|
                0 <= j < n && (#[trigger] pre.sessions@[j].sid) == s2
                    && pre.sessions@[j].slot matches SessionSlot::Terminal;
            assert(post.sessions@[j] == pre.sessions@[j]);
            assert(post.session_terminal(s2));
        }
        if post.session_terminal(s2) {
            let j = choose|j: int|
                0 <= j < post.sessions@.len() && (#[trigger] post.sessions@[j].sid) == s2
                    && post.sessions@[j].slot matches SessionSlot::Terminal;
            assert(pre.sessions@[j] == post.sessions@[j]);
            assert(pre.session_terminal(s2));
        }
        if pre.session_live(s2) {
            let j = choose|j: int|
                0 <= j < n && (#[trigger] pre.sessions@[j].sid) == s2
                    && pre.sessions@[j].slot matches SessionSlot::InProgress(_);
            assert(post.sessions@[j] == pre.sessions@[j]);
            assert(post.session_live(s2));
            lemma_unique_slot(pre, s2, j);
            lemma_unique_slot(post, s2, j);
        }
        if post.session_live(s2) {
            let j = choose|j: int|
                0 <= j < post.sessions@.len() && (#[trigger] post.sessions@[j].sid) == s2
                    && post.sessions@[j].slot matches SessionSlot::InProgress(_);
            assert(pre.sessions@[j] == post.sessions@[j]);
            assert(pre.session_live(s2));
        }
    }
}

/// Pushing a record for a fresh identifier leaves every other session
/// exactly as it was.
proof fn lemma_store_extended(pre: SessionStore, post: SessionStore, sid: u128)
    requires
        pre.wf(),
        post.wf(),
        post.sessions@ == pre.sessions@.push(post.sessions@[post.sessions@.len() - 1]),
        post.sessions@[post.sessions@.len() - 1].sid == sid,
    ensures
        SessionStore::others_unchanged(pre, post, sid),
{
    lemma_others_unchanged(pre, post, sid);
}

/// Updating the record of `sid` in place leaves every other session
/// exactly as it was.
proof fn lemma_store_updated(pre: SessionStore, post: SessionStore, sid: u128, i: int)
    requires
        pre.wf(),
        post.wf(),
        0 <= i < pre.sessions@.len(),
        pre.sessions@[i].sid == sid,
        post.sessions@ == pre.sessions@.update(i, post.sessions@[i]),
        post.sessions@[i].sid == sid,
    ensures
        SessionStore::others_unchanged(pre, post, sid),
{
    lemma_others_unchanged(pre, post, sid);
}

/// Copies a mechanism list, element by element.
fn clone_mechs(v: &Vec<AuthAllowed>) -> (r: Vec<AuthAllowed>)
    ensures
        r@ == v@,
{
    let mut out: Vec<AuthAllowed> = Vec::new();
    let mut i: usize = 0;
    while i < v.len()
        invariant
            i <= v@.len(),
            out@.len() == i,
            forall|j: int| 0 <= j < i ==> out@[j] == v@[j],
        decreases v@.len() - i,
    {
        let m = match &v[i] {
            AuthAllowed::Anonymous => AuthAllowed::Anonymous,
            AuthAllowed::Password => AuthAllowed::Password,
        };
        out.push(m);
        i = i + 1;
    }
    proof {
        assert(out@ =~= v@);
    }
    out
}

/// Relies on uuid::Uuid::new_v4, a freshly generated random version-4
/// UUID, read out with Uuid::as_u128. Randomness promises nothing of the
/// value, so nothing is stated of the result; collisions are handled by
/// the caller.
#[verifier::external_body]
fn fresh_session_id() -> u128 {
    uuid::Uuid::new_v4().as_u128()
}

/// From `Init`, only `Continue` or `Denied` is reachable: an `Init` step
/// never issues a token.
pub proof fn lemma_init_never_success(
    pre: SessionStore,
    post: SessionStore,
    sid: u128,
    offered: Option<Vec<AuthAllowed>>,
    r: Result<AuthState, OperationError>,
)
    requires
        SessionStore::init_transition(pre, post, sid, offered, r),
    ensures
        !(r matches Ok(AuthState::Success(_))),
{
}

/// Terminal states are final: once a session has succeeded or been
/// denied, any further step on its identifier is rejected with the
/// invalid-session error, and nothing about the store changes.
pub proof fn lemma_terminal_rejected(
    pre: SessionStore,
    post: SessionStore,
    sid: u128,
    decision: CredDecision,
    r: Result<AuthState, OperationError>,
)
    requires
        pre.session_terminal(sid),
        SessionStore::creds_transition(pre, post, sid, decision, r),
    ensures
        r == Err::<AuthState, OperationError>(OperationError::InvalidSessionState),
        post == pre,
{
}

/// Two `Creds` submissions on the same session identifier never both
/// produce `Success`: whichever lands second finds the session terminal
/// and is rejected.
pub proof fn lemma_no_double_success(
    s0: SessionStore,
    s1: SessionStore,
    s2: SessionStore,
    sid: u128,
    d1: CredDecision,
    d2: CredDecision,
    r1: Result<AuthState, OperationError>,
    r2: Result<AuthState, OperationError>,
)
    requires
        SessionStore::creds_transition(s0, s1, sid, d1, r1),
        SessionStore::creds_transition(s1, s2, sid, d2, r2),
        r1 matches Ok(AuthState::Success(_)),
    ensures
        r2 == Err::<AuthState, OperationError>(OperationError::InvalidSessionState),
        !(r2 matches Ok(AuthState::Success(_))),
{
    if !s0.has_session(sid) || s0.session_terminal(sid) {
        assert(r1 == Err::<AuthState, OperationError>(OperationError::InvalidSessionState));
    }
    assert(s1.session_terminal(sid));
}

} // verus!
