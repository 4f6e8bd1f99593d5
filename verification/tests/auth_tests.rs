use kanidm_proto::auth::{
    creds_allowed, denied_reason, AuthAllowed, AuthCredential, AuthRequest, AuthState, AuthStep,
    CredDecision, SessionStore,
};
use kanidm_proto::errors::OperationError;
use kanidm_proto::types::UserAuthToken;

fn alice_token() -> UserAuthToken {
    UserAuthToken {
        name: "alice".to_string(),
        displayname: "Alice".to_string(),
        uuid: "cc8e95b4-c24f-4d68-ba54-8bed76f63930".to_string(),
        application: None,
        groups: vec![],
        claims: vec![],
    }
}

#[test]
fn test_scenario_anonymous_success() {
    // Init("alice", None) where alice requires only anonymous access.
    let mut store = SessionStore::new();
    let sid: u128 = 7;
    let state = store
        .begin_with(sid, Some(vec![AuthAllowed::Anonymous]))
        .expect("fresh session");
    assert_eq!(state, AuthState::Continue(vec![AuthAllowed::Anonymous]));

    // The client answers with the anonymous credential; the verifier
    // (played here) grants, and the negotiation succeeds.
    let creds = vec![AuthCredential::Anonymous];
    assert!(creds_allowed(&creds, &vec![AuthAllowed::Anonymous]));
    let state = store
        .step_creds(sid, CredDecision::Grant(alice_token()))
        .expect("live session");
    match state {
        AuthState::Success(token) => assert_eq!(token.name, "alice"),
        other => panic!("expected success, got {:?}", other),
    }
}

#[test]
fn test_scenario_unknown_principal_denied() {
    // Init("bob", None) where bob is unknown: denied at once with the
    // generic reason, and the session never advances further.
    let mut store = SessionStore::new();
    let sid: u128 = 9;
    let state = store.begin_with(sid, None).expect("fresh session");
    assert_eq!(state, AuthState::Denied(denied_reason()));

    let after = store.step_creds(sid, CredDecision::Grant(alice_token()));
    assert_eq!(after, Err(OperationError::InvalidSessionState));
}

#[test]
fn test_terminal_sessions_reject_further_steps() {
    let mut store = SessionStore::new();
    let sid: u128 = 11;
    store
        .begin_with(sid, Some(vec![AuthAllowed::Password]))
        .expect("fresh session");
    let state = store
        .step_creds(sid, CredDecision::Reject)
        .expect("live session");
    assert_eq!(state, AuthState::Denied(denied_reason()));
    // Terminal is final: any further step is an invalid-session error.
    assert_eq!(
        store.step_creds(sid, CredDecision::Reject),
        Err(OperationError::InvalidSessionState)
    );
}

#[test]
fn test_no_double_success() {
    // Two Creds submissions on the same identifier never both succeed:
    // the store serializes them, and the second finds a terminal session.
    let mut store = SessionStore::new();
    let sid: u128 = 13;
    store
        .begin_with(sid, Some(vec![AuthAllowed::Anonymous]))
        .expect("fresh session");
    let first = store.step_creds(sid, CredDecision::Grant(alice_token()));
    assert!(matches!(first, Ok(AuthState::Success(_))));
    let second = store.step_creds(sid, CredDecision::Grant(alice_token()));
    assert_eq!(second, Err(OperationError::InvalidSessionState));
}

#[test]
fn test_multi_factor_continue() {
    let mut store = SessionStore::new();
    let sid: u128 = 17;
    store
        .begin_with(sid, Some(vec![AuthAllowed::Anonymous, AuthAllowed::Password]))
        .expect("fresh session");
    let state = store
        .step_creds(sid, CredDecision::Require(vec![AuthAllowed::Password]))
        .expect("live session");
    assert_eq!(state, AuthState::Continue(vec![AuthAllowed::Password]));
    // Still live: a grant can follow.
    let state = store
        .step_creds(sid, CredDecision::Grant(alice_token()))
        .expect("live session");
    assert!(matches!(state, AuthState::Success(_)));
}

#[test]
fn test_session_id_collision_rejected() {
    let mut store = SessionStore::new();
    let sid: u128 = 21;
    store
        .begin_with(sid, Some(vec![AuthAllowed::Anonymous]))
        .expect("fresh session");
    assert_eq!(
        store.begin_with(sid, Some(vec![AuthAllowed::Anonymous])),
        Err(OperationError::InvalidSessionState)
    );
}

#[test]
fn test_unknown_session_rejected() {
    let mut store = SessionStore::new();
    assert_eq!(
        store.step_creds(99, CredDecision::Reject),
        Err(OperationError::InvalidSessionState)
    );
}

#[test]
fn test_creds_allowed_checks_mechanisms() {
    let anon = vec![AuthCredential::Anonymous];
    let pw = vec![AuthCredential::Password("hunter2".to_string())];
    let both = vec![
        AuthCredential::Anonymous,
        AuthCredential::Password("hunter2".to_string()),
    ];
    assert!(creds_allowed(&anon, &vec![AuthAllowed::Anonymous]));
    assert!(!creds_allowed(&pw, &vec![AuthAllowed::Anonymous]));
    assert!(creds_allowed(&pw, &vec![AuthAllowed::Password]));
    assert!(creds_allowed(
        &both,
        &vec![AuthAllowed::Anonymous, AuthAllowed::Password]
    ));
    assert!(!creds_allowed(&both, &vec![AuthAllowed::Password]));
    assert!(creds_allowed(&vec![], &vec![]));
}

#[test]
fn test_begin_generates_session_id() {
    let mut store = SessionStore::new();
    let (sid, state) = store.begin(Some(vec![AuthAllowed::Anonymous]));
    assert_eq!(
        state.expect("fresh random session"),
        AuthState::Continue(vec![AuthAllowed::Anonymous])
    );
    // The identifier is live in the store.
    assert_eq!(
        store.begin_with(sid, None),
        Err(OperationError::InvalidSessionState)
    );
}

#[test]
fn test_expiry_is_implicit_denial() {
    let mut store = SessionStore::new();
    let sid: u128 = 23;
    store
        .begin_with(sid, Some(vec![AuthAllowed::Password]))
        .expect("fresh session");
    store.expire_session(sid).expect("live session expires");
    // The expired session behaves exactly like a denied one.
    assert_eq!(
        store.step_creds(sid, CredDecision::Grant(alice_token())),
        Err(OperationError::InvalidSessionState)
    );
    assert_eq!(
        store.expire_session(sid),
        Err(OperationError::InvalidSessionState)
    );
}

#[test]
fn test_auth_step_envelope() {
    let init = AuthRequest {
        step: AuthStep::Init("alice".to_string(), None),
    };
    match init.step {
        AuthStep::Init(name, app) => {
            assert_eq!(name, "alice");
            assert_eq!(app, None);
        },
        other => panic!("expected an init step, got {:?}", other),
    }
    let creds = AuthRequest {
        step: AuthStep::Creds(vec![AuthCredential::Anonymous]),
    };
    assert!(matches!(creds.step, AuthStep::Creds(ref cs) if cs.len() == 1));
}
