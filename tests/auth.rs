use filen_cli::auth::{
    delete_credentials_from, explicit_credentials, first_strategy, load_stored_session_from,
    keep_session_if, next_step, save_session_to, AuthError, AuthStep, Strategy, StrategyError,
};
use filen_cli::store::{LongKeyringEntry, MemoryKeyring, SecretBackend, CHUNK_SIZE};

/// Runs the sign-in steps with fixed outcomes and records the strategies run.
fn run(outcomes: &dyn Fn(Strategy) -> Result<(), StrategyError>) -> (Vec<Strategy>, AuthStep) {
    let mut tried = Vec::new();
    let mut s = first_strategy();
    loop {
        tried.push(s);
        match next_step(s, outcomes(s)) {
            AuthStep::Attempt(n) => s = n,
            done => return (tried, done),
        }
    }
}

#[test]
fn explicit_success_stops_at_first_strategy() {
    let (tried, end) = run(&|s| match s {
        Strategy::Explicit => Ok(()),
        _ => panic!("no other strategy may run"),
    });
    assert_eq!(tried, vec![Strategy::Explicit]);
    assert_eq!(end, AuthStep::Authenticated(Strategy::Explicit));
}

#[test]
fn corrupted_session_falls_back_to_prompt_once() {
    let (tried, end) = run(&|s| match s {
        Strategy::Explicit => Err(StrategyError::MissingCredentials),
        Strategy::Stored => Err(StrategyError::StoredSessionInvalid("bad".to_string())),
        Strategy::Interactive => Ok(()),
    });
    assert_eq!(tried, vec![Strategy::Explicit, Strategy::Stored, Strategy::Interactive]);
    assert_eq!(end, AuthStep::Authenticated(Strategy::Interactive));
}

#[test]
fn prompt_failure_is_fatal() {
    let rejected = StrategyError::LoginRejected("wrong password".to_string());
    let r2 = rejected.clone();
    let (tried, end) = run(&move |s| match s {
        Strategy::Interactive => Err(r2.clone()),
        _ => Err(StrategyError::MissingCredentials),
    });
    assert_eq!(tried.len(), 3);
    assert_eq!(end, AuthStep::Failed(AuthError::AllStrategiesFailed(rejected)));
}

#[test]
fn stored_success_skips_prompt() {
    assert_eq!(
        next_step(Strategy::Explicit, Err(StrategyError::LoginRejected("no".to_string()))),
        AuthStep::Attempt(Strategy::Stored)
    );
    assert_eq!(next_step(Strategy::Stored, Ok(())), AuthStep::Authenticated(Strategy::Stored));
}

#[test]
fn explicit_credentials_need_both() {
    let e = Some("a@b.c".to_string());
    let p = Some("pw".to_string());
    assert_eq!(
        explicit_credentials(&e, &p),
        Ok(("a@b.c".to_string(), "pw".to_string()))
    );
    assert_eq!(explicit_credentials(&e, &None), Err(StrategyError::MissingCredentials));
    assert_eq!(explicit_credentials(&None, &p), Err(StrategyError::MissingCredentials));
    assert_eq!(explicit_credentials(&None, &None), Err(StrategyError::MissingCredentials));
}

#[test]
fn saved_session_loads_back() {
    let mut backend = SecretBackend::Memory(MemoryKeyring::new());
    let json = "{\"email\":\"a@b.c\",\"apiKey\":\"k\"}";
    assert!(save_session_to(&mut backend, json).is_ok());
    let stored = LongKeyringEntry::new("sdk-config").read_from(&backend);
    match stored {
        Ok(text) => assert_eq!(text, "eyJlbWFpbCI6ImFAYi5jIiwiYXBpS2V5IjoiayJ9"),
        Err(_) => panic!("read failed"),
    }
    assert_eq!(load_stored_session_from(&backend), Ok(json.as_bytes().to_vec()));
}

#[test]
fn long_session_loads_back() {
    let mut backend = SecretBackend::Memory(MemoryKeyring::new());
    let json: String = std::iter::repeat('x').take(3 * CHUNK_SIZE).collect();
    assert!(save_session_to(&mut backend, &json).is_ok());
    assert_eq!(load_stored_session_from(&backend), Ok(json.into_bytes()));
}

#[test]
fn corrupted_session_is_invalid() {
    let mut m = MemoryKeyring::new();
    m.set("sdk-config_0", "not base64 !!");
    let backend = SecretBackend::Memory(m);
    assert!(matches!(
        load_stored_session_from(&backend),
        Err(StrategyError::StoredSessionInvalid(_))
    ));
}

#[test]
fn missing_session_is_empty() {
    let backend = SecretBackend::Memory(MemoryKeyring::new());
    assert_eq!(load_stored_session_from(&backend), Ok(Vec::new()));
}

#[test]
fn delete_credentials_is_idempotent() {
    let mut backend = SecretBackend::Memory(MemoryKeyring::new());
    assert!(delete_credentials_from(&mut backend).is_ok());
    assert!(save_session_to(&mut backend, "{}").is_ok());
    assert!(delete_credentials_from(&mut backend).is_ok());
    assert!(delete_credentials_from(&mut backend).is_ok());
    assert_eq!(load_stored_session_from(&backend), Ok(Vec::new()));
}

#[test]
fn unconfirmed_session_is_not_kept() {
    assert_eq!(keep_session_if(false, "{}"), Ok(false));
}
