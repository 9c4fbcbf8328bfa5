//! Which way of signing in wins, and how a signed-in session is kept in and
//! taken back from the keyring.
use base64::Engine;
use vstd::prelude::*;
use vstd::string::StringSliceAdditionalSpecFns;

use crate::store::{
    chunk_key, chunk_total, deleted, holds_chunks, lemma_ascii_splits_cleanly, read_outcome,
    reads_as, removal_outcome, without_chunks, write_outcome, written, Lookup, LongKeyringEntry,
    Removal, SecretBackend, StoreError,
};

verus! {

/// Logical name of the secret that holds the serialized session.
pub const KEYRING_SDK_CONFIG_NAME: &'static str = "sdk-config";

/// The ways of obtaining a session, in the order they are tried.
#[derive(PartialEq, Eq, Structural, Clone, Copy, Debug)]
pub enum Strategy {
    /// Email and password given on the command line.
    Explicit,
    /// A session kept in the keyring by an earlier sign-in.
    Stored,
    /// Email and password typed in at a prompt.
    Interactive,
}

/// Why one strategy produced no session.
#[derive(PartialEq, Eq, Debug, Clone)]
pub enum StrategyError {
    /// Email or password was not supplied.
    MissingCredentials,
    /// The account service declined the credentials.
    LoginRejected(String),
    /// The kept session could not be decoded or rebuilt.
    StoredSessionInvalid(String),
    /// The keyring failed with something other than "no such entry".
    StorageBackend(String),
    /// The terminal failed while prompting.
    Prompt(String),
}

/// Failure of the whole sign-in: every strategy failed; the error of the last
/// one is kept.
#[derive(PartialEq, Eq, Debug, Clone)]
pub enum AuthError {
    AllStrategiesFailed(StrategyError),
}

/// What the sign-in does after a strategy has run.
#[derive(PartialEq, Eq, Debug, Clone)]
pub enum AuthStep {
    /// Run this strategy next.
    Attempt(Strategy),
    /// The session of this strategy is the result.
    Authenticated(Strategy),
    /// Stop with this error.
    Failed(AuthError),
}

/// The strategy that follows `s` in order of precedence, if any.
pub open spec fn following(s: Strategy) -> Option<Strategy> {
    match s {
        Strategy::Explicit => Some(Strategy::Stored),
        Strategy::Stored => Some(Strategy::Interactive),
        Strategy::Interactive => None,
    }
}

/// The step after strategy `tried` ended with `outcome`: the first success
/// wins; a failure falls through to the next strategy, and only the last
/// strategy's failure is fatal.
pub open spec fn step_after(tried: Strategy, outcome: Result<(), StrategyError>) -> AuthStep {
    match outcome {
        Ok(()) => AuthStep::Authenticated(tried),
        Err(e) => match following(tried) {
            Some(n) => AuthStep::Attempt(n),
            None => AuthStep::Failed(AuthError::AllStrategiesFailed(e)),
        },
    }
}

/// The strategies run, in order, and the final step, when strategy `s` is
/// tried next and each strategy `t` ends with `outcome(t)`.
pub open spec fn run_from(
    s: Strategy,
    outcome: spec_fn(Strategy) -> Result<(), StrategyError>,
    fuel: nat,
) -> (Seq<Strategy>, AuthStep)
    decreases fuel,
{
    let step = step_after(s, outcome(s));
    match step {
        AuthStep::Attempt(n) => if fuel == 0 {
            (seq![s], step)
        } else {
            let rest = run_from(n, outcome, (fuel - 1) as nat);
            (seq![s] + rest.0, rest.1)
        },
        _ => (seq![s], step),
    }
}

/// A whole sign-in: strategies tried from the first one on.
pub open spec fn sign_in_run(outcome: spec_fn(Strategy) -> Result<(), StrategyError>) -> (
    Seq<Strategy>,
    AuthStep,
) {
    run_from(Strategy::Explicit, outcome, 3)
}

/// The strategy that is tried first.
pub fn first_strategy() -> (r: Strategy)
    ensures
        r == Strategy::Explicit,
{
    Strategy::Explicit
}

/// Decides what follows once strategy `tried` has ended with `outcome`.
pub fn next_step(tried: Strategy, outcome: Result<(), StrategyError>) -> (r: AuthStep)
    ensures
        r == step_after(tried, outcome),
{
    match outcome {
        Ok(()) => AuthStep::Authenticated(tried),
        Err(e) => match tried {
            Strategy::Explicit => AuthStep::Attempt(Strategy::Stored),
            Strategy::Stored => AuthStep::Attempt(Strategy::Interactive),
            Strategy::Interactive => AuthStep::Failed(AuthError::AllStrategiesFailed(e)),
        },
    }
}

/// When explicit credentials lead to a session, no other strategy is run.
pub proof fn lemma_explicit_success_stops(outcome: spec_fn(Strategy) -> Result<(), StrategyError>)
    requires
        outcome(Strategy::Explicit) is Ok,
    ensures
        sign_in_run(outcome).0 == seq![Strategy::Explicit],
        sign_in_run(outcome).1 == AuthStep::Authenticated(Strategy::Explicit),
{
}

/// When the explicit and the stored strategies fail, the interactive one runs
/// exactly once, and its outcome decides the sign-in.
pub proof fn lemma_fallback_to_prompt(outcome: spec_fn(Strategy) -> Result<(), StrategyError>)
    requires
        outcome(Strategy::Explicit) is Err,
        outcome(Strategy::Stored) is Err,
    ensures
        sign_in_run(outcome).0 == seq![Strategy::Explicit, Strategy::Stored, Strategy::Interactive],
        sign_in_run(outcome).1 == match outcome(Strategy::Interactive) {
            Ok(()) => AuthStep::Authenticated(Strategy::Interactive),
            Err(e) => AuthStep::Failed(AuthError::AllStrategiesFailed(e)),
        },
{
    let r2 = run_from(Strategy::Interactive, outcome, 1);
    let r1 = run_from(Strategy::Stored, outcome, 2);
    assert(r1.0 =~= seq![Strategy::Stored] + r2.0);
    assert(sign_in_run(outcome).0 =~= seq![Strategy::Explicit] + r1.0);
    assert(seq![Strategy::Explicit] + (seq![Strategy::Stored] + seq![Strategy::Interactive])
        =~= seq![Strategy::Explicit, Strategy::Stored, Strategy::Interactive]);
}

/// Email and password of the explicit strategy: both must be present.
pub fn explicit_credentials(email: &Option<String>, password: &Option<String>) -> (r: Result<
    (String, String),
    StrategyError,
>)
    ensures
        r is Ok <==> email is Some && password is Some,
        r is Ok ==> r->Ok_0.0@ == email->0@ && r->Ok_0.1@ == password->0@,
        r is Err ==> r->Err_0 == StrategyError::MissingCredentials,
{
    match (email, password) {
        (Some(e), Some(p)) => Ok((e.clone(), p.clone())),
        _ => Err(StrategyError::MissingCredentials),
    }
}

/// What the base64 decoding of `text` gives, if it is valid base64.
pub uninterp spec fn base64_decoded(text: Seq<char>) -> Option<Seq<u8>>;

/// The base64 encoding of `data`.
pub uninterp spec fn base64_encoded(data: Seq<u8>) -> Seq<char>;

/// Relies on base64's standard engine `decode`: the bytes that `text`
/// encodes, or an error when it is no valid padded base64.
#[verifier::external_body]
fn decode_base64(text: &str) -> (r: Option<Vec<u8>>)
    ensures
        r is Some <==> base64_decoded(text@) is Some,
        r is Some ==> r->0@ == base64_decoded(text@)->0,
{
    base64::engine::general_purpose::STANDARD.decode(text).ok()
}

/// Relies on base64's standard engine `encode`: the padded base64 text of
/// `data`, four characters for each started group of three bytes
/// (`encoded_len`). It panics when that length overflows a `usize`.
#[verifier::external_body]
fn encode_base64(data: &[u8]) -> (r: String)
    requires
        data@.len() <= usize::MAX / 2,
    ensures
        r@ == base64_encoded(data@),
        r@.len() == 4 * ((data@.len() + 2) / 3),
        vstd::utf8::is_ascii_chars(r@),
        base64_decoded(r@) == Some(data@),
{
    base64::engine::general_purpose::STANDARD.encode(data)
}

/// `r` is the strategy error that the store failure `e` causes: a backend
/// failure keeps its message.
pub open spec fn storage_failure(e: StoreError, r: StrategyError) -> bool {
    match e {
        StoreError::Backend(m) => match r {
            StrategyError::StorageBackend(x) => x@ == m@,
            _ => false,
        },
        StoreError::TooManyChunks => r is StorageBackend,
    }
}

/// `r` is what loading the kept session gives once the read of the secret
/// gave `read`: the bytes that its text decodes to, an invalid session when
/// it is no base64, or the storage failure.
pub open spec fn session_from_read(
    read: Result<String, StoreError>,
    r: Result<Vec<u8>, StrategyError>,
) -> bool {
    match read {
        Ok(t) => match base64_decoded(t@) {
            Some(b) => r is Ok && r->Ok_0@ == b,
            None => r is Err && r->Err_0 is StoredSessionInvalid,
        },
        Err(e) => r is Err && storage_failure(e, r->Err_0),
    }
}

/// `r` is what saving the session gives once the write of the secret gave
/// `w`.
pub open spec fn session_from_write(w: Result<(), StoreError>, r: Result<(), StrategyError>) -> bool {
    match w {
        Ok(()) => r is Ok,
        Err(e) => r is Err && storage_failure(e, r->Err_0),
    }
}

/// Maps a failure of the chunked store to the strategy error it causes.
fn storage_error(e: StoreError) -> (r: StrategyError)
    ensures
        storage_failure(e, r),
{
    match e {
        StoreError::Backend(msg) => StrategyError::StorageBackend(msg),
        StoreError::TooManyChunks => StrategyError::StorageBackend(
            String::from_str("too many chunks"),
        ),
    }
}

/// Reads the kept session from `backend` and decodes it from base64: the
/// serialized session, ready to be rebuilt by the account client.
pub fn load_stored_session_from(backend: &SecretBackend) -> (r: Result<Vec<u8>, StrategyError>)
    ensures
        exists|answers: Seq<Lookup>, read: Result<String, StoreError>|
            read_outcome(answers, read) && session_from_read(read, r) && (backend.is_memory()
                ==> forall|i: int|
                0 <= i < answers.len() ==> backend.answers_get(
                    chunk_key(KEYRING_SDK_CONFIG_NAME@, i as nat),
                    #[trigger] answers[i],
                )),
        backend.is_memory() ==> match r {
            Ok(bytes) => exists|s: Seq<char>|
                reads_as(backend.contents(), KEYRING_SDK_CONFIG_NAME@, s) && base64_decoded(s)
                    == Some(bytes@),
            Err(StrategyError::StoredSessionInvalid(_)) => exists|s: Seq<char>|
                reads_as(backend.contents(), KEYRING_SDK_CONFIG_NAME@, s) && base64_decoded(
                    s,
                ) is None,
            Err(e) => e is StorageBackend,
        },
{
    let entry = LongKeyringEntry::new(KEYRING_SDK_CONFIG_NAME);
    let read = entry.read_from(backend);
    let ghost read_g = read;
    let r = match read {
        Ok(text) => match decode_base64(text.as_str()) {
            Some(bytes) => Ok(bytes),
            None => Err(StrategyError::StoredSessionInvalid(String::from_str("not valid base64"))),
        },
        Err(e) => Err(storage_error(e)),
    };
    proof {
        let answers = choose|answers: Seq<Lookup>|
            read_outcome(answers, read_g) && (backend.is_memory() ==> forall|i: int|
                0 <= i < answers.len() ==> backend.answers_get(
                    chunk_key(KEYRING_SDK_CONFIG_NAME@, i as nat),
                    #[trigger] answers[i],
                ));
        assert(session_from_read(read_g, r));
        assert(read_outcome(answers, read_g));
    }
    r
}

/// Reads the kept session from the system keyring.
pub fn load_stored_session() -> (r: Result<Vec<u8>, StrategyError>)
    ensures
        exists|answers: Seq<Lookup>, read: Result<String, StoreError>|
            read_outcome(answers, read) && session_from_read(read, r),
{
    load_stored_session_from(&SecretBackend::System)
}

/// Keeps a serialized session in `backend`, base64-encoded, replacing any
/// session kept before.
pub fn save_session_to(backend: &mut SecretBackend, serialized: &str) -> (r: Result<
    (),
    StrategyError,
>)
    requires
        serialized.spec_bytes().len() <= usize::MAX / 2,
    ensures
        old(backend).is_memory() <==> final(backend).is_memory(),
        base64_encoded(serialized.spec_bytes()).len() == 4 * ((serialized.spec_bytes().len() + 2)
            / 3),
        exists|sets: Seq<Result<(), String>>, removals: Seq<Removal>, w: Result<(), StoreError>|
            write_outcome(chunk_total(base64_encoded(serialized.spec_bytes())), sets, removals, w)
                && session_from_write(w, r) && (old(backend).is_memory() ==> (forall|i: int|
                0 <= i < sets.len() ==> old(backend).answers_set(
                    chunk_key(KEYRING_SDK_CONFIG_NAME@, i as nat),
                    #[trigger] sets[i],
                )) && (forall|q: int|
                0 <= q < removals.len() ==> old(backend).answers_remove(
                    chunk_key(
                        KEYRING_SDK_CONFIG_NAME@,
                        (chunk_total(base64_encoded(serialized.spec_bytes())) + q) as nat,
                    ),
                    #[trigger] removals[q],
                ))),
        old(backend).is_memory() ==> match r {
            Ok(()) => written(
                old(backend).contents(),
                final(backend).contents(),
                KEYRING_SDK_CONFIG_NAME@,
                base64_encoded(serialized.spec_bytes()),
            ),
            Err(e) => e is StorageBackend,
        },
{
    let text = encode_base64(serialized.as_bytes());
    proof {
        lemma_ascii_splits_cleanly(text@);
    }
    let entry = LongKeyringEntry::new(KEYRING_SDK_CONFIG_NAME);
    let w = entry.write_to(backend, text.as_str());
    let ghost w_g = w;
    let r = match w {
        Ok(()) => Ok(()),
        Err(e) => Err(storage_error(e)),
    };
    proof {
        let t = base64_encoded(serialized.spec_bytes());
        assert(text@ == t);
        let (sets, removals) = choose|sets: Seq<Result<(), String>>, removals: Seq<Removal>|
            write_outcome(chunk_total(t), sets, removals, w_g) && (old(backend).is_memory() ==> (
            forall|i: int|
                0 <= i < sets.len() ==> old(backend).answers_set(
                    chunk_key(KEYRING_SDK_CONFIG_NAME@, i as nat),
                    #[trigger] sets[i],
                )) && (forall|q: int|
                0 <= q < removals.len() ==> old(backend).answers_remove(
                    chunk_key(KEYRING_SDK_CONFIG_NAME@, (chunk_total(t) + q) as nat),
                    #[trigger] removals[q],
                )));
        assert(session_from_write(w_g, r));
        assert(write_outcome(chunk_total(t), sets, removals, w_g));
    }
    r
}

/// Keeps a serialized session in the system keyring.
pub fn save_session(serialized: &str) -> (r: Result<(), StrategyError>)
    requires
        serialized.spec_bytes().len() <= usize::MAX / 2,
    ensures
        exists|sets: Seq<Result<(), String>>, removals: Seq<Removal>, w: Result<(), StoreError>|
            write_outcome(chunk_total(base64_encoded(serialized.spec_bytes())), sets, removals, w)
                && session_from_write(w, r),
{
    let mut backend = SecretBackend::System;
    save_session_to(&mut backend, serialized)
}

/// Keeps the session in the system keyring when the user `confirmed` it:
/// `Ok(true)` once kept, `Ok(false)` without touching the keyring when not
/// confirmed.
pub fn keep_session_if(confirmed: bool, serialized: &str) -> (r: Result<bool, StrategyError>)
    requires
        serialized.spec_bytes().len() <= usize::MAX / 2,
    ensures
        !confirmed ==> r == Ok::<bool, StrategyError>(false),
        confirmed ==> r != Ok::<bool, StrategyError>(false),
        confirmed ==> exists|
            sets: Seq<Result<(), String>>,
            removals: Seq<Removal>,
            w: Result<(), StoreError>,
        |
            write_outcome(chunk_total(base64_encoded(serialized.spec_bytes())), sets, removals, w)
                && match r {
                Ok(_) => w is Ok,
                Err(e) => w is Err && storage_failure(w->Err_0, e),
            },
{
    if !confirmed {
        return Ok(false);
    }
    let saved = save_session(serialized);
    proof {
        let (sets, removals, w) = choose|
            sets: Seq<Result<(), String>>,
            removals: Seq<Removal>,
            w: Result<(), StoreError>,
        |
            write_outcome(chunk_total(base64_encoded(serialized.spec_bytes())), sets, removals, w)
                && session_from_write(w, saved);
        assert(write_outcome(
            chunk_total(base64_encoded(serialized.spec_bytes())),
            sets,
            removals,
            w,
        ));
    }
    match saved {
        Ok(()) => Ok(true),
        Err(e) => Err(e),
    }
}

/// Deletes the kept session from `backend`; when there is none, nothing
/// happens and no error is returned.
pub fn delete_credentials_from(backend: &mut SecretBackend) -> (r: Result<(), StoreError>)
    ensures
        old(backend).is_memory() <==> final(backend).is_memory(),
        exists|answers: Seq<Removal>|
            removal_outcome(0, answers, r) && (old(backend).is_memory() ==> forall|q: int|
                0 <= q < answers.len() ==> old(backend).answers_remove(
                    chunk_key(KEYRING_SDK_CONFIG_NAME@, q as nat),
                    #[trigger] answers[q],
                )),
        old(backend).is_memory() ==> match r {
            Ok(()) => deleted(
                old(backend).contents(),
                final(backend).contents(),
                KEYRING_SDK_CONFIG_NAME@,
            ),
            Err(StoreError::TooManyChunks) => holds_chunks(
                old(backend).contents(),
                KEYRING_SDK_CONFIG_NAME@,
                usize::MAX as nat,
            ),
            Err(StoreError::Backend(_)) => exists|j: nat|
                holds_chunks(old(backend).contents(), KEYRING_SDK_CONFIG_NAME@, j) && old(
                    backend,
                ).fails_on(chunk_key(KEYRING_SDK_CONFIG_NAME@, j)) && final(backend).contents()
                    == #[trigger] without_chunks(
                    old(backend).contents(),
                    KEYRING_SDK_CONFIG_NAME@,
                    j,
                ),
        },
{
    let entry = LongKeyringEntry::new(KEYRING_SDK_CONFIG_NAME);
    entry.delete_from(backend)
}

/// Deletes the kept session from the system keyring.
pub fn delete_credentials() -> (r: Result<(), StoreError>)
    ensures
        exists|answers: Seq<Removal>| removal_outcome(0, answers, r),
{
    let mut backend = SecretBackend::System;
    delete_credentials_from(&mut backend)
}

} // verus!
