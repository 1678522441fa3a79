use auth_session::engine::{Command, PermissionEngine, PollEvent};
use auth_session::model::{ProviderError, User};
use auth_session::store::SessionStore;

const TOKEN: &str = "eyJhbGciOiJIUzI1NiJ9.eyJwZXJtaXNzaW9ucyI6WyJyZWFkIl19.sig";

fn provider_error() -> ProviderError {
    ProviderError { message: String::from("network down") }
}

fn user() -> Option<User> {
    Some(User { given_name: String::from("Ada"), family_name: String::from("Lovelace") })
}

/// Drive one full cycle from Idle with the given provider responses.
fn run_cycle(
    engine: &mut PermissionEngine,
    store: &mut SessionStore,
    valid: Result<bool, ProviderError>,
    fetched: Result<String, ProviderError>,
) {
    let eff = engine.step(store, PollEvent::SessionChecked(valid));
    if matches!(eff.command, Command::FetchToken) {
        let eff = engine.step(store, PollEvent::TokenFetched(fetched, user()));
        if matches!(eff.command, Command::Decode) {
            engine.decode_step(store);
        }
    }
    engine.step(store, PollEvent::TimerElapsed);
}

#[test]
fn start_begins_checking() {
    let mut engine = PermissionEngine::new(500);
    let mut store = SessionStore::new();
    let eff = engine.step(&mut store, PollEvent::Start);
    assert!(matches!(eff.command, Command::CheckSession));
    assert!(!eff.notify);
}

#[test]
fn invalid_session_clears_store_and_notifies() {
    // the provider answers isAuthenticated() == false: the next
    // snapshot is unauthenticated with no user and no permissions
    let mut engine = PermissionEngine::new(500);
    let mut store = SessionStore::new();
    engine.step(&mut store, PollEvent::Start);
    let eff = engine.step(&mut store, PollEvent::SessionChecked(Ok(false)));
    assert!(matches!(eff.command, Command::SetTimer(500)));
    assert!(eff.notify);
    let s = store.read();
    assert!(!s.is_authenticated);
    assert!(s.user.is_none());
    assert!(s.access_token.is_none());
    assert!(s.permissions.is_empty());
}

#[test]
fn provider_error_during_check_clears_store() {
    let mut engine = PermissionEngine::new(500);
    let mut store = SessionStore::new();
    engine.step(&mut store, PollEvent::Start);
    let eff = engine.step(&mut store, PollEvent::SessionChecked(Err(provider_error())));
    assert!(eff.notify);
    assert!(matches!(eff.command, Command::SetTimer(500)));
    let s = store.read();
    assert!(!s.is_authenticated);
    assert!(s.permissions.is_empty());
}

#[test]
fn successful_cycle_stores_decoded_permissions() {
    let mut engine = PermissionEngine::new(500);
    let mut store = SessionStore::new();
    engine.step(&mut store, PollEvent::Start);
    let eff = engine.step(&mut store, PollEvent::SessionChecked(Ok(true)));
    assert!(matches!(eff.command, Command::FetchToken));
    let eff = engine.step(
        &mut store,
        PollEvent::TokenFetched(Ok(String::from(TOKEN)), user()),
    );
    assert!(matches!(eff.command, Command::Decode));
    assert!(!eff.notify);
    let eff = engine.decode_step(&mut store);
    assert!(matches!(eff.command, Command::SetTimer(500)));
    assert!(eff.notify);
    let s = store.read();
    assert!(s.is_authenticated);
    assert_eq!(s.access_token.as_deref(), Some(TOKEN));
    assert_eq!(s.permissions, vec!["read"]);
    assert_eq!(s.user.as_ref().unwrap().given_name, "Ada");
}

#[test]
fn token_fetch_failure_clears_store() {
    let mut engine = PermissionEngine::new(500);
    let mut store = SessionStore::new();
    engine.step(&mut store, PollEvent::Start);
    engine.step(&mut store, PollEvent::SessionChecked(Ok(true)));
    let eff = engine.step(&mut store, PollEvent::TokenFetched(Err(provider_error()), user()));
    assert!(eff.notify);
    let s = store.read();
    assert!(!s.is_authenticated);
    assert!(s.permissions.is_empty());
}

#[test]
fn undecodable_token_clears_store() {
    let mut engine = PermissionEngine::new(500);
    let mut store = SessionStore::new();
    engine.step(&mut store, PollEvent::Start);
    engine.step(&mut store, PollEvent::SessionChecked(Ok(true)));
    engine.step(&mut store, PollEvent::TokenFetched(Ok(String::from("bad")), user()));
    let eff = engine.decode_step(&mut store);
    assert!(eff.notify);
    let s = store.read();
    assert!(!s.is_authenticated);
    assert!(s.permissions.is_empty());
}

#[test]
fn two_cycles_with_same_responses_leave_equal_snapshots() {
    let mut engine = PermissionEngine::new(500);
    let mut store = SessionStore::new();
    engine.step(&mut store, PollEvent::Start);
    run_cycle(&mut engine, &mut store, Ok(true), Ok(String::from(TOKEN)));
    let first = store.read();
    run_cycle(&mut engine, &mut store, Ok(true), Ok(String::from(TOKEN)));
    let second = store.read();
    assert_eq!(first.is_authenticated, second.is_authenticated);
    assert_eq!(first.access_token, second.access_token);
    assert_eq!(first.permissions, second.permissions);
    assert_eq!(
        first.user.as_ref().map(|u| (u.given_name.clone(), u.family_name.clone())),
        second.user.as_ref().map(|u| (u.given_name.clone(), u.family_name.clone()))
    );
}

#[test]
fn events_out_of_turn_are_ignored() {
    // no new cycle starts, and nothing changes, while a cycle is not
    // at rest: the machine reacts only to the event it is waiting for
    let mut engine = PermissionEngine::new(500);
    let mut store = SessionStore::new();
    let eff = engine.step(&mut store, PollEvent::TimerElapsed);
    assert!(matches!(eff.command, Command::Nothing));
    let eff = engine.step(&mut store, PollEvent::SessionChecked(Ok(true)));
    assert!(matches!(eff.command, Command::Nothing));
    engine.step(&mut store, PollEvent::Start);
    // a second Start while checking is ignored: only one cycle runs
    let eff = engine.step(&mut store, PollEvent::Start);
    assert!(matches!(eff.command, Command::Nothing));
    let eff = engine.decode_step(&mut store);
    assert!(matches!(eff.command, Command::Nothing));
    let eff = engine.step(&mut store, PollEvent::TokenFetched(Ok(String::from(TOKEN)), None));
    assert!(matches!(eff.command, Command::Nothing));
}

#[test]
fn waiting_resumes_checking_on_timer() {
    let mut engine = PermissionEngine::new(250);
    let mut store = SessionStore::new();
    engine.step(&mut store, PollEvent::Start);
    let eff = engine.step(&mut store, PollEvent::SessionChecked(Ok(false)));
    assert!(matches!(eff.command, Command::SetTimer(250)));
    let eff = engine.step(&mut store, PollEvent::TimerElapsed);
    assert!(matches!(eff.command, Command::CheckSession));
}
