use auth_session::engine::{PermissionEngine, PollEvent};
use auth_session::model::{
    AuthError, CacheLocation, ConfigOptions, ProviderError, Session, User,
};
use auth_session::service::{AuthSessionService, PermissionsService};
use auth_session::store::SessionStore;

const TOKEN: &str = "eyJhbGciOiJIUzI1NiJ9.eyJwZXJtaXNzaW9ucyI6WyJyZWFkIl19.sig";

fn config() -> ConfigOptions {
    ConfigOptions {
        domain: String::from("tenant.example.com"),
        client_id: String::from("client-one"),
        redirect_uri: String::from("https://app.example.com/back"),
        use_refresh_tokens: false,
        cache_location: CacheLocation::LocalStorage,
        audience: Some(String::from("https://api.example.com")),
    }
}

fn authenticated_store() -> SessionStore {
    let mut store = SessionStore::new();
    let mut engine = PermissionEngine::new(500);
    engine.step(&mut store, PollEvent::Start);
    engine.step(&mut store, PollEvent::SessionChecked(Ok(true)));
    engine.step(
        &mut store,
        PollEvent::TokenFetched(
            Ok(String::from(TOKEN)),
            Some(User { given_name: String::from("Ada"), family_name: String::from("Lovelace") }),
        ),
    );
    engine.decode_step(&mut store);
    store
}

#[test]
fn has_permission_read_but_not_write() {
    let store = authenticated_store();
    assert!(PermissionsService::has_permission(&store, String::from("read")));
    assert!(!PermissionsService::has_permission(&store, String::from("write")));
}

#[test]
fn queries_against_fresh_store_are_negative() {
    let store = SessionStore::new();
    assert!(!PermissionsService::has_permission(&store, String::from("read")));
    assert!(PermissionsService::get_user(&store).is_none());
    assert!(PermissionsService::get_access_token(&store).is_none());
}

#[test]
fn accessors_reflect_the_snapshot() {
    let store = authenticated_store();
    assert_eq!(PermissionsService::get_user(&store).unwrap().given_name, "Ada");
    assert_eq!(PermissionsService::get_access_token(&store).as_deref(), Some(TOKEN));
}

#[test]
fn read_hands_out_copies() {
    let store = authenticated_store();
    let mut first: Session = store.read();
    first.permissions.clear();
    first.is_authenticated = false;
    let second = store.read();
    assert!(second.is_authenticated);
    assert_eq!(second.permissions, vec!["read"]);
}

#[test]
fn logout_request_returns_to_redirect_uri() {
    let service = AuthSessionService::new(config());
    assert_eq!(service.logout_request().return_to, "https://app.example.com/back");
}

#[test]
fn token_request_carries_the_audience() {
    let service = AuthSessionService::new(config());
    assert_eq!(service.token_request().unwrap().audience, "https://api.example.com");
    let mut plain = config();
    plain.audience = None;
    let service = AuthSessionService::new(plain);
    assert!(service.token_request().is_none());
}

#[test]
fn no_session_answer_counts_as_not_authenticated() {
    assert!(AuthSessionService::is_authenticated_result(Some(true)));
    assert!(!AuthSessionService::is_authenticated_result(Some(false)));
    assert!(!AuthSessionService::is_authenticated_result(None));
}

#[test]
fn token_result_maps_provider_errors() {
    let ok = AuthSessionService::token_result(Ok(String::from("t"))).unwrap();
    assert_eq!(ok, "t");
    let err = AuthSessionService::token_result(Err(ProviderError {
        message: String::from("login failed"),
    }));
    match err {
        Err(AuthError::Provider(p)) => assert_eq!(p.message, "login failed"),
        _ => panic!("expected a provider error"),
    }
}

#[test]
fn require_token_demands_a_session() {
    let store = SessionStore::new();
    assert!(matches!(
        AuthSessionService::require_token(&store),
        Err(AuthError::NotAuthenticated)
    ));
    let store = authenticated_store();
    assert_eq!(AuthSessionService::require_token(&store).unwrap(), TOKEN);
}

#[test]
fn empty_session_is_signed_out() {
    let s = Session::empty();
    assert!(!s.is_authenticated);
    assert!(s.user.is_none());
    assert!(s.access_token.is_none());
    assert!(s.permissions.is_empty());
}

#[test]
fn duplicate_copies_every_field() {
    let s = Session {
        is_authenticated: true,
        user: Some(User { given_name: String::from("G"), family_name: String::from("F") }),
        access_token: Some(String::from("tok")),
        permissions: vec![String::from("a"), String::from("b")],
    };
    let d = s.duplicate();
    assert_eq!(d.is_authenticated, s.is_authenticated);
    assert_eq!(d.access_token, s.access_token);
    assert_eq!(d.permissions, s.permissions);
    assert_eq!(d.user.as_ref().unwrap().given_name, "G");
    assert_eq!(d.user.as_ref().unwrap().family_name, "F");
}
