//! The caller-facing facade: permission queries against the store,
//! and the pure decision parts of the login/logout/query operations.
//! The asynchronous provider calls themselves are the host's; these
//! functions build the requests the provider needs and interpret what
//! it answers.

use vstd::prelude::*;
use crate::model::{
    AuthError, AuthLogoutOptions, ConfigOptions, GetTokenSilentlyOptions, ProviderError, User,
};
use crate::store::SessionStore;

verus! {

/// Permission queries against the current snapshot.
pub struct PermissionsService;

impl PermissionsService {
    /// Whether the current snapshot grants the named permission.
    pub fn has_permission(store: &SessionStore, permission: String) -> (r: bool)
        ensures
            r == store@.permissions.contains(permission@),
    {
        let s = store.read();
        let mut i: usize = 0;
        while i < s.permissions.len()
            invariant
                i <= s.permissions.len(),
                s@ == store@,
                forall|k: int| 0 <= k < i ==> s.permissions@[k]@ != permission@,
            decreases s.permissions.len() - i,
        {
            if s.permissions[i] == permission {
                proof {
                    assert(store@.permissions[i as int] == s.permissions@[i as int]@);
                }
                return true;
            }
            i = i + 1;
        }
        proof {
            if store@.permissions.contains(permission@) {
                let k = choose|k: int|
                    0 <= k < store@.permissions.len() && store@.permissions[k] == permission@;
                assert(s.permissions@[k]@ == permission@);
            }
        }
        false
    }

    /// The user of the current snapshot, if any.
    pub fn get_user(store: &SessionStore) -> (r: Option<User>)
        ensures
            (match r {
                Some(u) => Some(u@),
                None => None,
            }) == store@.user,
    {
        store.read().user
    }

    /// The access token of the current snapshot, if any.
    pub fn get_access_token(store: &SessionStore) -> (r: Option<String>)
        ensures
            (match r {
                Some(t) => Some(t@),
                None => None,
            }) == store@.access_token,
    {
        store.read().access_token
    }
}

/// The facade over the identity provider: holds the configuration and
/// turns it into the requests the provider consumes, and the
/// provider's answers into what callers see.
pub struct AuthSessionService {
    config: ConfigOptions,
}

impl AuthSessionService {
    /// The configuration this service was constructed with.
    pub closed spec fn config(self) -> ConfigOptions {
        self.config
    }

    /// Construct the facade around its configuration.
    pub fn new(config: ConfigOptions) -> (s: AuthSessionService)
        ensures
            s.config() == config,
    {
        AuthSessionService { config }
    }

    /// The logout request: the provider is told to return to the
    /// configured redirect address.
    pub fn logout_request(&self) -> (r: AuthLogoutOptions)
        ensures
            r.return_to@ == self.config().redirect_uri@,
    {
        AuthLogoutOptions { return_to: self.config.redirect_uri.clone() }
    }

    /// The silent-token request: present exactly when an audience is
    /// configured, and carrying it.
    pub fn token_request(&self) -> (r: Option<GetTokenSilentlyOptions>)
        ensures
            r is Some <==> self.config().audience is Some,
            r matches Some(o) ==> self.config().audience matches Some(a) && o.audience@ == a@,
    {
        match &self.config.audience {
            Some(a) => Some(GetTokenSilentlyOptions { audience: a.clone() }),
            None => None,
        }
    }

    /// What a session-validity answer means to callers: only an
    /// affirmative answer counts; no answer is no session.
    pub fn is_authenticated_result(r: Option<bool>) -> (b: bool)
        ensures
            b == (r == Some(true)),
    {
        match r {
            Some(b) => b,
            None => false,
        }
    }

    /// What a token-fetch answer means to callers: the token on
    /// success, the provider's error otherwise.
    pub fn token_result(r: Result<String, ProviderError>) -> (t: Result<String, AuthError>)
        ensures
            r matches Ok(s) ==> t matches Ok(s2) && s2 == s,
            r matches Err(e) ==> t == Err::<String, AuthError>(AuthError::Provider(e)),
    {
        match r {
            Ok(s) => Ok(s),
            Err(e) => Err(AuthError::Provider(e)),
        }
    }

    /// The locally known token, demanded rather than asked for: absent
    /// a session this is the not-authenticated error.
    pub fn require_token(store: &SessionStore) -> (r: Result<String, AuthError>)
        ensures
            store@.access_token matches Some(t) ==> r matches Ok(s) && s@ == t,
            store@.access_token is None ==> r == Err::<String, AuthError>(
                AuthError::NotAuthenticated,
            ),
    {
        match store.read().access_token {
            Some(t) => Ok(t),
            None => Err(AuthError::NotAuthenticated),
        }
    }
}

} // verus!
