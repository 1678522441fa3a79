//! Plain data types shared by the whole crate: the user profile, the
//! session snapshot, the configuration consumed at construction, and the
//! error taxonomy. Each carrier of text has a mathematical view, so that
//! contracts can compare snapshots by content.

use vstd::prelude::*;

verus! {

/// The user profile attached to an authenticated session. Immutable once
/// constructed; replaced wholesale on refresh.
pub struct User {
    pub given_name: String,
    pub family_name: String,
}

/// The mathematical content of a [`User`].
pub struct UserView {
    pub given_name: Seq<char>,
    pub family_name: Seq<char>,
}

impl View for User {
    type V = UserView;

    open spec fn view(&self) -> UserView {
        UserView { given_name: self.given_name@, family_name: self.family_name@ }
    }
}

/// A raw claim value as handed back by the identity provider.
pub struct Claim {
    pub __raw: String,
}

/// Where the identity provider caches its tokens.
pub enum CacheLocation {
    Memory,
    LocalStorage,
}

/// Configuration consumed at construction, read-only thereafter.
pub struct ConfigOptions {
    pub domain: String,
    pub client_id: String,
    pub redirect_uri: String,
    pub use_refresh_tokens: bool,
    pub cache_location: CacheLocation,
    pub audience: Option<String>,
}

/// Options for a silent token exchange against a specific API.
pub struct GetTokenSilentlyOptions {
    pub audience: String,
}

/// Options handed to the provider on logout.
pub struct AuthLogoutOptions {
    pub return_to: String,
}

/// The provider rejected or failed a call (network error, login failure,
/// token exchange failure, session check failure).
#[derive(Debug)]
pub struct ProviderError {
    pub message: String,
}

/// A malformed or undecodable token.
#[derive(Debug)]
pub enum DecodeError {
    /// The token does not consist of exactly three dot-separated segments.
    MalformedSegments,
    /// The payload segment length leaves remainder 1 modulo 4, which no
    /// base64url encoding produces.
    IllegalLength,
    /// A character outside the base64url alphabet appears in the payload.
    BadAlphabet,
    /// The decoded payload bytes are not valid UTF-8.
    BadUtf8,
    /// The decoded payload text is not a JSON value.
    BadJson,
    /// The payload JSON is not an object carrying a `permissions` field
    /// that is an array of strings.
    BadClaims,
}

/// An error surfaced by a facade call.
#[derive(Debug)]
pub enum AuthError {
    Provider(ProviderError),
    Decode(DecodeError),
    /// No session was present when one was required.
    NotAuthenticated,
}

/// The views of a sequence of strings.
pub open spec fn views_of(ss: Seq<String>) -> Seq<Seq<char>> {
    Seq::new(
        ss.len(),
        |i: int|
            if 0 <= i < ss.len() {
                ss[i]@
            } else {
                Seq::empty()
            },
    )
}

/// One session snapshot: the authenticated flag, the user profile, the
/// access token and the permission set derived from it.
pub struct Session {
    pub is_authenticated: bool,
    pub user: Option<User>,
    pub access_token: Option<String>,
    pub permissions: Vec<String>,
}

/// The mathematical content of a [`Session`]: what two snapshots are
/// compared by.
pub struct SessionView {
    pub is_authenticated: bool,
    pub user: Option<UserView>,
    pub access_token: Option<Seq<char>>,
    pub permissions: Seq<Seq<char>>,
}

impl View for Session {
    type V = SessionView;

    open spec fn view(&self) -> SessionView {
        SessionView {
            is_authenticated: self.is_authenticated,
            user: match self.user {
                Some(u) => Some(u@),
                None => None,
            },
            access_token: match self.access_token {
                Some(t) => Some(t@),
                None => None,
            },
            permissions: views_of(self.permissions@),
        }
    }
}

impl SessionView {
    /// A snapshot is well formed when it holds permissions only while
    /// it also holds the token they were decoded from, and only while
    /// it is authenticated.
    pub open spec fn wf(self) -> bool {
        self.permissions.len() > 0 ==> (self.access_token is Some && self.is_authenticated)
    }

    /// The snapshot that every failed or signed-out poll cycle leaves
    /// behind: nothing is known about the caller.
    pub open spec fn signed_out() -> SessionView {
        SessionView {
            is_authenticated: false,
            user: None,
            access_token: None,
            permissions: Seq::empty(),
        }
    }

    /// The snapshot a successful poll cycle leaves behind.
    pub open spec fn authenticated(
        user: Option<UserView>,
        token: Seq<char>,
        permissions: Seq<Seq<char>>,
    ) -> SessionView {
        SessionView { is_authenticated: true, user, access_token: Some(token), permissions }
    }
}

impl User {
    /// Field-for-field copy with a pinned result.
    pub fn duplicate(&self) -> (r: User)
        ensures
            r == *self,
    {
        User { given_name: self.given_name.clone(), family_name: self.family_name.clone() }
    }
}

impl Session {
    /// The snapshot every store starts from: not authenticated, no user,
    /// no token, no permissions.
    pub fn empty() -> (s: Session)
        ensures
            s@ == SessionView::signed_out(),
    {
        let s = Session {
            is_authenticated: false,
            user: None,
            access_token: None,
            permissions: Vec::new(),
        };
        proof {
            assert(views_of(s.permissions@) =~= Seq::<Seq<char>>::empty());
            assert(s@ =~= SessionView::signed_out());
        }
        s
    }

    /// Field-for-field copy with a pinned view.
    pub fn duplicate(&self) -> (r: Session)
        ensures
            r@ == self@,
    {
        let user = match &self.user {
            Some(u) => Some(u.duplicate()),
            None => None,
        };
        let access_token = match &self.access_token {
            Some(t) => Some(t.clone()),
            None => None,
        };
        let mut permissions: Vec<String> = Vec::new();
        let mut i: usize = 0;
        while i < self.permissions.len()
            invariant
                i <= self.permissions.len(),
                permissions@ == self.permissions@.subrange(0, i as int),
            decreases self.permissions.len() - i,
        {
            permissions.push(self.permissions[i].clone());
            proof {
                assert(self.permissions@.subrange(0, i as int).push(self.permissions@[i as int])
                    =~= self.permissions@.subrange(0, i as int + 1));
            }
            i = i + 1;
        }
        proof {
            assert(permissions@ =~= self.permissions@);
        }
        let r = Session {
            is_authenticated: self.is_authenticated,
            user,
            access_token,
            permissions,
        };
        proof {
            assert(r@ =~= self@);
        }
        r
    }
}

} // verus!
