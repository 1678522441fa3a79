//! The session snapshot store: the one piece of shared state. Readers
//! get a snapshot copy, never a live reference; writers replace the
//! snapshot wholesale, so no reader ever observes a partial update.

use vstd::prelude::*;
use crate::model::{Session, SessionView, User, views_of};

verus! {

/// Holds the latest known session snapshot.
pub struct SessionStore {
    session: Session,
}

impl View for SessionStore {
    type V = SessionView;

    closed spec fn view(&self) -> SessionView {
        self.session@
    }
}

impl SessionStore {
    /// A fresh store: signed out.
    pub fn new() -> (s: SessionStore)
        ensures
            s@ == SessionView::signed_out(),
            s@.wf(),
    {
        SessionStore { session: Session::empty() }
    }

    /// A snapshot copy of the current session.
    pub fn read(&self) -> (r: Session)
        ensures
            r@ == self@,
    {
        self.session.duplicate()
    }

    /// Replace the snapshot with an authenticated one, wholesale.
    pub fn write_authenticated(&mut self, user: Option<User>, token: String, permissions: Vec<
        String,
    >)
        ensures
            final(self)@ == SessionView::authenticated(
                match user {
                    Some(u) => Some(u@),
                    None => None,
                },
                token@,
                views_of(permissions@),
            ),
            final(self)@.wf(),
    {
        self.session = Session {
            is_authenticated: true,
            user,
            access_token: Some(token),
            permissions,
        };
    }

    /// Replace the snapshot with the signed-out one, wholesale.
    pub fn write_unauthenticated(&mut self)
        ensures
            final(self)@ == SessionView::signed_out(),
            final(self)@.wf(),
    {
        self.session = Session::empty();
    }
}

} // verus!
