//! The polling state machine. One engine drives one poll cycle at a
//! time: check the session, fetch a token, decode its permissions,
//! update the store, and wait for the next tick.
//!
//! The engine decides; the host performs. Each [`PermissionEngine::step`]
//! consumes one event, updates the store where the machine says so, and
//! hands back a [`StepEffect`]: the command the host must perform next
//! and whether subscribers must be notified. [`spec_transition`] and
//! [`spec_store_after`] say exactly what every step does, for every
//! state and event. A cycle-starting command is issued only from `Idle`
//! or `Waiting`, so no two poll cycles are ever in flight at once.
//!
//! A provider failure or an invalid session demotes the store to the
//! signed-out snapshot and never stops the loop. A token that fails to
//! decode does the same: the stale permission set is cleared, not kept.

use vstd::prelude::*;
use crate::claims::{decode, spec_decode};
use crate::model::{ProviderError, SessionView, User, UserView};
use crate::store::SessionStore;

verus! {

/// Where the machine stands.
pub enum EngineState {
    /// Not yet started.
    Idle,
    /// A session-validity check is in flight.
    CheckingSession,
    /// A token fetch is in flight.
    FetchingToken,
    /// A token has arrived and its claims are about to be decoded.
    DecodingPermissions { token: String, user: Option<User> },
    /// The interval timer is running.
    Waiting { delay_ms: u64 },
}

/// What the host reports to the machine.
pub enum PollEvent {
    /// Begin polling.
    Start,
    /// The provider answered the session-validity check.
    SessionChecked(Result<bool, ProviderError>),
    /// The provider answered the token fetch, along with whatever user
    /// profile it reported.
    TokenFetched(Result<String, ProviderError>, Option<User>),
    /// The interval timer elapsed.
    TimerElapsed,
}

/// What the host must do next.
pub enum Command {
    /// Ask the provider whether the session is valid, then report
    /// [`PollEvent::SessionChecked`].
    CheckSession,
    /// Ask the provider for a token and the user, then report
    /// [`PollEvent::TokenFetched`].
    FetchToken,
    /// Call [`PermissionEngine::decode_step`].
    Decode,
    /// Start the interval timer, then report
    /// [`PollEvent::TimerElapsed`] when it fires.
    SetTimer(u64),
    /// Nothing: the event did not apply to the current state.
    Nothing,
}

/// One step's outcome: the next command, and whether the session
/// changed in a way subscribers must hear about.
pub struct StepEffect {
    pub command: Command,
    pub notify: bool,
}

/// The view of an optional user profile.
pub open spec fn opt_user_view(u: Option<User>) -> Option<UserView> {
    match u {
        Some(user) => Some(user@),
        None => None,
    }
}

/// The machine's transition table: next state, command, and whether to
/// notify, for every state and event. Pairs outside the table leave
/// the state alone and command nothing.
pub open spec fn spec_transition(st: EngineState, interval_ms: u64, event: PollEvent) -> (
    EngineState,
    Command,
    bool,
) {
    match (st, event) {
        (EngineState::Idle, PollEvent::Start) => (
            EngineState::CheckingSession,
            Command::CheckSession,
            false,
        ),
        (EngineState::CheckingSession, PollEvent::SessionChecked(Ok(true))) => (
            EngineState::FetchingToken,
            Command::FetchToken,
            false,
        ),
        (EngineState::CheckingSession, PollEvent::SessionChecked(_)) => (
            EngineState::Waiting { delay_ms: interval_ms },
            Command::SetTimer(interval_ms),
            true,
        ),
        (EngineState::FetchingToken, PollEvent::TokenFetched(Ok(token), user)) => (
            EngineState::DecodingPermissions { token, user },
            Command::Decode,
            false,
        ),
        (EngineState::FetchingToken, PollEvent::TokenFetched(Err(_), _)) => (
            EngineState::Waiting { delay_ms: interval_ms },
            Command::SetTimer(interval_ms),
            true,
        ),
        (EngineState::Waiting { .. }, PollEvent::TimerElapsed) => (
            EngineState::CheckingSession,
            Command::CheckSession,
            false,
        ),
        (s, _) => (s, Command::Nothing, false),
    }
}

/// What one step leaves in the store: the signed-out snapshot on a
/// failed or invalid session check and on a failed token fetch, the
/// prior snapshot everywhere else.
pub open spec fn spec_store_after(
    prior: SessionView,
    st: EngineState,
    event: PollEvent,
) -> SessionView {
    match (st, event) {
        (EngineState::CheckingSession, PollEvent::SessionChecked(Ok(true))) => prior,
        (EngineState::CheckingSession, PollEvent::SessionChecked(_)) => SessionView::signed_out(),
        (EngineState::FetchingToken, PollEvent::TokenFetched(Err(_), _)) => {
            SessionView::signed_out()
        },
        _ => prior,
    }
}

/// What decoding leaves in the store: the authenticated snapshot
/// carrying the token's permission names when the token decodes, the
/// signed-out snapshot when it does not.
pub open spec fn spec_decoded_session(user: Option<UserView>, token: Seq<char>) -> SessionView {
    match spec_decode(token) {
        Ok((jv, ps)) => SessionView::authenticated(user, token, ps),
        Err(_) => SessionView::signed_out(),
    }
}

/// The polling state machine.
pub struct PermissionEngine {
    state: EngineState,
    interval_ms: u64,
}

impl PermissionEngine {
    /// Where the machine stands.
    pub closed spec fn state(self) -> EngineState {
        self.state
    }

    /// The configured re-check period.
    pub closed spec fn interval(self) -> u64 {
        self.interval_ms
    }

    /// A fresh engine, idle, with the given re-check period in
    /// milliseconds.
    pub fn new(interval_ms: u64) -> (e: PermissionEngine)
        ensures
            e.state() is Idle,
            e.interval() == interval_ms,
    {
        PermissionEngine { state: EngineState::Idle, interval_ms }
    }

    /// Consume one event: move the machine, update the store where the
    /// transition table says so, and hand back what the host must do.
    ///
    /// A cycle-starting command is issued only from `Idle` or
    /// `Waiting`: no new poll cycle begins while one is under way. A
    /// provider error or an invalid session during `CheckingSession`
    /// always leaves the signed-out snapshot — unauthenticated, no
    /// permissions — and a notification, before the machine waits.
    pub fn step(&mut self, store: &mut SessionStore, event: PollEvent) -> (eff: StepEffect)
        ensures
            final(self).interval() == old(self).interval(),
            (final(self).state(), eff.command, eff.notify) == spec_transition(
                old(self).state(),
                old(self).interval(),
                event,
            ),
            final(store)@ == spec_store_after(old(store)@, old(self).state(), event),
            eff.command is CheckSession ==> old(self).state() is Idle || old(self).state()
                matches EngineState::Waiting { .. },
            old(self).state() is CheckingSession && (event matches PollEvent::SessionChecked(r)
                && !(r matches Ok(true))) ==> (final(store)@ == SessionView::signed_out()
                && final(store)@.permissions.len() == 0 && !final(store)@.is_authenticated
                && (final(self).state() matches EngineState::Waiting { .. }) && eff.notify),
    {
        match event {
            PollEvent::Start => {
                if matches!(self.state, EngineState::Idle) {
                    self.state = EngineState::CheckingSession;
                    StepEffect { command: Command::CheckSession, notify: false }
                } else {
                    StepEffect { command: Command::Nothing, notify: false }
                }
            },
            PollEvent::SessionChecked(r) => {
                if matches!(self.state, EngineState::CheckingSession) {
                    match r {
                        Ok(true) => {
                            self.state = EngineState::FetchingToken;
                            StepEffect { command: Command::FetchToken, notify: false }
                        },
                        _ => {
                            store.write_unauthenticated();
                            self.state = EngineState::Waiting { delay_ms: self.interval_ms };
                            StepEffect {
                                command: Command::SetTimer(self.interval_ms),
                                notify: true,
                            }
                        },
                    }
                } else {
                    StepEffect { command: Command::Nothing, notify: false }
                }
            },
            PollEvent::TokenFetched(r, user) => {
                if matches!(self.state, EngineState::FetchingToken) {
                    match r {
                        Ok(token) => {
                            self.state = EngineState::DecodingPermissions { token, user };
                            StepEffect { command: Command::Decode, notify: false }
                        },
                        Err(_) => {
                            store.write_unauthenticated();
                            self.state = EngineState::Waiting { delay_ms: self.interval_ms };
                            StepEffect {
                                command: Command::SetTimer(self.interval_ms),
                                notify: true,
                            }
                        },
                    }
                } else {
                    StepEffect { command: Command::Nothing, notify: false }
                }
            },
            PollEvent::TimerElapsed => {
                if matches!(self.state, EngineState::Waiting { .. }) {
                    self.state = EngineState::CheckingSession;
                    StepEffect { command: Command::CheckSession, notify: false }
                } else {
                    StepEffect { command: Command::Nothing, notify: false }
                }
            },
        }
    }

    /// Decode the fetched token and finish the cycle: on success the
    /// store holds the authenticated snapshot with the token's
    /// permission names; on a decode failure it holds the signed-out
    /// snapshot — the stale permission set is cleared, not kept. In
    /// either case the machine waits and subscribers are notified. In
    /// any state but `DecodingPermissions` this does nothing.
    pub fn decode_step(&mut self, store: &mut SessionStore) -> (eff: StepEffect)
        ensures
            final(self).interval() == old(self).interval(),
            !(old(self).state() matches EngineState::DecodingPermissions { .. }) ==> *final(self)
                == *old(self) && final(store)@ == old(store)@ && eff.command is Nothing
                && !eff.notify,
            old(self).state() matches EngineState::DecodingPermissions { token, user }
                ==> final(self).state() == (EngineState::Waiting {
                delay_ms: old(self).interval(),
            }) && eff.command == Command::SetTimer(old(self).interval()) && eff.notify
                && final(store)@ == spec_decoded_session(opt_user_view(user), token@),
    {
        let info: Option<(String, Option<User>)> = match &self.state {
            EngineState::DecodingPermissions { token, user } => {
                let u = match user {
                    Some(u) => Some(u.duplicate()),
                    None => None,
                };
                Some((token.clone(), u))
            },
            _ => None,
        };
        match info {
            None => StepEffect { command: Command::Nothing, notify: false },
            Some((token, user)) => {
                match decode(token.as_str()) {
                    Ok(c) => {
                        store.write_authenticated(user, token, c.permissions);
                    },
                    Err(_) => {
                        store.write_unauthenticated();
                    },
                }
                self.state = EngineState::Waiting { delay_ms: self.interval_ms };
                StepEffect { command: Command::SetTimer(self.interval_ms), notify: true }
            },
        }
    }
}

/// At most one poll cycle is ever under way: the machine holds a
/// single state, and the command that starts a cycle is issued only
/// from `Idle` or `Waiting` — never while a cycle occupies any other
/// state.
pub proof fn lemma_single_cycle(st: EngineState, interval_ms: u64, event: PollEvent)
    ensures
        (spec_transition(st, interval_ms, event).1 is CheckSession) ==> (st is Idle || st
            matches EngineState::Waiting { .. }),
{
}

/// What the store holds after one whole poll cycle, given the prior
/// snapshot and the provider's responses: the session check is
/// consumed in `CheckingSession`, the token fetch in `FetchingToken`,
/// and a fetched token is decoded.
pub open spec fn spec_cycle_session(
    prior: SessionView,
    check: Result<bool, ProviderError>,
    fetch: Result<String, ProviderError>,
    user: Option<User>,
) -> SessionView {
    let after_check = spec_store_after(
        prior,
        EngineState::CheckingSession,
        PollEvent::SessionChecked(check),
    );
    match (check, fetch) {
        (Ok(true), Ok(token)) => spec_decoded_session(opt_user_view(user), token@),
        (Ok(true), Err(e)) => spec_store_after(
            after_check,
            EngineState::FetchingToken,
            PollEvent::TokenFetched(Err(e), user),
        ),
        _ => after_check,
    }
}

/// Two consecutive poll cycles fed the same provider responses leave
/// equal snapshots: what a cycle leaves in the store depends on the
/// responses alone, never on what the store held before — so in
/// particular a repeated successful cycle is idempotent.
pub proof fn lemma_cycle_idempotent(
    prior1: SessionView,
    prior2: SessionView,
    check: Result<bool, ProviderError>,
    fetch: Result<String, ProviderError>,
    user: Option<User>,
)
    ensures
        spec_cycle_session(prior1, check, fetch, user) == spec_cycle_session(
            prior2,
            check,
            fetch,
            user,
        ),
{
}

} // verus!
