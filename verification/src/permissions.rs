//! Permission gating state: waiting for the user's answer, granted, or
//! denied. Every gated host call is funnelled through
//! [`PermissionState::is_ready`].

use vstd::prelude::*;

verus! {

/// Whether the host has granted the permissions requested at load time.
#[derive(Debug, Clone, Copy, PartialEq, Eq, Structural)]
pub enum PermissionState {
    /// The request was sent and the user has not answered yet.
    Pending,
    /// The user approved the request.
    Granted,
    /// The user declined.
    Denied,
}

impl Default for PermissionState {
    /// Permissions start out pending.
    fn default() -> (s: Self)
        ensures
            s == PermissionState::Pending,
    {
        PermissionState::Pending
    }
}

/// The state the host's answer leads to.
pub open spec fn answer_state(granted: bool) -> PermissionState {
    if granted {
        PermissionState::Granted
    } else {
        PermissionState::Denied
    }
}

impl PermissionState {
    /// Whether gated host calls may be made.
    pub fn is_ready(self) -> (b: bool)
        ensures
            b == (self == PermissionState::Granted),
    {
        match self {
            PermissionState::Granted => true,
            _ => false,
        }
    }

    /// Whether the user declined.
    pub fn is_denied(self) -> (b: bool)
        ensures
            b == (self == PermissionState::Denied),
    {
        match self {
            PermissionState::Denied => true,
            _ => false,
        }
    }

    /// Records the host's answer; returns whether the state changed (a
    /// re-render is needed).
    pub fn resolve(&mut self, granted: bool) -> (changed: bool)
        ensures
            *final(self) == answer_state(granted),
            changed == (*old(self) != answer_state(granted)),
    {
        let next = if granted {
            PermissionState::Granted
        } else {
            PermissionState::Denied
        };
        let changed = *self != next;
        *self = next;
        changed
    }

    /// A short explanation shown while the plugin cannot work yet; `None`
    /// once permissions are granted.
    pub fn message(self) -> (m: Option<&'static str>)
        ensures
            self == PermissionState::Pending ==> (m matches Some(t) && t@
                == "zclip: waiting for permission — accept the prompt to continue."@),
            self == PermissionState::Denied ==> (m matches Some(t) && t@
                == "zclip: permissions denied. zclip cannot read or write panes. Reload the plugin to be asked again."@),
            self == PermissionState::Granted ==> m is None,
    {
        match self {
            PermissionState::Pending => Some(
                "zclip: waiting for permission — accept the prompt to continue.",
            ),
            PermissionState::Denied => Some(
                "zclip: permissions denied. zclip cannot read or write panes. Reload the plugin to be asked again.",
            ),
            PermissionState::Granted => None,
        }
    }

    /// The lower-case name of the state (`pending`, `granted`, `denied`).
    pub fn label(self) -> (l: &'static str)
        ensures
            self == PermissionState::Pending ==> l@ == "pending"@,
            self == PermissionState::Granted ==> l@ == "granted"@,
            self == PermissionState::Denied ==> l@ == "denied"@,
    {
        match self {
            PermissionState::Pending => "pending",
            PermissionState::Granted => "granted",
            PermissionState::Denied => "denied",
        }
    }
}

/// Answering twice the same way changes the state (and requests a render)
/// at most once, and the last answer always decides readiness.
pub proof fn law_repeated_answer_is_quiet(s: PermissionState, granted: bool)
    ensures
        ({
            let first = answer_state(granted);
            &&& !(first != answer_state(granted))
            &&& (first == PermissionState::Granted) == granted
            &&& (s != first) == (s != answer_state(granted))
        }),
{
}

} // verus!
