use zclip_core::permissions::PermissionState;

#[test]
fn starts_pending_and_not_ready() {
    let state = PermissionState::default();

    assert_eq!(state, PermissionState::Pending);
    assert!(!state.is_ready());
    assert!(!state.is_denied());
}

#[test]
fn granting_makes_it_ready() {
    let mut state = PermissionState::default();

    assert!(
        state.resolve(true),
        "first resolution should request a render"
    );
    assert!(state.is_ready());
    assert_eq!(state.message(), None);
}

#[test]
fn denying_is_reported_but_never_ready() {
    let mut state = PermissionState::default();

    assert!(state.resolve(false));
    assert!(!state.is_ready());
    assert!(state.is_denied());
    assert!(state.message().is_some());
}

#[test]
fn repeated_identical_results_do_not_request_a_render() {
    let mut state = PermissionState::default();

    assert!(state.resolve(true));
    assert!(!state.resolve(true), "no state change, so no re-render");
    assert!(state.is_ready());
}

#[test]
fn a_later_denial_revokes_readiness() {
    let mut state = PermissionState::default();
    state.resolve(true);

    assert!(state.resolve(false), "granted -> denied is a change");
    assert!(!state.is_ready(), "must never stay ready after a denial");
}

#[test]
fn pending_and_denied_have_distinct_messages() {
    let pending = PermissionState::Pending.message();
    let denied = PermissionState::Denied.message();

    assert!(pending.is_some() && denied.is_some());
    assert_ne!(pending, denied);
}
