use airlock::auth_gate::AuthState;

#[test]
fn join_is_checked_only_on_both_paths() {
    let mut state = AuthState::Checked;
    assert!(!state.join(&AuthState::Checked));
    assert!(state.is_checked());
    assert!(state.join(&AuthState::Unchecked));
    assert!(!state.is_checked());
    assert!(!state.join(&AuthState::Checked));
    assert_eq!(state, AuthState::of(false));
}

#[test]
fn the_state_a_block_starts_out_with_is_neutral() {
    for state in [AuthState::Checked, AuthState::Unchecked] {
        let mut joined = state;
        assert!(!joined.join(&AuthState::Checked));
        assert_eq!(joined, state);
        let mut joined = AuthState::Checked;
        joined.join(&state);
        assert_eq!(joined, state);
    }
}
