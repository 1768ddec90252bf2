use rscache::client::{ClientState, SessionEffect, SessionInput, session_step};

fn remove_count(effects: &[SessionEffect]) -> usize {
    effects
        .iter()
        .filter(|e| matches!(e, SessionEffect::EmitRemove))
        .count()
}

#[test]
fn line_is_forwarded_and_loop_continues() {
    let (go_on, effects) = session_step(SessionInput::Line(b"GET foo".to_vec()));
    assert!(go_on);
    match effects.as_slice() {
        [SessionEffect::ForwardLine(l)] => assert_eq!(l.clone(), b"GET foo".to_vec()),
        _ => panic!("expected the line to be forwarded"),
    }
    assert_eq!(remove_count(&effects), 0);
}

#[test]
fn eof_ends_loop_with_one_removal() {
    let (go_on, effects) = session_step(SessionInput::Eof);
    assert!(!go_on);
    assert_eq!(effects.len(), 1);
    assert_eq!(remove_count(&effects), 1);
}

#[test]
fn read_error_and_bad_utf8_end_loop_with_one_removal() {
    for input in [SessionInput::ReadError, SessionInput::BadUtf8] {
        let (go_on, effects) = session_step(input);
        assert!(!go_on);
        assert_eq!(remove_count(&effects), 1);
    }
}

#[test]
fn handshake_timeout_writes_closes_and_removes_once() {
    let (go_on, effects) = session_step(SessionInput::HandshakeTimeout);
    assert!(!go_on);
    match effects.as_slice() {
        [SessionEffect::WriteText(text), SessionEffect::CloseSocket, SessionEffect::EmitRemove] => {
            assert_eq!(text.clone(), b"Handshake timeout\n".to_vec());
        }
        _ => panic!("expected diagnostic, close, removal — in that order"),
    }
    assert_eq!(remove_count(&effects), 1);
}

#[test]
fn client_state_transitions() {
    let mut st = ClientState::new();
    assert!(matches!(st, ClientState::Probation));
    st.setting_key();
    assert!(matches!(st, ClientState::SettingKey));
    st.setting_value(b"foo".to_vec());
    match &st {
        ClientState::SettingValue { key } => assert_eq!(key.clone(), b"foo".to_vec()),
        _ => panic!("expected the value-awaiting state"),
    }
    st.setting_key();
    assert!(matches!(st, ClientState::SettingKey));
}
