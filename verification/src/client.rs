//! Per-connection protocol state, and the decisions of the session's
//! read loop.
//!
//! The loop itself — socket reads, the handshake deadline — runs in the
//! surrounding application; it feeds every observation through
//! `session_step` and performs the effects it is handed back. The
//! discipline proved here: a line is forwarded to the coordinator, any
//! terminal observation ends the loop, and a whole session emits
//! exactly one removal event.

use vstd::prelude::*;

use crate::message::{msg_handshake_timeout, msg_handshake_timeout_bytes};

verus! {

/// The per-connection protocol state. Transitions are driven by the
/// coordinator's decisions alone.
pub enum ClientState {
    /// Pre-handshake: the next line must be a handshake verb.
    Probation,
    /// Ready for a SET or GET command.
    SettingKey,
    /// The next line is, verbatim, the pending value for `key`.
    SettingValue { key: Vec<u8> },
}

/// The mathematical shape of the protocol state.
#[verifier::ext_equal]
pub enum ClientStateView {
    Probation,
    SettingKey,
    SettingValue { key: Seq<u8> },
}

impl View for ClientState {
    type V = ClientStateView;

    open spec fn view(&self) -> ClientStateView {
        match self {
            ClientState::Probation => ClientStateView::Probation,
            ClientState::SettingKey => ClientStateView::SettingKey,
            ClientState::SettingValue { key } => ClientStateView::SettingValue { key: key@ },
        }
    }
}

impl ClientState {
    /// The state of a fresh connection.
    pub fn new() -> (r: ClientState)
        ensures
            r@ == ClientStateView::Probation,
    {
        ClientState::Probation
    }

    /// Back to awaiting a command.
    pub fn setting_key(&mut self)
        ensures
            final(self)@ == ClientStateView::SettingKey,
    {
        *self = ClientState::SettingKey;
    }

    /// Await the value line for `key`.
    pub fn setting_value(&mut self, key: Vec<u8>)
        ensures
            final(self)@ == (ClientStateView::SettingValue { key: key@ }),
    {
        *self = ClientState::SettingValue { key };
    }
}

/// What the read loop can observe on its socket.
pub enum SessionInput {
    /// A framed line, without its newline.
    Line(Vec<u8>),
    /// A zero-length read.
    Eof,
    /// A failed read.
    ReadError,
    /// Bytes that are not UTF-8.
    BadUtf8,
    /// The handshake deadline passed with no line.
    HandshakeTimeout,
}

/// The mathematical shape of an observation.
#[verifier::ext_equal]
pub enum SessionInputView {
    Line(Seq<u8>),
    Eof,
    ReadError,
    BadUtf8,
    HandshakeTimeout,
}

impl View for SessionInput {
    type V = SessionInputView;

    open spec fn view(&self) -> SessionInputView {
        match self {
            SessionInput::Line(l) => SessionInputView::Line(l@),
            SessionInput::Eof => SessionInputView::Eof,
            SessionInput::ReadError => SessionInputView::ReadError,
            SessionInput::BadUtf8 => SessionInputView::BadUtf8,
            SessionInput::HandshakeTimeout => SessionInputView::HandshakeTimeout,
        }
    }
}

/// What the loop is told to do in response.
pub enum SessionEffect {
    /// Send the line to the coordinator as a new-message event.
    ForwardLine(Vec<u8>),
    /// Write these bytes to the socket.
    WriteText(Vec<u8>),
    /// Shut the socket down.
    CloseSocket,
    /// Send the coordinator one remove-client event.
    EmitRemove,
}

/// The mathematical shape of an effect.
#[verifier::ext_equal]
pub enum SessionEffectView {
    ForwardLine(Seq<u8>),
    WriteText(Seq<u8>),
    CloseSocket,
    EmitRemove,
}

impl View for SessionEffect {
    type V = SessionEffectView;

    open spec fn view(&self) -> SessionEffectView {
        match self {
            SessionEffect::ForwardLine(l) => SessionEffectView::ForwardLine(l@),
            SessionEffect::WriteText(t) => SessionEffectView::WriteText(t@),
            SessionEffect::CloseSocket => SessionEffectView::CloseSocket,
            SessionEffect::EmitRemove => SessionEffectView::EmitRemove,
        }
    }
}

/// The element-wise views of a vector of effects.
pub open spec fn effect_views(s: Seq<SessionEffect>) -> Seq<SessionEffectView> {
    Seq::new(s.len(), |i: int| s[i]@)
}

/// What one observation makes the loop do, and whether it reads on: a
/// line is forwarded; end-of-stream, a read failure and bad encoding
/// end the loop with one removal; the handshake deadline additionally
/// writes a diagnostic and closes the socket first.
pub open spec fn session_step_spec(input: SessionInputView) -> (bool, Seq<SessionEffectView>) {
    match input {
        SessionInputView::Line(l) => (true, seq![SessionEffectView::ForwardLine(l)]),
        SessionInputView::Eof => (false, seq![SessionEffectView::EmitRemove]),
        SessionInputView::ReadError => (false, seq![SessionEffectView::EmitRemove]),
        SessionInputView::BadUtf8 => (false, seq![SessionEffectView::EmitRemove]),
        SessionInputView::HandshakeTimeout => (
            false,
            seq![
                SessionEffectView::WriteText(msg_handshake_timeout()),
                SessionEffectView::CloseSocket,
                SessionEffectView::EmitRemove,
            ],
        ),
    }
}

/// An observation that ends the read loop.
pub open spec fn is_terminal(input: SessionInputView) -> bool {
    !session_step_spec(input).0
}

/// Decides the loop's response to one observation. The first component
/// says whether to keep reading.
pub fn session_step(input: SessionInput) -> (r: (bool, Vec<SessionEffect>))
    ensures
        r.0 == session_step_spec(input@).0,
        effect_views(r.1@) == session_step_spec(input@).1,
{
    match input {
        SessionInput::Line(l) => {
            let mut effects: Vec<SessionEffect> = Vec::new();
            effects.push(SessionEffect::ForwardLine(l));
            proof {
                assert(effect_views(effects@) =~= session_step_spec(input@).1);
            }
            (true, effects)
        }
        SessionInput::Eof | SessionInput::ReadError | SessionInput::BadUtf8 => {
            let mut effects: Vec<SessionEffect> = Vec::new();
            effects.push(SessionEffect::EmitRemove);
            proof {
                assert(effect_views(effects@) =~= session_step_spec(input@).1);
            }
            (false, effects)
        }
        SessionInput::HandshakeTimeout => {
            let mut effects: Vec<SessionEffect> = Vec::new();
            effects.push(SessionEffect::WriteText(msg_handshake_timeout_bytes()));
            effects.push(SessionEffect::CloseSocket);
            effects.push(SessionEffect::EmitRemove);
            proof {
                assert(effect_views(effects@) =~= session_step_spec(input@).1);
            }
            (false, effects)
        }
    }
}

/// All effects of a session that observes `inputs` in order, reading
/// until the first terminal observation.
pub open spec fn session_run(inputs: Seq<SessionInputView>) -> Seq<SessionEffectView>
    decreases inputs.len(),
{
    if inputs.len() == 0 {
        Seq::empty()
    } else {
        let (go_on, effects) = session_step_spec(inputs[0]);
        if go_on {
            effects + session_run(inputs.drop_first())
        } else {
            effects
        }
    }
}

/// How many removal events a run of effects carries.
pub open spec fn count_removes(s: Seq<SessionEffectView>) -> int
    decreases s.len(),
{
    if s.len() == 0 {
        0
    } else {
        count_removes(s.drop_last()) + if s.last() is EmitRemove {
            1int
        } else {
            0int
        }
    }
}

proof fn lemma_count_removes_concat(a: Seq<SessionEffectView>, b: Seq<SessionEffectView>)
    ensures
        count_removes(a + b) == count_removes(a) + count_removes(b),
    decreases b.len(),
{
    if b.len() == 0 {
        assert(a + b =~= a);
    } else {
        assert((a + b).drop_last() =~= a + b.drop_last());
        lemma_count_removes_concat(a, b.drop_last());
    }
}

/// A session emits exactly one removal event when some observation
/// ends it, and none while it is still reading.
pub proof fn lemma_session_one_removal(inputs: Seq<SessionInputView>)
    ensures
        (exists|i: int| 0 <= i < inputs.len() && is_terminal(#[trigger] inputs[i]))
            ==> count_removes(session_run(inputs)) == 1,
        (forall|i: int| 0 <= i < inputs.len() ==> !is_terminal(#[trigger] inputs[i]))
            ==> count_removes(session_run(inputs)) == 0,
    decreases inputs.len(),
{
    reveal_with_fuel(count_removes, 4);
    if inputs.len() > 0 {
        let (go_on, effects) = session_step_spec(inputs[0]);
        lemma_session_one_removal(inputs.drop_first());
        if go_on {
            lemma_count_removes_concat(effects, session_run(inputs.drop_first()));
            assert(count_removes(effects) == 0);
            if exists|i: int| 0 <= i < inputs.len() && is_terminal(#[trigger] inputs[i]) {
                let i = choose|i: int| 0 <= i < inputs.len() && is_terminal(#[trigger] inputs[i]);
                assert(i > 0);
                assert(inputs.drop_first()[i - 1] == inputs[i]);
            }
        } else {
            assert(is_terminal(inputs[0]));
            assert(count_removes(effects) == 1);
        }
    }
}

/// A handshake that times out: the session writes the timeout
/// diagnostic, closes the socket, and emits exactly one removal event.
pub proof fn lemma_handshake_timeout_closes(inputs: Seq<SessionInputView>)
    requires
        inputs.len() > 0,
        inputs[0] == SessionInputView::HandshakeTimeout,
    ensures
        session_run(inputs) == seq![
            SessionEffectView::WriteText(msg_handshake_timeout()),
            SessionEffectView::CloseSocket,
            SessionEffectView::EmitRemove,
        ],
        count_removes(session_run(inputs)) == 1,
{
    reveal_with_fuel(count_removes, 4);
}

} // verus!
