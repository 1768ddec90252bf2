//! The wire protocol: the handshake verbs that classify a fresh
//! connection, the client command grammar, and the texts of every reply
//! the server writes.
//!
//! Lines are byte strings without their trailing newline; the
//! surrounding application does the framing. The handshake verb is
//! matched without regard to ASCII case; the dialing side of the node
//! protocol says `JOIN`, a joining session says `JOINNODE`, and both
//! are accepted as the node-join verb.

use vstd::prelude::*;

use crate::addr::NetAddr;
use crate::text::{
    addr_repr, all_digits, append_bytes, bytes_eq, copy_bytes, dec_value, parse_addr,
    parse_addr_spec, render_addr, tokenize, tokens_of,
};

verus! {

/// The classification a handshake line asks for.
#[derive(Clone, Copy, PartialEq, Eq, Structural, Debug)]
pub enum JoinMessage {
    /// A node asks to join the tree; `reply` is where it listens.
    NodeJoin { reply: NetAddr },
    /// An ordinary client.
    Client,
}

/// A parsed client command.
pub enum ClientMessage {
    SetKey { key: Vec<u8>, ttl_secs: u64 },
    SetValue { key: Vec<u8>, value: Vec<u8> },
    GetValue { key: Vec<u8> },
}

/// The mathematical shape of a client command.
#[verifier::ext_equal]
pub enum ClientMessageView {
    SetKey { key: Seq<u8>, ttl_secs: u64 },
    SetValue { key: Seq<u8>, value: Seq<u8> },
    GetValue { key: Seq<u8> },
}

impl View for ClientMessage {
    type V = ClientMessageView;

    open spec fn view(&self) -> ClientMessageView {
        match self {
            ClientMessage::SetKey { key, ttl_secs } => ClientMessageView::SetKey {
                key: key@,
                ttl_secs: *ttl_secs,
            },
            ClientMessage::SetValue { key, value } => ClientMessageView::SetValue {
                key: key@,
                value: value@,
            },
            ClientMessage::GetValue { key } => ClientMessageView::GetValue { key: key@ },
        }
    }
}

/// Lower-cases one ASCII byte.
pub open spec fn to_lower(b: u8) -> u8 {
    if 65 <= b <= 90 {
        (b + 32) as u8
    } else {
        b
    }
}

/// Lower-cases a byte string.
pub open spec fn lower_seq(s: Seq<u8>) -> Seq<u8> {
    Seq::new(s.len(), |i: int| to_lower(s[i]))
}

/// Lower-cases a byte string, for case-blind verb comparison.
pub fn lower_bytes(s: &[u8]) -> (r: Vec<u8>)
    ensures
        r@ == lower_seq(s@),
{
    let mut r: Vec<u8> = Vec::new();
    let mut i: usize = 0;
    while i < s.len()
        invariant
            0 <= i <= s.len(),
            r@ == lower_seq(s@).take(i as int),
        decreases s.len() - i,
    {
        let b = s[i];
        let l = if 65 <= b && b <= 90 {
            b + 32
        } else {
            b
        };
        r.push(l);
        proof {
            assert(r@ =~= lower_seq(s@).take(i + 1));
        }
        i = i + 1;
    }
    proof {
        assert(lower_seq(s@).take(s@.len() as int) =~= lower_seq(s@));
    }
    r
}

pub open spec fn verb_joinnode() -> Seq<u8> {
    seq![106, 111, 105, 110, 110, 111, 100, 101]
}

pub open spec fn verb_join() -> Seq<u8> {
    seq![106, 111, 105, 110]
}

pub open spec fn verb_client() -> Seq<u8> {
    seq![99, 108, 105, 101, 110, 116]
}

pub open spec fn verb_get() -> Seq<u8> {
    seq![71, 69, 84]
}

pub open spec fn verb_set() -> Seq<u8> {
    seq![83, 69, 84]
}

fn verb_joinnode_bytes() -> (r: Vec<u8>)
    ensures
        r@ == verb_joinnode(),
{
    let mut v: Vec<u8> = Vec::new();
    v.push(106);
    v.push(111);
    v.push(105);
    v.push(110);
    v.push(110);
    v.push(111);
    v.push(100);
    v.push(101);
    proof {
        assert(v@ =~= verb_joinnode());
    }
    v
}

fn verb_join_bytes() -> (r: Vec<u8>)
    ensures
        r@ == verb_join(),
{
    let mut v: Vec<u8> = Vec::new();
    v.push(106);
    v.push(111);
    v.push(105);
    v.push(110);
    proof {
        assert(v@ =~= verb_join());
    }
    v
}

fn verb_client_bytes() -> (r: Vec<u8>)
    ensures
        r@ == verb_client(),
{
    let mut v: Vec<u8> = Vec::new();
    v.push(99);
    v.push(108);
    v.push(105);
    v.push(101);
    v.push(110);
    v.push(116);
    proof {
        assert(v@ =~= verb_client());
    }
    v
}

fn verb_get_bytes() -> (r: Vec<u8>)
    ensures
        r@ == verb_get(),
{
    let mut v: Vec<u8> = Vec::new();
    v.push(71);
    v.push(69);
    v.push(84);
    proof {
        assert(v@ =~= verb_get());
    }
    v
}

fn verb_set_bytes() -> (r: Vec<u8>)
    ensures
        r@ == verb_set(),
{
    let mut v: Vec<u8> = Vec::new();
    v.push(83);
    v.push(69);
    v.push(84);
    proof {
        assert(v@ =~= verb_set());
    }
    v
}

/// What a handshake line means: `JOINNODE <replyAddr>` (or the dialing
/// side's `JOIN <replyAddr>`) classifies the connection as a joining
/// node, a bare `CLIENT` as a client; anything else is invalid.
pub open spec fn parse_join_spec(line: Seq<u8>) -> Option<JoinMessage> {
    let ts = tokens_of(line);
    if ts.len() == 1 && lower_seq(ts[0]) == verb_client() {
        Some(JoinMessage::Client)
    } else if ts.len() == 2 && (lower_seq(ts[0]) == verb_joinnode() || lower_seq(ts[0])
        == verb_join()) {
        match parse_addr_spec(ts[1]) {
            Some(a) => Some(JoinMessage::NodeJoin { reply: a }),
            None => None,
        }
    } else {
        None
    }
}

/// Classifies a handshake line.
pub fn parse_join_message(line: &[u8]) -> (r: Option<JoinMessage>)
    ensures
        r == parse_join_spec(line@),
{
    let toks = tokenize(line);
    if toks.len() == 1 {
        let low = lower_bytes(toks[0].as_slice());
        let pat = verb_client_bytes();
        if bytes_eq(low.as_slice(), pat.as_slice()) {
            return Some(JoinMessage::Client);
        }
        return None;
    }
    if toks.len() == 2 {
        let low = lower_bytes(toks[0].as_slice());
        let pat_node = verb_joinnode_bytes();
        let pat_join = verb_join_bytes();
        if bytes_eq(low.as_slice(), pat_node.as_slice()) || bytes_eq(
            low.as_slice(),
            pat_join.as_slice(),
        ) {
            return match parse_addr(toks[1].as_slice()) {
                Some(a) => Some(JoinMessage::NodeJoin { reply: a }),
                None => None,
            };
        }
        return None;
    }
    None
}

/// What a client line means in the key-awaiting state: `GET <key>`
/// reads, `SET <key> [<ttlSeconds>]` opens an entry — with the given
/// time-to-live when a well-formed number follows, the caller's default
/// when nothing follows — and anything else fails to parse. Tokens past
/// the ones the grammar names are ignored.
pub open spec fn parse_client_spec(line: Seq<u8>, default_ttl: u64) -> Option<
    ClientMessageView,
> {
    let ts = tokens_of(line);
    if ts.len() >= 2 && ts[0] == verb_get() {
        Some(ClientMessageView::GetValue { key: ts[1] })
    } else if ts.len() >= 2 && ts[0] == verb_set() {
        if ts.len() == 2 {
            Some(ClientMessageView::SetKey { key: ts[1], ttl_secs: default_ttl })
        } else if ts[2].len() > 0 && all_digits(ts[2]) && dec_value(ts[2]) <= u64::MAX {
            Some(
                ClientMessageView::SetKey { key: ts[1], ttl_secs: dec_value(ts[2]) as u64 },
            )
        } else {
            None
        }
    } else {
        None
    }
}

/// Parses a client command line.
pub fn parse_client_message(line: &[u8], default_ttl: u64) -> (r: Option<ClientMessage>)
    ensures
        match r {
            Some(m) => parse_client_spec(line@, default_ttl) == Some(m@),
            None => parse_client_spec(line@, default_ttl) is None,
        },
{
    let toks = tokenize(line);
    if toks.len() < 2 {
        return None;
    }
    let pat_get = verb_get_bytes();
    let pat_set = verb_set_bytes();
    if bytes_eq(toks[0].as_slice(), pat_get.as_slice()) {
        let key = copy_bytes(toks[1].as_slice());
        return Some(ClientMessage::GetValue { key });
    }
    if bytes_eq(toks[0].as_slice(), pat_set.as_slice()) {
        let key = copy_bytes(toks[1].as_slice());
        if toks.len() == 2 {
            return Some(ClientMessage::SetKey { key, ttl_secs: default_ttl });
        }
        return match crate::text::parse_u64(toks[2].as_slice()) {
            Some(secs) => Some(ClientMessage::SetKey { key, ttl_secs: secs }),
            None => None,
        };
    }
    None
}

/// The acceptance reply of the node protocol.
pub open spec fn msg_ok() -> Seq<u8> {
    seq![79, 75, 10]
}

pub fn msg_ok_bytes() -> (r: Vec<u8>)
    ensures
        r@ == msg_ok(),
{
    let mut v: Vec<u8> = Vec::new();
    v.push(79);
    v.push(75);
    v.push(10);
    proof {
        assert(v@ =~= msg_ok());
    }
    v
}

/// The deferral reply: `DEFERRED <addr:port>`.
pub open spec fn msg_deferred(a: NetAddr) -> Seq<u8> {
    seq![68, 69, 70, 69, 82, 82, 69, 68, 32] + addr_repr(a) + seq![10]
}

pub fn msg_deferred_bytes(a: &NetAddr) -> (r: Vec<u8>)
    ensures
        r@ == msg_deferred(*a),
{
    let mut v: Vec<u8> = Vec::new();
    v.push(68);
    v.push(69);
    v.push(70);
    v.push(69);
    v.push(82);
    v.push(82);
    v.push(69);
    v.push(68);
    v.push(32);
    let at = render_addr(a);
    append_bytes(&mut v, at.as_slice());
    v.push(10);
    proof {
        assert(v@ =~= msg_deferred(*a));
    }
    v
}

/// The dial line a node sends its parent: `JOIN <ownAddr>`.
pub open spec fn msg_join_request(a: NetAddr) -> Seq<u8> {
    seq![74, 79, 73, 78, 32] + addr_repr(a) + seq![10]
}

pub fn msg_join_request_bytes(a: &NetAddr) -> (r: Vec<u8>)
    ensures
        r@ == msg_join_request(*a),
{
    let mut v: Vec<u8> = Vec::new();
    v.push(74);
    v.push(79);
    v.push(73);
    v.push(78);
    v.push(32);
    let at = render_addr(a);
    append_bytes(&mut v, at.as_slice());
    v.push(10);
    proof {
        assert(v@ =~= msg_join_request(*a));
    }
    v
}

/// The reply to a line that parses as no command.
pub open spec fn msg_parse_error() -> Seq<u8> {
    spec_text_bytes(
        seq![
            67, 111, 117, 108, 100, 32, 110, 111, 116, 32, 112, 97, 114, 115,
            101, 32, 116, 104, 101, 32, 109, 101, 115, 115, 97, 103, 101,
        ],
    )
}

/// A line of reply text: the given bytes with a closing newline.
pub open spec fn spec_text_bytes(s: Seq<u8>) -> Seq<u8> {
    s + seq![10]
}

pub fn msg_parse_error_bytes() -> (r: Vec<u8>)
    ensures
        r@ == msg_parse_error(),
{
    let mut v: Vec<u8> = Vec::new();
    v.push(67);
    v.push(111);
    v.push(117);
    v.push(108);
    v.push(100);
    v.push(32);
    v.push(110);
    v.push(111);
    v.push(116);
    v.push(32);
    v.push(112);
    v.push(97);
    v.push(114);
    v.push(115);
    v.push(101);
    v.push(32);
    v.push(116);
    v.push(104);
    v.push(101);
    v.push(32);
    v.push(109);
    v.push(101);
    v.push(115);
    v.push(115);
    v.push(97);
    v.push(103);
    v.push(101);
    v.push(10);
    proof {
        assert(v@ =~= msg_parse_error());
    }
    v
}

/// The diagnostic written when the first line is no handshake verb.
pub open spec fn msg_bad_handshake() -> Seq<u8> {
    spec_text_bytes(
        seq![
            69, 120, 112, 101, 99, 116, 101, 100, 32, 74, 79, 73, 78, 78,
            79, 68, 69, 32, 111, 114, 32, 67, 76, 73, 69, 78, 84,
        ],
    )
}

pub fn msg_bad_handshake_bytes() -> (r: Vec<u8>)
    ensures
        r@ == msg_bad_handshake(),
{
    let mut v: Vec<u8> = Vec::new();
    v.push(69);
    v.push(120);
    v.push(112);
    v.push(101);
    v.push(99);
    v.push(116);
    v.push(101);
    v.push(100);
    v.push(32);
    v.push(74);
    v.push(79);
    v.push(73);
    v.push(78);
    v.push(78);
    v.push(79);
    v.push(68);
    v.push(69);
    v.push(32);
    v.push(111);
    v.push(114);
    v.push(32);
    v.push(67);
    v.push(76);
    v.push(73);
    v.push(69);
    v.push(78);
    v.push(84);
    v.push(10);
    proof {
        assert(v@ =~= msg_bad_handshake());
    }
    v
}

/// The diagnostic written when the handshake deadline passes.
pub open spec fn msg_handshake_timeout() -> Seq<u8> {
    spec_text_bytes(
        seq![
            72, 97, 110, 100, 115, 104, 97, 107, 101, 32, 116, 105, 109, 101,
            111, 117, 116,
        ],
    )
}

pub fn msg_handshake_timeout_bytes() -> (r: Vec<u8>)
    ensures
        r@ == msg_handshake_timeout(),
{
    let mut v: Vec<u8> = Vec::new();
    v.push(72);
    v.push(97);
    v.push(110);
    v.push(100);
    v.push(115);
    v.push(104);
    v.push(97);
    v.push(107);
    v.push(101);
    v.push(32);
    v.push(116);
    v.push(105);
    v.push(109);
    v.push(101);
    v.push(111);
    v.push(117);
    v.push(116);
    v.push(10);
    proof {
        assert(v@ =~= msg_handshake_timeout());
    }
    v
}

/// The reply when a key is absent or expired: `KEY={k} does not exists`.
pub open spec fn msg_not_exists(k: Seq<u8>) -> Seq<u8> {
    seq![75, 69, 89, 61, 123] + k + spec_text_bytes(
        seq![
            125, 32, 100, 111, 101, 115, 32, 110, 111, 116, 32, 101, 120, 105,
            115, 116, 115,
        ],
    )
}

pub fn msg_not_exists_bytes(k: &[u8]) -> (r: Vec<u8>)
    ensures
        r@ == msg_not_exists(k@),
{
    let mut v: Vec<u8> = Vec::new();
    v.push(75);
    v.push(69);
    v.push(89);
    v.push(61);
    v.push(123);
    append_bytes(&mut v, k);
    v.push(125);
    v.push(32);
    v.push(100);
    v.push(111);
    v.push(101);
    v.push(115);
    v.push(32);
    v.push(110);
    v.push(111);
    v.push(116);
    v.push(32);
    v.push(101);
    v.push(120);
    v.push(105);
    v.push(115);
    v.push(116);
    v.push(115);
    v.push(10);
    proof {
        assert(v@ =~= msg_not_exists(k@));
    }
    v
}

/// The reply when a key exists but its value step has not arrived:
/// `KEY={k} is empty`.
pub open spec fn msg_is_empty(k: Seq<u8>) -> Seq<u8> {
    seq![75, 69, 89, 61, 123] + k + spec_text_bytes(
        seq![125, 32, 105, 115, 32, 101, 109, 112, 116, 121],
    )
}

pub fn msg_is_empty_bytes(k: &[u8]) -> (r: Vec<u8>)
    ensures
        r@ == msg_is_empty(k@),
{
    let mut v: Vec<u8> = Vec::new();
    v.push(75);
    v.push(69);
    v.push(89);
    v.push(61);
    v.push(123);
    append_bytes(&mut v, k);
    v.push(125);
    v.push(32);
    v.push(105);
    v.push(115);
    v.push(32);
    v.push(101);
    v.push(109);
    v.push(112);
    v.push(116);
    v.push(121);
    v.push(10);
    proof {
        assert(v@ =~= msg_is_empty(k@));
    }
    v
}

} // verus!
