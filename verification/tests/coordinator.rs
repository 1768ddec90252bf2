use rscache::addr::NetAddr;
use rscache::config::Config;
use rscache::server::{Action, DialOutcome, Server, ServerMessages};

fn test_config(max_nodes: Option<u16>) -> Config {
    Config { port: Some(4000), parent: None, cleanup_time: Some(5), max_nodes }
}

fn addr(last: u8, port: u16) -> NetAddr {
    NetAddr { ip0: 127, ip1: 0, ip2: 0, ip3: last, port }
}

fn line(server: &mut Server, a: NetAddr, text: &[u8], now: u64) -> Vec<Action> {
    server.handle_event(ServerMessages::NewMessage(text.to_vec(), a), now)
}

fn connect_client(server: &mut Server, a: NetAddr) {
    let acts = server.handle_event(ServerMessages::NewClient(a), 0);
    assert!(matches!(acts.as_slice(), [Action::StartRead(x)] if *x == a));
    let acts = line(server, a, b"CLIENT", 0);
    assert!(acts.is_empty());
}

fn reply_bytes(acts: &[Action], expect_to: NetAddr) -> Vec<u8> {
    match acts {
        [Action::Reply(to, bytes)] => {
            assert_eq!(*to, expect_to);
            bytes.clone()
        }
        _ => panic!("expected exactly one reply"),
    }
}

#[test]
fn end_to_end_set_get_expire() {
    // The example scenario: handshake, SET foo 2, the value line, a hit
    // at t + 1 and an eviction at t + 3.
    let mut server = Server::new(&test_config(None), None);
    let a = addr(1, 9000);
    connect_client(&mut server, a);
    let t = 1_000;
    assert!(line(&mut server, a, b"SET foo 2", t).is_empty());
    assert!(line(&mut server, a, b"bar", t).is_empty());
    let acts = line(&mut server, a, b"GET foo", t + 1);
    assert_eq!(reply_bytes(&acts, a), b"bar".to_vec());
    let acts = line(&mut server, a, b"GET foo", t + 3);
    assert_eq!(reply_bytes(&acts, a), b"KEY={foo} does not exists\n".to_vec());
}

#[test]
fn get_without_set_key_reports_absence() {
    let mut server = Server::new(&test_config(None), None);
    let a = addr(1, 9000);
    connect_client(&mut server, a);
    let acts = line(&mut server, a, b"GET nothing", 5);
    assert_eq!(reply_bytes(&acts, a), b"KEY={nothing} does not exists\n".to_vec());
}

#[test]
fn get_before_value_reports_empty() {
    let mut server = Server::new(&test_config(None), None);
    let a = addr(1, 9000);
    connect_client(&mut server, a);
    assert!(line(&mut server, a, b"SET foo 60", 5).is_empty());
    // A second client reads while the value step has not arrived.
    let b = addr(2, 9001);
    connect_client(&mut server, b);
    let acts = line(&mut server, b, b"GET foo", 6);
    assert_eq!(reply_bytes(&acts, b), b"KEY={foo} is empty\n".to_vec());
}

#[test]
fn value_line_is_never_reparsed() {
    // While a value is awaited, a line shaped like a command is taken
    // verbatim as the value.
    let mut server = Server::new(&test_config(None), None);
    let a = addr(1, 9000);
    connect_client(&mut server, a);
    assert!(line(&mut server, a, b"SET foo 60", 5).is_empty());
    assert!(line(&mut server, a, b"GET sneaky", 5).is_empty());
    let acts = line(&mut server, a, b"GET foo", 6);
    assert_eq!(reply_bytes(&acts, a), b"GET sneaky".to_vec());
}

#[test]
fn unparsable_command_answers_visibly() {
    let mut server = Server::new(&test_config(None), None);
    let a = addr(1, 9000);
    connect_client(&mut server, a);
    let acts = line(&mut server, a, b"FROB foo", 5);
    assert_eq!(reply_bytes(&acts, a), b"Could not parse the message\n".to_vec());
    // The state is unchanged: a well-formed command still works.
    assert!(line(&mut server, a, b"SET k 60", 5).is_empty());
}

#[test]
fn bad_handshake_is_fatal() {
    let mut server = Server::new(&test_config(None), None);
    let a = addr(1, 9000);
    server.handle_event(ServerMessages::NewClient(a), 0);
    let acts = line(&mut server, a, b"HELLO", 0);
    match acts.as_slice() {
        [Action::Reply(to, bytes), Action::Close(c)] => {
            assert_eq!(*to, a);
            assert_eq!(*c, a);
            assert_eq!(bytes.clone(), b"Expected JOINNODE or CLIENT\n".to_vec());
        }
        _ => panic!("expected a diagnostic and a close"),
    }
    // The session is gone: further lines are dropped silently.
    assert!(line(&mut server, a, b"GET foo", 1).is_empty());
}

#[test]
fn remove_client_closes_once() {
    let mut server = Server::new(&test_config(None), None);
    let a = addr(1, 9000);
    connect_client(&mut server, a);
    let acts = server.handle_event(ServerMessages::RemoveClient(a), 1);
    assert!(matches!(acts.as_slice(), [Action::Close(x)] if *x == a));
    // Removing an unknown session is a benign no-op.
    let acts = server.handle_event(ServerMessages::RemoveClient(a), 2);
    assert!(acts.is_empty());
}

#[test]
fn join_below_capacity_is_accepted() {
    let mut server = Server::new(&test_config(Some(3)), None);
    let a = addr(1, 9000);
    server.handle_event(ServerMessages::NewClient(a), 0);
    let acts = line(&mut server, a, b"JOINNODE 10.0.0.1:7001", 0);
    assert_eq!(reply_bytes(&acts, a), b"OK\n".to_vec());
}

#[test]
fn fourth_join_is_deferred_never_ok() {
    // With max_nodes = 3 and three nodes already joined, the fourth
    // candidate is redirected to an existing child.
    let mut server = Server::new(&test_config(Some(3)), None);
    for i in 1..=3u8 {
        let a = addr(i, 9000 + i as u16);
        server.handle_event(ServerMessages::NewClient(a), 0);
        let joinline = format!("JOINNODE 10.0.0.{}:700{}", i, i);
        let acts = line(&mut server, a, joinline.as_bytes(), 0);
        assert_eq!(reply_bytes(&acts, a), b"OK\n".to_vec());
    }
    let late = addr(9, 9999);
    server.handle_event(ServerMessages::NewClient(late), 0);
    let acts = line(&mut server, late, b"JOINNODE 10.0.0.9:7009", 0);
    let reply = reply_bytes(&acts, late);
    assert_ne!(reply, b"OK\n".to_vec());
    assert_eq!(reply, b"DEFERRED 10.0.0.1:7001\n".to_vec());
    // Round-robin: the next deferred candidate is sent to the next child.
    let later = addr(10, 9998);
    server.handle_event(ServerMessages::NewClient(later), 0);
    let acts = line(&mut server, later, b"JOINNODE 10.0.0.10:7010", 0);
    assert_eq!(reply_bytes(&acts, later), b"DEFERRED 10.0.0.2:7002\n".to_vec());
}

#[test]
fn join_request_event_matches_handshake_path() {
    let mut server = Server::new(&test_config(Some(1)), None);
    let a = addr(1, 9000);
    server.handle_event(ServerMessages::NewClient(a), 0);
    let listen = NetAddr { ip0: 10, ip1: 0, ip2: 0, ip3: 1, port: 7001 };
    let acts = server.handle_event(ServerMessages::JoinRequest(a, listen), 0);
    assert_eq!(reply_bytes(&acts, a), b"OK\n".to_vec());
    // The accepted node left the client table: a further join request
    // from the same address is ignored.
    let acts = server.handle_event(ServerMessages::JoinRequest(a, listen), 0);
    assert!(acts.is_empty());
}

#[test]
fn join_timeout_drops_parent_link() {
    let parent = addr(8, 8000);
    let mut server = Server::new(&test_config(None), Some(parent));
    let acts = server.handle_event(ServerMessages::JoinTimeout, 0);
    assert!(acts.is_empty());
}

#[test]
fn batch_replay_equals_serial_processing() {
    // The same events, once as a batch and once one at a time, leave
    // the store in the same state — observed through later reads.
    let a = addr(1, 9000);
    let b = addr(2, 9001);
    let events: Vec<(ServerMessages, u64)> = vec![
        (ServerMessages::NewClient(a), 0),
        (ServerMessages::NewMessage(b"CLIENT".to_vec(), a), 0),
        (ServerMessages::NewClient(b), 0),
        (ServerMessages::NewMessage(b"CLIENT".to_vec(), b), 0),
        (ServerMessages::NewMessage(b"SET shared 60".to_vec(), a), 1),
        (ServerMessages::NewMessage(b"from a".to_vec(), a), 1),
        (ServerMessages::NewMessage(b"SET other 60".to_vec(), b), 2),
        (ServerMessages::NewMessage(b"from b".to_vec(), b), 2),
    ];
    let copy: Vec<(ServerMessages, u64)> = vec![
        (ServerMessages::NewClient(a), 0),
        (ServerMessages::NewMessage(b"CLIENT".to_vec(), a), 0),
        (ServerMessages::NewClient(b), 0),
        (ServerMessages::NewMessage(b"CLIENT".to_vec(), b), 0),
        (ServerMessages::NewMessage(b"SET shared 60".to_vec(), a), 1),
        (ServerMessages::NewMessage(b"from a".to_vec(), a), 1),
        (ServerMessages::NewMessage(b"SET other 60".to_vec(), b), 2),
        (ServerMessages::NewMessage(b"from b".to_vec(), b), 2),
    ];

    let mut batch_server = Server::new(&test_config(None), None);
    batch_server.process_events(events);

    let mut serial_server = Server::new(&test_config(None), None);
    for (ev, t) in copy {
        serial_server.handle_event(ev, t);
    }

    for server in [&mut batch_server, &mut serial_server] {
        let acts = line(server, a, b"GET shared", 3);
        assert_eq!(reply_bytes(&acts, a), b"from a".to_vec());
        let acts = line(server, b, b"GET other", 3);
        assert_eq!(reply_bytes(&acts, b), b"from b".to_vec());
    }
}

#[test]
fn shutdown_closes_every_live_session_once() {
    let mut server = Server::new(&test_config(None), None);
    let a = addr(1, 9000);
    let b = addr(2, 9001);
    connect_client(&mut server, a);
    connect_client(&mut server, b);
    let acts = server.shutdown_actions();
    assert_eq!(acts.len(), 2);
    let mut closed: Vec<NetAddr> = acts
        .iter()
        .map(|act| match act {
            Action::Close(x) => *x,
            _ => panic!("expected only closes"),
        })
        .collect();
    closed.sort_by_key(|x| x.port);
    assert_eq!(closed, vec![a, b]);
}

#[test]
fn dial_step_outcomes() {
    assert_eq!(parent_dial(None), DialOutcome::Standalone);
    assert_eq!(parent_dial(Some(b"OK")), DialOutcome::KeepParent);
    assert_eq!(
        parent_dial(Some(b"DEFERRED 10.0.0.1:7001")),
        DialOutcome::Redial(NetAddr { ip0: 10, ip1: 0, ip2: 0, ip3: 1, port: 7001 })
    );
    assert_eq!(parent_dial(Some(b"NO")), DialOutcome::Standalone);
    assert_eq!(parent_dial(Some(b"DEFERRED somewhere")), DialOutcome::Standalone);
}

fn parent_dial(reply: Option<&[u8]>) -> DialOutcome {
    rscache::server::parent_dial_step(reply)
}
