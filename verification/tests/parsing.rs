use rscache::addr::NetAddr;
use rscache::message::{parse_client_message, parse_join_message, ClientMessage, JoinMessage};
use rscache::text::{parse_addr, parse_u64, render_addr, render_u64, tokenize};

#[test]
fn tokenize_splits_on_whitespace() {
    let toks = tokenize(b"  GET   foo ");
    assert_eq!(toks.len(), 2);
    assert_eq!(toks[0], b"GET".to_vec());
    assert_eq!(toks[1], b"foo".to_vec());
}

#[test]
fn tokenize_empty_line() {
    let toks = tokenize(b"   ");
    assert_eq!(toks.len(), 0);
}

#[test]
fn parse_u64_reads_digits() {
    assert_eq!(parse_u64(b"42"), Some(42));
    assert_eq!(parse_u64(b"0"), Some(0));
    assert_eq!(parse_u64(b"18446744073709551615"), Some(u64::MAX));
}

#[test]
fn parse_u64_rejects_bad_input() {
    assert_eq!(parse_u64(b""), None);
    assert_eq!(parse_u64(b"4x2"), None);
    assert_eq!(parse_u64(b"-3"), None);
    assert_eq!(parse_u64(b"18446744073709551616"), None);
}

#[test]
fn render_u64_writes_decimal() {
    assert_eq!(render_u64(0), b"0".to_vec());
    assert_eq!(render_u64(7), b"7".to_vec());
    assert_eq!(render_u64(12345), b"12345".to_vec());
    assert_eq!(render_u64(u64::MAX), b"18446744073709551615".to_vec());
}

#[test]
fn parse_addr_reads_dotted_form() {
    assert_eq!(
        parse_addr(b"127.0.0.1:8080"),
        Some(NetAddr { ip0: 127, ip1: 0, ip2: 0, ip3: 1, port: 8080 })
    );
    assert_eq!(
        parse_addr(b"10.0.0.2:7001"),
        Some(NetAddr { ip0: 10, ip1: 0, ip2: 0, ip3: 2, port: 7001 })
    );
}

#[test]
fn parse_addr_rejects_bad_forms() {
    assert_eq!(parse_addr(b"1.2.3:4"), None);
    assert_eq!(parse_addr(b"256.1.1.1:1"), None);
    assert_eq!(parse_addr(b"1.2.3.4:70000"), None);
    assert_eq!(parse_addr(b"1.2.3.4"), None);
    assert_eq!(parse_addr(b""), None);
}

#[test]
fn render_addr_round_trips() {
    let a = NetAddr { ip0: 127, ip1: 0, ip2: 0, ip3: 1, port: 8080 };
    let text = render_addr(&a);
    assert_eq!(text, b"127.0.0.1:8080".to_vec());
    assert_eq!(parse_addr(&text), Some(a));
}

#[test]
fn client_parse_get() {
    match parse_client_message(b"GET foo", 60) {
        Some(ClientMessage::GetValue { key }) => assert_eq!(key, b"foo".to_vec()),
        _ => panic!("expected a GET command"),
    }
}

#[test]
fn client_parse_set_with_ttl() {
    match parse_client_message(b"SET foo 2", 60) {
        Some(ClientMessage::SetKey { key, ttl_secs }) => {
            assert_eq!(key, b"foo".to_vec());
            assert_eq!(ttl_secs, 2);
        }
        _ => panic!("expected a SET command"),
    }
}

#[test]
fn client_parse_set_default_ttl() {
    match parse_client_message(b"SET foo", 60) {
        Some(ClientMessage::SetKey { key, ttl_secs }) => {
            assert_eq!(key, b"foo".to_vec());
            assert_eq!(ttl_secs, 60);
        }
        _ => panic!("expected a SET command"),
    }
}

#[test]
fn client_parse_rejects_bad_lines() {
    assert!(parse_client_message(b"SET foo abc", 60).is_none());
    assert!(parse_client_message(b"SET", 60).is_none());
    assert!(parse_client_message(b"GET", 60).is_none());
    assert!(parse_client_message(b"hello there", 60).is_none());
    assert!(parse_client_message(b"", 60).is_none());
    assert!(parse_client_message(b"get foo", 60).is_none());
}

#[test]
fn client_parse_ttl_overflow_fails() {
    assert!(parse_client_message(b"SET k 99999999999999999999999", 60).is_none());
}

#[test]
fn join_parse_client_verb() {
    assert_eq!(parse_join_message(b"CLIENT"), Some(JoinMessage::Client));
    assert_eq!(parse_join_message(b"client"), Some(JoinMessage::Client));
    assert_eq!(parse_join_message(b"  Client  "), Some(JoinMessage::Client));
}

#[test]
fn join_parse_node_verbs() {
    let reply = NetAddr { ip0: 1, ip1: 2, ip2: 3, ip3: 4, port: 5 };
    assert_eq!(
        parse_join_message(b"JOINNODE 1.2.3.4:5"),
        Some(JoinMessage::NodeJoin { reply })
    );
    assert_eq!(
        parse_join_message(b"JOIN 1.2.3.4:5"),
        Some(JoinMessage::NodeJoin { reply })
    );
}

#[test]
fn join_parse_rejects_bad_lines() {
    assert_eq!(parse_join_message(b"JOINNODE"), None);
    assert_eq!(parse_join_message(b"JOINNODE nowhere"), None);
    assert_eq!(parse_join_message(b"HELLO"), None);
    assert_eq!(parse_join_message(b""), None);
    assert_eq!(parse_join_message(b"CLIENT extra"), None);
}
