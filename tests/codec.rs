use tcp_punchhole::codec::{
    decode_peer_message, decode_registration, encode_endpoint, encode_peers, ip_parser,
    parse_port, push_decimal, CodecError, PeerRecord,
};

fn record(remote: &str, remote_port: u16, local: &str, local_port: u16) -> PeerRecord {
    PeerRecord {
        local_address: local.to_string(),
        local_port,
        remote_address: remote.to_string(),
        remote_port,
    }
}

#[test]
fn ip_parser_splits_ipv4() {
    assert_eq!(
        ip_parser("192.168.1.5:4000"),
        Some(("192.168.1.5".to_string(), "4000".to_string()))
    );
}

#[test]
fn ip_parser_splits_at_last_colon() {
    assert_eq!(ip_parser("::1:4000"), Some(("::1".to_string(), "4000".to_string())));
    assert_eq!(
        ip_parser("0:0:0:0:0:0:0:1:51234"),
        Some(("0:0:0:0:0:0:0:1".to_string(), "51234".to_string()))
    );
}

#[test]
fn ip_parser_without_colon() {
    assert_eq!(ip_parser("localhost"), None);
    assert_eq!(ip_parser(""), None);
}

#[test]
fn decode_registration_examples() {
    assert_eq!(decode_registration("192.168.1.5:4000"), Ok(("192.168.1.5".to_string(), 4000)));
    assert_eq!(decode_registration("::1:4000"), Ok(("::1".to_string(), 4000)));
}

#[test]
fn decode_registration_errors() {
    assert_eq!(decode_registration("10.0.0.1"), Err(CodecError::MalformedEndpoint));
    assert_eq!(decode_registration("10.0.0.1:"), Err(CodecError::MalformedEndpoint));
    assert_eq!(decode_registration("10.0.0.1:65536"), Err(CodecError::MalformedEndpoint));
    assert_eq!(decode_registration("10.0.0.1:40a"), Err(CodecError::MalformedEndpoint));
    assert_eq!(decode_registration("10.0.0.1:-1"), Err(CodecError::MalformedEndpoint));
}

#[test]
fn parse_port_values() {
    assert_eq!(parse_port("0"), Some(0));
    assert_eq!(parse_port("65535"), Some(65535));
    assert_eq!(parse_port("007"), Some(7));
    assert_eq!(parse_port("+80"), Some(80));
    assert_eq!(parse_port("65536"), None);
    assert_eq!(parse_port("99999999999999999999"), None);
    assert_eq!(parse_port(""), None);
    assert_eq!(parse_port("+"), None);
    assert_eq!(parse_port("8 0"), None);
}

#[test]
fn parse_port_agrees_with_std() {
    for text in ["1", "12", "123", "1234", "12345", "65535", "65536", "+7", "x", "", "00000000042"] {
        assert_eq!(parse_port(text), text.parse::<u16>().ok(), "{}", text);
    }
}

#[test]
fn decimal_text() {
    let mut out = String::from("p=");
    push_decimal(&mut out, 0);
    assert_eq!(out, "p=0");
    let mut out = String::new();
    push_decimal(&mut out, 65535);
    assert_eq!(out, "65535");
    let mut out = String::new();
    push_decimal(&mut out, 1009);
    assert_eq!(out, "1009");
}

#[test]
fn endpoint_text() {
    assert_eq!(encode_endpoint("10.0.0.5", 5001), "10.0.0.5:5001");
    assert_eq!(encode_endpoint("::1", 80), "::1:80");
}

#[test]
fn encode_one_record() {
    let peers = vec![record("203.0.113.7", 40001, "10.0.0.9", 5002)];
    assert_eq!(encode_peers(&peers), "203.0.113.7:40001|10.0.0.9:5002");
}

#[test]
fn encode_two_records_joined_by_comma() {
    let peers = vec![record("1.1.1.1", 1, "10.0.0.1", 2), record("2.2.2.2", 3, "10.0.0.2", 4)];
    assert_eq!(encode_peers(&peers), "1.1.1.1:1|10.0.0.1:2,2.2.2.2:3|10.0.0.2:4");
}

#[test]
fn encode_empty_list() {
    assert_eq!(encode_peers(&vec![]), "");
}

#[test]
fn decode_peer_message_pairs() {
    let pairs = decode_peer_message("1.1.1.1:1|10.0.0.1:2,2.2.2.2:3|10.0.0.2:4").unwrap();
    assert_eq!(
        pairs,
        vec![
            ("1.1.1.1:1".to_string(), "10.0.0.1:2".to_string()),
            ("2.2.2.2:3".to_string(), "10.0.0.2:4".to_string()),
        ]
    );
}

#[test]
fn decode_peer_message_errors() {
    assert_eq!(decode_peer_message("1.1.1.1:1"), Err(CodecError::MalformedPeerList));
    assert_eq!(decode_peer_message("a|b|c"), Err(CodecError::MalformedPeerList));
    assert_eq!(decode_peer_message("a|b,c"), Err(CodecError::MalformedPeerList));
    assert_eq!(decode_peer_message(""), Err(CodecError::MalformedPeerList));
}

#[test]
fn peer_list_round_trip() {
    let peers = vec![
        record("203.0.113.7", 40001, "10.0.0.9", 5002),
        record("::1", 3001, "fe80::1", 0),
        record("203.0.113.7", 40001, "10.0.0.9", 5002),
    ];
    let pairs = decode_peer_message(&encode_peers(&peers)).unwrap();
    assert_eq!(pairs.len(), peers.len());
    for (pair, p) in pairs.iter().zip(peers.iter()) {
        assert_eq!(decode_registration(&pair.0), Ok((p.remote_address.clone(), p.remote_port)));
        assert_eq!(decode_registration(&pair.1), Ok((p.local_address.clone(), p.local_port)));
    }
}
