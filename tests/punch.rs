use tcp_punchhole::codec::CodecError;
use tcp_punchhole::punch::{
    punch_targets, ConnectorAction, ConnectorEvent, ConnectorPhase, PunchSession, Side,
};

#[test]
fn targets_of_first_entry() {
    assert_eq!(
        punch_targets("198.51.100.2:40001|10.0.0.9:5002"),
        Ok(("198.51.100.2:40001".to_string(), "10.0.0.9:5002".to_string()))
    );
    assert_eq!(
        punch_targets("a:1|b:2,c:3|d:4"),
        Ok(("a:1".to_string(), "b:2".to_string()))
    );
    assert_eq!(punch_targets("a:1"), Err(CodecError::MalformedPeerList));
}

#[test]
fn private_connector_wins_and_public_yields() {
    let mut s = PunchSession::new(None);
    for _ in 0..5 {
        assert_eq!(s.on_event(Side::Public, ConnectorEvent::ConnectFailed), ConnectorAction::Attempt);
        assert_eq!(s.on_event(Side::Private, ConnectorEvent::ConnectFailed), ConnectorAction::Attempt);
    }
    assert!(!s.established);
    assert_eq!(s.on_event(Side::Private, ConnectorEvent::Connected), ConnectorAction::Read);
    assert!(s.established);
    assert_eq!(s.winner, Some(Side::Private));
    assert_eq!(s.on_event(Side::Public, ConnectorEvent::ConnectFailed), ConnectorAction::Stop);
    assert_eq!(s.public, ConnectorPhase::Done);
    assert_eq!(s.on_event(Side::Private, ConnectorEvent::ReadMore), ConnectorAction::Read);
    assert_eq!(s.on_event(Side::Private, ConnectorEvent::PeerClosed), ConnectorAction::Stop);
    assert_eq!(s.private, ConnectorPhase::Done);
    assert!(s.established);
}

#[test]
fn attempts_run_out() {
    let mut s = PunchSession::new(Some(2));
    assert_eq!(s.on_event(Side::Public, ConnectorEvent::Ready), ConnectorAction::Attempt);
    assert_eq!(s.on_event(Side::Public, ConnectorEvent::ConnectFailed), ConnectorAction::Attempt);
    assert_eq!(s.on_event(Side::Public, ConnectorEvent::ConnectFailed), ConnectorAction::Stop);
    assert_eq!(s.public, ConnectorPhase::Done);
    assert_eq!(s.private, ConnectorPhase::Connecting);
    assert_eq!(s.on_event(Side::Private, ConnectorEvent::Ready), ConnectorAction::Attempt);
}

#[test]
fn second_connection_keeps_first_winner() {
    let mut s = PunchSession::new(None);
    s.on_event(Side::Public, ConnectorEvent::Connected);
    assert_eq!(s.on_event(Side::Private, ConnectorEvent::Connected), ConnectorAction::Read);
    assert_eq!(s.winner, Some(Side::Public));
}
