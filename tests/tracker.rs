use torrent_client::session::{Action, ConnectionState, Exchange, TrackerError, TrackerSession};
use torrent_client::tracker::{
    connect_request, parse_connect_response, AnnounceEventType, IpV4AnnounceAddress,
    IpV4AnnounceRequest, IpV4AnnounceResponse,
};

fn sample_request() -> IpV4AnnounceRequest {
    IpV4AnnounceRequest {
        connection_id: 0x0102030405060708,
        action: 1,
        transaction_id: 0xAABBCCDD,
        info_hash: [7u8; 20],
        peer_id: [9u8; 20],
        downloaded: 1,
        left: 2,
        uploaded: 3,
        event: AnnounceEventType::Started,
        ip_address: 0,
        key: 0x11223344,
        num_want: 0xFFFF_FFFF,
        port: 6881,
    }
}

fn connect_reply(transaction_id: u32, connection_id: u64) -> Vec<u8> {
    let mut b = Vec::new();
    b.extend_from_slice(&0u32.to_be_bytes());
    b.extend_from_slice(&transaction_id.to_be_bytes());
    b.extend_from_slice(&connection_id.to_be_bytes());
    b
}

fn announce_header(transaction_id: u32) -> Vec<u8> {
    let mut b = Vec::new();
    for x in [1u32, transaction_id, 1800, 3, 7] {
        b.extend_from_slice(&x.to_be_bytes());
    }
    b
}

fn payload_of(a: &Action) -> Vec<u8> {
    match a {
        Action::Send { payload, .. } => payload.clone(),
        other => panic!("expected a send, got {:?}", other),
    }
}

fn timeout_of(a: &Action) -> u64 {
    match a {
        Action::Send { timeout_secs, .. } => *timeout_secs,
        other => panic!("expected a send, got {:?}", other),
    }
}

#[test]
fn announce_request_layout() {
    let r = sample_request();
    let b = r.to_bytes();
    assert_eq!(b.len(), 98);
    assert_eq!(&b[0..8], &[1, 2, 3, 4, 5, 6, 7, 8]);
    assert_eq!(&b[8..12], &[0, 0, 0, 1]);
    assert_eq!(&b[12..16], &[0xAA, 0xBB, 0xCC, 0xDD]);
    assert_eq!(&b[16..36], &[7u8; 20]);
    assert_eq!(&b[36..56], &[9u8; 20]);
    assert_eq!(&b[80..84], &[0, 0, 0, 2]);
    assert_eq!(&b[92..96], &[0xFF, 0xFF, 0xFF, 0xFF]);
    assert_eq!(&b[96..98], &[0x1A, 0xE1]);
}

#[test]
fn announce_request_reads_back() {
    let r = sample_request();
    let b = r.to_bytes();
    assert_eq!(IpV4AnnounceRequest::from_bytes(&b), Some(r));
    assert_eq!(IpV4AnnounceRequest::from_bytes(&b[..97]), None);
    let mut bad = b.clone();
    bad[83] = 4;
    assert_eq!(IpV4AnnounceRequest::from_bytes(&bad), None);
}

#[test]
fn announce_response_two_addresses() {
    let mut b = announce_header(5);
    b.extend_from_slice(&[10, 0, 0, 1, 0x1A, 0xE1, 192, 168, 1, 2, 0, 80]);
    let r = IpV4AnnounceResponse::from_bytes(&b).expect("parses");
    assert_eq!(r.action, 1);
    assert_eq!(r.transaction_id, 5);
    assert_eq!(r.interval, 1800);
    assert_eq!(r.leechers, 3);
    assert_eq!(r.seeders, 7);
    assert_eq!(
        r.addresses,
        vec![
            IpV4AnnounceAddress { ip: 0x0A000001, port: 6881 },
            IpV4AnnounceAddress { ip: 0xC0A80102, port: 80 },
        ]
    );
}

#[test]
fn announce_response_ragged_tail_fails() {
    let mut b = announce_header(5);
    b.extend_from_slice(&[1, 2, 3, 4, 5]);
    assert_eq!(IpV4AnnounceResponse::from_bytes(&b), None);
    assert_eq!(IpV4AnnounceResponse::from_bytes(&b[..19]), None);
    let header_only = IpV4AnnounceResponse::from_bytes(&b[..20]).expect("parses");
    assert!(header_only.addresses.is_empty());
}

#[test]
fn connect_request_layout() {
    let b = connect_request(12345);
    assert_eq!(
        b,
        vec![0, 0, 0x04, 0x17, 0x27, 0x10, 0x19, 0x80, 0, 0, 0, 0, 0, 0, 0x30, 0x39]
    );
}

#[test]
fn connect_response_checks() {
    let reply = connect_reply(77, 0xDEADBEEF);
    assert_eq!(parse_connect_response(&reply, 77), Some(0xDEADBEEF));
    assert_eq!(parse_connect_response(&reply, 78), None);
    assert_eq!(parse_connect_response(&reply[..15], 77), None);
    let mut wrong_action = reply.clone();
    wrong_action[3] = 1;
    assert_eq!(parse_connect_response(&wrong_action, 77), None);
}

#[test]
fn connect_handshake_stores_id() {
    let mut s = TrackerSession::new();
    let a = s.connect(42);
    assert_eq!(payload_of(&a), connect_request(42));
    assert_eq!(timeout_of(&a), 15);
    let reply = connect_reply(42, 0xDEADBEEF);
    assert_eq!(s.on_datagram(&reply, 100, 1), Action::Connected);
    assert_eq!(
        s.state,
        ConnectionState::Connected { connection_id: 0xDEADBEEF, obtained_at: 100 }
    );
    assert!(s.pending.is_none());
}

#[test]
fn mismatched_reply_retried_until_failure() {
    let mut s = TrackerSession::new();
    let first = s.connect(42);
    let stale = connect_reply(41, 0xDEADBEEF);
    assert_eq!(s.on_datagram(&stale, 5, 1), Action::Wait);
    assert_eq!(s.state, ConnectionState::Disconnected);
    let mut waits = Vec::new();
    for _ in 0..7 {
        let a = s.on_timeout(false);
        assert_eq!(payload_of(&a), payload_of(&first));
        waits.push(timeout_of(&a));
    }
    assert_eq!(waits, vec![30, 60, 120, 240, 480, 960, 1920]);
    assert_eq!(
        s.on_timeout(false),
        Action::Failed(TrackerError::ProtocolMismatch)
    );
    assert_eq!(s.state, ConnectionState::Disconnected);
    assert!(s.pending.is_none());
}

#[test]
fn silent_tracker_times_out() {
    let mut s = TrackerSession::new();
    s.connect(1);
    for _ in 0..7 {
        assert!(matches!(s.on_timeout(false), Action::Send { .. }));
    }
    assert_eq!(s.on_timeout(false), Action::Failed(TrackerError::Timeout));
}

#[test]
fn transport_failure_at_ceiling_is_io() {
    let mut s = TrackerSession::new();
    s.connect(1);
    for _ in 0..7 {
        assert!(matches!(s.on_timeout(true), Action::Send { .. }));
    }
    assert_eq!(s.on_timeout(true), Action::Failed(TrackerError::Io));
}

#[test]
fn fresh_id_announces_at_once() {
    let mut s = TrackerSession::new();
    s.connect(42);
    s.on_datagram(&connect_reply(42, 0xDEADBEEF), 100, 1);
    let a = s.announce(sample_request(), 9, 130);
    let mut expected = sample_request();
    expected.connection_id = 0xDEADBEEF;
    expected.transaction_id = 9;
    assert_eq!(payload_of(&a), expected.to_bytes());
    assert_eq!(s.pending.as_ref().map(|p| p.exchange), Some(Exchange::Announce));

    let mut wrong = announce_header(8);
    wrong.extend_from_slice(&[1, 2, 3, 4, 0, 1]);
    assert_eq!(s.on_datagram(&wrong, 131, 1), Action::Wait);

    let mut reply = announce_header(9);
    reply.extend_from_slice(&[1, 2, 3, 4, 0, 1, 5, 6, 7, 8, 0, 2]);
    match s.on_datagram(&reply, 132, 1) {
        Action::Announced(r) => {
            assert_eq!(r.seeders, 7);
            assert_eq!(r.addresses.len(), 2);
            assert_eq!(r.addresses[1], IpV4AnnounceAddress { ip: 0x05060708, port: 2 });
        }
        other => panic!("expected an announce result, got {:?}", other),
    }
    assert!(s.pending.is_none());
}

#[test]
fn expired_id_reconnects_before_announce() {
    let mut s = TrackerSession::new();
    s.connect(42);
    s.on_datagram(&connect_reply(42, 0xDEADBEEF), 100, 1);
    let a = s.announce(sample_request(), 9, 161);
    assert_eq!(payload_of(&a), connect_request(9));
    assert_eq!(s.pending.as_ref().map(|p| p.exchange), Some(Exchange::Connect));
    let b = s.on_datagram(&connect_reply(9, 0xFEEDFACE), 162, 10);
    let mut expected = sample_request();
    expected.connection_id = 0xFEEDFACE;
    expected.transaction_id = 10;
    assert_eq!(payload_of(&b), expected.to_bytes());
    assert_eq!(
        s.state,
        ConnectionState::Connected { connection_id: 0xFEEDFACE, obtained_at: 162 }
    );
}

#[test]
fn announce_with_ragged_reply_fails() {
    let mut s = TrackerSession::new();
    s.connect(42);
    s.on_datagram(&connect_reply(42, 5), 0, 1);
    s.announce(sample_request(), 3, 10);
    let mut reply = announce_header(3);
    reply.extend_from_slice(&[1, 2, 3, 4, 5]);
    assert_eq!(
        s.on_datagram(&reply, 11, 1),
        Action::Failed(TrackerError::MalformedInput)
    );
    assert_eq!(s.state, ConnectionState::Connected { connection_id: 5, obtained_at: 0 });
}

#[test]
fn datagram_without_request_is_ignored() {
    let mut s = TrackerSession::new();
    assert_eq!(s.on_datagram(&connect_reply(1, 2), 0, 1), Action::Wait);
    assert_eq!(s.on_timeout(false), Action::Wait);
    assert_eq!(s, TrackerSession::new());
}
