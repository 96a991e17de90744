//! The multiplexer tables and the reactions to frames.

use newppp::proto::addr::UdpAddr;
use newppp::proto::frame::{Frame, FrameType, FLAG_FIN, FLAG_RST};
use newppp::proto::mux::{
    datagram_fits, handle_server_frame, next_rand_u32, open_reply, seed_of, udp_payload, udp_reply,
    ClientAction, MuxClient, OpenError, ServerAction,
};

fn frame(ftype: FrameType, flags: u16, sid: u32, payload: &[u8]) -> Frame {
    Frame {
        ftype,
        flags,
        sid,
        counter: 0,
        aad: [0u8; 12],
        payload: payload.to_vec(),
    }
}

fn data_frame(flags: u16, sid: u32, payload: &[u8]) -> Frame {
    frame(FrameType::Data, flags, sid, payload)
}

fn close_frame(flags: u16, sid: u32) -> Frame {
    frame(FrameType::Close, flags, sid, &[])
}

/// A channel with one open session under id 7.
fn with_session() -> MuxClient {
    let mut m = MuxClient::new(7);
    let f = m.begin_open("example.com", 80).unwrap();
    assert_eq!(f.sid, 7);
    assert!(matches!(
        m.handle_client_frame(frame(FrameType::OpenOk, 0, 7, &[])),
        ClientAction::OpenDone(7, Ok(()))
    ));
    m
}

/// A Data frame with FLAG_FIN must deliver its payload and then close the
/// session so the local user stream sees EOF (mode-A target EOF).
#[test]
fn client_data_fin_closes_session() {
    let mut m = with_session();
    match m.handle_client_frame(data_frame(FLAG_FIN, 7, b"last")) {
        ClientAction::Deliver(7, data, true) => assert_eq!(data, b"last"),
        other => panic!("unexpected {other:?}"),
    }
    assert!(!m.sessions.contains_key(&7));
}

/// A plain Data frame (no FIN) keeps the session open.
#[test]
fn client_data_without_fin_keeps_session() {
    let mut m = with_session();
    match m.handle_client_frame(data_frame(0, 7, b"chunk")) {
        ClientAction::Deliver(7, data, false) => assert_eq!(data, b"chunk"),
        other => panic!("unexpected {other:?}"),
    }
    assert!(m.sessions.contains_key(&7));
}

/// Close+FIN from the client is a half-close: only the direction toward the
/// target ends (WT parity).
#[test]
fn server_close_fin_is_half_close() {
    assert!(matches!(
        handle_server_frame(close_frame(FLAG_FIN, 3)),
        ServerAction::HalfClose(3)
    ));
}

/// Close+RST (and flag-less Close) must tear the session down.
#[test]
fn server_close_rst_tears_down() {
    assert!(matches!(
        handle_server_frame(close_frame(FLAG_RST, 3)),
        ServerAction::Close(3, true)
    ));
    assert!(matches!(
        handle_server_frame(close_frame(0, 4)),
        ServerAction::Close(4, false)
    ));
}

#[test]
fn ids_skip_zero_and_those_in_use() {
    let mut m = MuxClient::new(u32::MAX);
    assert_eq!(m.begin_open("a", 1).unwrap().sid, u32::MAX);
    assert_eq!(m.begin_udp().sid, 1);
    m.next_sid = u32::MAX;
    assert_eq!(m.alloc_sid(), 2);
}

#[test]
fn refused_opens_carry_their_reason() {
    for e in [OpenError::DialFailed, OpenError::Limit, OpenError::BadTarget, OpenError::Denied] {
        let mut m = MuxClient::new(1);
        let f = m.begin_open("example.com", 80).unwrap();
        let r = open_reply(f.sid, Err(e));
        match m.handle_client_frame(frame(r.ftype, r.flags, r.sid, &r.payload)) {
            ClientAction::OpenDone(1, Err(got)) => assert_eq!(got, e),
            other => panic!("unexpected {other:?}"),
        }
        m.abandon_open(1, false);
        assert!(m.sessions.is_empty() && m.pending_open.is_empty());
    }
    assert_eq!(OpenError::from_code(0), OpenError::Denied);
    assert_eq!(OpenError::Limit.message(), "session limit reached");
}

#[test]
fn unusable_hosts_are_refused_before_anything_is_sent() {
    let mut m = MuxClient::new(1);
    assert_eq!(m.begin_open("", 80).unwrap_err(), OpenError::BadTarget);
    assert_eq!(m.begin_open(&"x".repeat(256), 80).unwrap_err(), OpenError::BadTarget);
    assert_eq!(m.next_sid, 1);
}

#[test]
fn half_close_keeps_the_session() {
    let m = with_session();
    let f = m.finish_send(7);
    assert_eq!((f.ftype, f.flags, f.sid), (FrameType::Close, FLAG_FIN, 7));
    assert!(m.sessions.contains_key(&7));
}

#[test]
fn datagrams_reach_their_association() {
    let mut m = MuxClient::new(1);
    let f = m.begin_udp();
    let src = UdpAddr::V4([9, 9, 9, 9], 53);
    let p = udp_payload(&src, b"answer");
    let ok = udp_reply(f.sid, Ok(()));
    assert!(matches!(
        m.handle_client_frame(frame(ok.ftype, 0, f.sid, &ok.payload)),
        ClientAction::UdpDone(1, Ok(()))
    ));
    match m.handle_client_frame(frame(FrameType::UdpData, 0, f.sid, &p)) {
        ClientAction::DeliverUdp(1, a, data) => {
            assert_eq!(a, src);
            assert_eq!(data, b"answer");
        }
        other => panic!("unexpected {other:?}"),
    }
    assert!(matches!(
        m.handle_client_frame(frame(FrameType::UdpData, 0, 1, &[9])),
        ClientAction::BadUdp
    ));
    m.end_udp(1);
    assert!(matches!(
        m.handle_client_frame(frame(FrameType::UdpData, 0, 1, &p)),
        ClientAction::Nothing
    ));
}

#[test]
fn a_dead_channel_drops_everything() {
    let mut m = with_session();
    m.teardown_all();
    assert!(m.is_closed());
    assert!(m.sessions.is_empty());
    assert!(matches!(
        m.handle_client_frame(data_frame(0, 7, b"late")),
        ClientAction::Nothing
    ));
}

#[test]
fn pings_are_answered_and_targets_decoded() {
    assert!(matches!(
        handle_server_frame(frame(FrameType::Ping, 0, 0, &[])),
        ServerAction::Pong
    ));
    let p = newppp::proto::frame::encode_open("host.example", 8080);
    match handle_server_frame(frame(FrameType::Open, 0, 5, &p)) {
        ServerAction::Open(5, host, 8080) => assert_eq!(host, "host.example"),
        other => panic!("unexpected {other:?}"),
    }
    assert!(matches!(
        handle_server_frame(frame(FrameType::Open, 0, 5, &[])),
        ServerAction::RefuseOpen(5, OpenError::BadTarget)
    ));
}

#[test]
fn large_datagrams_take_the_stream() {
    assert!(datagram_fits(1200, Some(1200)));
    assert!(!datagram_fits(1201, Some(1200)));
    assert!(!datagram_fits(1, None));
}

#[test]
fn random_ids_are_never_zero() {
    for _ in 0..100 {
        assert_ne!(next_rand_u32(), 0);
    }
    assert_eq!(seed_of(0), 1);
    assert_eq!(seed_of(1), 1);
    assert_eq!(seed_of(u32::MAX), u32::MAX);
}
