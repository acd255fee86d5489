//! End-to-end exercises of the protocol engine: framing, integrity, the
//! handshake, reliability under loss, stream reassembly, timeouts and close.

use gnet::ack::ReceiveWindow;
use gnet::ack::newer_than;
use gnet::ack::wrap_distance;
use gnet::connection::Connection;
use gnet::connection::ConnectionConfig;
use gnet::connection::ConnectionStatus;
use gnet::connection::make_accept_datagram;
use gnet::connection::make_reject_datagram;
use gnet::endpoint::Endpoint;
use gnet::endpoint::RouteOutcome;
use gnet::endpoint::ServerEndpoint;
use gnet::error::ConnectionError;
use gnet::error::PendingConnectionError;
use gnet::packet::HASH_SIZE;
use gnet::packet::HEADER_SIZE;
use gnet::packet::FLAG_CARRIES_PARCEL;
use gnet::packet::FLAG_REQUEST_CONNECTION;
use gnet::packet::PacketHeader;
use gnet::packet::build_datagram;
use gnet::packet::parse_datagram;
use gnet::packet::read_header;
use gnet::packet::verify_packet;
use gnet::packet::write_header;
use gnet::reliability::ack_covers;

fn config() -> ConnectionConfig {
    ConnectionConfig::default()
}

fn sample_header() -> PacketHeader {
    PacketHeader {
        connection_id: 0xdead_0001,
        packet_index: 513,
        ack_index: 512,
        ack_mask: 0x8000_0000_0000_0001,
        flags: FLAG_CARRIES_PARCEL,
        prelude: 0xcafe_f00d,
        payload_length: 42,
    }
}

/// Deliver every datagram in `ds` to `conn`, returning how many were
/// delivered upward.
fn deliver_all(conn: &mut Connection, ds: &[Vec<u8>], now_ms: u64) -> usize {
    let key = conn.config.hash_key;
    let max_len = conn.config.max_datagram_length;
    let mut delivered = 0;
    for d in ds {
        let (h, p) = parse_datagram(d, key, max_len).expect("well-formed");
        if conn.handle_packet(&h, p, now_ms) {
            delivered += 1;
        }
    }
    delivered
}

#[test]
fn header_round_trip() {
    let h = sample_header();
    let bytes = write_header(&h);
    assert_eq!(bytes.len(), HEADER_SIZE);
    let back = read_header(&bytes).expect("header parses");
    assert_eq!(back, h);
}

#[test]
fn header_too_short() {
    let h = sample_header();
    let bytes = write_header(&h);
    assert!(read_header(&bytes[..HEADER_SIZE - 1]).is_none());
}

#[test]
fn hash_rejects_single_bit_corruption() {
    let cfg = config();
    let h = PacketHeader { payload_length: 3, ..sample_header() };
    let d = build_datagram(cfg.hash_key, cfg.max_datagram_length, &h, b"abc");
    assert!(verify_packet(&d, cfg.hash_key));
    for &pos in &[0usize, 1, HEADER_SIZE, cfg.max_datagram_length / 2, cfg.max_datagram_length - 1]
    {
        for bit in 0..8u8 {
            let mut corrupted = d.clone();
            corrupted[pos] ^= 1 << bit;
            assert!(
                !verify_packet(&corrupted, cfg.hash_key),
                "corruption at byte {} bit {} went undetected",
                pos,
                bit
            );
        }
    }
}

#[test]
fn hash_rejects_wrong_key() {
    let cfg = config();
    let h = PacketHeader { payload_length: 2, ..sample_header() };
    let d = build_datagram(cfg.hash_key, cfg.max_datagram_length, &h, b"hi");
    assert!(verify_packet(&d, cfg.hash_key));
    assert!(!verify_packet(&d, cfg.hash_key ^ 1));
}

#[test]
fn datagram_round_trip() {
    let cfg = config();
    let h = PacketHeader { payload_length: 5, ..sample_header() };
    let d = build_datagram(cfg.hash_key, cfg.max_datagram_length, &h, b"hello");
    assert_eq!(d.len(), cfg.max_datagram_length);
    let (back, payload) = parse_datagram(&d, cfg.hash_key, cfg.max_datagram_length).unwrap();
    assert_eq!(back, h);
    assert_eq!(payload, b"hello".to_vec());
}

#[test]
fn parse_rejects_wrong_size() {
    let cfg = config();
    let h = PacketHeader { payload_length: 0, ..sample_header() };
    let d = build_datagram(cfg.hash_key, cfg.max_datagram_length, &h, b"");
    assert!(parse_datagram(&d[..d.len() - 1], cfg.hash_key, cfg.max_datagram_length).is_none());
}

#[test]
fn ack_coverage_within_window() {
    let mut w = ReceiveWindow::new();
    let received: [u16; 5] = [5, 3, 7, 4, 60];
    for &i in &received {
        w.note_received(i);
    }
    for &i in &received {
        assert!(
            ack_covers(w.ack_index, w.ack_mask, i),
            "index {} not acknowledged",
            i
        );
    }
    assert!(!ack_covers(w.ack_index, w.ack_mask, 6));
}

#[test]
fn ack_logic_across_wrap() {
    assert_eq!(wrap_distance(1, 0xffff), 2);
    assert!(newer_than(1, 0xffff));
    assert!(!newer_than(0xffff, 1));
    let mut w = ReceiveWindow::new();
    for &i in &[0xfffeu16, 0xffff, 1, 0] {
        w.note_received(i);
    }
    assert_eq!(w.ack_index, 1);
    for &i in &[0xfffeu16, 0xffff, 1, 0] {
        assert!(ack_covers(w.ack_index, w.ack_mask, i), "index {} lost over the wrap", i);
    }
    // A duplicate across the wrap is suppressed.
    assert!(!w.note_received(0xffff));
}

#[test]
fn window_discards_traffic_older_than_window() {
    let mut w = ReceiveWindow::new();
    assert!(w.note_received(1000));
    assert!(!w.note_received(100));
    assert!(!ack_covers(w.ack_index, w.ack_mask, 100));
}

#[test]
fn handshake_accept_opens_connection() {
    let cfg = config();
    let (pending, request) = Connection::connect(b"hi".to_vec(), cfg, 0).expect("fits");

    // The responder sees the request arrive at its endpoint.
    let mut endpoint = Endpoint::new(cfg.hash_key, cfg.max_datagram_length);
    assert_eq!(endpoint.route_datagram(&request), RouteOutcome::Handshake);
    let req = &endpoint.handshake_inbox[0];
    assert_eq!(req.header.connection_id, 0);
    assert!(req.header.flags & FLAG_REQUEST_CONNECTION != 0);
    assert_eq!(req.payload, b"hi".to_vec());

    // It assigns id 7, admits it, and accepts.
    let accept = make_accept_datagram(&cfg, req.header.prelude, 7);
    endpoint.allow_connection_id(7);

    let (ah, ap) = parse_datagram(&accept, cfg.hash_key, cfg.max_datagram_length).unwrap();
    let conn = match pending.try_promote(&vec![(ah, ap)], 5) {
        Ok(c) => c,
        Err(_) => panic!("accept did not promote"),
    };
    assert_eq!(conn.remote_connection_id, 7);
    assert!(conn.is_open());
}

#[test]
fn handshake_reject_fails_pending() {
    let cfg = config();
    let (pending, request) = Connection::connect(b"hi".to_vec(), cfg, 0).expect("fits");
    let (rh, _) = parse_datagram(&request, cfg.hash_key, cfg.max_datagram_length).unwrap();
    let reject = make_reject_datagram(&cfg, rh.prelude);
    let (jh, jp) = parse_datagram(&reject, cfg.hash_key, cfg.max_datagram_length).unwrap();
    match pending.try_promote(&vec![(jh, jp)], 5) {
        Err(PendingConnectionError::Rejected) => (),
        _ => panic!("reject was not taken"),
    }
}

#[test]
fn handshake_irrelevant_replies_stay_pending() {
    let cfg = config();
    let (pending, _request) = Connection::connect(Vec::new(), cfg, 0).expect("fits");
    match pending.try_promote(&Vec::new(), 5) {
        Err(PendingConnectionError::Pending(p)) => {
            assert_eq!(p.payload, Vec::<u8>::new());
        },
        _ => panic!("empty replies must stay pending"),
    }
}

#[test]
fn pending_sync_retries_and_times_out() {
    let cfg = config();
    let (mut pending, request) = Connection::connect(b"hi".to_vec(), cfg, 0).expect("fits");
    // Too early for a retry.
    match pending.sync(100) {
        Ok(None) => (),
        _ => panic!("no retry expected yet"),
    }
    // Past the retry interval: the identical request again.
    match pending.sync(2600) {
        Ok(Some(d)) => assert_eq!(d, request),
        _ => panic!("retry expected"),
    }
    // Past the timeout with no reply at all: the pending connection fails.
    match pending.sync(6000) {
        Err(PendingConnectionError::TimedOut) => (),
        _ => panic!("timeout expected"),
    }
}

#[test]
fn connect_rejects_oversized_payload() {
    let cfg = config();
    let too_big = vec![0u8; cfg.max_datagram_length - HEADER_SIZE - HASH_SIZE + 1];
    assert!(Connection::connect(too_big, cfg, 0).is_err());
}

#[test]
fn reliable_delivery_under_loss() {
    let cfg = config();
    let mut a = Connection::opened(1, 2, cfg, 0);
    let mut b = Connection::opened(2, 1, cfg, 0);

    let parcels: [Vec<u8>; 3] = [b"A".to_vec(), b"B".to_vec(), b"C".to_vec()];
    for p in &parcels {
        a.push_reliable_parcel(p, 0).unwrap();
    }
    let ds = a.flush(0).unwrap();
    assert_eq!(ds.len(), 3);

    // Drop the first transmission of B on the wire.
    let survived = vec![ds[0].clone(), ds[2].clone()];
    assert_eq!(deliver_all(&mut b, &survived, 10), 2);

    // B's ack fields ride back on a volatile parcel.
    b.push_volatile_parcel(&b"ok".to_vec(), 20).unwrap();
    let back = b.flush(20).unwrap();
    assert_eq!(deliver_all(&mut a, &back, 30), 1);

    // Only B is still unacknowledged, so the tick resends it alone.
    a.tick(150);
    let resent = a.flush(150).unwrap();
    assert_eq!(resent.len(), 1);
    assert_eq!(deliver_all(&mut b, &resent, 160), 1);

    // The peer holds exactly {A, B, C}, each once.
    let mut got: Vec<Vec<u8>> = Vec::new();
    loop {
        match b.pop_parcel::<Vec<u8>>(200) {
            Ok((p, _prelude)) => got.push(p),
            Err(ConnectionError::NoPendingParcels) => break,
            Err(e) => panic!("unexpected error: {:?}", e),
        }
    }
    got.sort();
    assert_eq!(got, vec![b"A".to_vec(), b"B".to_vec(), b"C".to_vec()]);

    // Once acknowledged, nothing is ever retransmitted again.
    b.push_volatile_parcel(&b"ok".to_vec(), 210).unwrap();
    let back = b.flush(210).unwrap();
    deliver_all(&mut a, &back, 220);
    a.tick(5000);
    assert_eq!(a.flush(5000).unwrap().len(), 0);
}

#[test]
fn duplicate_suppression() {
    let cfg = config();
    let mut a = Connection::opened(1, 2, cfg, 0);
    let mut b = Connection::opened(2, 1, cfg, 0);

    a.push_reliable_parcel(&b"once".to_vec(), 0).unwrap();
    let ds = a.flush(0).unwrap();
    let (h, p) = parse_datagram(&ds[0], cfg.hash_key, cfg.max_datagram_length).unwrap();

    assert!(b.handle_packet(&h, p.clone(), 10));
    // A verified copy of an already delivered packet is not delivered again.
    assert!(!b.handle_packet(&h, p, 20));

    assert!(b.pop_parcel::<Vec<u8>>(30).is_ok());
    match b.pop_parcel::<Vec<u8>>(30) {
        Err(ConnectionError::NoPendingParcels) => (),
        _ => panic!("the duplicate must add no parcel"),
    }
}

#[test]
fn stream_reassembly_out_of_order() {
    // One thousand payload bytes per packet.
    let cfg = ConnectionConfig {
        max_datagram_length: 1000 + HEADER_SIZE + HASH_SIZE,
        ..ConnectionConfig::default()
    };
    let mut a = Connection::opened(1, 2, cfg, 0);
    let mut b = Connection::opened(2, 1, cfg, 0);

    let mut written: Vec<u8> = Vec::new();
    for (chunk_index, n) in [3000usize, 4000, 3000].iter().enumerate() {
        let chunk: Vec<u8> = (0..*n).map(|i| ((i * 7 + chunk_index * 13) % 251) as u8).collect();
        a.write_bytes_to_stream(&chunk, 0).unwrap();
        written.extend_from_slice(&chunk);
    }
    let mut ds = a.flush(0).unwrap();
    assert_eq!(ds.len(), 10);

    // All packets delivered out of order.
    ds.reverse();
    assert_eq!(deliver_all(&mut b, &ds, 10), 10);

    assert_eq!(b.pending_incoming_stream_bytes().unwrap(), 10_000);
    let got = b.read_from_stream(20_000, 20).unwrap();
    assert_eq!(got.len(), 10_000);
    assert_eq!(got, written);
}

#[test]
fn stream_bytes_survive_duplication() {
    let cfg = config();
    let mut a = Connection::opened(1, 2, cfg, 0);
    let mut b = Connection::opened(2, 1, cfg, 0);

    a.write_bytes_to_stream(b"stream data", 0).unwrap();
    let ds = a.flush(0).unwrap();
    assert_eq!(deliver_all(&mut b, &ds, 10), 1);
    // The same packet again: acknowledged but not delivered.
    assert_eq!(deliver_all(&mut b, &ds, 20), 0);
    let got = b.read_from_stream(100, 30).unwrap();
    assert_eq!(got, b"stream data".to_vec());
    // No extra stream bytes appeared.
    assert_eq!(b.pending_incoming_stream_bytes().unwrap(), 0);
}

#[test]
fn write_item_counts_bytes() {
    let cfg = config();
    let mut a = Connection::opened(1, 2, cfg, 0);
    let n = a.write_item_to_stream(&b"12345".to_vec(), 0).unwrap();
    assert_eq!(n, 5);
}

#[test]
fn timeout_turns_status_lost() {
    let cfg = ConnectionConfig { timeout_ms: 1000, ..ConnectionConfig::default() };
    let mut c = Connection::opened(1, 2, cfg, 0);
    assert_eq!(c.status(900), ConnectionStatus::Open);
    // No packets for a whole timeout: the next call observes Lost.
    assert_eq!(c.status(1100), ConnectionStatus::Lost);
    match c.pop_parcel::<Vec<u8>>(1200) {
        Err(ConnectionError::ConnectionLost) => (),
        _ => panic!("operations on a lost connection fail lost"),
    }
}

#[test]
fn receiving_keeps_connection_alive() {
    let cfg = ConnectionConfig { timeout_ms: 1000, ..ConnectionConfig::default() };
    let mut a = Connection::opened(1, 2, cfg, 0);
    let mut b = Connection::opened(2, 1, cfg, 0);
    a.push_reliable_parcel(&b"ping".to_vec(), 800).unwrap();
    let ds = a.flush(800).unwrap();
    deliver_all(&mut b, &ds, 900);
    assert_eq!(b.status(1500), ConnectionStatus::Open);
}

#[test]
fn close_is_observed_on_both_sides() {
    let cfg = config();
    let mut a = Connection::opened(1, 2, cfg, 0);
    let mut b = Connection::opened(2, 1, cfg, 0);

    let close_datagram = a.close(10).unwrap();
    // Side A's own later calls fail closed.
    match a.push_reliable_parcel(&b"late".to_vec(), 20) {
        Err(ConnectionError::ConnectionClosed) => (),
        _ => panic!("push after close must fail closed"),
    }
    assert!(a.close(30).is_err());

    // Side B observes the close on its next activity.
    let (h, p) = parse_datagram(&close_datagram, cfg.hash_key, cfg.max_datagram_length).unwrap();
    b.handle_packet(&h, p, 40);
    assert_eq!(b.status(50), ConnectionStatus::Closed);
    match b.pop_parcel::<Vec<u8>>(60) {
        Err(ConnectionError::ConnectionClosed) => (),
        _ => panic!("operations after an observed close fail closed"),
    }
}

#[test]
fn oversized_parcel_is_refused() {
    let cfg = config();
    let mut a = Connection::opened(1, 2, cfg, 0);
    let too_big = vec![9u8; cfg.max_datagram_length - HEADER_SIZE - HASH_SIZE + 1];
    match a.push_reliable_parcel(&too_big, 0) {
        Err(ConnectionError::PayloadTooLarge) => (),
        _ => panic!("oversized parcel must be refused"),
    }
    // The refused parcel queued nothing.
    assert_eq!(a.flush(0).unwrap().len(), 0);
}

#[test]
fn volatile_parcels_are_not_retransmitted() {
    let cfg = config();
    let mut a = Connection::opened(1, 2, cfg, 0);
    a.push_volatile_parcel(&b"v".to_vec(), 0).unwrap();
    assert_eq!(a.flush(0).unwrap().len(), 1);
    a.tick(3000);
    assert_eq!(a.flush(3000).unwrap().len(), 0);
}

#[test]
fn retry_exhaustion_turns_status_lost() {
    let cfg = ConnectionConfig { timeout_ms: u64::MAX, ..ConnectionConfig::default() };
    let mut a = Connection::opened(1, 2, cfg, 0);
    a.push_reliable_parcel(&b"never acked".to_vec(), 0).unwrap();
    let mut now = 0u64;
    // Drive ticks until the retries are exhausted.
    for _ in 0..cfg.max_retries + 1 {
        now += 2000;
        a.tick(now);
        let _ = a.is_open();
    }
    assert!(!a.is_open());
}

#[test]
fn endpoint_admission_and_routing() {
    let cfg = config();
    let mut endpoint = Endpoint::new(cfg.hash_key, cfg.max_datagram_length);

    let mut a = Connection::opened(1, 7, cfg, 0);
    a.push_reliable_parcel(&b"payload".to_vec(), 0).unwrap();
    let ds = a.flush(0).unwrap();

    // Garbage is malformed; valid traffic to an unadmitted id is dropped.
    assert_eq!(endpoint.route_datagram(b"junk"), RouteOutcome::Malformed);
    assert_eq!(endpoint.route_datagram(&ds[0]), RouteOutcome::Dropped);

    // After admission the packet is retained and can be taken once.
    ServerEndpoint::allow_connection_id(&mut endpoint, 7);
    assert_eq!(endpoint.route_datagram(&ds[0]), RouteOutcome::Delivered(7));
    let taken = endpoint.take(7);
    assert_eq!(taken.len(), 1);
    assert_eq!(taken[0].header.connection_id, 7);
    assert_eq!(taken[0].payload, b"payload".to_vec());
    assert_eq!(endpoint.take(7).len(), 0);

    // Blocking drops the bucket and later packets.
    ServerEndpoint::block_connection_id(&mut endpoint, 7);
    assert_eq!(endpoint.route_datagram(&ds[0]), RouteOutcome::Dropped);

    // A corrupted copy never reaches a bucket.
    ServerEndpoint::allow_connection_id(&mut endpoint, 7);
    let mut corrupted = ds[0].clone();
    corrupted[3] ^= 0x10;
    assert_eq!(endpoint.route_datagram(&corrupted), RouteOutcome::Malformed);
    assert_eq!(endpoint.take(7).len(), 0);
}

#[test]
fn parcels_carry_their_prelude() {
    let cfg = config();
    let mut a = Connection::opened(1, 2, cfg, 0);
    let mut b = Connection::opened(2, 1, cfg, 0);
    a.push_reliable_parcel(&b"tagged".to_vec(), 0).unwrap();
    let ds = a.flush(0).unwrap();
    deliver_all(&mut b, &ds, 10);
    let (p, prelude) = b.pop_parcel::<Vec<u8>>(20).unwrap();
    assert_eq!(p, b"tagged".to_vec());
    assert_eq!(prelude, 0);
}

#[test]
fn malformed_parcel_is_discarded() {
    let cfg = config();
    let mut a = Connection::opened(1, 2, cfg, 0);
    let mut b = Connection::opened(2, 1, cfg, 0);
    // Two bytes cannot deserialize as a single-byte parcel.
    a.push_reliable_parcel(&b"xy".to_vec(), 0).unwrap();
    a.push_reliable_parcel(&7u8, 0).unwrap();
    let ds = a.flush(0).unwrap();
    deliver_all(&mut b, &ds, 10);
    match b.pop_parcel::<u8>(20) {
        Err(ConnectionError::MalformedPacket) => (),
        _ => panic!("a payload that fails to deserialize is discarded"),
    }
    // The malformed payload is gone; the next parcel is intact.
    let (p, _) = b.pop_parcel::<u8>(30).unwrap();
    assert_eq!(p, 7u8);
}

#[test]
fn connections_compare_by_their_ids() {
    let cfg = config();
    let a = Connection::opened(1, 2, cfg, 0);
    let b = Connection::opened(1, 2, cfg, 500);
    let c = Connection::opened(3, 2, cfg, 0);
    assert!(a == b);
    assert!(a != c);
}

#[test]
fn accept_naming_id_zero_is_no_accept() {
    let cfg = config();
    let (pending, _request) = Connection::connect(b"hi".to_vec(), cfg, 0).expect("fits");
    let nonce = pending.handshake_nonce;
    // Id 0 is reserved for handshake traffic; an accept assigning it is not
    // taken, and the connection stays pending.
    let header = PacketHeader {
        connection_id: 0,
        packet_index: 0,
        ack_index: 0,
        ack_mask: 0,
        flags: gnet::packet::FLAG_ACCEPT_CONNECTION,
        prelude: nonce,
        payload_length: 4,
    };
    match pending.try_promote(&vec![(header, vec![0u8; 4])], 5) {
        Err(PendingConnectionError::Pending(_)) => (),
        _ => panic!("an accept assigning id 0 must not promote"),
    }
}

#[test]
fn beyond_frontier_chunks_are_retained() {
    let cfg = config();
    let mut a = Connection::opened(1, 2, cfg, 0);
    let mut b = Connection::opened(2, 1, cfg, 0);
    a.write_bytes_to_stream(b"firstsecond", 0).unwrap();
    let ds = a.flush(0).unwrap();
    assert_eq!(ds.len(), 1);

    // Frame the two halves as separate stream packets and deliver only the
    // later one first: nothing is readable yet, but the chunk is kept.
    let mut c = Connection::opened(1, 2, cfg, 0);
    c.write_bytes_to_stream(b"first", 0).unwrap();
    let first = c.flush(0).unwrap();
    c.write_bytes_to_stream(b"second", 0).unwrap();
    let second = c.flush(0).unwrap();

    assert_eq!(deliver_all(&mut b, &second, 10), 1);
    assert_eq!(b.pending_incoming_stream_bytes().unwrap(), 0);
    assert_eq!(deliver_all(&mut b, &first, 20), 1);
    let got = b.read_from_stream(100, 30).unwrap();
    assert_eq!(got, b"firstsecond".to_vec());
}

#[test]
fn pending_times_out_at_exact_boundary() {
    let cfg = config();
    let (mut pending, _request) = Connection::connect(b"hi".to_vec(), cfg, 0).expect("fits");
    // The handshake is dead the moment a whole timeout has passed, not one
    // millisecond later.
    match pending.sync(cfg.timeout_ms) {
        Err(PendingConnectionError::TimedOut) => (),
        _ => panic!("sync at the exact timeout boundary must fail"),
    }
}
