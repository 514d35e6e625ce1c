use anyst::config::RemoteEntry;
use anyst::tuic::auth::build_authenticate;
use anyst::tuic::auth::derive_uuid;
use anyst::tuic::auth::entries_of;
use anyst::tuic::auth::read_claim;
use anyst::tuic::auth::settle_claim;
use anyst::tuic::auth::uuid_from_hash;
use anyst::tuic::auth::Rejection;
use anyst::tuic::client::ClientCommand;
use anyst::tuic::client::ClientReceiver;
use anyst::tuic::local::LocalAction;
use anyst::tuic::local::LocalRelay;
use anyst::tuic::packet::build_dissociate;
use anyst::tuic::packet::build_heartbeat;
use anyst::tuic::packet::build_packet;
use anyst::tuic::packet::build_packet_fragment;
use anyst::tuic::packet::build_packet_maybe_fragmented;
use anyst::tuic::packet::datagram_payload_limit;
use anyst::tuic::packet::parse_packet;
use anyst::tuic::packet::PacketIds;
use anyst::tuic::reassembly::Reassembler;
use anyst::tuic::reassembly::ReassemblyBuffer;
use anyst::tuic::server::Associations;
use anyst::tuic::server::Connection;
use anyst::tuic::server::RelayMode;
use anyst::tuic::server::ServerCommand;

const SECOND: u64 = 1_000_000_000;

fn remotes() -> Vec<RemoteEntry> {
    vec![
        RemoteEntry { addr: "one:1".to_string(), password: "alpha".to_string() },
        RemoteEntry { addr: "two:2".to_string(), password: "beta".to_string() },
        RemoteEntry { addr: "three:3".to_string(), password: "beta".to_string() },
    ]
}

#[test]
fn uuid_is_half_a_hash() {
    assert_eq!(
        derive_uuid("password"),
        [
            0x5e, 0x88, 0x48, 0x98, 0xda, 0x28, 0x04, 0x71, 0x51, 0xd0, 0xe5, 0x6f, 0x8d, 0xc6,
            0x29, 0x27
        ]
    );
}

#[test]
fn uuid_is_the_first_half() {
    let hash: Vec<u8> = (100..132u8).collect();
    let h: [u8; 32] = hash.clone().try_into().unwrap();
    assert_eq!(uuid_from_hash(&h)[..], hash[..16]);
    assert_eq!(uuid_from_hash(&h)[15], 115);
}

#[test]
fn authenticate_layout() {
    let b = build_authenticate(&[1; 16], &[2; 32]);
    assert_eq!(b.len(), 50);
    assert_eq!(&b[..2], &[5, 0]);
    assert_eq!(&b[2..18], &[1; 16]);
    assert_eq!(&b[18..], &[2; 32]);
}

#[test]
fn claims_lead_to_their_backends() {
    let entries = entries_of(&remotes());
    assert_eq!(entries[1].uuid, derive_uuid("beta"));
    assert_eq!(entries[1].password, "beta");
    let token = [7u8; 32];
    let data = build_authenticate(&derive_uuid("beta"), &token);
    let claim = read_claim(&entries, Some(&data)).unwrap();
    assert_eq!(claim.backend, 1);
    assert_eq!(claim.uuid, derive_uuid("beta"));
    assert_eq!(claim.token, token);
    assert_eq!(settle_claim(&entries, &claim, Some(token)), Ok("two:2".to_string()));
    assert_eq!(settle_claim(&entries, &claim, Some([8; 32])), Err(Rejection::AuthFailed));
    assert_eq!(settle_claim(&entries, &claim, None), Err(Rejection::TokenError));
}

#[test]
fn bad_claims_are_rejected() {
    let entries = entries_of(&remotes());
    assert!(matches!(read_claim(&entries, None), Err(Rejection::AuthFailed)));
    let good = build_authenticate(&derive_uuid("alpha"), &[0; 32]);
    assert!(matches!(read_claim(&entries, Some(&good[..49])), Err(Rejection::BadCommand)));
    let mut version = good.clone();
    version[0] = 4;
    assert!(matches!(read_claim(&entries, Some(&version)), Err(Rejection::BadCommand)));
    let mut kind = good.clone();
    kind[1] = 2;
    assert!(matches!(read_claim(&entries, Some(&kind)), Err(Rejection::BadCommand)));
    let stranger = build_authenticate(&derive_uuid("gamma"), &[0; 32]);
    assert!(matches!(read_claim(&entries, Some(&stranger)), Err(Rejection::AuthFailed)));
    assert_eq!(read_claim(&entries, Some(&good)).unwrap().backend, 0);
}

#[test]
fn rejections_close_with_code_and_reason() {
    assert_eq!(Rejection::AuthFailed.code(), 0xfffffff1);
    assert_eq!(Rejection::AuthFailed.reason(), "auth failed");
    assert_eq!(Rejection::BadCommand.code(), 0xfffffff3);
    assert_eq!(Rejection::BadCommand.reason(), "bad Authenticate");
    assert_eq!(Rejection::TokenError.code(), 0xfffffff1);
    assert_eq!(Rejection::TokenError.reason(), "token error");
}

#[test]
fn packet_layout() {
    assert_eq!(
        build_packet(0x0102, 0x0304, b"hi"),
        vec![2, 1, 2, 3, 4, 1, 0, 0, 2, 0xFF, b'h', b'i']
    );
    assert_eq!(
        build_packet_fragment(1, 2, 9, 8, &[]),
        vec![2, 0, 1, 0, 2, 9, 8, 0, 0, 0xFF]
    );
    assert_eq!(build_dissociate(0x1234), vec![3, 0x12, 0x34]);
    assert_eq!(build_heartbeat(), vec![4]);
}

#[test]
fn packets_survive_the_wire() {
    let b = build_packet_fragment(7, 65535, 255, 254, b"payload");
    assert_eq!(parse_packet(&b), Some((7, 65535, 255, 254, &b"payload"[..])));
    let big = vec![3u8; 65535];
    let b = build_packet(1, 1, &big);
    assert_eq!(parse_packet(&b), Some((1, 1, 1, 0, &big[..])));
}

#[test]
fn packets_with_an_address_are_read() {
    let b = vec![2, 0, 1, 0, 2, 1, 0, 0, 1, 0, 2, b'a', b'b', 0, 80, 99, 98];
    assert_eq!(parse_packet(&b), Some((1, 2, 1, 0, &[99u8][..])));
    let b = vec![2, 0, 1, 0, 2, 1, 0, 0, 1, 1, 9, 9, 9, 9, 0, 80, 77];
    assert_eq!(parse_packet(&b), Some((1, 2, 1, 0, &[77u8][..])));
}

#[test]
fn packet_ids_come_round() {
    let mut ids = PacketIds::new();
    for i in 0..=65535u16 {
        assert_eq!(ids.take(), i);
    }
    assert_eq!(ids.take(), 0);
    assert_eq!(ids.take(), 1);
    assert_eq!(ids.next, 2);
}

#[test]
fn malformed_packets_are_refused() {
    let good = build_packet(1, 2, b"abc");
    assert_eq!(parse_packet(&[]), None);
    assert_eq!(parse_packet(&good[..9]), None);
    assert_eq!(parse_packet(&good[..12]), None);
    let mut b = good.clone();
    b[0] = 3;
    assert_eq!(parse_packet(&b), None);
    let mut b = good.clone();
    b[5] = 0;
    assert_eq!(parse_packet(&b), None);
    let mut b = good.clone();
    b[6] = 1;
    assert_eq!(parse_packet(&b), None);
    let mut b = good.clone();
    b[9] = 7;
    assert_eq!(parse_packet(&b), None);
    let mut b = good;
    b.push(0);
    assert_eq!(parse_packet(&b), Some((1, 2, 1, 0, &b"abc"[..])));
}

#[test]
fn payload_limit_leaves_room_for_the_header() {
    assert_eq!(datagram_payload_limit(None), 1200);
    assert_eq!(datagram_payload_limit(Some(1350)), 1340);
    assert_eq!(datagram_payload_limit(Some(10)), 0);
    assert_eq!(datagram_payload_limit(Some(3)), 0);
}

#[test]
fn payloads_that_fit_are_not_cut() {
    assert_eq!(
        build_packet_maybe_fragmented(1, 2, b"abc", 3),
        vec![build_packet(1, 2, b"abc")]
    );
    assert_eq!(
        build_packet_maybe_fragmented(1, 2, &[], 0),
        vec![build_packet(1, 2, &[])]
    );
}

#[test]
fn large_payloads_are_cut() {
    assert_eq!(
        build_packet_maybe_fragmented(1, 2, b"abcdefg", 3),
        vec![
            build_packet_fragment(1, 2, 3, 0, b"abc"),
            build_packet_fragment(1, 2, 3, 1, b"def"),
            build_packet_fragment(1, 2, 3, 2, b"g"),
        ]
    );
    assert_eq!(
        build_packet_maybe_fragmented(1, 2, b"abcdef", 3),
        vec![
            build_packet_fragment(1, 2, 2, 0, b"abc"),
            build_packet_fragment(1, 2, 2, 1, b"def"),
        ]
    );
}

#[test]
fn the_fragment_count_keeps_eight_bits() {
    assert_eq!(build_packet_maybe_fragmented(1, 2, &[0; 255], 1).len(), 255);
    assert_eq!(build_packet_maybe_fragmented(1, 2, &[0; 256], 1).len(), 0);
    let cut = build_packet_maybe_fragmented(1, 2, &[0; 258], 1);
    assert_eq!(cut.len(), 2);
    assert_eq!(parse_packet(&cut[1]), Some((1, 2, 2, 1, &[0u8][..])));
}

#[test]
fn a_buffer_completes_once() {
    let mut b = ReassemblyBuffer::new(3, 5);
    assert_eq!((b.total, b.received, b.created), (3, 0, 5));
    assert!(!b.insert(2, b"c"));
    assert!(!b.insert(2, b"x"));
    assert!(!b.insert(3, b"x"));
    assert!(!b.insert(0, b"a"));
    assert!(b.insert(1, b"b"));
    assert!(!b.insert(1, b"x"));
    assert_eq!(b.received, 3);
    assert_eq!(b.assemble(), b"abc");
}

#[test]
fn an_incomplete_buffer_gives_what_it_has() {
    let mut b = ReassemblyBuffer::new(3, 0);
    b.insert(2, b"c");
    b.insert(0, b"a");
    assert_eq!(b.assemble(), b"ac");
    assert!(!ReassemblyBuffer::new(0, 0).insert(0, b"a"));
}

#[test]
fn buffers_age() {
    let b = ReassemblyBuffer::new(1, 5 * SECOND);
    assert!(!b.is_stale(15 * SECOND));
    assert!(b.is_stale(15 * SECOND + 1));
    assert!(!b.is_stale(0));
}

#[test]
fn fragments_reassemble_in_any_order() {
    let payload: Vec<u8> = (0..1000u32).map(|i| i as u8).collect();
    let packets = build_packet_maybe_fragmented(1, 9, &payload, 300);
    assert_eq!(packets.len(), 4);
    for order in [[0usize, 1, 2, 3], [3, 2, 1, 0], [2, 0, 3, 1]] {
        let mut r = Reassembler::new();
        for (n, i) in order.iter().enumerate() {
            let (_, pkt, total, frag, part) = parse_packet(&packets[*i]).unwrap();
            let out = r.add_fragment(n as u64, pkt, total, frag, part);
            if n == 3 {
                assert_eq!(out, Some(payload.clone()));
            } else {
                assert_eq!(out, None);
            }
        }
        assert!(r.buffers.is_empty());
    }
}

#[test]
fn a_complete_packet_leaves_the_others() {
    let mut r = Reassembler::new();
    r.add_fragment(0, 1, 2, 0, b"a");
    r.add_fragment(1, 2, 3, 1, b"b");
    assert_eq!(r.add_fragment(2, 9, 2, 1, b"y"), None);
    assert_eq!(r.add_fragment(3, 9, 2, 0, b"x"), Some(b"xy".to_vec()));
    assert_eq!(r.buffers.len(), 2);
    assert_eq!((r.buffers[&1].total, r.buffers[&1].received, r.buffers[&1].created), (2, 1, 0));
    assert_eq!((r.buffers[&2].total, r.buffers[&2].received, r.buffers[&2].created), (3, 1, 1));
}

#[test]
fn another_fragment_count_starts_over() {
    let mut r = Reassembler::new();
    assert_eq!(r.add_fragment(0, 1, 2, 0, b"a"), None);
    assert_eq!(r.add_fragment(1, 1, 3, 1, b"b"), None);
    assert_eq!(r.buffers[&1].total, 3);
    assert_eq!(r.buffers[&1].created, 1);
    assert_eq!(r.add_fragment(2, 1, 2, 1, b"c"), None);
    assert_eq!(r.add_fragment(3, 1, 2, 0, b"d"), Some(b"dc".to_vec()));
}

#[test]
fn the_oldest_packet_gives_way() {
    let mut r = Reassembler::new();
    for id in 0..64u16 {
        r.add_fragment(1000 - id as u64, id, 2, 0, b"x");
    }
    assert_eq!(r.buffers.len(), 64);
    r.add_fragment(2000, 5, 2, 0, b"x");
    assert_eq!(r.buffers.len(), 64);
    r.add_fragment(2000, 100, 2, 0, b"x");
    assert_eq!(r.buffers.len(), 64);
    assert!(!r.buffers.contains_key(&63));
    assert!(r.buffers.contains_key(&62) && r.buffers.contains_key(&100));
}

#[test]
fn old_packets_are_swept() {
    let mut r = Reassembler::new();
    r.add_fragment(0, 1, 2, 0, b"x");
    r.add_fragment(2 * SECOND, 2, 2, 0, b"x");
    r.sweep(12 * SECOND);
    assert_eq!(r.buffers.len(), 1);
    assert!(r.buffers.contains_key(&2));
}

#[test]
fn a_new_association_needs_a_socket() {
    let mut a: Associations<&str> = Associations::new();
    let p = build_packet(5, 1, b"hello");
    assert!(matches!(a.dispatch(1, RelayMode::Stream, &p), ServerCommand::Bind(5)));
    assert_eq!(a.handle(5), None);
    a.bound(1, 5, RelayMode::Stream, "one:1".to_string(), "socket");
    assert!(matches!(
        a.dispatch(2, RelayMode::Datagram, &p),
        ServerCommand::Forward(5, to, d) if to == "one:1" && d == b"hello"
    ));
    assert_eq!(a.handle(5), Some(&"socket"));
    assert_eq!(a.mode(5), Some(RelayMode::Datagram));
    assert_eq!(a.assocs[&5].last_seen, 2);
    assert_eq!(a.mode(6), None);
}

#[test]
fn fragments_are_held_until_complete() {
    let mut a: Associations<u8> = Associations::new();
    a.bound(0, 1, RelayMode::Datagram, "one:1".to_string(), 0);
    let cut = build_packet_maybe_fragmented(1, 3, b"abcdef", 4);
    assert!(matches!(a.dispatch(1, RelayMode::Datagram, &cut[1]), ServerCommand::Held(1)));
    assert!(matches!(
        a.dispatch(2, RelayMode::Datagram, &cut[0]),
        ServerCommand::Forward(1, to, d) if to == "one:1" && d == b"abcdef"
    ));
}

#[test]
fn fragments_survive_what_comes_in_between() {
    let mut a: Associations<u8> = Associations::new();
    a.bound(0, 1, RelayMode::Datagram, "one:1".to_string(), 0);
    a.bound(0, 2, RelayMode::Datagram, "two:2".to_string(), 0);
    let cut = build_packet_maybe_fragmented(1, 3, b"abcdefgh", 3);
    let other = build_packet_maybe_fragmented(1, 4, b"uvwxyz", 4);
    let mode = RelayMode::Stream;
    assert_eq!(cut.len(), 3);
    assert!(matches!(a.dispatch(1, mode, &cut[2]), ServerCommand::Held(1)));
    assert!(matches!(a.dispatch(1, mode, &other[1]), ServerCommand::Held(1)));
    assert!(matches!(a.dispatch(1, mode, &build_heartbeat()), ServerCommand::Ignore));
    assert!(matches!(a.dispatch(2, mode, &cut[0]), ServerCommand::Held(1)));
    let whole = build_packet(1, 3, b"whole");
    assert!(matches!(
        a.dispatch(2, mode, &whole),
        ServerCommand::Forward(1, to, d) if to == "one:1" && d == b"whole"
    ));
    assert!(matches!(
        a.dispatch(2, mode, &build_dissociate(2)),
        ServerCommand::Dissociated(0)
    ));
    a.bound(2, 3, mode, "three:3".to_string(), 7);
    assert_eq!(a.forget(3), Some(7));
    assert!(a.sweep(3).is_empty());
    assert!(matches!(
        a.dispatch(3, mode, &cut[1]),
        ServerCommand::Forward(1, to, d) if to == "one:1" && d == b"abcdefgh"
    ));
    assert_eq!(a.assocs[&1].reassembly.buffers.len(), 1);
    assert!(a.assocs[&1].reassembly.buffers.contains_key(&4));
}

#[test]
fn a_packet_of_255_fragments_is_relayed() {
    let mut a: Associations<u8> = Associations::new();
    a.bound(0, 1, RelayMode::Datagram, "one:1".to_string(), 0);
    let payload: Vec<u8> = (0..510u32).map(|i| i as u8).collect();
    let cut = build_packet_maybe_fragmented(1, 3, &payload, 2);
    assert_eq!(cut.len(), 255);
    for i in (1..255usize).rev() {
        assert!(matches!(a.dispatch(1, RelayMode::Datagram, &cut[i]), ServerCommand::Held(1)));
    }
    assert!(matches!(
        a.dispatch(1, RelayMode::Datagram, &cut[0]),
        ServerCommand::Forward(1, _, d) if d == payload
    ));
    assert!(a.assocs[&1].reassembly.buffers.is_empty());
}

#[test]
fn a_connection_forwards_to_its_backend_alone() {
    let mut c: Connection<&str> = Connection::new("two:2".to_string());
    let p = build_packet(5, 1, b"hello");
    let mode = RelayMode::Datagram;
    assert!(matches!(c.dispatch(1, mode, &p), ServerCommand::Bind(5)));
    c.bound(1, 5, mode, "socket");
    assert!(matches!(
        c.dispatch(1, mode, &p),
        ServerCommand::Forward(5, to, d) if to == "two:2" && d == b"hello"
    ));
    // An address in a packet does not matter.
    let b = vec![2, 0, 5, 0, 2, 1, 0, 0, 1, 1, 9, 9, 9, 9, 0, 80, 77];
    assert!(matches!(
        c.dispatch(2, RelayMode::Stream, &b),
        ServerCommand::Forward(5, to, d) if to == "two:2" && d == [77]
    ));
    assert_eq!(c.assocs.mode(5), Some(RelayMode::Stream));
    assert_eq!(c.assocs.handle(5), Some(&"socket"));
    c.bound(3, 6, mode, "second");
    let cut = build_packet_maybe_fragmented(6, 3, b"abcdef", 4);
    assert!(matches!(c.dispatch(3, mode, &cut[1]), ServerCommand::Held(6)));
    assert!(matches!(
        c.dispatch(3, mode, &cut[0]),
        ServerCommand::Forward(6, to, d) if to == "two:2" && d == b"abcdef"
    ));
    assert!(matches!(
        c.dispatch(3, mode, &build_dissociate(5)),
        ServerCommand::Dissociated("socket")
    ));
    assert!(matches!(c.dispatch(4, mode, &p), ServerCommand::Bind(5)));
    assert!(c.sweep(60 * SECOND).is_empty());
    assert_eq!(c.forget(6), Some("second"));
    assert_eq!(c.forget(6), None);
    c.bound(0, 7, mode, "third");
    assert_eq!(c.sweep(60 * SECOND + 1), vec!["third"]);
    assert_eq!(c.backend, "two:2");
}

#[test]
fn associations_do_not_share_fragments() {
    let mut a: Associations<u8> = Associations::new();
    a.bound(0, 1, RelayMode::Datagram, "one:1".to_string(), 0);
    a.bound(0, 2, RelayMode::Datagram, "one:1".to_string(), 0);
    let one = build_packet_maybe_fragmented(1, 3, b"abcdef", 4);
    let two = build_packet_maybe_fragmented(2, 3, b"uvwxyz", 4);
    assert!(matches!(a.dispatch(1, RelayMode::Datagram, &one[0]), ServerCommand::Held(1)));
    assert!(matches!(a.dispatch(1, RelayMode::Datagram, &two[1]), ServerCommand::Held(2)));
    assert!(matches!(
        a.dispatch(1, RelayMode::Datagram, &two[0]),
        ServerCommand::Forward(2, _, d) if d == b"uvwxyz"
    ));
}

#[test]
fn a_connection_has_at_most_128_associations() {
    let mut a: Associations<u16> = Associations::new();
    for id in 0..128u16 {
        let p = build_packet(id, 0, &[]);
        assert!(matches!(a.dispatch(0, RelayMode::Datagram, &p), ServerCommand::Bind(i) if i == id));
        a.bound(0, id, RelayMode::Datagram, "one:1".to_string(), id);
    }
    let p = build_packet(128, 0, &[]);
    assert!(matches!(a.dispatch(0, RelayMode::Datagram, &p), ServerCommand::LimitReached));
    let p = build_packet(127, 0, &[]);
    assert!(matches!(a.dispatch(0, RelayMode::Datagram, &p), ServerCommand::Forward(127, _, _)));
    assert_eq!(a.close().len(), 128);
    assert_eq!(a.handle(0), None);
}

#[test]
fn other_commands_are_told_apart() {
    let mut a: Associations<&str> = Associations::new();
    a.bound(0, 1, RelayMode::Datagram, "one:1".to_string(), "socket");
    assert!(matches!(a.dispatch(0, RelayMode::Datagram, &[]), ServerCommand::Ignore));
    assert!(matches!(
        a.dispatch(0, RelayMode::Datagram, &build_heartbeat()),
        ServerCommand::Ignore
    ));
    assert!(matches!(a.dispatch(0, RelayMode::Datagram, &[2, 0]), ServerCommand::Malformed));
    assert!(matches!(a.dispatch(0, RelayMode::Datagram, &[9]), ServerCommand::Unknown(9)));
    assert!(matches!(a.dispatch(0, RelayMode::Datagram, &[3, 0]), ServerCommand::Ignore));
    assert!(matches!(
        a.dispatch(0, RelayMode::Datagram, &build_dissociate(2)),
        ServerCommand::Ignore
    ));
    assert!(matches!(
        a.dispatch(0, RelayMode::Datagram, &build_dissociate(1)),
        ServerCommand::Dissociated("socket")
    ));
    assert_eq!(a.handle(1), None);
    a.bound(0, 4, RelayMode::Stream, "one:1".to_string(), "other");
    assert_eq!(a.forget(4), Some("other"));
    assert_eq!(a.forget(4), None);
}

#[test]
fn unused_associations_are_swept() {
    let mut a: Associations<&str> = Associations::new();
    a.bound(0, 1, RelayMode::Datagram, "one:1".to_string(), "old");
    a.bound(30 * SECOND, 2, RelayMode::Datagram, "one:1".to_string(), "used");
    let cut = build_packet_maybe_fragmented(2, 3, b"abcdef", 4);
    a.dispatch(40 * SECOND, RelayMode::Datagram, &cut[0]);
    assert!(a.sweep(60 * SECOND).is_empty());
    assert_eq!(a.assocs.len(), 2);
    assert!(a.assocs[&2].reassembly.buffers.is_empty());
    assert_eq!(a.sweep(60 * SECOND + 1), vec!["old"]);
    assert_eq!(a.handle(1), None);
    assert_eq!(a.handle(2), Some(&"used"));
}

#[test]
fn client_delivers_its_own_packets() {
    let mut c = ClientReceiver::new(1, 0);
    let p = build_packet(1, 7, b"reply");
    assert!(matches!(c.on_command(0, &p), ClientCommand::Deliver(d) if d == b"reply"));
    let p = build_packet(2, 7, b"reply");
    assert!(matches!(c.on_command(0, &p), ClientCommand::Ignore));
    assert!(matches!(c.on_command(0, &[]), ClientCommand::Ignore));
    assert!(matches!(c.on_command(0, &build_heartbeat()), ClientCommand::Ignore));
    assert!(matches!(c.on_command(0, &[2]), ClientCommand::Malformed));
    assert!(matches!(c.on_command(0, &build_dissociate(1)), ClientCommand::Unknown(3)));
}

#[test]
fn client_reassembles() {
    let mut c = ClientReceiver::new(1, 0);
    let cut = build_packet_maybe_fragmented(1, 3, b"abcdef", 2);
    assert!(matches!(c.on_command(0, &cut[2]), ClientCommand::Held));
    assert!(matches!(c.on_command(0, &cut[0]), ClientCommand::Held));
    assert!(matches!(c.on_command(0, &cut[0]), ClientCommand::Held));
    assert!(matches!(c.on_command(0, &cut[1]), ClientCommand::Deliver(d) if d == b"abcdef"));
}

#[test]
fn client_reassembles_what_is_mixed() {
    let mut c = ClientReceiver::new(1, 0);
    let cut = build_packet_maybe_fragmented(1, 3, b"abcdef", 2);
    let other = build_packet_maybe_fragmented(1, 4, b"uvwxyz", 3);
    assert!(matches!(c.on_command(0, &cut[1]), ClientCommand::Held));
    assert!(matches!(c.on_command(0, &other[1]), ClientCommand::Held));
    assert!(matches!(c.on_command(0, &cut[2]), ClientCommand::Held));
    assert!(matches!(c.on_command(0, &build_heartbeat()), ClientCommand::Ignore));
    c.tick(6 * SECOND);
    assert!(matches!(c.on_command(0, &cut[0]), ClientCommand::Deliver(d) if d == b"abcdef"));
    assert_eq!(c.reassembly.buffers.len(), 1);
    assert!(matches!(c.on_command(0, &other[0]), ClientCommand::Deliver(d) if d == b"uvwxyz"));
    assert!(c.reassembly.buffers.is_empty());
}

#[test]
fn client_cleans_up_from_time_to_time() {
    let mut c = ClientReceiver::new(1, 0);
    let cut = build_packet_maybe_fragmented(1, 3, b"abcdef", 2);
    c.on_command(0, &cut[0]);
    c.tick(5 * SECOND);
    assert_eq!(c.last_cleanup, 0);
    c.tick(6 * SECOND);
    assert_eq!(c.last_cleanup, 6 * SECOND);
    assert_eq!(c.reassembly.buffers.len(), 1);
    c.tick(11 * SECOND);
    assert_eq!(c.reassembly.buffers.len(), 1);
    c.tick(11 * SECOND + 1);
    assert!(c.reassembly.buffers.is_empty());
}

#[test]
fn local_datagrams_go_out_in_order() {
    let mut l: LocalRelay<&str> = LocalRelay::new(1, Some(13), 0);
    assert_eq!((l.limit, l.last_peer), (3, None));
    l.ids.next = 65535;
    let sent = l.on_datagram("ann", b"abcd");
    assert_eq!(
        sent,
        vec![
            build_packet_fragment(1, 65535, 2, 0, b"abc"),
            build_packet_fragment(1, 65535, 2, 1, b"d"),
        ]
    );
    assert_eq!(l.last_peer, Some("ann"));
    // What comes back does not use up an id.
    l.on_command(0, &build_packet(1, 7, b"x"));
    l.tick(9 * SECOND);
    assert_eq!(l.on_datagram("bob", b"ef"), vec![build_packet(1, 0, b"ef")]);
    assert_eq!(l.on_datagram("bob", b""), vec![build_packet(1, 1, b"")]);
    assert_eq!(l.last_peer, Some("bob"));
    assert_eq!(l.ids.next, 2);
    let l: LocalRelay<&str> = LocalRelay::new(1, None, 0);
    assert_eq!(l.limit, 1200);
}

#[test]
fn answers_go_to_the_peer_that_sent_last() {
    let mut l: LocalRelay<&str> = LocalRelay::new(1, None, 0);
    let p = build_packet(1, 7, b"reply");
    assert!(matches!(l.on_command(0, &p), LocalAction::Deliver(None, d) if d == b"reply"));
    l.on_datagram("ann", b"a");
    assert!(matches!(l.on_command(0, &p), LocalAction::Deliver(Some("ann"), d) if d == b"reply"));
    let cut = build_packet_maybe_fragmented(1, 3, b"abcdef", 4);
    assert!(matches!(l.on_command(0, &cut[1]), LocalAction::Held));
    l.on_datagram("bob", b"b");
    assert!(matches!(
        l.on_command(0, &cut[0]),
        LocalAction::Deliver(Some("bob"), d) if d == b"abcdef"
    ));
    assert!(l.receiver.reassembly.buffers.is_empty());
    assert!(matches!(l.on_command(0, &build_packet(2, 7, b"x")), LocalAction::Ignore));
    assert!(matches!(l.on_command(0, &[2]), LocalAction::Malformed));
    assert!(matches!(l.on_command(0, &[9]), LocalAction::Unknown(9)));
    l.on_command(0, &cut[0]);
    l.tick(10 * SECOND + 1);
    assert!(l.receiver.reassembly.buffers.is_empty());
    assert_eq!(l.receiver.last_cleanup, 10 * SECOND + 1);
}

#[test]
fn answers_travel_as_packets_came() {
    let mut c: Connection<&str> = Connection::new("two:2".to_string());
    c.bound(0, 5, RelayMode::Datagram, "socket");
    c.dispatch(0, RelayMode::Stream, &build_packet(5, 1, b"x"));
    assert_eq!(
        c.reply(5, RelayMode::Datagram, b"abcd", 3),
        (
            RelayMode::Stream,
            vec![
                build_packet_fragment(5, 0, 2, 0, b"abc"),
                build_packet_fragment(5, 0, 2, 1, b"d"),
            ]
        )
    );
    c.dispatch(1, RelayMode::Datagram, &build_packet_fragment(5, 2, 2, 0, b"y"));
    assert_eq!(
        c.reply(5, RelayMode::Stream, b"e", 3),
        (RelayMode::Datagram, vec![build_packet(5, 1, b"e")])
    );
    assert_eq!(c.close().len(), 1);
    assert_eq!(
        c.reply(5, RelayMode::Stream, b"", 0),
        (RelayMode::Stream, vec![build_packet(5, 2, b"")])
    );
    assert_eq!((c.ids.next, c.backend.as_str()), (3, "two:2"));
}

#[test]
fn a_cut_off_packet_is_refused() {
    let b = build_packet_fragment(1, 2, 3, 2, b"payload");
    for n in 0..b.len() {
        assert_eq!(parse_packet(&b[..n]), None);
    }
    let mut longer = b.clone();
    longer.extend_from_slice(b"more");
    assert_eq!(parse_packet(&longer), Some((1, 2, 3, 2, &b"payload"[..])));
}
