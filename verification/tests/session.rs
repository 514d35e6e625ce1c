use anyst::addr::IpLiteral;
use anyst::anytls::auth::auth_message;
use anyst::anytls::auth::auth_message_with;
use anyst::anytls::auth::backends_of;
use anyst::anytls::auth::find_backend;
use anyst::anytls::auth::first_packet;
use anyst::anytls::auth::padding_len;
use anyst::anytls::client::read_synack;
use anyst::anytls::client::ClientAction;
use anyst::anytls::client::ClientSession;
use anyst::anytls::client::ClientSettings;
use anyst::anytls::client::OpenError;
use anyst::anytls::client::StreamEvent;
use anyst::anytls::client::Waited;
use anyst::anytls::frame::data_frames;
use anyst::anytls::frame::decode_header;
use anyst::anytls::frame::encode_frame;
use anyst::anytls::frame::FrameHeader;
use anyst::anytls::pool::IdlePool;
use anyst::anytls::server::connect_failed;
use anyst::anytls::server::ServerAction;
use anyst::anytls::server::ServerSession;
use anyst::anytls::writer::PaddedWriter;
use anyst::anytls::writer::WireWrite;
use anyst::config::RemoteEntry;
use anyst::config::TunnelConfig;
use anyst::digest::sha256_password;
use anyst::padding::PaddingScheme;

fn frames(mut bytes: &[u8]) -> Vec<(u8, u32, Vec<u8>)> {
    let mut out = Vec::new();
    while bytes.len() >= 7 {
        let mut hdr = [0u8; 7];
        hdr.copy_from_slice(&bytes[..7]);
        let h = decode_header(&hdr);
        let end = 7 + h.len as usize;
        if bytes.len() < end {
            break;
        }
        out.push((h.cmd, h.stream_id, bytes[7..end].to_vec()));
        bytes = &bytes[end..];
    }
    out
}

fn remotes() -> Vec<RemoteEntry> {
    vec![
        RemoteEntry { addr: "one:1".to_string(), password: "alpha".to_string() },
        RemoteEntry { addr: "two:2".to_string(), password: "beta".to_string() },
        RemoteEntry { addr: "three:3".to_string(), password: "alpha".to_string() },
    ]
}

fn ready_server() -> ServerSession<&'static str> {
    let mut s = ServerSession::new("backend:80".to_string());
    assert!(matches!(s.on_frame(4, 0, vec![]), ServerAction::Require(_)));
    s
}

#[test]
fn frame_layout() {
    assert_eq!(
        encode_frame(2, 0x01020304, b"hi"),
        vec![2, 1, 2, 3, 4, 0, 2, b'h', b'i']
    );
    assert_eq!(
        decode_header(&[7, 0, 0, 1, 0, 0xFF, 0xFE]),
        FrameHeader { cmd: 7, stream_id: 256, len: 0xFFFE }
    );
}

#[test]
fn frames_survive_the_wire() {
    let mut wire = encode_frame(2, u32::MAX, &[1u8; 300]);
    wire.extend_from_slice(&encode_frame(3, 7, &[]));
    wire.extend_from_slice(&encode_frame(2, 1, &[2u8; 65535]));
    assert_eq!(
        frames(&wire),
        vec![
            (2, u32::MAX, vec![1u8; 300]),
            (3, 7, vec![]),
            (2, 1, vec![2u8; 65535])
        ]
    );
}

#[test]
fn reads_of_any_length_come_back() {
    for n in [0usize, 1, 65535, 65536, 65541, 131070, 200000] {
        let data: Vec<u8> = (0..n).map(|i| (i % 251) as u8).collect();
        let sent = data_frames(9, &data);
        let seen = frames(&sent);
        assert_eq!(seen.len(), (n + 65534) / 65535);
        assert_eq!(sent.len(), n + 7 * seen.len());
        let mut back = Vec::new();
        for (cmd, id, part) in &seen {
            assert_eq!((*cmd, *id), (2, 9));
            back.extend_from_slice(part);
        }
        assert_eq!(back, data);
    }
}

#[test]
fn a_short_read_is_one_frame() {
    assert_eq!(data_frames(7, b"hello"), encode_frame(2, 7, b"hello"));
    let full = vec![3u8; 65536];
    let mut two = encode_frame(2, 1, &full[..65535]);
    two.extend_from_slice(&encode_frame(2, 1, &[3]));
    assert_eq!(data_frames(1, &full), two);
}

#[test]
fn a_full_buffer_does_not_upset_the_stream() {
    let mut server = ready_server();
    server.connected(1, "target", None);
    let mut client = ClientSession::dialed("local");
    let reads = [vec![1u8; 65536], vec![2u8; 10], vec![3u8; 65536]];
    let mut wire = Vec::new();
    for r in &reads {
        wire.extend_from_slice(&data_frames(1, r));
    }
    wire.extend_from_slice(&encode_frame(3, 1, &[]));
    let mut up = Vec::new();
    let mut down = Vec::new();
    let mut ended = (false, false);
    for (cmd, id, data) in frames(&wire) {
        match server.on_frame(cmd, id, data.clone()) {
            ServerAction::Forward(1, d) => up.extend_from_slice(&d),
            ServerAction::Finish(h) => ended.0 = h == "target",
            _ => panic!("unexpected"),
        }
        match client.on_frame(cmd, id, data) {
            ClientAction::Deliver(1, StreamEvent::Data(d)) => down.extend_from_slice(&d),
            ClientAction::Finish(h) => ended.1 = h == "local",
            _ => panic!("unexpected"),
        }
    }
    assert_eq!(up, reads.concat());
    assert_eq!(down, reads.concat());
    assert_eq!(ended, (true, true));
}

#[test]
fn password_hash_is_sha256() {
    let h = sha256_password("password");
    assert_eq!(&h[..4], &[0x5e, 0x88, 0x48, 0x98]);
    assert_eq!(&h[28..], &[0x1d, 0x15, 0x42, 0xd8]);
}

#[test]
fn authentication_message_layout() {
    let msg = auth_message_with("password", &[9, 8, 7]);
    assert_eq!(&msg[..32], &sha256_password("password")[..]);
    assert_eq!(&msg[32..], &[0, 3, 9, 8, 7]);
    assert_eq!(padding_len(&[msg[32], msg[33]]), 3);
    assert_eq!(padding_len(&[1, 2]), 258);
}

#[test]
fn authentication_padding_fits_its_length() {
    let pad: Vec<u8> = (0..70000u32).map(|i| i as u8).collect();
    let msg = auth_message_with("password", &pad);
    assert_eq!(msg.len(), 34 + 65535);
    assert_eq!(padding_len(&[msg[32], msg[33]]), 65535);
    assert_eq!(msg[34..], pad[..65535]);
    let scheme = PaddingScheme::parse("0=70000-70000").unwrap();
    let msg = auth_message("password", &scheme);
    assert_eq!(msg.len(), 34 + padding_len(&[msg[32], msg[33]]));
}

#[test]
fn authentication_padding_is_random() {
    let scheme = PaddingScheme::default_scheme();
    let a = auth_message("password", &scheme);
    let b = auth_message("password", &scheme);
    assert_eq!(a.len(), 32 + 2 + 30);
    assert_eq!(a[..34], b[..34]);
    assert_eq!(padding_len(&[a[32], a[33]]), 30);
    assert_ne!(a[34..], b[34..]);
}

#[test]
fn passwords_lead_to_their_backends() {
    let backends = backends_of(&remotes());
    assert_eq!(backends.len(), 3);
    assert_eq!(find_backend(&backends, &sha256_password("alpha")).unwrap(), "one:1");
    assert_eq!(find_backend(&backends, &sha256_password("beta")).unwrap(), "two:2");
    let e = find_backend(&backends, &sha256_password("password")).unwrap_err();
    assert_eq!(
        e.message(),
        "authentication failed: no matching password for hash [5e, 88, 48, 98]..."
    );
    assert!(find_backend(&[], &[0; 32]).is_err());
}

#[test]
fn first_packet_introduces_the_client() {
    let scheme = PaddingScheme::default_scheme();
    let sent = frames(&first_packet(&scheme));
    assert_eq!(sent.len(), 2);
    assert_eq!(
        sent[0],
        (
            4,
            0,
            b"v=2\nclient=anyst/0.1.0\npadding-md5=75cff2ad89aadf5e257059ee571ebe11\n".to_vec()
        )
    );
    assert_eq!(sent[1], (1, 1, vec![0]));
}

#[test]
fn server_answers_the_first_packet() {
    let mut s: ServerSession<u8> = ServerSession::new("backend:80".to_string());
    let mut sent = frames(&first_packet(&PaddingScheme::default_scheme())).into_iter();
    let (cmd, id, data) = sent.next().unwrap();
    match s.on_frame(cmd, id, data) {
        ServerAction::Require(b) => assert_eq!(
            frames(&b),
            vec![(
                10,
                0,
                b"v=2\nserver=anyst/0.1.0\npadding-md5=75cff2ad89aadf5e257059ee571ebe11\n".to_vec()
            )]
        ),
        _ => panic!("no answer"),
    }
    let (cmd, id, data) = sent.next().unwrap();
    assert!(matches!(s.on_frame(cmd, id, data), ServerAction::Connect(1)));
    let answer = s.connected(1, 77, None);
    assert_eq!(frames(&answer), vec![(7, 1, b"\x03\x07backend\0P".to_vec())]);
    assert_eq!(s.stream(1), Some(&77));
}

#[test]
fn a_stream_before_the_settings_ends_the_session() {
    let mut s: ServerSession<u8> = ServerSession::new("backend:80".to_string());
    match s.on_frame(1, 1, vec![0]) {
        ServerAction::Refuse(b) => assert_eq!(
            frames(&b),
            vec![(5, 0, b"cmdSYN received before cmdSettings".to_vec())]
        ),
        _ => panic!("not refused"),
    }
}

#[test]
fn a_session_has_at_most_256_streams() {
    let mut s: ServerSession<u32> = ServerSession::new("backend:80".to_string());
    s.on_frame(4, 0, vec![]);
    for id in 1..=256u32 {
        assert!(matches!(s.on_frame(1, id, vec![0]), ServerAction::Connect(i) if i == id));
        s.connected(id, id, None);
    }
    match s.on_frame(1, 257, vec![0]) {
        ServerAction::Answer(b) => {
            assert_eq!(frames(&b), vec![(7, 257, b"too many streams".to_vec())])
        }
        _ => panic!("no answer"),
    }
    s.stream_ended(9);
    assert!(matches!(s.on_frame(1, 257, vec![0]), ServerAction::Connect(257)));
    assert_eq!(s.close().len(), 255);
    assert_eq!(s.stream(1), None);
}

#[test]
fn uploads_reach_their_backend() {
    let mut s = ready_server();
    s.connected(1, "first", None);
    s.connected(2, "second", None);
    assert!(matches!(s.on_frame(2, 1, vec![5]), ServerAction::Forward(1, d) if d == vec![5]));
    assert!(matches!(s.on_frame(2, 2, vec![6]), ServerAction::Forward(2, d) if d == vec![6]));
    assert!(matches!(s.on_frame(2, 3, vec![7]), ServerAction::Ignore));
    assert!(matches!(s.on_frame(3, 1, vec![]), ServerAction::Finish("first")));
    assert!(matches!(s.on_frame(3, 1, vec![]), ServerAction::Ignore));
    assert!(matches!(s.on_frame(2, 1, vec![8]), ServerAction::Ignore));
    assert_eq!(s.stream(2), Some(&"second"));
}

#[test]
fn server_keeps_the_session_alive() {
    let mut s = ready_server();
    match s.on_frame(8, 0, vec![]) {
        ServerAction::Answer(b) => assert_eq!(frames(&b), vec![(9, 0, vec![])]),
        _ => panic!("no answer"),
    }
    for cmd in [0u8, 6, 7, 9, 10, 11, 255] {
        assert!(matches!(s.on_frame(cmd, 0, vec![1]), ServerAction::Ignore));
    }
    assert!(matches!(s.on_frame(5, 0, vec![]), ServerAction::End));
}

#[test]
fn clients_understand_success() {
    let mut s = ready_server();
    let by_ip = s.connected(1, "a", Some(IpLiteral::V4([127, 0, 0, 1])));
    assert_eq!(frames(&by_ip)[0].2, vec![1, 127, 0, 0, 1, 0, 80]);
    for answer in [by_ip, s.connected(2, "b", None)] {
        assert_eq!(read_synack(&frames(&answer)[0].2), Ok(()));
    }
    assert_eq!(read_synack(&[]), Ok(()));
    assert_eq!(read_synack(&[0]), Ok(()));
}

#[test]
fn clients_understand_refusals() {
    let answer = connect_failed(4, "Connection refused (os error 111)");
    assert_eq!(frames(&answer)[0].1, 4);
    assert_eq!(
        read_synack(&frames(&answer)[0].2),
        Err("failed to connect to target: Connection refused (os error 111)".to_string())
    );
    assert_eq!(read_synack(b"too many streams"), Err("too many streams".to_string()));
    assert_eq!(read_synack(&[b'x', 0xFF]), Err("x\u{fffd}".to_string()));
}

#[test]
fn client_takes_its_first_remote() {
    let cfg = TunnelConfig {
        listen: "127.0.0.1:1".to_string(),
        remotes: remotes(),
        sni: String::new(),
        insecure: true,
        password: String::new(),
        cert: None,
        key: None,
    };
    let c = ClientSettings::new(&cfg);
    assert_eq!(c.remote, "one:1");
    assert_eq!(c.password, "alpha");
    assert_eq!(c.sni, "one");
    assert!(c.insecure);
}

#[test]
fn a_dialed_session_is_idle_after_its_first_stream() {
    let mut s = ClientSession::dialed("first");
    assert_eq!(s.stream(1), Some(&"first"));
    assert!(!s.is_idle());
    s.end_stream(1);
    assert!(s.is_idle());
    assert_eq!(s.stream(1), None);
}

#[test]
fn reused_sessions_count_their_streams() {
    let mut s = ClientSession::dialed(0);
    s.end_stream(1);
    let (id, syn) = s.begin_stream(10);
    assert_eq!(id, 1);
    assert_eq!(syn, encode_frame(1, 1, &[0]));
    s.end_stream(id);
    let (id, syn) = s.begin_stream(11);
    assert_eq!(id, 2);
    assert_eq!(syn, encode_frame(1, 2, &[0]));
    assert_eq!(s.stream(2), Some(&11));
    assert_eq!(s.active_streams, 1);
    s.end_stream(2);
    assert!(s.is_idle());
}

#[test]
fn stream_ids_start_over() {
    let mut s = ClientSession::dialed(0);
    s.next_stream_id = u32::MAX;
    s.active_streams = 0;
    assert_eq!(s.begin_stream(1).0, u32::MAX);
    assert_eq!(s.begin_stream(2).0, 0);
    s.active_streams = 0;
    s.end_stream(0);
    assert_eq!(s.active_streams, u32::MAX);
}

#[test]
fn opening_ends_as_the_wait_did() {
    let mut s = ClientSession::dialed(0);
    assert!(s.finish_open(1, Waited::Event(StreamEvent::SynAck(Ok(())))).is_ok());
    assert!(!s.is_idle());
    let e = s
        .finish_open(1, Waited::Event(StreamEvent::SynAck(Err("busy".to_string()))))
        .unwrap_err();
    assert!(matches!(&e, OpenError::Rejected(m) if m == "busy"));
    assert_eq!(e.message(), "server rejected stream: busy");
    assert!(s.is_idle());
    s.begin_stream(1);
    let e = s.finish_open(1, Waited::TimedOut).unwrap_err();
    assert_eq!(e.message(), "timed out waiting for SYNACK");
    s.begin_stream(1);
    let e = s.finish_open(2, Waited::Gone).unwrap_err();
    assert_eq!(e.message(), "session closed before SYNACK");
    s.begin_stream(1);
    let e = s.finish_open(3, Waited::Event(StreamEvent::Fin)).unwrap_err();
    assert!(matches!(e, OpenError::Closed));
    s.begin_stream(1);
    let e = s.abandon_open(4);
    assert_eq!(e.message(), "session writer gone");
    assert!(s.is_idle());
}

#[test]
fn client_hands_frames_to_their_streams() {
    let mut s = ClientSession::dialed("handle");
    assert!(matches!(
        s.on_frame(7, 1, vec![0]),
        ClientAction::Deliver(1, StreamEvent::SynAck(Ok(())))
    ));
    assert!(matches!(
        s.on_frame(7, 1, b"no".to_vec()),
        ClientAction::Deliver(1, StreamEvent::SynAck(Err(m))) if m == "no"
    ));
    assert!(matches!(
        s.on_frame(2, 1, vec![1, 2]),
        ClientAction::Deliver(1, StreamEvent::Data(d)) if d == vec![1, 2]
    ));
    assert!(matches!(s.on_frame(7, 2, vec![0]), ClientAction::Ignore));
    assert!(matches!(s.on_frame(2, 2, vec![1]), ClientAction::Ignore));
    assert!(matches!(s.on_frame(3, 2, vec![]), ClientAction::Ignore));
    assert!(matches!(s.on_frame(3, 1, vec![]), ClientAction::Finish("handle")));
    assert!(matches!(s.on_frame(2, 1, vec![1]), ClientAction::Ignore));
    assert_eq!(s.active_streams, 1);
}

#[test]
fn client_keeps_the_session_alive() {
    let mut s = ClientSession::dialed(0);
    match s.on_frame(8, 0, vec![]) {
        ClientAction::Answer(b) => assert_eq!(frames(&b), vec![(9, 0, vec![])]),
        _ => panic!("no answer"),
    }
    for cmd in [0u8, 1, 4, 9, 10, 11, 255] {
        assert!(matches!(s.on_frame(cmd, 1, vec![1]), ClientAction::Ignore));
    }
    assert!(matches!(s.on_frame(5, 0, vec![]), ClientAction::Close));
}

#[test]
fn client_takes_over_readable_schemes() {
    let mut s = ClientSession::dialed(0);
    match s.on_frame(6, 0, b"stop=3\n1=7-7".to_vec()) {
        ClientAction::NewScheme(p) => {
            assert_eq!(p.stop, 3);
            assert_eq!(p.raw, "stop=3\n1=7-7");
        }
        _ => panic!("no scheme"),
    }
    assert!(matches!(s.on_frame(6, 0, b"stop".to_vec()), ClientAction::BadScheme(_)));
    assert!(matches!(s.on_frame(6, 0, vec![0xFF]), ClientAction::Ignore));
}

#[test]
fn a_lost_session_gives_up_its_streams() {
    let mut s = ClientSession::dialed("handle");
    let open = s.disconnected();
    assert_eq!(open.len(), 1);
    assert_eq!(open[&1], "handle");
    assert!(s.closed);
    assert!(!s.close());
    s.end_stream(1);
    assert!(!s.is_idle());
}

#[test]
fn closing_twice_does_nothing() {
    let mut s = ClientSession::dialed(0);
    assert!(s.close());
    assert!(!s.close());
    assert_eq!(s.stream(1), Some(&0));
}

#[test]
fn idle_sessions_come_back_last_in_first_out() {
    let mut p = IdlePool::new();
    assert_eq!(p.take(), None);
    assert_eq!(p.put(1, "a"), None);
    assert_eq!(p.put(2, "b"), None);
    assert_eq!(p.take(), Some("b"));
    assert_eq!(p.take(), Some("a"));
    assert_eq!(p.take(), None);
}

#[test]
fn a_full_pool_gives_up_its_oldest_session() {
    let mut p = IdlePool::new();
    for i in 0..64u64 {
        assert_eq!(p.put(i, i), None);
    }
    assert_eq!(p.put(64, 64), Some(0));
    assert_eq!(p.entries.len(), 64);
    assert_eq!(p.entries[0], (1, 1));
    assert_eq!(p.take(), Some(64));
}

#[test]
fn only_idle_sessions_are_pooled() {
    let mut p: IdlePool<u32> = IdlePool::new();
    assert_eq!(p.release(1, false, 7), None);
    assert!(p.entries.is_empty());
    for i in 0..64u32 {
        assert_eq!(p.release(2, true, i), None);
    }
    assert_eq!(p.entries[0], (2, 0));
    assert_eq!(p.release(3, false, 100), None);
    assert_eq!(p.entries.len(), 64);
    assert_eq!(p.release(3, true, 100), Some(0));
    assert_eq!(p.entries.len(), 64);
    assert_eq!(p.take(), Some(100));
}

#[test]
fn old_idle_sessions_are_swept() {
    const SECOND: u64 = 1_000_000_000;
    let mut p = IdlePool::new();
    p.put(0, "old");
    p.put(10 * SECOND, "edge");
    p.put(9 * SECOND, "late");
    p.put(100 * SECOND, "future");
    assert_eq!(p.sweep(70 * SECOND), vec!["old", "late"]);
    assert_eq!(p.entries, vec![(10 * SECOND, "edge"), (100 * SECOND, "future")]);
    assert_eq!(p.sweep(70 * SECOND), Vec::<&str>::new());
}

#[test]
fn padding_is_invisible_to_the_reader() {
    let scheme = PaddingScheme::parse("stop=3\n1=20-20,c,30-30\n2=5-5,50-50").unwrap();
    let mut w = PaddedWriter::new();
    let packet = encode_frame(2, 1, b"hello");
    let writes = w.next_write_with(&scheme, &[20, 0, 30], &packet);
    assert_eq!(writes.len(), 2);
    assert_eq!(writes[0].bytes(), &packet[..]);
    assert_eq!(writes[1].bytes(), &encode_frame(0, 0, &[0])[..]);
    let writes = w.next_write(&scheme, &packet);
    assert_eq!(writes.len(), 3);
    assert_eq!(writes[0].bytes(), &packet[..5]);
    let mut wire = Vec::new();
    for x in &writes {
        wire.extend_from_slice(x.bytes());
    }
    assert_eq!(wire.len(), 55);
    let seen = frames(&wire);
    assert_eq!(seen, vec![(2, 1, b"hello".to_vec()), (0, 0, vec![0; 36])]);
    let again: Vec<u8> =
        seen.iter().flat_map(|(cmd, id, data)| encode_frame(*cmd, *id, data)).collect();
    assert_eq!(again, wire);
}

#[test]
fn padding_too_small_for_a_frame_is_left_out() {
    let scheme = PaddingScheme::parse("stop=9\n1=8-8\n2=9-9").unwrap();
    let data = [1u8, 2];
    let mut w = PaddedWriter::new();
    assert_eq!(w.next_write(&scheme, &data), vec![WireWrite::Data(&data[..])]);
    let writes = w.next_write(&scheme, &data);
    assert_eq!(writes[1], WireWrite::Filler(vec![0, 0, 0, 0, 0, 0, 0]));
}

#[test]
fn large_fillers_are_readable() {
    for n in [7usize, 65542, 65543, 65548, 65549, 70000, 131084, 131085, 200000] {
        let scheme = PaddingScheme::parse(&format!("stop=9\n1={n}-{n}")).unwrap();
        let mut w = PaddedWriter::new();
        let writes = w.next_write(&scheme, &[]);
        assert_eq!(writes.len(), 1);
        let mut wire = writes[0].bytes().to_vec();
        assert_eq!(wire.len(), n);
        wire.extend_from_slice(&encode_frame(2, 1, b"next"));
        let seen = frames(&wire);
        assert_eq!(seen.last(), Some(&(2, 1, b"next".to_vec())));
        for (cmd, id, data) in &seen[..seen.len() - 1] {
            assert_eq!((*cmd, *id), (0, 0));
            assert!(data.iter().all(|b| *b == 0));
        }
        let total: usize = seen.iter().map(|f| 7 + f.2.len()).sum();
        assert_eq!(total, n + 11);
    }
}

#[test]
fn writes_are_as_long_as_planned() {
    let scheme = PaddingScheme::parse("stop=9\n1=20-20,5-5,30-30").unwrap();
    let mut w = PaddedWriter::new();
    let writes = w.next_write(&scheme, &[1u8; 22]);
    let sizes: Vec<usize> = writes.iter().map(|x| x.bytes().len()).collect();
    // The filler of 3 bytes behind the last 2 bytes of data is left out.
    assert_eq!(sizes, vec![20, 2, 30]);
}

#[test]
fn the_writer_stops_looking_at_the_scheme() {
    let short = PaddingScheme::parse("stop=2\n1=9-9").unwrap();
    let long = PaddingScheme::parse("stop=100\n2=50-50\n3=50-50").unwrap();
    let mut w = PaddedWriter::new();
    assert_eq!((w.packet_index, w.cached_stop), (1, None));
    assert!(!w.is_done());
    w.next_write(&short, &[1]);
    assert_eq!((w.packet_index, w.cached_stop), (2, Some(2)));
    assert!(w.is_done());
    let data = [1u8];
    assert_eq!(w.next_write(&long, &data), vec![WireWrite::Data(&data[..])]);
    assert_eq!((w.packet_index, w.cached_stop), (3, Some(2)));
}

#[test]
fn a_new_scheme_takes_effect_while_padding_lasts() {
    let first = PaddingScheme::parse("stop=5").unwrap();
    let second = PaddingScheme::parse("stop=9\n2=50-50").unwrap();
    let mut w = PaddedWriter::new();
    w.next_write(&first, &[1]);
    let writes = w.next_write(&second, &[1]);
    assert_eq!(writes.len(), 2);
    assert_eq!((w.packet_index, w.cached_stop), (3, Some(9)));
}

#[test]
fn the_packet_index_stays_at_its_end() {
    let scheme = PaddingScheme::parse("stop=2").unwrap();
    let mut w = PaddedWriter { packet_index: u32::MAX, cached_stop: Some(2) };
    w.next_write(&scheme, &[1]);
    assert_eq!(w.packet_index, u32::MAX);
}

#[test]
fn a_tunnel_carries_data_both_ways() {
    let scheme = PaddingScheme::default_scheme();
    let mut writer = PaddedWriter::new();
    let mut client = ClientSession::dialed("local");
    let mut server: ServerSession<&str> = ServerSession::new("backend:80".to_string());
    let mut wire = Vec::new();
    let mut packets = vec![first_packet(&scheme)];
    for part in [&b"GET "[..], &b"/"[..], &[7u8; 5000][..]] {
        packets.push(data_frames(1, part));
    }
    packets.push(encode_frame(3, 1, &[]));
    for p in &packets {
        for w in writer.next_write(&scheme, p) {
            wire.extend_from_slice(w.bytes());
        }
    }
    let mut uploaded = Vec::new();
    let mut answers = Vec::new();
    let mut finished = false;
    for (cmd, id, data) in frames(&wire) {
        match server.on_frame(cmd, id, data) {
            ServerAction::Require(b) | ServerAction::Answer(b) => answers.extend_from_slice(&b),
            ServerAction::Connect(id) => {
                answers.extend_from_slice(&server.connected(id, "target", None))
            }
            ServerAction::Forward(id, d) => {
                assert_eq!(server.stream(id), Some(&"target"));
                uploaded.extend_from_slice(&d);
            }
            ServerAction::Finish(h) => {
                assert_eq!(h, "target");
                finished = true;
            }
            ServerAction::Ignore => {}
            ServerAction::Refuse(_) | ServerAction::End => panic!("ended"),
        }
    }
    assert!(finished);
    assert_eq!(&uploaded[..5], b"GET /");
    assert_eq!(uploaded.len(), 5005);
    answers.extend_from_slice(&data_frames(1, b"200"));
    answers.extend_from_slice(&encode_frame(3, 1, &[]));
    let mut downloaded = Vec::new();
    let mut open = false;
    let mut done = false;
    for (cmd, id, data) in frames(&answers) {
        match client.on_frame(cmd, id, data) {
            ClientAction::Deliver(1, StreamEvent::SynAck(r)) => open = r.is_ok(),
            ClientAction::Deliver(1, StreamEvent::Data(d)) => downloaded.extend_from_slice(&d),
            ClientAction::Finish(h) => done = h == "local",
            ClientAction::Ignore => {}
            _ => panic!("unexpected"),
        }
    }
    assert!(open && done);
    assert_eq!(downloaded, b"200");
    client.end_stream(1);
    assert!(client.is_idle());
}

#[test]
fn refused_streams_learn_why() {
    let mut client = ClientSession::dialed("local");
    let mut wire = connect_failed(1, "no route");
    wire.extend_from_slice(&encode_frame(7, 1, b"too many streams"));
    let mut reasons = Vec::new();
    for (cmd, id, data) in frames(&wire) {
        match client.on_frame(cmd, id, data) {
            ClientAction::Deliver(1, StreamEvent::SynAck(Err(m))) => reasons.push(m),
            _ => panic!("unexpected"),
        }
    }
    assert_eq!(reasons, vec!["failed to connect to target: no route", "too many streams"]);
    assert!(client.stream(1).is_some());
}

#[test]
fn a_session_keeps_its_backend() {
    let mut s = ready_server();
    for cmd in 0..=11u8 {
        s.on_frame(cmd, 1, b"\x03\x05other\0P".to_vec());
    }
    assert_eq!(s.backend, "backend:80");
    assert_eq!(frames(&s.connected(1, "a", None))[0].2, b"\x03\x07backend\0P".to_vec());
}

#[test]
fn streams_do_not_mix() {
    let mut shared = ready_server();
    let mut alone = ready_server();
    shared.connected(1, "a", None);
    shared.connected(2, "b", None);
    alone.connected(1, "a", None);
    let sent: Vec<(u8, u32, Vec<u8>)> = vec![
        (2, 1, vec![1]),
        (2, 2, vec![9]),
        (3, 2, vec![]),
        (2, 1, vec![2]),
        (3, 1, vec![]),
        (2, 1, vec![3]),
    ];
    let mut got = [Vec::new(), Vec::new()];
    for (cmd, id, data) in &sent {
        if let ServerAction::Forward(1, d) = shared.on_frame(*cmd, *id, data.clone()) {
            got[0].push(d);
        }
        if *id == 1 {
            if let ServerAction::Forward(1, d) = alone.on_frame(*cmd, *id, data.clone()) {
                got[1].push(d);
            }
        }
    }
    assert_eq!(got[0], vec![vec![1], vec![2]]);
    assert_eq!(got[0], got[1]);
}
