use open_gdm_server::codec::{decode_header, decode_message, PacketError, Prefixes};
use open_gdm_server::dispatch::handle_packet;
use open_gdm_server::registry::{Datagram, PeerAddr, State};

fn addr(n: u8) -> PeerAddr {
    PeerAddr { ip: u128::from(u32::from_be_bytes([10, 0, 0, n])), port: 40000 + n as u16, is_v6: false }
}

fn header(prefix: u8, id: i32, key: u32) -> Vec<u8> {
    let mut b = vec![prefix];
    b.extend_from_slice(&id.to_le_bytes());
    b.extend_from_slice(&key.to_le_bytes());
    b
}

fn hello(id: i32, key: u32) -> Vec<u8> {
    header(3, id, key)
}

fn ping(id: i32, key: u32) -> Vec<u8> {
    let mut b = header(0, id, key);
    b.extend_from_slice(&[0u8; 20]);
    b
}

fn slot(seed: i32) -> Vec<u8> {
    let mut b = Vec::new();
    b.extend_from_slice(&(seed).to_le_bytes());
    b.extend_from_slice(&(seed + 1).to_le_bytes());
    b.extend_from_slice(&(seed + 2).to_le_bytes());
    b.extend_from_slice(&(-seed).to_le_bytes());
    b.push(3); // gamemode
    b.push(9); // active icon
    b.extend_from_slice(&(seed * 10).to_le_bytes());
    b.push(1); // gravity
    b
}

fn message(id: i32, key: u32, level: i32, seed: i32) -> Vec<u8> {
    let mut b = header(1, id, key);
    b.extend(slot(seed));
    b.extend(slot(seed + 100));
    b.push(0); // is dead
    b.extend_from_slice(&level.to_le_bytes());
    b.extend_from_slice(&(-2i16).to_le_bytes());
    b.push(11);
    b.push(12);
    b.push(1);
    b.extend_from_slice(&[21, 22, 23, 24, 25, 26, 27]);
    b
}

/// The relay a member receives for `sender`'s Message built by `message`.
fn expected_relay(sender: i32, seed: i32) -> Vec<u8> {
    let mut b = vec![1u8];
    b.extend_from_slice(&sender.to_le_bytes());
    b.extend(slot(seed));
    b.extend(slot(seed + 100));
    b.extend_from_slice(&[0, 0, 11, 12, 1]);
    b.extend_from_slice(&[21, 22, 23, 24, 25, 26, 27]);
    b
}

fn disconnect_notice(id: i32) -> Vec<u8> {
    let mut b = vec![7u8];
    b.extend_from_slice(&id.to_le_bytes());
    b
}

fn unauthorized() -> Vec<u8> {
    let mut b = vec![2u8];
    b.extend_from_slice(b"unauthorized");
    b
}

fn run(state: &mut State, buf: &[u8], from: PeerAddr, now: u64) -> Vec<Datagram> {
    handle_packet(state, buf, from, now).expect("datagram accepted")
}

fn sent(out: &[Datagram]) -> Vec<(PeerAddr, Vec<u8>)> {
    out.iter().map(|d| (d.to, d.bytes.clone())).collect()
}

#[test]
fn prefixes_round_trip() {
    for code in [0i8, 1, 2, 3, 4, 5, 7, 8, 9, 0x10, 0x11, 0x12] {
        let p = Prefixes::from_number(code).expect("known kind");
        assert_eq!(p.to_number(), code);
    }
    assert_eq!(Prefixes::from_number(6), None);
    assert_eq!(Prefixes::from_number(0x13), None);
    assert_eq!(Prefixes::from_number(-1), None);
    assert_eq!(Prefixes::from_number(3), Some(Prefixes::Hello));
    assert_eq!(Prefixes::OutsideLevel.to_number(), 16);
}

#[test]
fn header_decoding() {
    let h = decode_header(&hello(-5, 0xdeadbeef)).unwrap();
    assert_eq!(h.prefix, Prefixes::Hello);
    assert_eq!(h.client_id, -5);
    assert_eq!(h.key, 0xdeadbeef);
    assert_eq!(decode_header(&[]), Err(PacketError::Truncated));
    assert_eq!(decode_header(&[3, 1, 0, 0]), Err(PacketError::Truncated));
    assert_eq!(decode_header(&[6, 1, 0, 0, 0, 0, 0, 0, 0]), Err(PacketError::InvalidPrefix(6)));
}

#[test]
fn message_decoding() {
    let b = message(4, 1, 77, 5);
    assert_eq!(b.len(), 72);
    let (level, p) = decode_message(&b).unwrap();
    assert_eq!(level, 77);
    assert_eq!(p.p1.pos, (5, 6));
    assert_eq!(p.p1.rot, (7, -5));
    assert_eq!(p.p1.size, 50);
    assert_eq!(p.p2.pos, (105, 106));
    assert_eq!(p.room, -2);
    assert_eq!(p.icon_ids, vec![21, 22, 23, 24, 25, 26, 27]);
    assert!(matches!(decode_message(&b[..71]), Err(PacketError::Truncated)));
}

#[test]
fn malformed_datagrams_are_dropped() {
    let mut s = State::new();
    assert!(matches!(handle_packet(&mut s, &[], addr(1), 0), Err(PacketError::Truncated)));
    assert!(matches!(
        handle_packet(&mut s, &[0x42, 0, 0, 0, 0, 0, 0, 0, 0], addr(1), 0),
        Err(PacketError::InvalidPrefix(0x42))
    ));
    assert!(matches!(handle_packet(&mut s, &[3, 1, 0], addr(1), 0), Err(PacketError::Truncated)));
    assert_eq!(s.current_session_count(), 0);
}

#[test]
fn hello_creates_session_and_acks() {
    let mut s = State::new();
    let out = run(&mut s, &hello(1, 7), addr(1), 1000);
    assert_eq!(sent(&out), vec![(addr(1), vec![4u8])]);
    let e = s.session_of(1).unwrap();
    assert_eq!(e.key, 7);
    assert_eq!(e.addr, addr(1));
    assert_eq!(e.last_seen, 1000);
    // A second Hello for the same id replaces the session.
    let out = run(&mut s, &hello(1, 8), addr(2), 2000);
    assert_eq!(sent(&out), vec![(addr(2), vec![4u8])]);
    assert_eq!(s.current_session_count(), 1);
    assert_eq!(s.session_of(1).unwrap().key, 8);
    assert_eq!(s.session_of(1).unwrap().addr, addr(2));
}

#[test]
fn ping_refreshes_and_reports_count() {
    let mut s = State::new();
    run(&mut s, &hello(1, 7), addr(1), 0);
    run(&mut s, &hello(2, 9), addr(2), 0);
    let out = run(&mut s, &ping(1, 12345), addr(1), 5000);
    assert_eq!(sent(&out), vec![(addr(1), vec![0u8, 2, 0, 0, 0])]);
    assert_eq!(s.session_of(1).unwrap().last_seen, 5000);
    // Too short: ignored.
    let mut short = header(0, 1, 7);
    short.extend_from_slice(&[0u8; 19]);
    assert!(run(&mut s, &short, addr(1), 9000).is_empty());
    assert_eq!(s.session_of(1).unwrap().last_seen, 5000);
    // No session: nothing to reply to.
    assert!(run(&mut s, &ping(3, 0), addr(3), 9000).is_empty());
}

#[test]
fn key_mismatch_is_rejected_without_change() {
    let mut s = State::new();
    run(&mut s, &hello(1, 7), addr(1), 0);
    run(&mut s, &message(1, 7, 5, 0), addr(1), 0);
    let out = run(&mut s, &message(1, 8, 6, 0), addr(9), 0);
    assert_eq!(sent(&out), vec![(addr(9), unauthorized())]);
    assert_eq!(s.level_of(1), Some(5));
    let out = run(&mut s, &header(16, 1, 3), addr(9), 0);
    assert_eq!(sent(&out), vec![(addr(9), unauthorized())]);
    assert_eq!(s.level_of(1), Some(5));
    assert_eq!(s.session_of(1).unwrap().key, 7);
}

#[test]
fn missing_session_expects_key_zero() {
    let mut s = State::new();
    let out = run(&mut s, &message(4, 1, 5, 0), addr(4), 0);
    assert_eq!(sent(&out), vec![(addr(4), unauthorized())]);
    assert_eq!(s.level_of(4), None);
    let out = run(&mut s, &header(16, 4, 1), addr(4), 0);
    assert_eq!(sent(&out), vec![(addr(4), unauthorized())]);
    // Key 0 passes the check; the relay list is empty as nobody else is there.
    assert!(run(&mut s, &message(4, 0, 5, 0), addr(4), 0).is_empty());
    assert_eq!(s.level_of(4), Some(5));
}

#[test]
fn truncated_message_with_valid_key_changes_nothing() {
    let mut s = State::new();
    run(&mut s, &hello(1, 7), addr(1), 0);
    let b = message(1, 7, 5, 0);
    assert!(matches!(handle_packet(&mut s, &b[..60], addr(1), 0), Err(PacketError::Truncated)));
    assert_eq!(s.level_of(1), None);
}

#[test]
fn fan_out_goes_to_other_members_only() {
    let mut s = State::new();
    // A and B shake hands.
    assert_eq!(sent(&run(&mut s, &hello(1, 7), addr(1), 0)), vec![(addr(1), vec![4u8])]);
    assert_eq!(sent(&run(&mut s, &hello(2, 9), addr(2), 0)), vec![(addr(2), vec![4u8])]);
    // A enters level 5 alone: no relay.
    assert!(run(&mut s, &message(1, 7, 5, 10), addr(1), 0).is_empty());
    // B enters: A receives B's state; B receives nothing.
    let out = run(&mut s, &message(2, 9, 5, 20), addr(2), 0);
    assert_eq!(sent(&out), vec![(addr(1), expected_relay(2, 20))]);
    // C enters: A and B both receive C's state; C receives neither.
    run(&mut s, &hello(3, 4), addr(3), 0);
    let out = run(&mut s, &message(3, 4, 5, 30), addr(3), 0);
    let got = sent(&out);
    assert_eq!(got.len(), 2);
    assert!(got.contains(&(addr(1), expected_relay(3, 30))));
    assert!(got.contains(&(addr(2), expected_relay(3, 30))));
    assert!(got.iter().all(|(to, _)| *to != addr(3)));
}

#[test]
fn moving_level_leaves_the_previous_one() {
    let mut s = State::new();
    run(&mut s, &hello(1, 7), addr(1), 0);
    run(&mut s, &hello(2, 9), addr(2), 0);
    run(&mut s, &message(1, 7, 5, 0), addr(1), 0);
    run(&mut s, &message(2, 9, 5, 0), addr(2), 0);
    run(&mut s, &message(1, 7, 6, 0), addr(1), 0);
    assert_eq!(s.level_of(1), Some(6));
    // Only B is left in level 5, so B's update reaches nobody.
    assert!(run(&mut s, &message(2, 9, 5, 1), addr(2), 0).is_empty());
}

#[test]
fn leaving_with_level_minus_one_notifies_the_rest() {
    let mut s = State::new();
    for (id, key) in [(1, 7u32), (2, 9), (3, 4)] {
        run(&mut s, &hello(id, key), addr(id as u8), 0);
    }
    run(&mut s, &message(1, 7, 5, 0), addr(1), 0);
    run(&mut s, &message(2, 9, 5, 0), addr(2), 0);
    run(&mut s, &message(3, 4, 8, 0), addr(3), 0);
    let out = run(&mut s, &message(2, 9, -1, 0), addr(2), 0);
    assert_eq!(sent(&out), vec![(addr(1), disconnect_notice(2))]);
    assert_eq!(s.level_of(2), None);
    assert_eq!(s.level_of(1), Some(5));
    // Leaving again: nobody to tell.
    assert!(run(&mut s, &message(2, 9, -1, 0), addr(2), 0).is_empty());
}

#[test]
fn outside_level_notifies_and_keeps_session() {
    let mut s = State::new();
    run(&mut s, &hello(1, 7), addr(1), 0);
    run(&mut s, &hello(2, 9), addr(2), 0);
    run(&mut s, &message(1, 7, 5, 0), addr(1), 0);
    run(&mut s, &message(2, 9, 5, 0), addr(2), 0);
    let out = run(&mut s, &header(16, 1, 7), addr(1), 0);
    assert_eq!(sent(&out), vec![(addr(2), disconnect_notice(1))]);
    assert_eq!(s.level_of(1), None);
    assert!(s.session_of(1).is_some());
}

#[test]
fn disconnect_notifies_and_drops_session() {
    let mut s = State::new();
    run(&mut s, &hello(1, 7), addr(1), 0);
    run(&mut s, &hello(2, 9), addr(2), 0);
    run(&mut s, &message(1, 7, 5, 0), addr(1), 0);
    run(&mut s, &message(2, 9, 5, 0), addr(2), 0);
    // No key check on Disconnect.
    let out = run(&mut s, &header(2, 1, 0), addr(1), 0);
    assert_eq!(sent(&out), vec![(addr(2), disconnect_notice(1))]);
    assert!(s.session_of(1).is_none());
    assert_eq!(s.level_of(1), None);
    assert_eq!(s.current_session_count(), 1);
}

#[test]
fn replaying_a_message_is_idempotent() {
    let mut s = State::new();
    run(&mut s, &hello(1, 7), addr(1), 0);
    let b = message(1, 7, 5, 42);
    run(&mut s, &b, addr(1), 0);
    let first = format!("{:?}", s.position_of(1));
    run(&mut s, &b, addr(1), 0);
    assert_eq!(format!("{:?}", s.position_of(1)), first);
    assert_eq!(s.level_of(1), Some(5));
}

#[test]
fn sweep_evicts_stale_sessions_only() {
    let mut s = State::new();
    run(&mut s, &hello(1, 7), addr(1), 0);
    run(&mut s, &hello(2, 9), addr(2), 0);
    run(&mut s, &ping(2, 0), addr(2), 50_000);
    run(&mut s, &hello(3, 4), addr(3), 100_000);
    s.remove_dead_clients(109_999);
    assert!(s.session_of(1).is_none());
    assert!(s.session_of(2).is_some());
    assert!(s.session_of(3).is_some());
    // Exactly 60 s of silence is already too long.
    s.remove_dead_clients(110_000);
    assert!(s.session_of(2).is_none());
    assert_eq!(s.current_session_count(), 1);
}

#[test]
fn sweep_leaves_level_membership() {
    let mut s = State::new();
    run(&mut s, &hello(1, 7), addr(1), 0);
    run(&mut s, &message(1, 7, 5, 0), addr(1), 0);
    s.remove_dead_clients(60_000);
    assert!(s.session_of(1).is_none());
    assert_eq!(s.level_of(1), Some(5));
}

#[test]
fn unknown_recipients_are_skipped() {
    let mut s = State::new();
    run(&mut s, &hello(1, 7), addr(1), 0);
    run(&mut s, &hello(2, 9), addr(2), 0);
    run(&mut s, &message(1, 7, 5, 0), addr(1), 0);
    // A's session expires while A is still listed in level 5.
    run(&mut s, &ping(2, 0), addr(2), 70_000);
    s.remove_dead_clients(70_000);
    let out = run(&mut s, &message(2, 9, 5, 0), addr(2), 70_000);
    assert!(out.is_empty());
    assert_eq!(s.level_of(2), Some(5));
}

#[test]
fn unused_kinds_are_ignored() {
    let mut s = State::new();
    for kind in [4u8, 5, 7, 8, 9, 17, 18] {
        assert!(run(&mut s, &header(kind, 1, 0), addr(1), 0).is_empty());
    }
    assert_eq!(s.current_session_count(), 0);
}

#[test]
fn registry_methods_directly() {
    let mut s = State::new();
    s.connect(1, addr(1), 7, 0);
    s.connect(2, addr(2), 9, 0);
    assert_eq!(s.key_for(1), 7);
    assert_eq!(s.key_for(3), 0);
    let (_, p) = decode_message(&message(1, 7, 5, 0)).unwrap();
    s.enter_level(1, 5, p);
    let (_, p) = decode_message(&message(2, 9, 5, 0)).unwrap();
    s.enter_level(2, 5, p);
    let (_, p) = decode_message(&message(3, 0, 5, 0)).unwrap();
    s.enter_level(3, 5, p);
    assert_eq!(s.level_peers(5, 1), vec![2, 3]);
    let rest = s.left_level(1);
    assert_eq!(rest, vec![2, 3]);
    assert_eq!(s.left_level(1), Vec::<i32>::new());
    // Client 3 has no session, so only client 2 is reached.
    let out = s.notify_clients(&rest, 1);
    assert_eq!(sent(&out), vec![(addr(2), disconnect_notice(1))]);
    assert!(s.send_to(3, vec![1, 2]).is_none());
    let d = s.send_to(2, vec![1, 2]).unwrap();
    assert_eq!((d.to, d.bytes), (addr(2), vec![1, 2]));
    s.update_client_time(2, 99);
    assert_eq!(s.session_of(2).unwrap().last_seen, 99);
    s.remove_session(2);
    assert!(s.session_of(2).is_none());
}

#[test]
fn trailing_bytes_are_ignored() {
    let mut s = State::new();
    let mut b = hello(-7, 1);
    b.extend_from_slice(&[0xff; 100]);
    assert_eq!(sent(&run(&mut s, &b, addr(1), 0)), vec![(addr(1), vec![4u8])]);
    let mut m = message(-7, 1, 0, 3);
    m.extend_from_slice(&[0xee; 4000]);
    assert!(run(&mut s, &m, addr(1), 0).is_empty());
    assert_eq!(s.level_of(-7), Some(0));
}

#[test]
fn ping_needs_no_key() {
    let mut s = State::new();
    run(&mut s, &hello(1, 7), addr(1), 0);
    let out = run(&mut s, &ping(1, 999), addr(1), 30_000);
    assert_eq!(sent(&out), vec![(addr(1), vec![0u8, 1, 0, 0, 0])]);
    s.remove_dead_clients(80_000);
    assert!(s.session_of(1).is_some());
}
