//! The protocol state machine: what one inbound datagram does to the
//! registries and which datagrams it sends back.
use vstd::prelude::*;
use crate::codec::{
    Header,
    PacketError,
    PositionView,
    Prefixes,
    spec_header,
    spec_level,
    spec_position,
    decode_header,
    decode_message,
    ack_hello_bytes,
    ping_reply_bytes,
    unauthorized_bytes,
    player_disconnect_bytes,
    relay_bytes,
    encode_ack_hello,
    encode_ping_reply,
    encode_unauthorized,
    HEADER_LEN,
    PING_PAYLOAD_LEN,
    MESSAGE_LEN,
};
use crate::registry::{
    Datagram,
    MemberView,
    PeerAddr,
    RegistryView,
    Session,
    State,
    datagrams_view,
    deliveries,
    expected_key,
    find_member,
    find_session,
    level_peers,
    touch_session,
    without_member,
    without_session,
};

verus! {

/// Datagrams as mathematical values: destination and bytes.
pub type Sends = Seq<(PeerAddr, Seq<u8>)>;

pub open spec fn outcome_view(r: Result<Vec<Datagram>, PacketError>) -> Result<Sends, PacketError> {
    match r {
        Ok(v) => Ok(datagrams_view(v@)),
        Err(e) => Err(e),
    }
}

/// `c` leaves its level, if it is in one; the members that remain there are
/// each told so.
pub open spec fn leave_step(v: RegistryView, c: i32) -> (RegistryView, Sends) {
    let players = without_member(v.players, c);
    let peers = match find_member(v.players, c) {
        Some(m) => level_peers(players, m.level_id, c),
        None => Seq::empty(),
    };
    (
        RegistryView { sessions: v.sessions, players },
        deliveries(peers, v.sessions, player_disconnect_bytes(c)),
    )
}

/// `c` enters `level` with state `p`, leaving any other level; every other
/// member of `level` is sent `c`'s new state.
pub open spec fn join_step(v: RegistryView, c: i32, level: i32, p: PositionView) -> (
    RegistryView,
    Sends,
) {
    let players = without_member(v.players, c).push(
        MemberView { client_id: c, level_id: level, position: p },
    );
    (
        RegistryView { sessions: v.sessions, players },
        deliveries(level_peers(players, level, c), v.sessions, relay_bytes(c, p)),
    )
}

/// A key check failed: nothing changes and the sender is told why.
pub open spec fn reject_step(v: RegistryView, addr: PeerAddr) -> (
    RegistryView,
    Result<Sends, PacketError>,
) {
    (v, Ok(seq![(addr, unauthorized_bytes())]))
}

/// What datagram `b`, received from `addr` at `now`, does to the registries
/// `v`, and what is sent in reply (or why it is dropped).
pub open spec fn step(v: RegistryView, b: Seq<u8>, addr: PeerAddr, now: u64) -> (
    RegistryView,
    Result<Sends, PacketError>,
) {
    match spec_header(b) {
        Err(e) => (v, Err(e)),
        Ok(h) => {
            let c = h.client_id;
            match h.prefix {
                Prefixes::Hello => (
                    RegistryView {
                        sessions: without_session(v.sessions, c).push(
                            Session { client_id: c, addr, key: h.key, last_seen: now },
                        ),
                        players: v.players,
                    },
                    Ok(seq![(addr, ack_hello_bytes())]),
                ),
                Prefixes::Ping => {
                    if b.len() < HEADER_LEN + PING_PAYLOAD_LEN {
                        (v, Ok(Seq::empty()))
                    } else {
                        let s2 = touch_session(v.sessions, c, now);
                        (
                            RegistryView { sessions: s2, players: v.players },
                            Ok(
                                match find_session(s2, c) {
                                    Some(e) => seq![(e.addr, ping_reply_bytes(s2.len() as i32))],
                                    None => Seq::empty(),
                                },
                            ),
                        )
                    }
                },
                Prefixes::Disconnect => {
                    let (v2, out) = leave_step(v, c);
                    (
                        RegistryView {
                            sessions: without_session(v.sessions, c),
                            players: v2.players,
                        },
                        Ok(out),
                    )
                },
                Prefixes::OutsideLevel => {
                    if expected_key(v.sessions, c) != h.key {
                        reject_step(v, addr)
                    } else {
                        let (v2, out) = leave_step(v, c);
                        (v2, Ok(out))
                    }
                },
                Prefixes::Message => {
                    if expected_key(v.sessions, c) != h.key {
                        reject_step(v, addr)
                    } else if b.len() < MESSAGE_LEN {
                        (v, Err(PacketError::Truncated))
                    } else if spec_level(b) == -1 {
                        let (v2, out) = leave_step(v, c);
                        (v2, Ok(out))
                    } else {
                        let (v2, out) = join_step(v, c, spec_level(b), spec_position(b));
                        (v2, Ok(out))
                    }
                },
                _ => (v, Ok(Seq::empty())),
            }
        },
    }
}

fn leave(state: &mut State, c: i32) -> (r: Vec<Datagram>)
    requires
        old(state)@.wf(),
    ensures
        final(state)@.wf(),
        (final(state)@, datagrams_view(r@)) == leave_step(old(state)@, c),
{
    let clients = state.left_level(c);
    let r = state.notify_clients(&clients, c);
    assert(final(state)@ == leave_step(old(state)@, c).0);
    r
}

fn reject(address: PeerAddr) -> (r: Vec<Datagram>)
    ensures
        datagrams_view(r@) == seq![(address, unauthorized_bytes())],
{
    let mut r: Vec<Datagram> = Vec::new();
    r.push(Datagram { to: address, bytes: encode_unauthorized() });
    assert(datagrams_view(r@) =~= seq![(address, unauthorized_bytes())]);
    r
}

/// Handles one datagram `buf` received from `address` at time `now`
/// (milliseconds): updates the registries and returns the datagrams to send.
pub fn handle_packet(state: &mut State, buf: &[u8], address: PeerAddr, now: u64) -> (r: Result<
    Vec<Datagram>,
    PacketError,
>)
    requires
        old(state)@.wf(),
    ensures
        final(state)@.wf(),
        (final(state)@, outcome_view(r)) == step(old(state)@, buf@, address, now),
{
    let header: Header = match decode_header(buf) {
        Ok(h) => h,
        Err(e) => return Err(e),
    };
    let c = header.client_id;
    match header.prefix {
        Prefixes::Hello => {
            state.connect(c, address, header.key, now);
            let mut r: Vec<Datagram> = Vec::new();
            r.push(Datagram { to: address, bytes: encode_ack_hello() });
            assert(datagrams_view(r@) =~= seq![(address, ack_hello_bytes())]);
            Ok(r)
        },
        Prefixes::Ping => {
            if buf.len() < HEADER_LEN + PING_PAYLOAD_LEN {
                let r: Vec<Datagram> = Vec::new();
                assert(datagrams_view(r@) =~= Seq::empty());
                return Ok(r);
            }
            state.update_client_time(c, now);
            let count = state.current_session_count() as i32;
            let mut r: Vec<Datagram> = Vec::new();
            match state.send_to(c, encode_ping_reply(count)) {
                Some(d) => {
                    r.push(d);
                },
                None => {},
            }
            assert(datagrams_view(r@) =~= match find_session(state@.sessions, c) {
                Some(e) => seq![(e.addr, ping_reply_bytes(state@.sessions.len() as i32))],
                None => Seq::empty(),
            });
            Ok(r)
        },
        Prefixes::Disconnect => {
            let r = leave(state, c);
            state.remove_session(c);
            Ok(r)
        },
        Prefixes::OutsideLevel => {
            if state.key_for(c) != header.key {
                return Ok(reject(address));
            }
            Ok(leave(state, c))
        },
        Prefixes::Message => {
            if state.key_for(c) != header.key {
                return Ok(reject(address));
            }
            let (level, position) = match decode_message(buf) {
                Ok(m) => m,
                Err(e) => return Err(e),
            };
            if level == -1 {
                return Ok(leave(state, c));
            }
            state.enter_level(c, level, position);
            let peers = state.level_peers(level, c);
            match state.position_of(c) {
                Some(p) => Ok(state.relay_position(&peers, c, p)),
                None => Ok(Vec::new()),
            }
        },
        _ => {
            let r: Vec<Datagram> = Vec::new();
            assert(datagrams_view(r@) =~= Seq::empty());
            Ok(r)
        },
    }
}

} // verus!
