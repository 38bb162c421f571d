//! Properties of the protocol that hold for every registry state and every
//! datagram, proved over the transition `step` that `handle_packet` follows.
use vstd::prelude::*;
use crate::codec::{
    PacketError,
    Prefixes,
    spec_header,
    spec_level,
    spec_position,
    ack_hello_bytes,
    unauthorized_bytes,
    player_disconnect_bytes,
    MESSAGE_LEN,
};
use crate::dispatch::{step, Sends};
use crate::registry::{
    MemberView,
    PeerAddr,
    RegistryView,
    Session,
    deliveries,
    expected_key,
    find_member,
    find_session,
    fresh_sessions,
    is_fresh,
    level_peers,
    unique_sessions,
    without_member,
    lemma_without_member_excludes,
    lemma_without_member_absent,
    lemma_level_peers_without,
    lemma_level_peers_members,
    lemma_deliveries_carry,
    lemma_fresh_sessions_keep,
    lemma_fresh_from,
};

verus! {

/// A Hello is answered by exactly one AckHello, sent to its sender, and
/// leaves a session for its client id with the handshake's key and address.
pub proof fn law_hello_registers(v: RegistryView, b: Seq<u8>, addr: PeerAddr, now: u64)
    requires
        spec_header(b) matches Ok(h) && h.prefix == Prefixes::Hello,
    ensures
        ({
            let h = spec_header(b)->Ok_0;
            let (v2, out) = step(v, b, addr, now);
            &&& out == Ok::<Sends, PacketError>(seq![(addr, ack_hello_bytes())])
            &&& find_session(v2.sessions, h.client_id) == Some(
                Session { client_id: h.client_id, addr, key: h.key, last_seen: now },
            )
        }),
{
}

/// A complete Message with the right key and a level id of at least 0 leaves
/// its sender listed exactly once, in the target level, with the state it
/// carried; it is in no other level.
pub proof fn law_message_single_level(v: RegistryView, b: Seq<u8>, addr: PeerAddr, now: u64)
    requires
        spec_header(b) matches Ok(h) && h.prefix == Prefixes::Message && expected_key(
            v.sessions,
            h.client_id,
        ) == h.key,
        b.len() >= MESSAGE_LEN,
        spec_level(b) >= 0,
    ensures
        ({
            let c = spec_header(b)->Ok_0.client_id;
            let p2 = step(v, b, addr, now).0.players;
            &&& find_member(p2, c) == Some(
                MemberView { client_id: c, level_id: spec_level(b), position: spec_position(b) },
            )
            &&& forall|j: int|
                0 <= j < p2.len() && (#[trigger] p2[j]).client_id == c ==> j == p2.len() - 1
                    && p2[j].level_id == spec_level(b)
        }),
{
    let c = spec_header(b)->Ok_0.client_id;
    lemma_without_member_excludes(v.players, c);
    let p2 = step(v, b, addr, now).0.players;
    let w = without_member(v.players, c);
    assert forall|j: int|
        0 <= j < p2.len() && (#[trigger] p2[j]).client_id == c implies j == p2.len() - 1
        && p2[j].level_id == spec_level(b) by {
        if j < p2.len() - 1 {
            assert(p2[j] == w[j]);
        }
    }
}

/// A complete Message with the right key and level id -1 leaves its sender in
/// no level. The notices sent go, in order, to the other members of its
/// former level, each listed once and reached through its session; every one
/// of them names the sender.
pub proof fn law_leave_notifies_level(v: RegistryView, b: Seq<u8>, addr: PeerAddr, now: u64)
    requires
        v.wf(),
        spec_header(b) matches Ok(h) && h.prefix == Prefixes::Message && expected_key(
            v.sessions,
            h.client_id,
        ) == h.key,
        b.len() >= MESSAGE_LEN,
        spec_level(b) == -1,
    ensures
        ({
            let c = spec_header(b)->Ok_0.client_id;
            let (v2, out) = step(v, b, addr, now);
            let former = match find_member(v.players, c) {
                Some(m) => level_peers(v.players, m.level_id, c),
                None => Seq::<i32>::empty(),
            };
            &&& forall|j: int|
                0 <= j < v2.players.len() ==> (#[trigger] v2.players[j]).client_id != c
            &&& out == Ok::<Sends, PacketError>(
                deliveries(former, v.sessions, player_disconnect_bytes(c)),
            )
            &&& forall|k: int|
                0 <= k < out->Ok_0.len() ==> (#[trigger] out->Ok_0[k]).1 == player_disconnect_bytes(
                    c,
                )
            &&& out->Ok_0.len() <= former.len()
            &&& former.no_duplicates()
            &&& forall|x: i32|
                former.contains(x) <==> (find_member(v.players, c) matches Some(m) && exists|j: int|
                    0 <= j < v.players.len() && (#[trigger] v.players[j]).client_id == x
                        && v.players[j].level_id == m.level_id && x != c)
        }),
{
    let c = spec_header(b)->Ok_0.client_id;
    lemma_without_member_excludes(v.players, c);
    if let Some(m) = find_member(v.players, c) {
        lemma_level_peers_without(v.players, m.level_id, c);
        lemma_level_peers_members(v.players, m.level_id, c);
    }
    let former = match find_member(v.players, c) {
        Some(m) => level_peers(v.players, m.level_id, c),
        None => Seq::<i32>::empty(),
    };
    lemma_deliveries_carry(former, v.sessions, player_disconnect_bytes(c));
}

/// A Message or OutsideLevel whose key differs from the one its client id's
/// session holds changes nothing, and its sender is sent one Disconnect
/// saying "unauthorized".
pub proof fn law_key_mismatch_rejected(v: RegistryView, b: Seq<u8>, addr: PeerAddr, now: u64)
    requires
        spec_header(b) matches Ok(h) && (h.prefix == Prefixes::Message || h.prefix
            == Prefixes::OutsideLevel) && (find_session(v.sessions, h.client_id) matches Some(e)
            && e.key != h.key),
    ensures
        step(v, b, addr, now) == (v, Ok::<Sends, PacketError>(seq![(addr, unauthorized_bytes())])),
{
}

/// A Message or OutsideLevel from a client id without a session is checked
/// against key 0: with any other key it is rejected as a mismatch.
pub proof fn law_missing_session_expects_zero(
    v: RegistryView,
    b: Seq<u8>,
    addr: PeerAddr,
    now: u64,
)
    requires
        spec_header(b) matches Ok(h) && (h.prefix == Prefixes::Message || h.prefix
            == Prefixes::OutsideLevel) && find_session(v.sessions, h.client_id) is None && h.key
            != 0,
    ensures
        expected_key(v.sessions, spec_header(b)->Ok_0.client_id) == 0,
        step(v, b, addr, now) == (v, Ok::<Sends, PacketError>(seq![(addr, unauthorized_bytes())])),
{
}

/// Handling the same valid Message a second time leaves the registries as
/// the first time did: each Message overwrites its sender's state whole.
pub proof fn law_message_idempotent(v: RegistryView, b: Seq<u8>, addr: PeerAddr, now: u64)
    requires
        spec_header(b) matches Ok(h) && h.prefix == Prefixes::Message && expected_key(
            v.sessions,
            h.client_id,
        ) == h.key,
        b.len() >= MESSAGE_LEN,
    ensures
        step(step(v, b, addr, now).0, b, addr, now).0 == step(v, b, addr, now).0,
        find_member(step(step(v, b, addr, now).0, b, addr, now).0.players, spec_header(
            b,
        )->Ok_0.client_id) == find_member(step(v, b, addr, now).0.players, spec_header(
            b,
        )->Ok_0.client_id),
{
    let c = spec_header(b)->Ok_0.client_id;
    let w = without_member(v.players, c);
    lemma_without_member_excludes(v.players, c);
    lemma_without_member_absent(w, c);
    if spec_level(b) != -1 {
        let m = MemberView { client_id: c, level_id: spec_level(b), position: spec_position(b) };
        assert(w.push(m).drop_last() =~= w);
    }
}

/// After a sweep at `now`, every session left is fresh, every fresh session
/// is kept, and no session remains for the client id of a stale one.
pub proof fn law_sweep_evicts_stale(s: Seq<Session>, now: u64)
    requires
        unique_sessions(s),
    ensures
        forall|k: int|
            0 <= k < fresh_sessions(s, now).len() ==> is_fresh(
                #[trigger] fresh_sessions(s, now)[k],
                now,
            ),
        forall|j: int| 0 <= j < s.len() && is_fresh(s[j], now) ==> fresh_sessions(s, now).contains(
            #[trigger] s[j],
        ),
        forall|j: int, k: int|
            0 <= j < s.len() && !is_fresh(s[j], now) && 0 <= k < fresh_sessions(s, now).len()
                ==> (#[trigger] fresh_sessions(s, now)[k]).client_id != (#[trigger] s[j]).client_id,
{
    lemma_fresh_sessions_keep(s, now);
    lemma_fresh_from(s, now);
    let f = fresh_sessions(s, now);
    assert forall|j: int, k: int|
        0 <= j < s.len() && !is_fresh(s[j], now) && 0 <= k < f.len() implies (#[trigger] f[k]).client_id
        != (#[trigger] s[j]).client_id by {
        let i = choose|i: int| 0 <= i < s.len() && s[i] == #[trigger] f[k];
        assert(is_fresh(f[k], now));
    }
}

} // verus!
