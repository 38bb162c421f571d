//! The session registry and the level registry, kept together in one `State`
//! so that a single exclusive guard covers both.
//!
//! Sessions and level members are kept as lists with unique client ids. A
//! level is the set of members that carry its id, so a client is in at most
//! one level and a level with no members does not exist.
use vstd::prelude::*;
use crate::codec::{
    PlayerPosition,
    PositionView,
    player_disconnect_bytes,
    relay_bytes,
    encode_player_disconnect,
    encode_relay,
};

verus! {

/// Sessions silent for this many milliseconds are evicted by a sweep.
pub const SESSION_TIMEOUT_MS: u64 = 60000;

/// A transport endpoint: an IPv4 address is held in the low 32 bits of `ip`.
#[derive(Debug, Clone, Copy, PartialEq, Eq, Structural)]
pub struct PeerAddr {
    pub ip: u128,
    pub port: u16,
    pub is_v6: bool,
}

/// A client that completed a handshake: where it is, the key it chose, and
/// when it was last heard from (milliseconds).
#[derive(Debug, Clone, Copy, PartialEq, Eq, Structural)]
pub struct Session {
    pub client_id: i32,
    pub addr: PeerAddr,
    pub key: u32,
    pub last_seen: u64,
}

/// A client inside a level, with its latest reported state.
#[derive(Debug)]
pub struct Member {
    pub client_id: i32,
    pub level_id: i32,
    pub position: PlayerPosition,
}

pub struct MemberView {
    pub client_id: i32,
    pub level_id: i32,
    pub position: PositionView,
}

impl View for Member {
    type V = MemberView;

    open spec fn view(&self) -> MemberView {
        MemberView { client_id: self.client_id, level_id: self.level_id, position: self.position@ }
    }
}

/// A datagram to send.
#[derive(Debug)]
pub struct Datagram {
    pub to: PeerAddr,
    pub bytes: Vec<u8>,
}

impl View for Datagram {
    type V = (PeerAddr, Seq<u8>);

    open spec fn view(&self) -> (PeerAddr, Seq<u8>) {
        (self.to, self.bytes@)
    }
}

pub open spec fn datagrams_view(d: Seq<Datagram>) -> Seq<(PeerAddr, Seq<u8>)> {
    d.map_values(|x: Datagram| x@)
}

/// The registries as mathematical values.
pub struct RegistryView {
    pub sessions: Seq<Session>,
    pub players: Seq<MemberView>,
}

pub open spec fn unique_sessions(s: Seq<Session>) -> bool {
    forall|i: int, j: int|
        0 <= i < s.len() && 0 <= j < s.len() && i != j ==> s[i].client_id != s[j].client_id
}

pub open spec fn unique_members(p: Seq<MemberView>) -> bool {
    forall|i: int, j: int|
        0 <= i < p.len() && 0 <= j < p.len() && i != j ==> p[i].client_id != p[j].client_id
}

impl RegistryView {
    /// No client id has two sessions, and no client is listed twice in the
    /// levels (so in at most one level).
    pub open spec fn wf(self) -> bool {
        unique_sessions(self.sessions) && unique_members(self.players)
    }
}

/// The session of `c`, if any.
pub open spec fn find_session(s: Seq<Session>, c: i32) -> Option<Session>
    decreases s.len(),
{
    if s.len() == 0 {
        None
    } else if s.last().client_id == c {
        Some(s.last())
    } else {
        find_session(s.drop_last(), c)
    }
}

/// The sessions other than that of `c`, in order.
pub open spec fn without_session(s: Seq<Session>, c: i32) -> Seq<Session>
    decreases s.len(),
{
    if s.len() == 0 {
        s
    } else {
        let rest = without_session(s.drop_last(), c);
        if s.last().client_id == c {
            rest
        } else {
            rest.push(s.last())
        }
    }
}

/// The sessions with that of `c` marked as heard from at `now`.
pub open spec fn touch_session(s: Seq<Session>, c: i32, now: u64) -> Seq<Session> {
    s.map_values(
        |e: Session|
            if e.client_id == c {
                Session { client_id: e.client_id, addr: e.addr, key: e.key, last_seen: now }
            } else {
                e
            },
    )
}

/// A session last heard from less than the timeout before `now` (or, with a
/// clock that went back, after `now`).
pub open spec fn is_fresh(e: Session, now: u64) -> bool {
    now < e.last_seen || now - e.last_seen < SESSION_TIMEOUT_MS
}

/// The fresh sessions, in order.
pub open spec fn fresh_sessions(s: Seq<Session>, now: u64) -> Seq<Session>
    decreases s.len(),
{
    if s.len() == 0 {
        s
    } else {
        let rest = fresh_sessions(s.drop_last(), now);
        if is_fresh(s.last(), now) {
            rest.push(s.last())
        } else {
            rest
        }
    }
}

/// The key a datagram from `c` must carry: that of its session, or 0.
pub open spec fn expected_key(s: Seq<Session>, c: i32) -> u32 {
    match find_session(s, c) {
        Some(e) => e.key,
        None => 0,
    }
}

/// The level entry of `c`, if any.
pub open spec fn find_member(p: Seq<MemberView>, c: i32) -> Option<MemberView>
    decreases p.len(),
{
    if p.len() == 0 {
        None
    } else if p.last().client_id == c {
        Some(p.last())
    } else {
        find_member(p.drop_last(), c)
    }
}

/// The level entries other than that of `c`, in order.
pub open spec fn without_member(p: Seq<MemberView>, c: i32) -> Seq<MemberView>
    decreases p.len(),
{
    if p.len() == 0 {
        p
    } else {
        let rest = without_member(p.drop_last(), c);
        if p.last().client_id == c {
            rest
        } else {
            rest.push(p.last())
        }
    }
}

/// The ids of the members of `level` other than `except`, in order.
pub open spec fn level_peers(p: Seq<MemberView>, level: i32, except: i32) -> Seq<i32>
    decreases p.len(),
{
    if p.len() == 0 {
        Seq::empty()
    } else {
        let rest = level_peers(p.drop_last(), level, except);
        if p.last().level_id == level && p.last().client_id != except {
            rest.push(p.last().client_id)
        } else {
            rest
        }
    }
}

/// `bytes` addressed to each of `ids` that has a session, in order; an id
/// without a session gets nothing.
pub open spec fn deliveries(ids: Seq<i32>, s: Seq<Session>, bytes: Seq<u8>) -> Seq<
    (PeerAddr, Seq<u8>),
>
    decreases ids.len(),
{
    if ids.len() == 0 {
        Seq::empty()
    } else {
        let rest = deliveries(ids.drop_last(), s, bytes);
        match find_session(s, ids.last()) {
            Some(e) => rest.push((e.addr, bytes)),
            None => rest,
        }
    }
}

pub proof fn lemma_without_session_absent(s: Seq<Session>, c: i32)
    requires
        forall|j: int| 0 <= j < s.len() ==> s[j].client_id != c,
    ensures
        without_session(s, c) == s,
    decreases s.len(),
{
    if s.len() > 0 {
        lemma_without_session_absent(s.drop_last(), c);
        assert(s.drop_last().push(s.last()) =~= s);
    }
}

pub proof fn lemma_without_session_remove(s: Seq<Session>, i: int)
    requires
        unique_sessions(s),
        0 <= i < s.len(),
    ensures
        s.remove(i) == without_session(s, s[i].client_id),
    decreases s.len(),
{
    let c = s[i].client_id;
    let n = s.len() - 1;
    if i == n {
        lemma_without_session_absent(s.drop_last(), c);
        assert(s.remove(i) =~= s.drop_last());
    } else {
        lemma_without_session_remove(s.drop_last(), i);
        assert(s.drop_last()[i] == s[i]);
        assert(s.remove(i) =~= s.drop_last().remove(i).push(s.last()));
    }
}

pub proof fn lemma_without_member_absent(p: Seq<MemberView>, c: i32)
    requires
        forall|j: int| 0 <= j < p.len() ==> p[j].client_id != c,
    ensures
        without_member(p, c) == p,
    decreases p.len(),
{
    if p.len() > 0 {
        lemma_without_member_absent(p.drop_last(), c);
        assert(p.drop_last().push(p.last()) =~= p);
    }
}

pub proof fn lemma_without_member_remove(p: Seq<MemberView>, i: int)
    requires
        unique_members(p),
        0 <= i < p.len(),
    ensures
        p.remove(i) == without_member(p, p[i].client_id),
    decreases p.len(),
{
    let c = p[i].client_id;
    let n = p.len() - 1;
    if i == n {
        lemma_without_member_absent(p.drop_last(), c);
        assert(p.remove(i) =~= p.drop_last());
    } else {
        lemma_without_member_remove(p.drop_last(), i);
        assert(p.drop_last()[i] == p[i]);
        assert(p.remove(i) =~= p.drop_last().remove(i).push(p.last()));
    }
}

/// Each element of the fresh sessions is one of the sessions.
pub proof fn lemma_fresh_from(s: Seq<Session>, now: u64)
    ensures
        forall|k: int|
            0 <= k < fresh_sessions(s, now).len() ==> exists|j: int|
                0 <= j < s.len() && s[j] == #[trigger] fresh_sessions(s, now)[k],
    decreases s.len(),
{
    if s.len() > 0 {
        lemma_fresh_from(s.drop_last(), now);
        let f = fresh_sessions(s, now);
        let r = fresh_sessions(s.drop_last(), now);
        assert forall|k: int| 0 <= k < f.len() implies exists|j: int|
            0 <= j < s.len() && s[j] == #[trigger] f[k] by {
            if k < r.len() {
                assert(f[k] == r[k]);
                let j = choose|j: int| 0 <= j < s.drop_last().len() && s.drop_last()[j] == r[k];
                assert(s[j] == f[k]);
            } else {
                assert(s[s.len() - 1] == f[k]);
            }
        }
    }
}

/// No entry of `c` is left once it is taken out.
pub proof fn lemma_without_member_excludes(p: Seq<MemberView>, c: i32)
    ensures
        forall|j: int|
            0 <= j < without_member(p, c).len() ==> #[trigger] without_member(p, c)[j].client_id
                != c,
    decreases p.len(),
{
    if p.len() > 0 {
        lemma_without_member_excludes(p.drop_last(), c);
        let r = without_member(p.drop_last(), c);
        if p.last().client_id != c {
            assert forall|j: int| 0 <= j < r.push(p.last()).len() implies #[trigger] r.push(
                p.last(),
            )[j].client_id != c by {
                if j < r.len() {
                    assert(r.push(p.last())[j] == r[j]);
                }
            }
        }
    }
}

/// Taking `c` out of the levels does not change who else is in a level.
pub proof fn lemma_level_peers_without(p: Seq<MemberView>, level: i32, c: i32)
    ensures
        level_peers(without_member(p, c), level, c) == level_peers(p, level, c),
    decreases p.len(),
{
    if p.len() > 0 {
        lemma_level_peers_without(p.drop_last(), level, c);
        let r = without_member(p.drop_last(), c);
        if p.last().client_id != c {
            assert(r.push(p.last()).drop_last() =~= r);
        }
    }
}

/// The peers of a level are exactly its members other than `except`, each
/// listed once.
pub proof fn lemma_level_peers_members(p: Seq<MemberView>, level: i32, except: i32)
    requires
        unique_members(p),
    ensures
        level_peers(p, level, except).no_duplicates(),
        forall|x: i32|
            level_peers(p, level, except).contains(x) <==> exists|j: int|
                0 <= j < p.len() && (#[trigger] p[j]).client_id == x && p[j].level_id == level
                    && x != except,
    decreases p.len(),
{
    if p.len() > 0 {
        let q = p.drop_last();
        let l = p.last();
        let n = p.len() - 1;
        assert forall|i: int, j: int|
            0 <= i < q.len() && 0 <= j < q.len() && i != j implies q[i].client_id
            != q[j].client_id by {
            assert(q[i] == p[i] && q[j] == p[j]);
        }
        lemma_level_peers_members(q, level, except);
        let r = level_peers(q, level, except);
        let f = level_peers(p, level, except);
        let taken = l.level_id == level && l.client_id != except;
        assert forall|x: i32| f.contains(x) implies exists|j: int|
            0 <= j < p.len() && (#[trigger] p[j]).client_id == x && p[j].level_id == level && x
                != except by {
            if taken && x == l.client_id {
                assert(p[n] == l);
            } else {
                if taken {
                    let k = choose|k: int| 0 <= k < f.len() && f[k] == x;
                    assert(k < r.len());
                    assert(r[k] == x);
                }
                assert(r.contains(x));
                let j = choose|j: int|
                    0 <= j < q.len() && (#[trigger] q[j]).client_id == x && q[j].level_id
                        == level && x != except;
                assert(p[j] == q[j]);
            }
        }
        assert forall|x: i32|
            (exists|j: int|
                0 <= j < p.len() && (#[trigger] p[j]).client_id == x && p[j].level_id == level
                    && x != except) implies f.contains(x) by {
            let j = choose|j: int|
                0 <= j < p.len() && (#[trigger] p[j]).client_id == x && p[j].level_id == level
                    && x != except;
            if j == n {
                assert(f[f.len() - 1] == x);
            } else {
                assert(q[j] == p[j]);
                assert(r.contains(x));
                let k = choose|k: int| 0 <= k < r.len() && r[k] == x;
                if taken {
                    assert(f[k] == x);
                } else {
                    assert(f[k] == x);
                }
            }
        }
        if taken {
            assert(!r.contains(l.client_id)) by {
                if r.contains(l.client_id) {
                    let j = choose|j: int|
                        0 <= j < q.len() && (#[trigger] q[j]).client_id == l.client_id
                            && q[j].level_id == level && l.client_id != except;
                    assert(p[j] == q[j]);
                }
            }
            assert forall|i: int, j: int| 0 <= i < f.len() && 0 <= j < f.len() && i != j implies f[i]
                != f[j] by {
                if i < r.len() && j < r.len() {
                    assert(f[i] == r[i] && f[j] == r[j]);
                } else if i < r.len() {
                    assert(f[i] == r[i]);
                } else {
                    assert(f[j] == r[j]);
                }
            }
        }
    }
}

/// Every delivery carries `bytes`, and there is at most one per id.
pub proof fn lemma_deliveries_carry(ids: Seq<i32>, s: Seq<Session>, bytes: Seq<u8>)
    ensures
        deliveries(ids, s, bytes).len() <= ids.len(),
        forall|k: int|
            0 <= k < deliveries(ids, s, bytes).len() ==> (#[trigger] deliveries(ids, s, bytes)[k]).1
                == bytes,
    decreases ids.len(),
{
    if ids.len() > 0 {
        lemma_deliveries_carry(ids.drop_last(), s, bytes);
        let r = deliveries(ids.drop_last(), s, bytes);
        let d = deliveries(ids, s, bytes);
        assert forall|k: int| 0 <= k < d.len() implies (#[trigger] d[k]).1 == bytes by {
            if k < r.len() {
                assert(d[k] == r[k]);
            }
        }
    }
}

/// A sweep keeps exactly the fresh sessions.
pub proof fn lemma_fresh_sessions_keep(s: Seq<Session>, now: u64)
    ensures
        forall|k: int|
            0 <= k < fresh_sessions(s, now).len() ==> is_fresh(
                #[trigger] fresh_sessions(s, now)[k],
                now,
            ),
        forall|j: int| 0 <= j < s.len() && is_fresh(s[j], now) ==> fresh_sessions(s, now).contains(
            #[trigger] s[j],
        ),
    decreases s.len(),
{
    if s.len() > 0 {
        lemma_fresh_sessions_keep(s.drop_last(), now);
        let r = fresh_sessions(s.drop_last(), now);
        let f = fresh_sessions(s, now);
        assert forall|k: int| 0 <= k < f.len() implies is_fresh(#[trigger] f[k], now) by {
            if k < r.len() {
                assert(f[k] == r[k]);
            }
        }
        assert forall|j: int| 0 <= j < s.len() && is_fresh(s[j], now) implies f.contains(
            #[trigger] s[j],
        ) by {
            if j < s.len() - 1 {
                assert(s.drop_last()[j] == s[j]);
                assert(r.contains(s[j]));
                let k = choose|k: int| 0 <= k < r.len() && r[k] == s[j];
                assert(f[k] == s[j]);
            } else {
                assert(f[f.len() - 1] == s[j]);
            }
        }
    }
}

/// The registries, guarded together.
pub struct State {
    connected_clients: Vec<Session>,
    players: Vec<Member>,
}

impl View for State {
    type V = RegistryView;

    closed spec fn view(&self) -> RegistryView {
        RegistryView {
            sessions: self.connected_clients@,
            players: self.players@.map_values(|m: Member| m@),
        }
    }
}

impl State {
    pub fn new() -> (r: State)
        ensures
            r@.sessions == Seq::<Session>::empty(),
            r@.players == Seq::<MemberView>::empty(),
            r@.wf(),
    {
        let r = State { connected_clients: Vec::new(), players: Vec::new() };
        assert(r@.players =~= Seq::<MemberView>::empty());
        r
    }

    /// Number of connected sessions.
    pub fn current_session_count(&self) -> (r: usize)
        ensures
            r == self@.sessions.len(),
    {
        self.connected_clients.len()
    }

    fn session_index(&self, c: i32) -> (r: Option<usize>)
        ensures
            match r {
                Some(i) => i < self@.sessions.len() && self@.sessions[i as int].client_id == c
                    && find_session(self@.sessions, c) == Some(self@.sessions[i as int]),
                None => find_session(self@.sessions, c) is None && forall|j: int|
                    0 <= j < self@.sessions.len() ==> self@.sessions[j].client_id != c,
            },
    {
        let ghost s = self@.sessions;
        assert(s.take(s.len() as int) =~= s);
        let mut i: usize = self.connected_clients.len();
        while i > 0
            invariant
                s == self.connected_clients@,
                i <= s.len(),
                find_session(s, c) == find_session(s.take(i as int), c),
                forall|j: int| i <= j < s.len() ==> s[j].client_id != c,
            decreases i,
        {
            assert(s.take(i as int).drop_last() =~= s.take(i - 1));
            i -= 1;
            if self.connected_clients[i].client_id == c {
                return Some(i);
            }
        }
        assert(s.take(0) =~= Seq::<Session>::empty());
        None
    }

    /// The session of `c`, if any.
    pub fn session_of(&self, c: i32) -> (r: Option<Session>)
        ensures
            r == find_session(self@.sessions, c),
    {
        match self.session_index(c) {
            Some(i) => Some(self.connected_clients[i]),
            None => None,
        }
    }

    /// The key a datagram from `c` must carry: that of its session, or 0.
    pub fn key_for(&self, c: i32) -> (r: u32)
        ensures
            r == expected_key(self@.sessions, c),
    {
        match self.session_of(c) {
            Some(e) => e.key,
            None => 0,
        }
    }

    /// Creates or replaces the session of `c`.
    pub fn connect(&mut self, c: i32, addr: PeerAddr, key: u32, now: u64)
        requires
            old(self)@.wf(),
        ensures
            final(self)@.wf(),
            final(self)@.sessions == without_session(old(self)@.sessions, c).push(
                Session { client_id: c, addr, key, last_seen: now },
            ),
            final(self)@.players == old(self)@.players,
    {
        self.remove_session(c);
        let ghost mid = self@.sessions;
        self.connected_clients.push(Session { client_id: c, addr, key, last_seen: now });
        assert forall|i: int, j: int|
            0 <= i < self@.sessions.len() && 0 <= j < self@.sessions.len() && i != j implies
            self@.sessions[i].client_id != self@.sessions[j].client_id by {
            if i < mid.len() && j < mid.len() {
                assert(self@.sessions[i] == mid[i]);
                assert(self@.sessions[j] == mid[j]);
            } else if i < mid.len() {
                assert(self@.sessions[i] == mid[i]);
            } else {
                assert(self@.sessions[j] == mid[j]);
            }
        }
    }

    /// Removes the session of `c`, if any.
    pub fn remove_session(&mut self, c: i32)
        requires
            old(self)@.wf(),
        ensures
            final(self)@.wf(),
            final(self)@.sessions == without_session(old(self)@.sessions, c),
            forall|j: int|
                0 <= j < final(self)@.sessions.len() ==> final(self)@.sessions[j].client_id != c,
            final(self)@.players == old(self)@.players,
    {
        let ghost s = self@.sessions;
        match self.session_index(c) {
            Some(i) => {
                self.connected_clients.remove(i);
                proof {
                    lemma_without_session_remove(s, i as int);
                }
                assert forall|j: int| 0 <= j < self@.sessions.len() implies
                    self@.sessions[j].client_id != c by {
                    if j < i {
                        assert(self@.sessions[j] == s[j]);
                    } else {
                        assert(self@.sessions[j] == s[j + 1]);
                    }
                }
                assert forall|a: int, b: int|
                    0 <= a < self@.sessions.len() && 0 <= b < self@.sessions.len() && a != b
                    implies self@.sessions[a].client_id != self@.sessions[b].client_id by {
                    let a2 = if a < i { a } else { a + 1 };
                    let b2 = if b < i { b } else { b + 1 };
                    assert(self@.sessions[a] == s[a2]);
                    assert(self@.sessions[b] == s[b2]);
                }
            },
            None => {
                proof {
                    lemma_without_session_absent(s, c);
                }
            },
        }
    }

    /// Marks the session of `c`, if any, as heard from at `now`.
    pub fn update_client_time(&mut self, c: i32, now: u64)
        requires
            old(self)@.wf(),
        ensures
            final(self)@.wf(),
            final(self)@.sessions == touch_session(old(self)@.sessions, c, now),
            final(self)@.players == old(self)@.players,
    {
        let ghost s = self@.sessions;
        match self.session_index(c) {
            Some(i) => {
                let e = self.connected_clients[i];
                self.connected_clients.set(
                    i,
                    Session { client_id: e.client_id, addr: e.addr, key: e.key, last_seen: now },
                );
                assert(self@.sessions =~= touch_session(s, c, now));
            },
            None => {
                assert(s =~= touch_session(s, c, now));
            },
        }
    }

    /// Drops every session that is not fresh at `now`. Level membership is
    /// left as it is: a client evicted here stays listed in its level until
    /// it leaves it.
    pub fn remove_dead_clients(&mut self, now: u64)
        requires
            old(self)@.wf(),
        ensures
            final(self)@.wf(),
            final(self)@.sessions == fresh_sessions(old(self)@.sessions, now),
            final(self)@.players == old(self)@.players,
    {
        let ghost s = self@.sessions;
        let mut kept: Vec<Session> = Vec::new();
        let mut i: usize = 0;
        let n = self.connected_clients.len();
        while i < n
            invariant
                s == self.connected_clients@,
                unique_sessions(s),
                n == s.len(),
                i <= n,
                kept@ == fresh_sessions(s.take(i as int), now),
                unique_sessions(kept@),
                forall|k: int|
                    0 <= k < kept@.len() ==> exists|j: int|
                        0 <= j < i && s[j] == #[trigger] kept@[k],
            decreases n - i,
        {
            let e = self.connected_clients[i];
            assert(s.take(i + 1).drop_last() =~= s.take(i as int));
            if e.last_seen > now || now - e.last_seen < SESSION_TIMEOUT_MS {
                let ghost before = kept@;
                kept.push(e);
                assert forall|a: int, b: int|
                    0 <= a < kept@.len() && 0 <= b < kept@.len() && a != b implies
                    kept@[a].client_id != kept@[b].client_id by {
                    if a < before.len() && b < before.len() {
                        assert(kept@[a] == before[a]);
                        assert(kept@[b] == before[b]);
                    } else if a < before.len() {
                        assert(kept@[a] == before[a]);
                        let j = choose|j: int| 0 <= j < i && s[j] == #[trigger] before[a];
                        assert(s[j].client_id != s[i as int].client_id);
                    } else {
                        assert(kept@[b] == before[b]);
                        let j = choose|j: int| 0 <= j < i && s[j] == #[trigger] before[b];
                        assert(s[j].client_id != s[i as int].client_id);
                    }
                }
                assert forall|k: int| 0 <= k < kept@.len() implies exists|j: int|
                    0 <= j < i + 1 && s[j] == #[trigger] kept@[k] by {
                    if k < before.len() {
                        assert(kept@[k] == before[k]);
                    } else {
                        assert(s[i as int] == kept@[k]);
                    }
                }
            }
            i += 1;
        }
        assert(s.take(n as int) =~= s);
        self.connected_clients = kept;
    }

    fn member_index(&self, c: i32) -> (r: Option<usize>)
        ensures
            match r {
                Some(i) => i < self@.players.len() && self@.players[i as int].client_id == c
                    && find_member(self@.players, c) == Some(self@.players[i as int]),
                None => find_member(self@.players, c) is None && forall|j: int|
                    0 <= j < self@.players.len() ==> self@.players[j].client_id != c,
            },
    {
        let ghost p = self@.players;
        assert(p.take(p.len() as int) =~= p);
        let mut i: usize = self.players.len();
        while i > 0
            invariant
                p == self@.players,
                i <= p.len(),
                find_member(p, c) == find_member(p.take(i as int), c),
                forall|j: int| i <= j < p.len() ==> p[j].client_id != c,
            decreases i,
        {
            assert(p.take(i as int).drop_last() =~= p.take(i - 1));
            i -= 1;
            if self.players[i].client_id == c {
                return Some(i);
            }
        }
        assert(p.take(0) =~= Seq::<MemberView>::empty());
        None
    }

    /// Removes `c` from the levels, if it is in one.
    fn remove_member(&mut self, c: i32)
        requires
            old(self)@.wf(),
        ensures
            final(self)@.wf(),
            final(self)@.players == without_member(old(self)@.players, c),
            forall|j: int|
                0 <= j < final(self)@.players.len() ==> final(self)@.players[j].client_id != c,
            final(self)@.sessions == old(self)@.sessions,
    {
        let ghost p = self@.players;
        match self.member_index(c) {
            Some(i) => {
                self.players.remove(i);
                assert(self@.players =~= p.remove(i as int));
                proof {
                    lemma_without_member_remove(p, i as int);
                }
                assert forall|j: int| 0 <= j < self@.players.len() implies
                    self@.players[j].client_id != c by {
                    if j < i {
                        assert(self@.players[j] == p[j]);
                    } else {
                        assert(self@.players[j] == p[j + 1]);
                    }
                }
                assert forall|a: int, b: int|
                    0 <= a < self@.players.len() && 0 <= b < self@.players.len() && a != b
                    implies self@.players[a].client_id != self@.players[b].client_id by {
                    let a2 = if a < i { a } else { a + 1 };
                    let b2 = if b < i { b } else { b + 1 };
                    assert(self@.players[a] == p[a2]);
                    assert(self@.players[b] == p[b2]);
                }
            },
            None => {
                proof {
                    lemma_without_member_absent(p, c);
                }
            },
        }
    }

    /// The members of `level` other than `except`, in order.
    pub fn level_peers(&self, level: i32, except: i32) -> (r: Vec<i32>)
        ensures
            r@ == level_peers(self@.players, level, except),
    {
        let ghost p = self@.players;
        let mut out: Vec<i32> = Vec::new();
        let mut i: usize = 0;
        while i < self.players.len()
            invariant
                p == self@.players,
                i <= p.len(),
                out@ == level_peers(p.take(i as int), level, except),
            decreases p.len() - i,
        {
            assert(p.take(i + 1).drop_last() =~= p.take(i as int));
            let m = &self.players[i];
            if m.level_id == level && m.client_id != except {
                out.push(m.client_id);
            }
            i += 1;
        }
        assert(p.take(p.len() as int) =~= p);
        out
    }

    /// Removes `c` from its level, if it is in one, and returns the members
    /// that remain in that level (to be told that `c` left).
    pub fn left_level(&mut self, c: i32) -> (r: Vec<i32>)
        requires
            old(self)@.wf(),
        ensures
            final(self)@.wf(),
            final(self)@.players == without_member(old(self)@.players, c),
            final(self)@.sessions == old(self)@.sessions,
            r@ == match find_member(old(self)@.players, c) {
                Some(m) => level_peers(final(self)@.players, m.level_id, c),
                None => Seq::<i32>::empty(),
            },
    {
        match self.member_index(c) {
            Some(i) => {
                let level = self.players[i].level_id;
                self.remove_member(c);
                self.level_peers(level, c)
            },
            None => {
                self.remove_member(c);
                Vec::new()
            },
        }
    }

    /// Puts `c` into `level` with state `position`, taking it out of any
    /// level it was in before.
    pub fn enter_level(&mut self, c: i32, level: i32, position: PlayerPosition)
        requires
            old(self)@.wf(),
        ensures
            final(self)@.wf(),
            final(self)@.players == without_member(old(self)@.players, c).push(
                MemberView { client_id: c, level_id: level, position: position@ },
            ),
            final(self)@.sessions == old(self)@.sessions,
    {
        self.remove_member(c);
        let ghost mid = self@.players;
        let ghost pv = position@;
        self.players.push(Member { client_id: c, level_id: level, position });
        assert(self@.players =~= mid.push(
            MemberView { client_id: c, level_id: level, position: pv },
        ));
        assert forall|i: int, j: int|
            0 <= i < self@.players.len() && 0 <= j < self@.players.len() && i != j implies
            self@.players[i].client_id != self@.players[j].client_id by {
            if i < mid.len() && j < mid.len() {
                assert(self@.players[i] == mid[i]);
                assert(self@.players[j] == mid[j]);
            } else if i < mid.len() {
                assert(self@.players[i] == mid[i]);
            } else {
                assert(self@.players[j] == mid[j]);
            }
        }
    }

    /// The state `c` last reported, if it is in a level.
    pub fn position_of(&self, c: i32) -> (r: Option<&PlayerPosition>)
        ensures
            match find_member(self@.players, c) {
                Some(m) => r matches Some(p) && p@ == m.position,
                None => r is None,
            },
    {
        match self.member_index(c) {
            Some(i) => Some(&self.players[i].position),
            None => None,
        }
    }

    /// The level `c` is in, if any.
    pub fn level_of(&self, c: i32) -> (r: Option<i32>)
        ensures
            r == match find_member(self@.players, c) {
                Some(m) => Some(m.level_id),
                None => None,
            },
    {
        match self.member_index(c) {
            Some(i) => Some(self.players[i].level_id),
            None => None,
        }
    }

    /// `data` addressed to the session of `c`; nothing when `c` has none.
    pub fn send_to(&self, c: i32, data: Vec<u8>) -> (r: Option<Datagram>)
        ensures
            match find_session(self@.sessions, c) {
                Some(e) => r matches Some(d) && d@ == (e.addr, data@),
                None => r is None,
            },
    {
        match self.session_of(c) {
            Some(e) => Some(Datagram { to: e.addr, bytes: data }),
            None => None,
        }
    }

    /// Tells each of `clients` that `client_left` left their level.
    pub fn notify_clients(&self, clients: &Vec<i32>, client_left: i32) -> (r: Vec<Datagram>)
        ensures
            datagrams_view(r@) == deliveries(
                clients@,
                self@.sessions,
                player_disconnect_bytes(client_left),
            ),
    {
        let ghost ids = clients@;
        let ghost bytes = player_disconnect_bytes(client_left);
        let mut out: Vec<Datagram> = Vec::new();
        let mut i: usize = 0;
        while i < clients.len()
            invariant
                ids == clients@,
                bytes == player_disconnect_bytes(client_left),
                i <= ids.len(),
                datagrams_view(out@) == deliveries(ids.take(i as int), self@.sessions, bytes),
            decreases ids.len() - i,
        {
            assert(ids.take(i + 1).drop_last() =~= ids.take(i as int));
            assert(ids.take(i + 1).last() == ids[i as int]);
            let ghost before = out@;
            let data = encode_player_disconnect(client_left);
            let sent = self.send_to(clients[i], data);
            match sent {
                Some(d) => {
                    out.push(d);
                    assert(datagrams_view(out@) =~= datagrams_view(before).push(d@));
                },
                None => {},
            }
            i += 1;
        }
        assert(ids.take(ids.len() as int) =~= ids);
        out
    }

    /// Sends `sender`'s state to each of `clients`.
    pub fn relay_position(&self, clients: &Vec<i32>, sender: i32, position: &PlayerPosition) -> (r:
        Vec<Datagram>)
        ensures
            datagrams_view(r@) == deliveries(
                clients@,
                self@.sessions,
                relay_bytes(sender, position@),
            ),
    {
        let ghost ids = clients@;
        let ghost bytes = relay_bytes(sender, position@);
        let mut out: Vec<Datagram> = Vec::new();
        let mut i: usize = 0;
        while i < clients.len()
            invariant
                ids == clients@,
                bytes == relay_bytes(sender, position@),
                i <= ids.len(),
                datagrams_view(out@) == deliveries(ids.take(i as int), self@.sessions, bytes),
            decreases ids.len() - i,
        {
            assert(ids.take(i + 1).drop_last() =~= ids.take(i as int));
            assert(ids.take(i + 1).last() == ids[i as int]);
            let ghost before = out@;
            let data = encode_relay(sender, position);
            let sent = self.send_to(clients[i], data);
            match sent {
                Some(d) => {
                    out.push(d);
                    assert(datagrams_view(out@) =~= datagrams_view(before).push(d@));
                },
                None => {},
            }
            i += 1;
        }
        assert(ids.take(ids.len() as int) =~= ids);
        out
    }
}

} // verus!
