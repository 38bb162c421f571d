//! Wire formats of the relay protocol: little-endian integers, the 9-byte
//! header that starts every inbound datagram, the Message payload, and the
//! datagrams the server sends back.
use vstd::prelude::*;

verus! {

/// Kind of a datagram, carried in its first byte.
#[derive(Debug, Clone, Copy, PartialEq, Eq, Structural)]
pub enum Prefixes {
    Hello,
    Ping,
    Message,
    Disconnect,
    AckHello,
    ServerData,
    PlayerDisconnect,
    PlayerIcons,
    ReceivedPlayerIcons,
    OutsideLevel,
    VipActions,
    BadKey,
}

impl Prefixes {
    /// The wire value of a kind.
    pub open spec fn code(self) -> i8 {
        match self {
            Prefixes::Ping => 0x0,
            Prefixes::Message => 0x1,
            Prefixes::Disconnect => 0x2,
            Prefixes::Hello => 0x3,
            Prefixes::AckHello => 0x4,
            Prefixes::ServerData => 0x5,
            Prefixes::PlayerDisconnect => 0x7,
            Prefixes::PlayerIcons => 0x8,
            Prefixes::ReceivedPlayerIcons => 0x9,
            Prefixes::OutsideLevel => 0x10,
            Prefixes::VipActions => 0x11,
            Prefixes::BadKey => 0x12,
        }
    }

    /// The kind whose wire value is `value`, if any.
    pub open spec fn of_code(value: i8) -> Option<Prefixes> {
        if value == 0x0 {
            Some(Prefixes::Ping)
        } else if value == 0x1 {
            Some(Prefixes::Message)
        } else if value == 0x2 {
            Some(Prefixes::Disconnect)
        } else if value == 0x3 {
            Some(Prefixes::Hello)
        } else if value == 0x4 {
            Some(Prefixes::AckHello)
        } else if value == 0x5 {
            Some(Prefixes::ServerData)
        } else if value == 0x7 {
            Some(Prefixes::PlayerDisconnect)
        } else if value == 0x8 {
            Some(Prefixes::PlayerIcons)
        } else if value == 0x9 {
            Some(Prefixes::ReceivedPlayerIcons)
        } else if value == 0x10 {
            Some(Prefixes::OutsideLevel)
        } else if value == 0x11 {
            Some(Prefixes::VipActions)
        } else if value == 0x12 {
            Some(Prefixes::BadKey)
        } else {
            None
        }
    }

    pub fn from_number(value: i8) -> (r: Option<Self>)
        ensures
            r == Self::of_code(value),
            r matches Some(p) ==> p.code() == value,
    {
        match value {
            0 => Some(Prefixes::Ping),
            1 => Some(Prefixes::Message),
            2 => Some(Prefixes::Disconnect),
            3 => Some(Prefixes::Hello),
            4 => Some(Prefixes::AckHello),
            5 => Some(Prefixes::ServerData),
            7 => Some(Prefixes::PlayerDisconnect),
            8 => Some(Prefixes::PlayerIcons),
            0x9 => Some(Prefixes::ReceivedPlayerIcons),
            0x10 => Some(Prefixes::OutsideLevel),
            0x11 => Some(Prefixes::VipActions),
            0x12 => Some(Prefixes::BadKey),
            _ => None,
        }
    }

    pub fn to_number(&self) -> (r: i8)
        ensures
            r == self.code(),
    {
        match self {
            Prefixes::AckHello => 0x4,
            Prefixes::BadKey => 0x12,
            Prefixes::Disconnect => 0x2,
            Prefixes::VipActions => 0x11,
            Prefixes::OutsideLevel => 0x10,
            Prefixes::ReceivedPlayerIcons => 0x9,
            Prefixes::PlayerIcons => 0x8,
            Prefixes::PlayerDisconnect => 0x7,
            Prefixes::ServerData => 0x5,
            Prefixes::Hello => 0x3,
            Prefixes::Ping => 0x0,
            Prefixes::Message => 0x1,
        }
    }
}

/// Every kind's wire value decodes back to that kind.
pub proof fn lemma_prefix_round_trip(p: Prefixes)
    ensures
        Prefixes::of_code(p.code()) == Some(p),
{
}

/// Why an inbound datagram was dropped without being acted on.
#[derive(Debug, Clone, Copy, PartialEq, Eq, Structural)]
pub enum PacketError {
    /// The datagram ended before a field it must hold.
    Truncated,
    /// The first byte names no known kind.
    InvalidPrefix(i8),
}

/// Length of the header: prefix, client id, session key.
pub const HEADER_LEN: usize = 9;

/// Bytes of opaque payload a Ping must carry after the header.
pub const PING_PAYLOAD_LEN: usize = 20;

/// Length of a complete Message datagram, header included.
pub const MESSAGE_LEN: usize = 72;

/// Offset of the level id inside a Message datagram.
pub const LEVEL_OFFSET: usize = 56;

pub open spec fn le_u32_at(b: Seq<u8>, i: int) -> u32 {
    (b[i] as int + b[i + 1] as int * 256 + b[i + 2] as int * 65536 + b[i + 3] as int
        * 16777216) as u32
}

pub open spec fn le_i32_at(b: Seq<u8>, i: int) -> i32 {
    le_u32_at(b, i) as i32
}

pub open spec fn le_i16_at(b: Seq<u8>, i: int) -> i16 {
    ((b[i] as int + b[i + 1] as int * 256) as u16) as i16
}

pub open spec fn le_u32_bytes(x: u32) -> Seq<u8> {
    seq![
        (x % 256) as u8,
        ((x / 256) % 256) as u8,
        ((x / 65536) % 256) as u8,
        (x / 16777216) as u8,
    ]
}

pub open spec fn le_i32_bytes(x: i32) -> Seq<u8> {
    le_u32_bytes(x as u32)
}

fn read_u32(b: &[u8], i: usize) -> (r: u32)
    requires
        i + 4 <= b@.len(),
    ensures
        r == le_u32_at(b@, i as int),
{
    (b[i] as u32) + (b[i + 1] as u32) * 256 + (b[i + 2] as u32) * 65536 + (b[i + 3] as u32)
        * 16777216
}

fn read_i32(b: &[u8], i: usize) -> (r: i32)
    requires
        i + 4 <= b@.len(),
    ensures
        r == le_i32_at(b@, i as int),
{
    read_u32(b, i) as i32
}

fn read_i16(b: &[u8], i: usize) -> (r: i16)
    requires
        i + 2 <= b@.len(),
    ensures
        r == le_i16_at(b@, i as int),
{
    (((b[i] as u16) + (b[i + 1] as u16) * 256) as u16) as i16
}

fn push_u32(out: &mut Vec<u8>, x: u32)
    ensures
        final(out)@ == old(out)@ + le_u32_bytes(x),
{
    let ghost start = out@;
    out.push((x % 256) as u8);
    out.push(((x / 256) % 256) as u8);
    out.push(((x / 65536) % 256) as u8);
    out.push((x / 16777216) as u8);
    assert(out@ =~= start + le_u32_bytes(x));
}

fn push_i32(out: &mut Vec<u8>, x: i32)
    ensures
        final(out)@ == old(out)@ + le_i32_bytes(x),
{
    push_u32(out, x as u32);
}

/// The fixed part that starts every inbound datagram.
#[derive(Debug, Clone, Copy, PartialEq, Eq, Structural)]
pub struct Header {
    pub prefix: Prefixes,
    pub client_id: i32,
    pub key: u32,
}

/// What the header of `b` decodes to: the first byte is checked before the
/// length, as a reader that consumes the fields in order would.
pub open spec fn spec_header(b: Seq<u8>) -> Result<Header, PacketError> {
    if b.len() == 0 {
        Err(PacketError::Truncated)
    } else if Prefixes::of_code(b[0] as i8) is None {
        Err(PacketError::InvalidPrefix(b[0] as i8))
    } else if b.len() < HEADER_LEN {
        Err(PacketError::Truncated)
    } else {
        Ok(
            Header {
                prefix: Prefixes::of_code(b[0] as i8)->Some_0,
                client_id: le_i32_at(b, 1),
                key: le_u32_at(b, 5),
            },
        )
    }
}

pub fn decode_header(buf: &[u8]) -> (r: Result<Header, PacketError>)
    ensures
        r == spec_header(buf@),
{
    if buf.len() == 0 {
        return Err(PacketError::Truncated);
    }
    let code = buf[0] as i8;
    match Prefixes::from_number(code) {
        None => Err(PacketError::InvalidPrefix(code)),
        Some(prefix) => {
            if buf.len() < HEADER_LEN {
                Err(PacketError::Truncated)
            } else {
                Ok(Header { prefix, client_id: read_i32(buf, 1), key: read_u32(buf, 5) })
            }
        },
    }
}

/// One of the two player slots of a player state.
#[derive(Debug, Clone, Copy)]
pub struct PlayerSlot {
    pub pos: (i32, i32),
    pub rot: (i32, i32),
    pub gamemode: u8,
    pub icon: u8,
    pub size: i32,
    pub gravity: u8,
}

/// Length of one encoded slot.
pub const SLOT_LEN: usize = 23;

pub open spec fn spec_slot(b: Seq<u8>, i: int) -> PlayerSlot {
    PlayerSlot {
        pos: (le_i32_at(b, i), le_i32_at(b, i + 4)),
        rot: (le_i32_at(b, i + 8), le_i32_at(b, i + 12)),
        gamemode: b[i + 16],
        icon: b[i + 17],
        size: le_i32_at(b, i + 18),
        gravity: b[i + 22],
    }
}

pub open spec fn slot_bytes(s: PlayerSlot) -> Seq<u8> {
    le_i32_bytes(s.pos.0) + le_i32_bytes(s.pos.1) + le_i32_bytes(s.rot.0) + le_i32_bytes(s.rot.1)
        + seq![s.gamemode, s.icon] + le_i32_bytes(s.size) + seq![s.gravity]
}

fn read_slot(b: &[u8], i: usize) -> (r: PlayerSlot)
    requires
        i + SLOT_LEN <= b@.len(),
    ensures
        r == spec_slot(b@, i as int),
{
    let n = b.len();
    assert(i + 22 < n);
    PlayerSlot {
        pos: (read_i32(b, i), read_i32(b, i + 4)),
        rot: (read_i32(b, i + 8), read_i32(b, i + 12)),
        gamemode: b[i + 16],
        icon: b[i + 17],
        size: read_i32(b, i + 18),
        gravity: b[i + 22],
    }
}

fn push_slot(out: &mut Vec<u8>, s: &PlayerSlot)
    ensures
        final(out)@ == old(out)@ + slot_bytes(*s),
{
    let ghost start = out@;
    push_i32(out, s.pos.0);
    push_i32(out, s.pos.1);
    push_i32(out, s.rot.0);
    push_i32(out, s.rot.1);
    out.push(s.gamemode);
    out.push(s.icon);
    push_i32(out, s.size);
    out.push(s.gravity);
    assert(out@ =~= start + slot_bytes(*s));
}

/// The latest state a client reported for itself.
#[derive(Debug)]
pub struct PlayerPosition {
    pub p1: PlayerSlot,
    pub p2: PlayerSlot,
    pub is_dead: u8,
    pub room: i16,
    pub color1: u8,
    pub color2: u8,
    pub glow: u8,
    pub icon_ids: Vec<u8>,
}

/// A player state as a mathematical value.
pub struct PositionView {
    pub p1: PlayerSlot,
    pub p2: PlayerSlot,
    pub is_dead: u8,
    pub room: i16,
    pub color1: u8,
    pub color2: u8,
    pub glow: u8,
    pub icon_ids: Seq<u8>,
}

impl View for PlayerPosition {
    type V = PositionView;

    open spec fn view(&self) -> PositionView {
        PositionView {
            p1: self.p1,
            p2: self.p2,
            is_dead: self.is_dead,
            room: self.room,
            color1: self.color1,
            color2: self.color2,
            glow: self.glow,
            icon_ids: self.icon_ids@,
        }
    }
}

/// The player state carried by a complete Message datagram `b`.
pub open spec fn spec_position(b: Seq<u8>) -> PositionView {
    PositionView {
        p1: spec_slot(b, 9),
        p2: spec_slot(b, 32),
        is_dead: b[55],
        room: le_i16_at(b, 60),
        color1: b[62],
        color2: b[63],
        glow: b[64],
        icon_ids: b.subrange(65, 72),
    }
}

/// The level id carried by a complete Message datagram `b`.
pub open spec fn spec_level(b: Seq<u8>) -> i32 {
    le_i32_at(b, LEVEL_OFFSET as int)
}

/// Decodes the payload of a Message datagram into its level id and player
/// state; fails when the datagram is shorter than a whole Message.
pub fn decode_message(buf: &[u8]) -> (r: Result<(i32, PlayerPosition), PacketError>)
    ensures
        buf@.len() < MESSAGE_LEN ==> r == Err::<(i32, PlayerPosition), PacketError>(
            PacketError::Truncated,
        ),
        buf@.len() >= MESSAGE_LEN ==> (r matches Ok((level, pos)) && level == spec_level(buf@)
            && pos@ == spec_position(buf@)),
{
    if buf.len() < MESSAGE_LEN {
        return Err(PacketError::Truncated);
    }
    let p1 = read_slot(buf, 9);
    let p2 = read_slot(buf, 32);
    let is_dead = buf[55];
    let level = read_i32(buf, LEVEL_OFFSET);
    let room = read_i16(buf, 60);
    let mut icon_ids: Vec<u8> = Vec::new();
    let mut i: usize = 65;
    while i < 72
        invariant
            65 <= i <= 72,
            buf@.len() >= MESSAGE_LEN,
            icon_ids@ == buf@.subrange(65, i as int),
        decreases 72 - i,
    {
        icon_ids.push(buf[i]);
        i += 1;
        assert(icon_ids@ =~= buf@.subrange(65, i as int));
    }
    let pos = PlayerPosition {
        p1,
        p2,
        is_dead,
        room,
        color1: buf[62],
        color2: buf[63],
        glow: buf[64],
        icon_ids,
    };
    Ok((level, pos))
}

/// Reply to a Hello.
pub open spec fn ack_hello_bytes() -> Seq<u8> {
    seq![4u8]
}

/// Reply to a Ping: the number of connected sessions.
pub open spec fn ping_reply_bytes(count: i32) -> Seq<u8> {
    seq![0u8] + le_i32_bytes(count)
}

/// The reason text sent with a server-issued Disconnect.
pub open spec fn unauthorized_text() -> Seq<u8> {
    seq![117u8, 110, 97, 117, 116, 104, 111, 114, 105, 122, 101, 100]
}

/// Server-issued Disconnect, sent when a session key does not match.
pub open spec fn unauthorized_bytes() -> Seq<u8> {
    seq![2u8] + unauthorized_text()
}

/// Notice that `departed` has left the receiver's level.
pub open spec fn player_disconnect_bytes(departed: i32) -> Seq<u8> {
    seq![7u8] + le_i32_bytes(departed)
}

/// Relay of `sender`'s state to another member of its level.
pub open spec fn relay_bytes(sender: i32, p: PositionView) -> Seq<u8> {
    seq![1u8] + le_i32_bytes(sender) + slot_bytes(p.p1) + slot_bytes(p.p2) + seq![
        p.is_dead,
        0u8,
        p.color1,
        p.color2,
        p.glow,
    ] + p.icon_ids
}

pub fn encode_ack_hello() -> (r: Vec<u8>)
    ensures
        r@ == ack_hello_bytes(),
{
    let mut out: Vec<u8> = Vec::new();
    out.push(Prefixes::AckHello.to_number() as u8);
    assert(out@ =~= ack_hello_bytes());
    out
}

pub fn encode_ping_reply(count: i32) -> (r: Vec<u8>)
    ensures
        r@ == ping_reply_bytes(count),
{
    let mut out: Vec<u8> = Vec::new();
    out.push(Prefixes::Ping.to_number() as u8);
    push_i32(&mut out, count);
    assert(out@ =~= ping_reply_bytes(count));
    out
}

pub fn encode_unauthorized() -> (r: Vec<u8>)
    ensures
        r@ == unauthorized_bytes(),
{
    let mut out: Vec<u8> = Vec::new();
    out.push(Prefixes::Disconnect.to_number() as u8);
    // "unauthorized" in ASCII
    let text: [u8; 12] = [117, 110, 97, 117, 116, 104, 111, 114, 105, 122, 101, 100];
    let mut i: usize = 0;
    while i < 12
        invariant
            0 <= i <= 12,
            text@ == unauthorized_text(),
            out@ == seq![2u8] + text@.subrange(0, i as int),
        decreases 12 - i,
    {
        out.push(text[i]);
        i += 1;
        assert(out@ =~= seq![2u8] + text@.subrange(0, i as int));
    }
    assert(out@ =~= unauthorized_bytes());
    out
}

pub fn encode_player_disconnect(departed: i32) -> (r: Vec<u8>)
    ensures
        r@ == player_disconnect_bytes(departed),
{
    let mut out: Vec<u8> = Vec::new();
    out.push(Prefixes::PlayerDisconnect.to_number() as u8);
    push_i32(&mut out, departed);
    assert(out@ =~= player_disconnect_bytes(departed));
    out
}

pub fn encode_relay(sender: i32, p: &PlayerPosition) -> (r: Vec<u8>)
    ensures
        r@ == relay_bytes(sender, p@),
{
    let mut out: Vec<u8> = Vec::new();
    out.push(Prefixes::Message.to_number() as u8);
    push_i32(&mut out, sender);
    push_slot(&mut out, &p.p1);
    push_slot(&mut out, &p.p2);
    out.push(p.is_dead);
    out.push(0u8);
    out.push(p.color1);
    out.push(p.color2);
    out.push(p.glow);
    let ghost before_icons = out@;
    let mut i: usize = 0;
    while i < p.icon_ids.len()
        invariant
            0 <= i <= p.icon_ids@.len(),
            out@ == before_icons + p.icon_ids@.subrange(0, i as int),
        decreases p.icon_ids@.len() - i,
    {
        out.push(p.icon_ids[i]);
        i += 1;
        assert(out@ =~= before_icons + p.icon_ids@.subrange(0, i as int));
    }
    assert(p.icon_ids@.subrange(0, p.icon_ids@.len() as int) =~= p.icon_ids@);
    assert(out@ =~= relay_bytes(sender, p@));
    out
}

} // verus!
