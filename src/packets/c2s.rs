//! Packets that a client sends to the server.

use vstd::prelude::*;
use vstd::utf8::*;
use crate::codec::{
    be_bytes, be_value, bits_of_i16, bits_of_i32, bits_of_i8, i16_bits, i16_from_bits, i16_of,
    i32_bits, i32_from_bits, i8_bits, i8_from_bits, i8_of, lemma_be_value_bound,
    lemma_varint_groups_bound, read_be, read_string, read_varint, signed_of, string_bytes,
    string_prefix, varint_bytes, varint_prefix, write_be, write_string, write_varint, pow256,
    MAX_PACKET_LEN,
};

verus! {

/// Id of the handshake, the first packet of every connection.
pub const HANDSHAKE_ID: u32 = 0x00;

/// Id of the login start, in the login state.
pub const LOGIN_START_ID: u32 = 0x00;

/// Id of the status request, in the status state.
pub const STATUS_REQUEST_ID: u32 = 0x00;

/// Id of the ping request, in the status state.
pub const PING_REQUEST_ID: u32 = 0x01;

/// Id of the window-confirmation reply.
pub const TRANSACTION_ID: u32 = 0x07;

/// Id of a move without a turn.
pub const POSITION_ID: u32 = 0x12;

/// Id of a move with a turn.
pub const POSITION_LOOK_ID: u32 = 0x13;

/// Id of a turn without a move.
pub const LOOK_ID: u32 = 0x14;

/// The value of `n` bytes of `s` at `pos`, big-endian.
pub open spec fn be_at(s: Seq<u8>, pos: int, n: int) -> nat {
    be_value(s.subrange(pos, pos + n))
}

/// The first packet of a connection: the protocol version of the client and
/// what it asks for next (1: status, 2: login).
pub struct Handshake {
    pub protocol_version: i32,
    pub server_address: String,
    pub server_port: u16,
    pub intent: i32,
}

/// The fields of the handshake at the start of `s`.
pub open spec fn handshake_of(s: Seq<u8>) -> Option<(i32, Seq<char>, u16, i32)> {
    match varint_prefix(s) {
        None => None,
        Some((p, n1)) => match string_prefix(s.skip(n1 as int)) {
            None => None,
            Some((addr, n2)) => {
                let k = (n1 + n2) as int;
                if k + 2 <= s.len() {
                    match varint_prefix(s.skip(k + 2)) {
                        Some((intent, _)) => Some(
                            (signed_of(p), addr, be_at(s, k, 2) as u16, signed_of(intent)),
                        ),
                        None => None,
                    }
                } else {
                    None
                }
            },
        },
    }
}

/// The data of a handshake with these fields.
pub open spec fn handshake_data(
    protocol_version: i32,
    server_address: Seq<char>,
    server_port: u16,
    intent: i32,
) -> Seq<u8> {
    varint_bytes(i32_bits(protocol_version)) + string_bytes(server_address) + be_bytes(
        server_port as nat,
        2,
    ) + varint_bytes(i32_bits(intent))
}

impl Handshake {
    /// The packet's data.
    pub open spec fn data(&self) -> Seq<u8> {
        handshake_data(self.protocol_version, self.server_address@, self.server_port, self.intent)
    }

    /// Writes the packet's data.
    pub fn serialize(&self) -> (r: Vec<u8>)
        requires
            encode_utf8(self.server_address@).len() <= MAX_PACKET_LEN,
        ensures
            r@ == self.data(),
    {
        let mut out: Vec<u8> = Vec::new();
        write_varint(&mut out, bits_of_i32(self.protocol_version));
        write_string(&mut out, self.server_address.as_str());
        write_be(&mut out, self.server_port as u64, 2);
        write_varint(&mut out, bits_of_i32(self.intent));
        proof {
            assert(out@ =~= self.data());
        }
        out
    }

    /// Reads the packet from its data; `None` where the data does not hold one.
    pub fn deserialize(data: &[u8]) -> (r: Option<Handshake>)
        ensures
            match handshake_of(data@) {
                Some((p, addr, port, intent)) => r matches Some(h) && h.protocol_version == p
                    && h.server_address@ == addr && h.server_port == port && h.intent == intent,
                None => r is None,
            },
    {
        proof {
            assert(data@.skip(0) =~= data@);
            lemma_varint_groups_bound(data@, 5);
        }
        let (p, n1) = match read_varint(data, 0) {
            Some(v) => v,
            None => return None,
        };
        proof {
            let m = string_prefix(data@.skip(n1 as int));
            if m is Some {
                lemma_varint_groups_bound(data@.skip(n1 as int), 5);
            }
        }
        let (addr, n2) = match read_string(data, n1) {
            Some(v) => v,
            None => return None,
        };
        if n2 > data.len() - n1 || 2 > data.len() - n1 - n2 {
            return None;
        }
        let k = n1 + n2;
        let port = read_be(data, k, 2);
        proof {
            lemma_be_value_bound(data@.subrange(k as int, k + 2));
            assert(pow256(2) == 65536) by {
                reveal_with_fuel(pow256, 3);
            }
        }
        match read_varint(data, k + 2) {
            Some((intent, _)) => Some(
                Handshake {
                    protocol_version: i32_from_bits(p),
                    server_address: addr,
                    server_port: port as u16,
                    intent: i32_from_bits(intent),
                },
            ),
            None => None,
        }
    }
}

/// The login start: the name of the player.
pub struct LoginStart {
    pub name: String,
}

impl LoginStart {
    /// Reads the packet from its data; `None` where the data does not hold one.
    pub fn deserialize(data: &[u8]) -> (r: Option<LoginStart>)
        ensures
            match string_prefix(data@) {
                Some((name, _)) => r matches Some(l) && l.name@ == name,
                None => r is None,
            },
    {
        proof {
            assert(data@.skip(0) =~= data@);
        }
        match read_string(data, 0) {
            Some((name, _)) => Some(LoginStart { name }),
            None => None,
        }
    }
}

/// A status request: no fields.
pub struct StatusRequest {}

/// A window confirmation: the client's reply to the server's transaction of
/// the same `action`. The server sends the same layout under its own id.
#[derive(Clone, Copy, PartialEq, Eq, Structural, Debug)]
pub struct Transaction {
    pub window_id: i8,
    pub action: i16,
    pub accepted: bool,
}

/// The transaction that `data` holds: a byte of window id, two bytes of action
/// and a byte of acceptance.
pub open spec fn transaction_of(data: Seq<u8>) -> Option<Transaction> {
    if data.len() >= 4 {
        Some(
            Transaction {
                window_id: i8_of(data[0]),
                action: i16_of(be_at(data, 1, 2)),
                accepted: data[3] != 0,
            },
        )
    } else {
        None
    }
}

impl Transaction {
    /// The packet's data.
    pub open spec fn data(&self) -> Seq<u8> {
        seq![i8_bits(self.window_id) as u8] + be_bytes(i16_bits(self.action), 2) + seq![
            if self.accepted {
                1u8
            } else {
                0u8
            },
        ]
    }

    /// Writes the packet's data.
    pub fn serialize(&self) -> (r: Vec<u8>)
        ensures
            r@ == self.data(),
    {
        let mut out: Vec<u8> = Vec::new();
        out.push(bits_of_i8(self.window_id));
        write_be(&mut out, bits_of_i16(self.action) as u64, 2);
        out.push(
            if self.accepted {
                1u8
            } else {
                0u8
            },
        );
        proof {
            assert(out@ =~= self.data());
        }
        out
    }

    /// Reads the packet from its data; `None` where the data does not hold one.
    pub fn deserialize(data: &[u8]) -> (r: Option<Transaction>)
        ensures
            r == transaction_of(data@),
    {
        if data.len() < 4 {
            return None;
        }
        let w = read_be(data, 1, 2);
        proof {
            lemma_be_value_bound(data@.subrange(1, 3));
            assert(pow256(2) == 65536) by {
                reveal_with_fuel(pow256, 3);
            }
        }
        Some(
            Transaction {
                window_id: i8_from_bits(data[0]),
                action: i16_from_bits(w),
                accepted: data[3] != 0,
            },
        )
    }
}

/// A move: the new coordinates, as the bits of 64-bit floats.
pub struct Position {
    pub x: u64,
    pub y: u64,
    pub z: u64,
    pub on_ground: bool,
}

/// A move and a turn: coordinates as the bits of 64-bit floats, angles as the
/// bits of 32-bit floats.
pub struct PositionLook {
    pub x: u64,
    pub y: u64,
    pub z: u64,
    pub yaw: u32,
    pub pitch: u32,
    pub on_ground: bool,
}

/// A turn: the angles, as the bits of 32-bit floats.
pub struct Look {
    pub yaw: u32,
    pub pitch: u32,
    pub on_ground: bool,
}

/// The move that `data` holds: three 8-byte coordinates and a byte.
pub open spec fn position_of(data: Seq<u8>) -> Option<(u64, u64, u64)> {
    if data.len() >= 25 {
        Some((be_at(data, 0, 8) as u64, be_at(data, 8, 8) as u64, be_at(data, 16, 8) as u64))
    } else {
        None
    }
}

/// The move and turn that `data` holds: three 8-byte coordinates, two 4-byte
/// angles and a byte.
pub open spec fn position_look_of(data: Seq<u8>) -> Option<(u64, u64, u64, u32, u32)> {
    if data.len() >= 33 {
        Some(
            (
                be_at(data, 0, 8) as u64,
                be_at(data, 8, 8) as u64,
                be_at(data, 16, 8) as u64,
                be_at(data, 24, 4) as u32,
                be_at(data, 28, 4) as u32,
            ),
        )
    } else {
        None
    }
}

/// The turn that `data` holds: two 4-byte angles and a byte.
pub open spec fn look_of(data: Seq<u8>) -> Option<(u32, u32)> {
    if data.len() >= 9 {
        Some((be_at(data, 0, 4) as u32, be_at(data, 4, 4) as u32))
    } else {
        None
    }
}

/// Reads 8 bytes at `pos` as a 64-bit value.
fn read_u64(data: &[u8], pos: usize) -> (r: u64)
    requires
        pos + 8 <= data@.len(),
    ensures
        r == be_at(data@, pos as int, 8) as u64,
        be_at(data@, pos as int, 8) <= u64::MAX,
{
    proof {
        lemma_be_value_bound(data@.subrange(pos as int, pos + 8));
        assert(pow256(8) == 0x1_0000_0000_0000_0000) by {
            reveal_with_fuel(pow256, 9);
        }
    }
    read_be(data, pos, 8)
}

/// Reads 4 bytes at `pos` as a 32-bit value.
fn read_u32(data: &[u8], pos: usize) -> (r: u32)
    requires
        pos + 4 <= data@.len(),
    ensures
        r == be_at(data@, pos as int, 4) as u32,
        be_at(data@, pos as int, 4) <= u32::MAX,
{
    proof {
        lemma_be_value_bound(data@.subrange(pos as int, pos + 4));
        assert(pow256(4) == 0x1_0000_0000) by {
            reveal_with_fuel(pow256, 5);
        }
    }
    read_be(data, pos, 4) as u32
}

impl Position {
    /// The packet's data.
    pub open spec fn data(&self) -> Seq<u8> {
        be_bytes(self.x as nat, 8) + be_bytes(self.y as nat, 8) + be_bytes(self.z as nat, 8)
            + seq![
            if self.on_ground {
                1u8
            } else {
                0u8
            },
        ]
    }

    /// Writes the packet's data.
    pub fn serialize(&self) -> (r: Vec<u8>)
        ensures
            r@ == self.data(),
    {
        let mut out: Vec<u8> = Vec::new();
        write_be(&mut out, self.x, 8);
        write_be(&mut out, self.y, 8);
        write_be(&mut out, self.z, 8);
        out.push(
            if self.on_ground {
                1u8
            } else {
                0u8
            },
        );
        proof {
            assert(out@ =~= self.data());
        }
        out
    }

    /// Reads the packet from its data; `None` where the data does not hold one.
    pub fn deserialize(data: &[u8]) -> (r: Option<Position>)
        ensures
            match position_of(data@) {
                Some((x, y, z)) => r matches Some(p) && p.x == x && p.y == y && p.z == z
                    && p.on_ground == (data@[24] != 0),
                None => r is None,
            },
    {
        if data.len() < 25 {
            return None;
        }
        Some(
            Position {
                x: read_u64(data, 0),
                y: read_u64(data, 8),
                z: read_u64(data, 16),
                on_ground: data[24] != 0,
            },
        )
    }
}

impl PositionLook {
    /// The packet's data.
    pub open spec fn data(&self) -> Seq<u8> {
        be_bytes(self.x as nat, 8) + be_bytes(self.y as nat, 8) + be_bytes(self.z as nat, 8)
            + be_bytes(self.yaw as nat, 4) + be_bytes(self.pitch as nat, 4) + seq![
            if self.on_ground {
                1u8
            } else {
                0u8
            },
        ]
    }

    /// Writes the packet's data.
    pub fn serialize(&self) -> (r: Vec<u8>)
        ensures
            r@ == self.data(),
    {
        let mut out: Vec<u8> = Vec::new();
        write_be(&mut out, self.x, 8);
        write_be(&mut out, self.y, 8);
        write_be(&mut out, self.z, 8);
        write_be(&mut out, self.yaw as u64, 4);
        write_be(&mut out, self.pitch as u64, 4);
        out.push(
            if self.on_ground {
                1u8
            } else {
                0u8
            },
        );
        proof {
            assert(out@ =~= self.data());
        }
        out
    }

    /// Reads the packet from its data; `None` where the data does not hold one.
    pub fn deserialize(data: &[u8]) -> (r: Option<PositionLook>)
        ensures
            match position_look_of(data@) {
                Some((x, y, z, yaw, pitch)) => r matches Some(p) && p.x == x && p.y == y && p.z
                    == z && p.yaw == yaw && p.pitch == pitch && p.on_ground == (data@[32] != 0),
                None => r is None,
            },
    {
        if data.len() < 33 {
            return None;
        }
        Some(
            PositionLook {
                x: read_u64(data, 0),
                y: read_u64(data, 8),
                z: read_u64(data, 16),
                yaw: read_u32(data, 24),
                pitch: read_u32(data, 28),
                on_ground: data[32] != 0,
            },
        )
    }
}

impl Look {
    /// The packet's data.
    pub open spec fn data(&self) -> Seq<u8> {
        be_bytes(self.yaw as nat, 4) + be_bytes(self.pitch as nat, 4) + seq![
            if self.on_ground {
                1u8
            } else {
                0u8
            },
        ]
    }

    /// Writes the packet's data.
    pub fn serialize(&self) -> (r: Vec<u8>)
        ensures
            r@ == self.data(),
    {
        let mut out: Vec<u8> = Vec::new();
        write_be(&mut out, self.yaw as u64, 4);
        write_be(&mut out, self.pitch as u64, 4);
        out.push(
            if self.on_ground {
                1u8
            } else {
                0u8
            },
        );
        proof {
            assert(out@ =~= self.data());
        }
        out
    }

    /// Reads the packet from its data; `None` where the data does not hold one.
    pub fn deserialize(data: &[u8]) -> (r: Option<Look>)
        ensures
            match look_of(data@) {
                Some((yaw, pitch)) => r matches Some(l) && l.yaw == yaw && l.pitch == pitch
                    && l.on_ground == (data@[8] != 0),
                None => r is None,
            },
    {
        if data.len() < 9 {
            return None;
        }
        Some(Look { yaw: read_u32(data, 0), pitch: read_u32(data, 4), on_ground: data[8] != 0 })
    }
}

} // verus!
