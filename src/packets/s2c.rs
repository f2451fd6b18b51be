//! Packets that the server sends to a client.

use vstd::prelude::*;
use vstd::utf8::*;
use crate::codec::{
    be_bytes, bits_of_i32, bits_of_i8, i32_bits, i32_from_bits, i8_bits, read_varint,
    signed_of, string_bytes, varint_bytes, varint_prefix, write_be, write_string, write_varint,
    MAX_PACKET_LEN,
};

verus! {

/// Id of the login disconnect, in the login state.
pub const LOGIN_DISCONNECT_ID: u32 = 0x00;

/// Id of the encryption request, in the login state.
pub const ENCRYPTION_REQUEST_ID: u32 = 0x01;

/// Id of the login success, in the login state.
pub const LOGIN_SUCCESS_ID: u32 = 0x02;

/// Id of the compression threshold, in the login state.
pub const SET_COMPRESSION_ID: u32 = 0x03;

/// Id of the status response, in the status state.
pub const STATUS_RESPONSE_ID: u32 = 0x00;

/// Id of the server's window-confirmation request.
pub const TRANSACTION_ID: u32 = 0x11;

/// Id of the player pose that the client takes as a teleport.
pub const POSITION_ID: u32 = 0x34;

/// The refusal of a login: a JSON chat component.
pub struct LoginDisconnect {
    pub reason: String,
}

impl LoginDisconnect {
    /// The packet's data.
    pub open spec fn data(&self) -> Seq<u8> {
        string_bytes(self.reason@)
    }

    /// Writes the packet's data.
    pub fn serialize(&self) -> (r: Vec<u8>)
        requires
            encode_utf8(self.reason@).len() <= MAX_PACKET_LEN,
        ensures
            r@ == self.data(),
    {
        let mut out: Vec<u8> = Vec::new();
        write_string(&mut out, self.reason.as_str());
        proof {
            assert(out@ =~= self.data());
        }
        out
    }
}

/// The compression threshold that the server sets for the session.
pub struct SetCompression {
    pub threshold: i32,
}

impl SetCompression {
    /// Reads the packet from its data; `None` where the data does not hold one.
    pub fn deserialize(data: &[u8]) -> (r: Option<SetCompression>)
        ensures
            match varint_prefix(data@) {
                Some((v, _)) => r matches Some(c) && c.threshold == signed_of(v),
                None => r is None,
            },
    {
        proof {
            assert(data@.skip(0) =~= data@);
        }
        match read_varint(data, 0) {
            Some((v, _)) => Some(SetCompression { threshold: i32_from_bits(v) }),
            None => None,
        }
    }
}

/// The status of the server: a JSON document.
pub struct StatusResponse {
    pub response: String,
}

impl StatusResponse {
    /// The packet's data.
    pub open spec fn data(&self) -> Seq<u8> {
        string_bytes(self.response@)
    }

    /// Writes the packet's data.
    pub fn serialize(&self) -> (r: Vec<u8>)
        requires
            encode_utf8(self.response@).len() <= MAX_PACKET_LEN,
        ensures
            r@ == self.data(),
    {
        let mut out: Vec<u8> = Vec::new();
        write_string(&mut out, self.response.as_str());
        proof {
            assert(out@ =~= self.data());
        }
        out
    }
}

/// The pose of the player, which the client takes as a teleport: coordinates
/// as the bits of 64-bit floats, angles as the bits of 32-bit floats.
pub struct Position {
    pub x: u64,
    pub y: u64,
    pub z: u64,
    pub yaw: u32,
    pub pitch: u32,
    pub flags: i8,
    pub teleport_id: i32,
}

impl Position {
    /// The packet's data.
    pub open spec fn data(&self) -> Seq<u8> {
        be_bytes(self.x as nat, 8) + be_bytes(self.y as nat, 8) + be_bytes(self.z as nat, 8)
            + be_bytes(self.yaw as nat, 4) + be_bytes(self.pitch as nat, 4) + seq![
            i8_bits(self.flags) as u8,
        ] + varint_bytes(i32_bits(self.teleport_id))
    }

    /// Writes the packet's data.
    pub fn serialize(&self) -> (r: Vec<u8>)
        ensures
            r@ == self.data(),
    {
        let mut out: Vec<u8> = Vec::new();
        write_be(&mut out, self.x, 8);
        write_be(&mut out, self.y, 8);
        write_be(&mut out, self.z, 8);
        write_be(&mut out, self.yaw as u64, 4);
        write_be(&mut out, self.pitch as u64, 4);
        out.push(bits_of_i8(self.flags));
        write_varint(&mut out, bits_of_i32(self.teleport_id));
        proof {
            assert(out@ =~= self.data());
        }
        out
    }
}

} // verus!
