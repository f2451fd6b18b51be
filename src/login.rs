//! The login handoff: the decisions that make two clients look like one to
//! the server, before the session controller starts.

use vstd::prelude::*;
use vstd::utf8::*;
use crate::codec::{
    copy_range, decode_frame, encode_frame, frame_of, frame_packet, lemma_string_bytes_len, lemma_utf8_len,
    string_bytes, varint_prefix, signed_of, MAX_PACKET_LEN,
};
use crate::packets::c2s::{self, Handshake};
use crate::packets::s2c::{self, LoginDisconnect, SetCompression, StatusResponse};

verus! {

/// The one protocol version that the proxy speaks: Minecraft 1.16.5.
pub const PROTOCOL_VERSION: i32 = 754;

/// The port that the upstream handshake names.
pub const UPSTREAM_PORT: u16 = 25565;

/// The handshake intent of a login.
pub const LOGIN_INTENT: i32 = 2;

/// The handshake intent of a status query.
pub const STATUS_INTENT: i32 = 1;

/// The longest text that a protocol string holds, in bytes.
pub const MAX_STRING_LEN: usize = 32767;

/// The status that the proxy shows in the server list.
pub const STATUS_JSON: &'static str = "{\"description\":\"A Minecraft Server\",\"players\":{\"max\":20,\"online\":0},\"version\":{\"name\":\"1.16.5\",\"protocol\":754}}";

/// Why a login is refused before the session starts.
#[derive(Clone, Copy, PartialEq, Eq, Structural, Debug)]
pub enum Refusal {
    /// The two clients speak different protocol versions.
    VersionMismatch,
    /// The clients speak a version other than 1.16.5.
    UnsupportedVersion,
    /// The server asks for encryption: an online-mode server.
    OnlineMode,
    /// The proxy could not reach the server.
    Unreachable,
}

/// The refusal, if any, of two clients that declared these protocol versions.
pub open spec fn version_refusal(cheat_protocol: i32, legit_protocol: i32) -> Option<Refusal> {
    if cheat_protocol != legit_protocol {
        Some(Refusal::VersionMismatch)
    } else if cheat_protocol != PROTOCOL_VERSION {
        Some(Refusal::UnsupportedVersion)
    } else {
        None
    }
}

/// Checks the protocol versions that the two clients declared in their
/// handshakes: they must agree, and be 1.16.5.
pub fn check_versions(cheat_protocol: i32, legit_protocol: i32) -> (r: Option<Refusal>)
    ensures
        r == version_refusal(cheat_protocol, legit_protocol),
{
    if cheat_protocol != legit_protocol {
        Some(Refusal::VersionMismatch)
    } else if cheat_protocol != PROTOCOL_VERSION {
        Some(Refusal::UnsupportedVersion)
    } else {
        None
    }
}

/// The reason shown to the players for a refusal, as a JSON chat component.
pub open spec fn refusal_reason(r: Refusal) -> Seq<char> {
    match r {
        Refusal::VersionMismatch => "{\"text\":\"Версии клиентов различаются\"}"@,
        Refusal::UnsupportedVersion => "{\"text\":\"Для стабильности поддерживается только 1.16.5\\nЕсли вы не можете выбрать версию в клиенте, то используйте ViaProxy\"}"@,
        Refusal::OnlineMode => "{\"text\":\"Лицензионный сервер пока не поддерживается\"}"@,
        Refusal::Unreachable => "{\"text\":\"Ошибка при подключении к удаленному серверу\"}"@,
    }
}

impl Refusal {
    /// The reason shown to the players, as a JSON chat component.
    pub fn reason(&self) -> (r: &'static str)
        ensures
            r@ == refusal_reason(*self),
            r@.len() <= 200,
    {
        proof {
            reveal_strlit("{\"text\":\"Версии клиентов различаются\"}");
            reveal_strlit("{\"text\":\"Для стабильности поддерживается только 1.16.5\\nЕсли вы не можете выбрать версию в клиенте, то используйте ViaProxy\"}");
            reveal_strlit("{\"text\":\"Лицензионный сервер пока не поддерживается\"}");
            reveal_strlit("{\"text\":\"Ошибка при подключении к удаленному серверу\"}");
        }
        match self {
            Refusal::VersionMismatch => "{\"text\":\"Версии клиентов различаются\"}",
            Refusal::UnsupportedVersion => "{\"text\":\"Для стабильности поддерживается только 1.16.5\\nЕсли вы не можете выбрать версию в клиенте, то используйте ViaProxy\"}",
            Refusal::OnlineMode => "{\"text\":\"Лицензионный сервер пока не поддерживается\"}",
            Refusal::Unreachable => "{\"text\":\"Ошибка при подключении к удаленному серверу\"}",
        }
    }
}

/// The login disconnect frame that carries the reason of a refusal.
pub fn refusal_frame(refusal: Refusal, threshold: Option<i32>) -> (r: Vec<u8>)
    ensures
        r@ == frame_of(
            s2c::LOGIN_DISCONNECT_ID,
            string_bytes(refusal_reason(refusal)),
            threshold,
        ),
{
    let reason = refusal.reason();
    let packet = LoginDisconnect { reason: reason.to_owned() };
    proof {
        lemma_utf8_len(reason@);
    }
    let data = packet.serialize();
    proof {
        lemma_string_bytes_len(reason@);
    }
    encode_frame(s2c::LOGIN_DISCONNECT_ID, data.as_slice(), threshold)
}

/// The handshake that a client's first frame holds.
pub fn read_handshake(frame: &[u8]) -> (r: Option<Handshake>)
    ensures
        match frame_packet(frame@, None) {
            Some((id, data)) => if id == c2s::HANDSHAKE_ID {
                match c2s::handshake_of(data) {
                    Some((p, addr, port, intent)) => r matches Some(h) && h.protocol_version == p
                        && h.server_address@ == addr && h.server_port == port && h.intent
                        == intent,
                    None => r is None,
                }
            } else {
                r is None
            },
            None => r is None,
        },
{
    match decode_frame(frame, None) {
        Some(p) => if p.id == c2s::HANDSHAKE_ID {
            Handshake::deserialize(p.data.as_slice())
        } else {
            None
        },
        None => None,
    }
}

/// The login start that a client's second frame holds.
pub fn read_login_start(frame: &[u8]) -> (r: Option<c2s::LoginStart>)
    ensures
        match frame_packet(frame@, None) {
            Some((id, data)) => if id == c2s::LOGIN_START_ID {
                match crate::codec::string_prefix(data) {
                    Some((name, _)) => r matches Some(l) && l.name@ == name,
                    None => r is None,
                }
            } else {
                r is None
            },
            None => r is None,
        },
{
    match decode_frame(frame, None) {
        Some(p) => if p.id == c2s::LOGIN_START_ID {
            c2s::LoginStart::deserialize(p.data.as_slice())
        } else {
            None
        },
        None => None,
    }
}

/// The handshake that opens the upstream connection: protocol 1.16.5, the
/// address the user typed, the default port, and the login intent.
pub fn upstream_handshake(address: &str) -> (r: Vec<u8>)
    requires
        encode_utf8(address@).len() <= MAX_STRING_LEN,
    ensures
        r@ == frame_of(
            c2s::HANDSHAKE_ID,
            c2s::handshake_data(PROTOCOL_VERSION, address@, UPSTREAM_PORT, LOGIN_INTENT),
            None,
        ),
{
    let h = Handshake {
        protocol_version: PROTOCOL_VERSION,
        server_address: address.to_owned(),
        server_port: UPSTREAM_PORT,
        intent: LOGIN_INTENT,
    };
    let data = h.serialize();
    proof {
        lemma_string_bytes_len(address@);
        crate::codec::lemma_be_bytes_len(UPSTREAM_PORT as nat, 2);
        crate::codec::lemma_varint_prefix_round_trip(754, seq![]);
        crate::codec::lemma_varint_prefix_round_trip(2, seq![]);
    }
    encode_frame(c2s::HANDSHAKE_ID, data.as_slice(), None)
}

/// The frame of the proxy's status.
pub open spec fn status_frame() -> Seq<u8> {
    frame_of(s2c::STATUS_RESPONSE_ID, string_bytes(STATUS_JSON@), None)
}

/// The reply to a frame of a status query: the proxy's status to a status
/// request, the frame itself to a ping, nothing to anything else.
pub fn status_reply(frame: &[u8]) -> (r: Option<Vec<u8>>)
    ensures
        match frame_packet(frame@, None) {
            Some((id, _)) => if id == c2s::STATUS_REQUEST_ID {
                r matches Some(f) && f@ == status_frame()
            } else if id == c2s::PING_REQUEST_ID {
                r matches Some(f) && f@ == frame@
            } else {
                r is None
            },
            None => r is None,
        },
{
    match decode_frame(frame, None) {
        Some(p) => if p.id == c2s::STATUS_REQUEST_ID {
            let response = StatusResponse { response: STATUS_JSON.to_owned() };
            proof {
                reveal_strlit("{\"description\":\"A Minecraft Server\",\"players\":{\"max\":20,\"online\":0},\"version\":{\"name\":\"1.16.5\",\"protocol\":754}}");
                lemma_utf8_len(STATUS_JSON@);
            }
            let data = response.serialize();
            proof {
                lemma_string_bytes_len(STATUS_JSON@);
            }
            Some(encode_frame(s2c::STATUS_RESPONSE_ID, data.as_slice(), None))
        } else if p.id == c2s::PING_REQUEST_ID {
            Some(copy_range(frame, 0, frame.len()))
        } else {
            None
        },
        None => None,
    }
}

/// What the proxy does with a frame of the server during the login.
pub enum LoginStep {
    /// The server refused the login: this frame, which carries its reason, goes
    /// to both clients, and the login ends.
    Disconnected(Vec<u8>),
    /// The server is in online mode: this refusal goes to both clients, and the
    /// login ends.
    OnlineMode(Vec<u8>),
    /// The server set the compression threshold: this frame goes on to both
    /// clients, and the login goes on.
    Compression(i32, Vec<u8>),
    /// The login succeeded: this frame goes to both clients, and the session
    /// starts.
    Success(Vec<u8>),
    /// A packet with this id, which has no place in the login.
    Unexpected(u32),
    /// A frame that does not parse.
    Malformed,
}

/// Takes a frame of the server during the login, given the compression
/// threshold set so far.
pub fn login_step(frame: &[u8], threshold: Option<i32>) -> (r: LoginStep)
    ensures
        match frame_packet(frame@, threshold) {
            Some((id, data)) => if id == s2c::LOGIN_DISCONNECT_ID {
                if data.len() <= MAX_PACKET_LEN {
                    r matches LoginStep::Disconnected(f) && f@ == frame_of(id, data, threshold)
                } else {
                    r is Malformed
                }
            } else if id == s2c::ENCRYPTION_REQUEST_ID {
                r matches LoginStep::OnlineMode(f) && f@ == frame_of(
                    s2c::LOGIN_DISCONNECT_ID,
                    string_bytes(refusal_reason(Refusal::OnlineMode)),
                    threshold,
                )
            } else if id == s2c::SET_COMPRESSION_ID {
                match varint_prefix(data) {
                    Some((v, _)) => r matches LoginStep::Compression(t, f) && t == signed_of(v)
                        && f@ == frame@,
                    None => r is Malformed,
                }
            } else if id == s2c::LOGIN_SUCCESS_ID {
                if data.len() <= MAX_PACKET_LEN {
                    r matches LoginStep::Success(f) && f@ == frame_of(id, data, threshold)
                } else {
                    r is Malformed
                }
            } else {
                r == LoginStep::Unexpected(id)
            },
            None => r is Malformed,
        },
{
    let p = match decode_frame(frame, threshold) {
        Some(p) => p,
        None => return LoginStep::Malformed,
    };
    if p.id == s2c::LOGIN_DISCONNECT_ID {
        if p.data.len() <= MAX_PACKET_LEN {
            LoginStep::Disconnected(encode_frame(p.id, p.data.as_slice(), threshold))
        } else {
            LoginStep::Malformed
        }
    } else if p.id == s2c::ENCRYPTION_REQUEST_ID {
        LoginStep::OnlineMode(refusal_frame(Refusal::OnlineMode, threshold))
    } else if p.id == s2c::SET_COMPRESSION_ID {
        match SetCompression::deserialize(p.data.as_slice()) {
            Some(c) => LoginStep::Compression(c.threshold, copy_range(frame, 0, frame.len())),
            None => LoginStep::Malformed,
        }
    } else if p.id == s2c::LOGIN_SUCCESS_ID {
        if p.data.len() <= MAX_PACKET_LEN {
            LoginStep::Success(encode_frame(p.id, p.data.as_slice(), threshold))
        } else {
            LoginStep::Malformed
        }
    } else {
        LoginStep::Unexpected(p.id)
    }
}

} // verus!
