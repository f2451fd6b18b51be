use voxelproxy::codec::{decode_frame, encode_frame, read_string, write_varint};
use voxelproxy::login::{
    check_versions, login_step, read_handshake, read_login_start, refusal_frame, status_reply,
    upstream_handshake, LoginStep, Refusal, STATUS_JSON,
};
use voxelproxy::packets::c2s::{self, Handshake};
use voxelproxy::packets::s2c::{self, LoginDisconnect};

fn handshake(protocol: i32, intent: i32) -> Vec<u8> {
    let h = Handshake {
        protocol_version: protocol,
        server_address: "x".to_string(),
        server_port: 25565,
        intent,
    };
    encode_frame(c2s::HANDSHAKE_ID, &h.serialize(), None)
}

fn login_start(name: &str) -> Vec<u8> {
    let mut data = Vec::new();
    voxelproxy::codec::write_string(&mut data, name);
    encode_frame(c2s::LOGIN_START_ID, &data, None)
}

fn reason_of(frame: &[u8]) -> String {
    let p = decode_frame(frame, None).unwrap();
    assert_eq!(p.id, s2c::LOGIN_DISCONNECT_ID);
    read_string(&p.data, 0).unwrap().0
}

#[test]
fn happy_path_login() {
    let cheat = read_handshake(&handshake(754, 2)).unwrap();
    let legit = read_handshake(&handshake(754, 2)).unwrap();
    assert_eq!(cheat.protocol_version, 754);
    assert_eq!(cheat.server_address, "x");
    assert_eq!(cheat.server_port, 25565);
    assert_eq!(cheat.intent, 2);
    assert_eq!(read_login_start(&login_start("Alice")).unwrap().name, "Alice");
    assert_eq!(read_login_start(&login_start("Bob")).unwrap().name, "Bob");
    assert_eq!(check_versions(cheat.protocol_version, legit.protocol_version), None);
    let success = encode_frame(s2c::LOGIN_SUCCESS_ID, &[1, 2, 3, 4, 5], None);
    match login_step(&success, None) {
        LoginStep::Success(f) => assert_eq!(f, success),
        _ => panic!("expected a login success"),
    }
}

#[test]
fn upstream_handshake_names_the_server() {
    let frame = upstream_handshake("mc.example.org");
    let expected = Handshake {
        protocol_version: 754,
        server_address: "mc.example.org".to_string(),
        server_port: 25565,
        intent: 2,
    };
    assert_eq!(frame, encode_frame(0x00, &expected.serialize(), None));
    assert_eq!(&frame[..3], &[0x00, 0xf2, 0x05]);
    assert_eq!(&frame[frame.len() - 3..], &[0x63, 0xdd, 0x02]);
}

#[test]
fn version_mismatch() {
    let cheat = read_handshake(&handshake(754, 2)).unwrap();
    let legit = read_handshake(&handshake(755, 2)).unwrap();
    let refusal = check_versions(cheat.protocol_version, legit.protocol_version);
    assert_eq!(refusal, Some(Refusal::VersionMismatch));
    let frame = refusal_frame(refusal.unwrap(), None);
    assert_eq!(reason_of(&frame), "{\"text\":\"Версии клиентов различаются\"}");
}

#[test]
fn unsupported_version_is_refused() {
    assert_eq!(check_versions(340, 340), Some(Refusal::UnsupportedVersion));
    let frame = refusal_frame(Refusal::UnsupportedVersion, None);
    assert!(reason_of(&frame).contains("1.16.5"));
}

#[test]
fn encryption_rejection() {
    let request = encode_frame(s2c::ENCRYPTION_REQUEST_ID, &[0, 1, 2, 3], None);
    match login_step(&request, None) {
        LoginStep::OnlineMode(f) => {
            assert_eq!(f, refusal_frame(Refusal::OnlineMode, None));
            assert_eq!(
                reason_of(&f),
                "{\"text\":\"Лицензионный сервер пока не поддерживается\"}"
            );
        }
        _ => panic!("expected an online-mode refusal"),
    }
}

#[test]
fn upstream_disconnect_reason_is_forwarded() {
    let d = LoginDisconnect { reason: "{\"text\":\"banned\"}".to_string() };
    let frame = encode_frame(s2c::LOGIN_DISCONNECT_ID, &d.serialize(), None);
    match login_step(&frame, None) {
        LoginStep::Disconnected(f) => {
            assert_eq!(f, frame);
            assert_eq!(reason_of(&f), "{\"text\":\"banned\"}");
        }
        _ => panic!("expected a disconnect"),
    }
}

#[test]
fn set_compression_records_threshold_and_relays() {
    let mut data = Vec::new();
    write_varint(&mut data, 256);
    let frame = encode_frame(s2c::SET_COMPRESSION_ID, &data, None);
    match login_step(&frame, None) {
        LoginStep::Compression(t, f) => {
            assert_eq!(t, 256);
            assert_eq!(f, frame);
        }
        _ => panic!("expected a threshold"),
    }
}

#[test]
fn login_success_is_reframed_for_threshold() {
    let success = encode_frame(s2c::LOGIN_SUCCESS_ID, &[7; 20], Some(256));
    match login_step(&success, Some(256)) {
        LoginStep::Success(f) => assert_eq!(f, success),
        _ => panic!("expected a login success"),
    }
}

#[test]
fn unexpected_and_malformed_login_frames() {
    let plugin = encode_frame(0x04, &[1], None);
    assert!(matches!(login_step(&plugin, None), LoginStep::Unexpected(4)));
    assert!(matches!(login_step(&[], None), LoginStep::Malformed));
}

#[test]
fn status_request_gets_the_status() {
    let request = encode_frame(c2s::STATUS_REQUEST_ID, &[], None);
    let reply = status_reply(&request).unwrap();
    let p = decode_frame(&reply, None).unwrap();
    assert_eq!(p.id, s2c::STATUS_RESPONSE_ID);
    let text = read_string(&p.data, 0).unwrap().0;
    assert_eq!(text, STATUS_JSON);
    assert!(text.contains("\"protocol\":754"));
    assert!(text.contains("\"max\":20"));
}

#[test]
fn ping_is_echoed() {
    let ping = encode_frame(c2s::PING_REQUEST_ID, &[0, 0, 0, 0, 0, 0, 1, 2], None);
    assert_eq!(status_reply(&ping), Some(ping.clone()));
    assert_eq!(status_reply(&encode_frame(0x05, &[], None)), None);
}

#[test]
fn handshake_with_status_intent() {
    let h = read_handshake(&handshake(754, 1)).unwrap();
    assert_eq!(h.intent, 1);
    assert!(read_handshake(&encode_frame(0x01, &[1], None)).is_none());
    assert!(read_handshake(&[0x00, 0xf2]).is_none());
}
