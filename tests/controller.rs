use voxelproxy::codec::{decode_frame, encode_frame};
use voxelproxy::controller::{ClientId, Controller, Event, Outgoing, PendingTransaction, Peer, Pose};
use voxelproxy::packets::c2s::{self, Look, PositionLook, Transaction};
use voxelproxy::packets::s2c;

fn server_transaction(action: i16, threshold: Option<i32>) -> Vec<u8> {
    let t = Transaction { window_id: 0, action, accepted: false };
    encode_frame(s2c::TRANSACTION_ID, &t.serialize(), threshold)
}

fn client_reply(action: i16, threshold: Option<i32>) -> Vec<u8> {
    let t = Transaction { window_id: 0, action, accepted: true };
    encode_frame(c2s::TRANSACTION_ID, &t.serialize(), threshold)
}

fn position(x: f64, y: f64, z: f64) -> Vec<u8> {
    let p = c2s::Position { x: x.to_bits(), y: y.to_bits(), z: z.to_bits(), on_ground: true };
    encode_frame(c2s::POSITION_ID, &p.serialize(), None)
}

fn to(sends: &[Outgoing], peer: Peer) -> Vec<Vec<u8>> {
    sends.iter().filter(|o| o.to == peer).map(|o| o.frame.clone()).collect()
}

fn upstream_actions(sends: &[Outgoing], threshold: Option<i32>) -> Vec<i16> {
    to(sends, Peer::Upstream)
        .iter()
        .filter_map(|f| decode_frame(f, threshold))
        .filter(|p| p.id == c2s::TRANSACTION_ID)
        .filter_map(|p| Transaction::deserialize(&p.data))
        .map(|t| t.action)
        .collect()
}

fn pose_frame(x: f64, y: f64, z: f64, yaw: f32, pitch: f32) -> Vec<u8> {
    let p = s2c::Position {
        x: x.to_bits(),
        y: y.to_bits(),
        z: z.to_bits(),
        yaw: yaw.to_bits(),
        pitch: pitch.to_bits(),
        flags: 0,
        teleport_id: 0,
    };
    encode_frame(s2c::POSITION_ID, &p.serialize(), None)
}

#[test]
fn new_session_starts_with_both_clients() {
    let c = Controller::new(ClientId::Cheat, Some(256));
    assert_eq!(c.active(), ClientId::Cheat);
    assert!(c.is_alive(ClientId::Cheat));
    assert!(c.is_alive(ClientId::Legit));
    assert_eq!(c.threshold(), Some(256));
    assert_eq!(c.position(), Pose { x: 0, y: 0, z: 0, yaw: 0, pitch: 0 });
    assert!(c.pending().is_empty());
}

#[test]
fn pose_sync_sends_passive_a_teleport() {
    let mut c = Controller::new(ClientId::Cheat, None);
    let frame = position(10.0, 64.0, 10.0);
    let r = c.handle(Event::ClientData(ClientId::Cheat, frame.clone()));
    assert!(!r.closed);
    assert_eq!(r.sends.len(), 2);
    assert_eq!(r.sends[0].to, Peer::Legit);
    assert_eq!(r.sends[0].frame, pose_frame(10.0, 64.0, 10.0, 0.0, 0.0));
    assert_eq!(r.sends[1].to, Peer::Upstream);
    assert_eq!(r.sends[1].frame, frame);
    let p = decode_frame(&r.sends[0].frame, None).unwrap();
    assert_eq!(p.id, 0x34);
    assert_eq!(p.data.len(), 34);
    assert_eq!(&p.data[0..8], &10f64.to_be_bytes());
    assert_eq!(&p.data[8..16], &64f64.to_be_bytes());
    assert_eq!(p.data[32], 0);
    assert_eq!(p.data[33], 0);
}

#[test]
fn pose_updates_accumulate() {
    let mut c = Controller::new(ClientId::Legit, None);
    c.handle(Event::ClientData(ClientId::Legit, position(1.0, 2.0, 3.0)));
    let look = Look { yaw: 90f32.to_bits(), pitch: 45f32.to_bits(), on_ground: false };
    let r = c.handle(Event::ClientData(
        ClientId::Legit,
        encode_frame(c2s::LOOK_ID, &look.serialize(), None),
    ));
    assert_eq!(r.sends[0].to, Peer::Cheat);
    assert_eq!(r.sends[0].frame, pose_frame(1.0, 2.0, 3.0, 90.0, 45.0));
    let pl = PositionLook {
        x: 5f64.to_bits(),
        y: 6f64.to_bits(),
        z: 7f64.to_bits(),
        yaw: 1f32.to_bits(),
        pitch: 2f32.to_bits(),
        on_ground: true,
    };
    let r = c.handle(Event::ClientData(
        ClientId::Legit,
        encode_frame(c2s::POSITION_LOOK_ID, &pl.serialize(), None),
    ));
    assert_eq!(r.sends[0].frame, pose_frame(5.0, 6.0, 7.0, 1.0, 2.0));
    let r = c.handle(Event::ClientData(ClientId::Legit, position(8.0, 9.0, 10.0)));
    assert_eq!(r.sends[0].frame, pose_frame(8.0, 9.0, 10.0, 1.0, 2.0));
    assert_eq!(c.position().yaw, 1f32.to_bits());
}

#[test]
fn pose_sync_stops_with_one_client() {
    let mut c = Controller::new(ClientId::Cheat, None);
    c.handle(Event::ClientDisconnected(ClientId::Legit));
    let frame = position(1.0, 1.0, 1.0);
    let r = c.handle(Event::ClientData(ClientId::Cheat, frame.clone()));
    assert_eq!(r.sends.len(), 1);
    assert_eq!(r.sends[0].to, Peer::Upstream);
    assert_eq!(r.sends[0].frame, frame);
}

#[test]
fn opaque_frames_of_active_go_upstream_in_order() {
    let mut c = Controller::new(ClientId::Cheat, None);
    let frames = vec![vec![0x03, b'h', b'i'], vec![0x10, 1, 2, 3], vec![0xff, 0xff]];
    let mut upstream = Vec::new();
    for f in &frames {
        let r = c.handle(Event::ClientData(ClientId::Cheat, f.clone()));
        assert_eq!(r.sends.len(), 1);
        upstream.extend(to(&r.sends, Peer::Upstream));
    }
    assert_eq!(upstream, frames);
}

#[test]
fn passive_frames_are_dropped() {
    let mut c = Controller::new(ClientId::Cheat, None);
    for f in [vec![0x03, b'h', b'i'], position(1.0, 2.0, 3.0), client_reply(5, None)] {
        let r = c.handle(Event::ClientData(ClientId::Legit, f));
        assert!(r.sends.is_empty());
    }
    assert_eq!(c.position(), Pose { x: 0, y: 0, z: 0, yaw: 0, pitch: 0 });
}

#[test]
fn server_frames_reach_every_live_client() {
    let mut c = Controller::new(ClientId::Cheat, None);
    let frame = vec![0x20, 9, 9, 9];
    let r = c.handle(Event::ServerData(frame.clone()));
    assert_eq!(r.sends.len(), 2);
    assert_eq!(to(&r.sends, Peer::Cheat), vec![frame.clone()]);
    assert_eq!(to(&r.sends, Peer::Legit), vec![frame.clone()]);
    c.handle(Event::ClientDisconnected(ClientId::Cheat));
    let r = c.handle(Event::ServerData(frame.clone()));
    assert_eq!(r.sends.len(), 1);
    assert_eq!(to(&r.sends, Peer::Legit), vec![frame]);
}

#[test]
fn transaction_completion_both_alive() {
    let mut c = Controller::new(ClientId::Cheat, None);
    let r = c.handle(Event::ServerData(server_transaction(-123, None)));
    assert_eq!(r.sends.len(), 2);
    assert_eq!(
        c.pending().clone(),
        vec![PendingTransaction { action: -123, cheat_confirmed: false, legit_confirmed: false }]
    );
    let r1 = c.handle(Event::ClientData(ClientId::Cheat, client_reply(-123, None)));
    let r2 = c.handle(Event::ClientData(ClientId::Legit, client_reply(-123, None)));
    let mut up = upstream_actions(&r1.sends, None);
    up.extend(upstream_actions(&r2.sends, None));
    assert_eq!(up, vec![-123]);
    assert_eq!(to(&r1.sends, Peer::Upstream), vec![client_reply(-123, None)]);
    assert!(c.pending().is_empty());
}

#[test]
fn passive_confirmation_first_keeps_entry_until_active_replies() {
    let mut c = Controller::new(ClientId::Cheat, None);
    c.handle(Event::ServerData(server_transaction(7, None)));
    c.handle(Event::ClientData(ClientId::Legit, client_reply(7, None)));
    assert_eq!(
        c.pending().clone(),
        vec![PendingTransaction { action: 7, cheat_confirmed: false, legit_confirmed: true }]
    );
    let r = c.handle(Event::ClientData(ClientId::Cheat, client_reply(7, None)));
    assert_eq!(upstream_actions(&r.sends, None), vec![7]);
    assert!(c.pending().is_empty());
}

#[test]
fn failover_replay() {
    let mut c = Controller::new(ClientId::Cheat, None);
    for a in [-10i16, -11, -12] {
        c.handle(Event::ServerData(server_transaction(a, None)));
    }
    c.handle(Event::ClientData(ClientId::Legit, client_reply(-10, None)));
    c.handle(Event::ClientData(ClientId::Legit, client_reply(-12, None)));
    let r = c.handle(Event::ClientDisconnected(ClientId::Cheat));
    assert!(!r.closed);
    assert_eq!(c.active(), ClientId::Legit);
    assert_eq!(r.sends.len(), 2);
    assert_eq!(to(&r.sends, Peer::Upstream), vec![client_reply(-10, None), client_reply(-12, None)]);
    let p = decode_frame(&r.sends[0].frame, None).unwrap();
    assert_eq!(
        Transaction::deserialize(&p.data),
        Some(Transaction { window_id: 0, action: -10, accepted: true })
    );
    let actions: Vec<i16> = c.pending().iter().map(|e| e.action).collect();
    assert_eq!(actions, vec![-10, -12]);
}

#[test]
fn role_swap_keeps_only_survivor_confirmations() {
    let mut c = Controller::new(ClientId::Legit, Some(64));
    for a in [1i16, 2, 3, 4] {
        c.handle(Event::ServerData(server_transaction(a, Some(64))));
    }
    c.handle(Event::ClientData(ClientId::Cheat, client_reply(2, Some(64))));
    c.handle(Event::ClientData(ClientId::Cheat, client_reply(4, Some(64))));
    c.handle(Event::ClientData(ClientId::Legit, client_reply(1, Some(64))));
    let r = c.handle(Event::ClientDisconnected(ClientId::Legit));
    assert_eq!(c.active(), ClientId::Cheat);
    assert!(!c.is_alive(ClientId::Legit));
    assert_eq!(upstream_actions(&r.sends, Some(64)), vec![2, 4]);
    assert_eq!(r.sends[0].frame, client_reply(2, Some(64)));
    assert_eq!(
        c.pending().clone(),
        vec![
            PendingTransaction { action: 2, cheat_confirmed: true, legit_confirmed: false },
            PendingTransaction { action: 4, cheat_confirmed: true, legit_confirmed: false },
        ]
    );
}

#[test]
fn one_reply_per_transaction_across_a_role_change() {
    let mut c = Controller::new(ClientId::Cheat, None);
    let mut up: Vec<i16> = Vec::new();
    let mut run = |c: &mut Controller, e: Event, up: &mut Vec<i16>| {
        let r = c.handle(e);
        up.extend(upstream_actions(&r.sends, None));
    };
    run(&mut c, Event::ServerData(server_transaction(-1, None)), &mut up);
    run(&mut c, Event::ClientData(ClientId::Cheat, client_reply(-1, None)), &mut up);
    run(&mut c, Event::ClientData(ClientId::Legit, client_reply(-1, None)), &mut up);
    run(&mut c, Event::ServerData(server_transaction(-2, None)), &mut up);
    run(&mut c, Event::ClientData(ClientId::Legit, client_reply(-2, None)), &mut up);
    run(&mut c, Event::ClientDisconnected(ClientId::Cheat), &mut up);
    run(&mut c, Event::ServerData(server_transaction(-3, None)), &mut up);
    run(&mut c, Event::ClientData(ClientId::Legit, client_reply(-3, None)), &mut up);
    assert_eq!(up, vec![-1, -2, -3]);
}

#[test]
fn sole_client_reply_skips_head_confirmed_by_departed() {
    let mut c = Controller::new(ClientId::Cheat, None);
    c.handle(Event::ServerData(server_transaction(-5, None)));
    c.handle(Event::ClientData(ClientId::Legit, client_reply(-5, None)));
    c.handle(Event::ClientDisconnected(ClientId::Legit));
    let r = c.handle(Event::ClientData(ClientId::Cheat, client_reply(-5, None)));
    assert!(r.sends.is_empty());
    assert!(c.pending().is_empty());
}

#[test]
fn second_disconnect_closes_the_session() {
    let mut c = Controller::new(ClientId::Cheat, None);
    let r = c.handle(Event::ClientDisconnected(ClientId::Legit));
    assert!(!r.closed);
    assert_eq!(c.active(), ClientId::Cheat);
    let r = c.handle(Event::ClientDisconnected(ClientId::Cheat));
    assert!(r.closed);
    assert!(r.sends.is_empty());
}

#[test]
fn client_id_other() {
    assert_eq!(ClientId::Cheat.other(), ClientId::Legit);
    assert_eq!(ClientId::Legit.other(), ClientId::Cheat);
}
