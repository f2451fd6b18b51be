//! The session controller: the single owner of the session's state. It takes
//! one event at a time from the three peers and says which frames go to which
//! peer.

use vstd::prelude::*;
use crate::codec::{decode_frame, encode_frame, frame_of, frame_packet, lemma_be_bytes_len, Packet};
use crate::packets::c2s::{
    self, look_of, position_look_of, position_of, transaction_of, Look, PositionLook, Transaction,
};
use crate::packets::s2c;

verus! {

/// One of the two game clients.
#[derive(Clone, Copy, PartialEq, Eq, Structural, Debug)]
pub enum ClientId {
    Cheat,
    Legit,
}

/// The other client.
pub open spec fn other(c: ClientId) -> ClientId {
    match c {
        ClientId::Cheat => ClientId::Legit,
        ClientId::Legit => ClientId::Cheat,
    }
}

impl ClientId {
    /// The other client.
    pub fn other(self) -> (r: ClientId)
        ensures
            r == other(self),
    {
        match self {
            ClientId::Cheat => ClientId::Legit,
            ClientId::Legit => ClientId::Cheat,
        }
    }
}

/// A peer that a frame goes to.
#[derive(Clone, Copy, PartialEq, Eq, Structural, Debug)]
pub enum Peer {
    Cheat,
    Legit,
    Upstream,
}

/// The peer of a client.
pub open spec fn peer_of(c: ClientId) -> Peer {
    match c {
        ClientId::Cheat => Peer::Cheat,
        ClientId::Legit => Peer::Legit,
    }
}

fn peer(c: ClientId) -> (r: Peer)
    ensures
        r == peer_of(c),
{
    match c {
        ClientId::Cheat => Peer::Cheat,
        ClientId::Legit => Peer::Legit,
    }
}

/// What the controller hears from the peers. A frame is the body of one frame
/// as it came off the wire, without its length prefix.
pub enum Event {
    ClientData(ClientId, Vec<u8>),
    ClientDisconnected(ClientId),
    ServerData(Vec<u8>),
}

/// An event, with its frame as a sequence of bytes.
pub enum EventView {
    ClientData(ClientId, Seq<u8>),
    ClientDisconnected(ClientId),
    ServerData(Seq<u8>),
}

impl View for Event {
    type V = EventView;

    open spec fn view(&self) -> EventView {
        match self {
            Event::ClientData(c, f) => EventView::ClientData(*c, f@),
            Event::ClientDisconnected(c) => EventView::ClientDisconnected(*c),
            Event::ServerData(f) => EventView::ServerData(f@),
        }
    }
}

/// A frame for one peer.
pub struct Outgoing {
    pub to: Peer,
    pub frame: Vec<u8>,
}

/// The frames of a list of outgoing frames, with their peers.
pub open spec fn sends_view(v: Seq<Outgoing>) -> Seq<(Peer, Seq<u8>)> {
    v.map_values(|o: Outgoing| (o.to, o.frame@))
}

/// What the controller does with one event: the frames to send, in order, and
/// whether the session is over.
pub struct Reaction {
    pub sends: Vec<Outgoing>,
    pub closed: bool,
}

/// A transaction of the server that the controller expects both clients to
/// confirm.
#[derive(Clone, Copy, PartialEq, Eq, Structural, Debug)]
pub struct PendingTransaction {
    pub action: i16,
    pub cheat_confirmed: bool,
    pub legit_confirmed: bool,
}

/// Whether client `c` confirmed `e`.
pub open spec fn confirmed_by(e: PendingTransaction, c: ClientId) -> bool {
    match c {
        ClientId::Cheat => e.cheat_confirmed,
        ClientId::Legit => e.legit_confirmed,
    }
}

/// `e`, confirmed by `c` too.
pub open spec fn confirm(e: PendingTransaction, c: ClientId) -> PendingTransaction {
    match c {
        ClientId::Cheat => PendingTransaction { cheat_confirmed: true, ..e },
        ClientId::Legit => PendingTransaction { legit_confirmed: true, ..e },
    }
}

/// The pose of the player that the two clients share: coordinates as the bits
/// of 64-bit floats, angles as the bits of 32-bit floats.
#[derive(Clone, Copy, PartialEq, Eq, Structural, Debug)]
pub struct Pose {
    pub x: u64,
    pub y: u64,
    pub z: u64,
    pub yaw: u32,
    pub pitch: u32,
}

/// The state of a session.
pub struct ControllerView {
    pub active: ClientId,
    pub cheat_alive: bool,
    pub legit_alive: bool,
    pub threshold: Option<i32>,
    pub position: Pose,
    pub pending: Seq<PendingTransaction>,
}

/// Whether client `c` is connected.
pub open spec fn alive(s: ControllerView, c: ClientId) -> bool {
    match c {
        ClientId::Cheat => s.cheat_alive,
        ClientId::Legit => s.legit_alive,
    }
}

/// `s` with client `c` gone.
pub open spec fn mark_dead(s: ControllerView, c: ClientId) -> ControllerView {
    match c {
        ClientId::Cheat => ControllerView { cheat_alive: false, ..s },
        ClientId::Legit => ControllerView { legit_alive: false, ..s },
    }
}

/// Whether both clients are connected.
pub open spec fn both_alive(s: ControllerView) -> bool {
    s.cheat_alive && s.legit_alive
}

/// The invariant of a session: while any client is connected the active one
/// is, and no pending transaction has been confirmed by both clients.
pub open spec fn well_formed(s: ControllerView) -> bool {
    &&& (s.cheat_alive || s.legit_alive) ==> alive(s, s.active)
    &&& forall|i: int|
        0 <= i < s.pending.len() ==> !(#[trigger] s.pending[i].cheat_confirmed
            && s.pending[i].legit_confirmed)
}

/// Whether `i` is the first entry of `p` for `action`.
pub open spec fn is_first_match(p: Seq<PendingTransaction>, action: i16, i: int) -> bool {
    &&& 0 <= i < p.len()
    &&& p[i].action == action
    &&& forall|j: int| 0 <= j < i ==> (#[trigger] p[j]).action != action
}

/// `p` after client `c` confirmed `action`: the first entry for the action gets
/// `c`'s mark and leaves once both clients have confirmed it.
pub open spec fn record_confirmation(
    p: Seq<PendingTransaction>,
    action: i16,
    c: ClientId,
) -> Seq<PendingTransaction> {
    if exists|i: int| is_first_match(p, action, i) {
        let i = choose|i: int| is_first_match(p, action, i);
        let e = confirm(p[i], c);
        if e.cheat_confirmed && e.legit_confirmed {
            p.remove(i)
        } else {
            p.update(i, e)
        }
    } else {
        p
    }
}

/// The pose after the move or turn of packet `id` with `data`, or `None` where
/// the packet is neither or does not parse.
pub open spec fn moved(pose: Pose, id: u32, data: Seq<u8>) -> Option<Pose> {
    if id == c2s::POSITION_ID {
        match position_of(data) {
            Some((x, y, z)) => Some(Pose { x, y, z, ..pose }),
            None => None,
        }
    } else if id == c2s::POSITION_LOOK_ID {
        match position_look_of(data) {
            Some((x, y, z, yaw, pitch)) => Some(Pose { x, y, z, yaw, pitch }),
            None => None,
        }
    } else if id == c2s::LOOK_ID {
        match look_of(data) {
            Some((yaw, pitch)) => Some(Pose { yaw, pitch, ..pose }),
            None => None,
        }
    } else {
        None
    }
}

/// The server's pose packet that puts a client at `pose`.
pub open spec fn pose_packet(pose: Pose) -> s2c::Position {
    s2c::Position {
        x: pose.x,
        y: pose.y,
        z: pose.z,
        yaw: pose.yaw,
        pitch: pose.pitch,
        flags: 0,
        teleport_id: 0,
    }
}

/// The frame that puts a client at `pose`.
pub open spec fn pose_frame(pose: Pose, threshold: Option<i32>) -> Seq<u8> {
    frame_of(s2c::POSITION_ID, pose_packet(pose).data(), threshold)
}

/// The frame of a client's accepted reply to transaction `action`.
pub open spec fn reply_frame(action: i16, threshold: Option<i32>) -> Seq<u8> {
    frame_of(
        c2s::TRANSACTION_ID,
        Transaction { window_id: 0, action, accepted: true }.data(),
        threshold,
    )
}

/// The action of a client's transaction reply that a frame holds.
pub open spec fn client_reply(frame: Seq<u8>, threshold: Option<i32>) -> Option<i16> {
    match frame_packet(frame, threshold) {
        Some((id, data)) => if id == c2s::TRANSACTION_ID && transaction_of(data) is Some {
            Some(transaction_of(data)->0.action)
        } else {
            None
        },
        None => None,
    }
}

/// The action of a server's transaction that a frame holds.
pub open spec fn server_request(frame: Seq<u8>, threshold: Option<i32>) -> Option<i16> {
    match frame_packet(frame, threshold) {
        Some((id, data)) => if id == s2c::TRANSACTION_ID && transaction_of(data) is Some {
            Some(transaction_of(data)->0.action)
        } else {
            None
        },
        None => None,
    }
}

/// The pose after a frame of the active client, where it is a move or a turn.
pub open spec fn frame_move(pose: Pose, frame: Seq<u8>, threshold: Option<i32>) -> Option<Pose> {
    match frame_packet(frame, threshold) {
        Some((id, data)) => moved(pose, id, data),
        None => None,
    }
}

/// A frame from client `who`. The active client's frames go upstream; while
/// both clients are connected its moves are also sent to the passive one as a
/// pose. Transaction replies of either client are recorded while both are
/// connected. With one client left, its reply is dropped where the head of the
/// pending list was confirmed by the client that left, and that entry leaves.
/// The passive client's frames go nowhere.
pub open spec fn on_client_data(s: ControllerView, who: ClientId, frame: Seq<u8>) -> (
    ControllerView,
    Seq<(Peer, Seq<u8>)>,
) {
    let reply = client_reply(frame, s.threshold);
    let s1 = if both_alive(s) && reply is Some {
        ControllerView { pending: record_confirmation(s.pending, reply->0, who), ..s }
    } else {
        s
    };
    if who == s.active {
        if !both_alive(s) && reply is Some && s.pending.len() > 0 && confirmed_by(
            s.pending[0],
            other(who),
        ) {
            (ControllerView { pending: s.pending.drop_first(), ..s }, seq![])
        } else {
            let sync = if both_alive(s) {
                frame_move(s.position, frame, s.threshold)
            } else {
                None
            };
            match sync {
                Some(p) => (
                    ControllerView { position: p, ..s1 },
                    seq![(peer_of(other(who)), pose_frame(p, s.threshold)), (Peer::Upstream, frame)],
                ),
                None => (s1, seq![(Peer::Upstream, frame)]),
            }
        }
    } else {
        (s1, seq![])
    }
}

/// A frame from the server: a transaction request joins the pending list, and
/// the frame goes to every connected client.
pub open spec fn on_server_data(s: ControllerView, frame: Seq<u8>) -> (
    ControllerView,
    Seq<(Peer, Seq<u8>)>,
) {
    let s1 = match server_request(frame, s.threshold) {
        Some(action) => ControllerView {
            pending: s.pending.push(
                PendingTransaction { action, cheat_confirmed: false, legit_confirmed: false },
            ),
            ..s
        },
        None => s,
    };
    let to_cheat = if s.cheat_alive {
        seq![(Peer::Cheat, frame)]
    } else {
        seq![]
    };
    let to_legit = if s.legit_alive {
        seq![(Peer::Legit, frame)]
    } else {
        seq![]
    };
    (s1, to_cheat + to_legit)
}

/// The entries of `p` that client `c` confirmed, in order.
pub open spec fn confirmed_entries(p: Seq<PendingTransaction>, c: ClientId) -> Seq<
    PendingTransaction,
> {
    p.filter(|e: PendingTransaction| confirmed_by(e, c))
}

/// The upstream replies to the entries of `p`, in order.
pub open spec fn replays(p: Seq<PendingTransaction>, threshold: Option<i32>) -> Seq<
    (Peer, Seq<u8>),
> {
    p.map_values(|e: PendingTransaction| (Peer::Upstream, reply_frame(e.action, threshold)))
}

/// Client `who` is gone. Where the other one was gone already the session
/// ends. Where `who` was active, the other client becomes active and the replies
/// that it gave while passive go upstream, in the order of the server's
/// requests; only those entries stay pending.
pub open spec fn on_disconnect(s: ControllerView, who: ClientId) -> (
    ControllerView,
    Seq<(Peer, Seq<u8>)>,
    bool,
) {
    if !both_alive(s) {
        (mark_dead(s, who), seq![], true)
    } else if who == s.active {
        let kept = confirmed_entries(s.pending, other(who));
        (
            ControllerView { active: other(who), pending: kept, ..mark_dead(s, who) },
            replays(kept, s.threshold),
            false,
        )
    } else {
        (mark_dead(s, who), seq![], false)
    }
}

/// One step of the session: the next state, the frames sent, and whether the
/// session is over.
pub open spec fn step(s: ControllerView, e: EventView) -> (
    ControllerView,
    Seq<(Peer, Seq<u8>)>,
    bool,
) {
    match e {
        EventView::ClientData(who, frame) => {
            let (s1, out) = on_client_data(s, who, frame);
            (s1, out, false)
        },
        EventView::ClientDisconnected(who) => on_disconnect(s, who),
        EventView::ServerData(frame) => {
            let (s1, out) = on_server_data(s, frame);
            (s1, out, false)
        },
    }
}

/// The controller of one session.
pub struct Controller {
    active: ClientId,
    cheat_alive: bool,
    legit_alive: bool,
    threshold: Option<i32>,
    position: Pose,
    pending: Vec<PendingTransaction>,
}

impl View for Controller {
    type V = ControllerView;

    closed spec fn view(&self) -> ControllerView {
        ControllerView {
            active: self.active,
            cheat_alive: self.cheat_alive,
            legit_alive: self.legit_alive,
            threshold: self.threshold,
            position: self.position,
            pending: self.pending@,
        }
    }
}

/// The pose at the start of a session.
pub open spec fn origin() -> Pose {
    Pose { x: 0, y: 0, z: 0, yaw: 0, pitch: 0 }
}

/// The action of the transaction that a client's packet holds.
fn reply_of(packet: &Option<Packet>, id: u32) -> (r: Option<i16>)
    ensures
        r == (match *packet {
            Some(p) => if p.id == id && transaction_of(p.data@) is Some {
                Some(transaction_of(p.data@)->0.action)
            } else {
                None
            },
            None => None,
        }),
{
    match packet {
        Some(p) => if p.id == id {
            match Transaction::deserialize(p.data.as_slice()) {
                Some(t) => Some(t.action),
                None => None,
            }
        } else {
            None
        },
        None => None,
    }
}

/// The pose after a packet of the active client.
fn apply_move(pose: Pose, p: &Packet) -> (r: Option<Pose>)
    ensures
        r == moved(pose, p.id, p.data@),
{
    if p.id == c2s::POSITION_ID {
        match c2s::Position::deserialize(p.data.as_slice()) {
            Some(m) => Some(Pose { x: m.x, y: m.y, z: m.z, yaw: pose.yaw, pitch: pose.pitch }),
            None => None,
        }
    } else if p.id == c2s::POSITION_LOOK_ID {
        match PositionLook::deserialize(p.data.as_slice()) {
            Some(m) => Some(Pose { x: m.x, y: m.y, z: m.z, yaw: m.yaw, pitch: m.pitch }),
            None => None,
        }
    } else if p.id == c2s::LOOK_ID {
        match Look::deserialize(p.data.as_slice()) {
            Some(m) => Some(Pose { x: pose.x, y: pose.y, z: pose.z, yaw: m.yaw, pitch: m.pitch }),
            None => None,
        }
    } else {
        None
    }
}

/// The frame that puts a client at `pose`.
fn make_pose_frame(pose: Pose, threshold: Option<i32>) -> (r: Vec<u8>)
    ensures
        r@ == pose_frame(pose, threshold),
{
    let packet = s2c::Position {
        x: pose.x,
        y: pose.y,
        z: pose.z,
        yaw: pose.yaw,
        pitch: pose.pitch,
        flags: 0,
        teleport_id: 0,
    };
    let data = packet.serialize();
    proof {
        lemma_be_bytes_len(pose.x as nat, 8);
        lemma_be_bytes_len(pose.y as nat, 8);
        lemma_be_bytes_len(pose.z as nat, 8);
        lemma_be_bytes_len(pose.yaw as nat, 4);
        lemma_be_bytes_len(pose.pitch as nat, 4);
        assert(packet == pose_packet(pose));
    }
    encode_frame(s2c::POSITION_ID, data.as_slice(), threshold)
}

/// The frame of an accepted reply to transaction `action`.
fn make_reply_frame(action: i16, threshold: Option<i32>) -> (r: Vec<u8>)
    ensures
        r@ == reply_frame(action, threshold),
{
    let t = Transaction { window_id: 0, action, accepted: true };
    let data = t.serialize();
    proof {
        lemma_be_bytes_len(crate::codec::i16_bits(action), 2);
    }
    encode_frame(c2s::TRANSACTION_ID, data.as_slice(), threshold)
}

impl Controller {
    /// A session that starts after the login: both clients connected, `active`
    /// sending, the compression threshold fixed for the session.
    pub fn new(active: ClientId, threshold: Option<i32>) -> (r: Controller)
        ensures
            r@ == (ControllerView {
                active,
                cheat_alive: true,
                legit_alive: true,
                threshold,
                position: origin(),
                pending: seq![],
            }),
            well_formed(r@),
    {
        Controller {
            active,
            cheat_alive: true,
            legit_alive: true,
            threshold,
            position: Pose { x: 0, y: 0, z: 0, yaw: 0, pitch: 0 },
            pending: Vec::new(),
        }
    }

    /// Records that client `c` confirmed `action`.
    fn record(&mut self, action: i16, c: ClientId)
        requires
            well_formed(old(self)@),
        ensures
            final(self)@ == (ControllerView {
                pending: record_confirmation(old(self)@.pending, action, c),
                ..old(self)@
            }),
            well_formed(final(self)@),
    {
        let ghost p = self.pending@;
        let mut i: usize = 0;
        while i < self.pending.len() && self.pending[i].action != action
            invariant
                self.pending@ == p,
                i <= p.len(),
                forall|j: int| 0 <= j < i ==> (#[trigger] p[j]).action != action,
            decreases p.len() - i,
        {
            i = i + 1;
        }
        if i == self.pending.len() {
            assert(!exists|k: int| is_first_match(p, action, k));
            return;
        }
        assert(is_first_match(p, action, i as int));
        proof {
            let k = choose|k: int| is_first_match(p, action, k);
            assert(k == i) by {
                if k < i {
                    assert(p[k].action != action);
                } else if k > i {
                    assert(p[i as int].action != action);
                }
            }
        }
        let e = self.pending[i];
        let e2 = match c {
            ClientId::Cheat => PendingTransaction { cheat_confirmed: true, ..e },
            ClientId::Legit => PendingTransaction { legit_confirmed: true, ..e },
        };
        assert(e2 == confirm(p[i as int], c));
        if e2.cheat_confirmed && e2.legit_confirmed {
            self.pending.remove(i);
        } else {
            self.pending.set(i, e2);
        }
        proof {
            let q = self.pending@;
            assert forall|j: int| 0 <= j < q.len() implies !(#[trigger] q[j].cheat_confirmed
                && q[j].legit_confirmed) by {
                if e2.cheat_confirmed && e2.legit_confirmed {
                    if j < i {
                        assert(q[j] == p[j]);
                    } else {
                        assert(q[j] == p[j + 1]);
                    }
                } else if j != i {
                    assert(q[j] == p[j]);
                }
            }
        }
    }

    /// A frame from client `who`.
    fn on_client_data(&mut self, who: ClientId, frame: Vec<u8>) -> (r: Vec<Outgoing>)
        requires
            well_formed(old(self)@),
        ensures
            final(self)@ == on_client_data(old(self)@, who, frame@).0,
            sends_view(r@) == on_client_data(old(self)@, who, frame@).1,
            well_formed(final(self)@),
    {
        let packet = decode_frame(frame.as_slice(), self.threshold);
        let reply = reply_of(&packet, c2s::TRANSACTION_ID);
        let both = self.cheat_alive && self.legit_alive;
        if who == self.active {
            if !both && reply.is_some() && self.pending.len() > 0 {
                let head = self.pending[0];
                let confirmed_by_other = match who {
                    ClientId::Cheat => head.legit_confirmed,
                    ClientId::Legit => head.cheat_confirmed,
                };
                if confirmed_by_other {
                    let ghost p = self.pending@;
                    assert(p == old(self)@.pending);
                    self.pending.remove(0);
                    proof {
                        assert(self.pending@ =~= p.drop_first());
                        assert forall|j: int| 0 <= j < self.pending@.len() implies !(
                        #[trigger] self.pending@[j].cheat_confirmed
                            && self.pending@[j].legit_confirmed) by {
                            assert(self.pending@[j] == p[j + 1]);
                            assert(!(p[j + 1].cheat_confirmed && p[j + 1].legit_confirmed));
                        }
                    }
                    let r: Vec<Outgoing> = Vec::new();
                    proof {
                        assert(sends_view(r@) =~= seq![]);
                    }
                    return r;
                }
            }
            let mut sends: Vec<Outgoing> = Vec::new();
            let mut sync: Option<Pose> = None;
            if both {
                match &packet {
                    Some(p) => {
                        sync = apply_move(self.position, p);
                    },
                    None => {},
                }
            }
            match reply {
                Some(a) => if both {
                    self.record(a, who);
                },
                None => {},
            }
            match sync {
                Some(pose) => {
                    self.position = pose;
                    let f = make_pose_frame(pose, self.threshold);
                    sends.push(Outgoing { to: peer(who.other()), frame: f });
                },
                None => {},
            }
            sends.push(Outgoing { to: Peer::Upstream, frame });
            proof {
                assert(sends_view(sends@) =~= on_client_data(old(self)@, who, frame@).1);
            }
            sends
        } else {
            match reply {
                Some(a) => if both {
                    self.record(a, who);
                },
                None => {},
            }
            let r: Vec<Outgoing> = Vec::new();
            proof {
                assert(sends_view(r@) =~= seq![]);
            }
            r
        }
    }

    /// A frame from the server.
    fn on_server_data(&mut self, frame: Vec<u8>) -> (r: Vec<Outgoing>)
        requires
            well_formed(old(self)@),
        ensures
            final(self)@ == on_server_data(old(self)@, frame@).0,
            sends_view(r@) == on_server_data(old(self)@, frame@).1,
            well_formed(final(self)@),
    {
        let packet = decode_frame(frame.as_slice(), self.threshold);
        match reply_of(&packet, s2c::TRANSACTION_ID) {
            Some(action) => {
                let ghost p = self.pending@;
                self.pending.push(
                    PendingTransaction { action, cheat_confirmed: false, legit_confirmed: false },
                );
                proof {
                    assert forall|j: int| 0 <= j < self.pending@.len() implies !(
                    #[trigger] self.pending@[j].cheat_confirmed
                        && self.pending@[j].legit_confirmed) by {
                        if j < p.len() {
                            assert(self.pending@[j] == p[j]);
                            assert(!(p[j].cheat_confirmed && p[j].legit_confirmed));
                        }
                    }
                }
            },
            None => {},
        }
        let mut sends: Vec<Outgoing> = Vec::new();
        if self.cheat_alive {
            let copy = frame.clone();
            assert(copy@ =~= frame@);
            sends.push(Outgoing { to: Peer::Cheat, frame: copy });
        }
        if self.legit_alive {
            sends.push(Outgoing { to: Peer::Legit, frame });
        }
        proof {
            assert(sends_view(sends@) =~= on_server_data(old(self)@, frame@).1);
        }
        sends
    }

    /// Client `who` is gone.
    fn on_disconnect(&mut self, who: ClientId) -> (r: Reaction)
        requires
            well_formed(old(self)@),
        ensures
            final(self)@ == on_disconnect(old(self)@, who).0,
            sends_view(r.sends@) == on_disconnect(old(self)@, who).1,
            r.closed == on_disconnect(old(self)@, who).2,
            well_formed(final(self)@),
    {
        let both = self.cheat_alive && self.legit_alive;
        match who {
            ClientId::Cheat => self.cheat_alive = false,
            ClientId::Legit => self.legit_alive = false,
        }
        let mut sends: Vec<Outgoing> = Vec::new();
        if !both {
            proof {
                assert(sends_view(sends@) =~= seq![]);
            }
            return Reaction { sends, closed: true };
        }
        if who != self.active {
            proof {
                assert(sends_view(sends@) =~= seq![]);
            }
            return Reaction { sends, closed: false };
        }
        let survivor = who.other();
        self.active = survivor;
        let ghost p = self.pending@;
        let ghost pred = |e: PendingTransaction| confirmed_by(e, survivor);
        let mut kept: Vec<PendingTransaction> = Vec::new();
        let mut i: usize = 0;
        while i < self.pending.len()
            invariant
                self.pending@ == p,
                i <= p.len(),
                kept@ == p.subrange(0, i as int).filter(pred),
                sends_view(sends@) == replays(kept@, self.threshold),
                forall|j: int|
                    0 <= j < kept@.len() ==> !(#[trigger] kept@[j].cheat_confirmed
                        && kept@[j].legit_confirmed),
                forall|j: int|
                    0 <= j < p.len() ==> !(#[trigger] p[j].cheat_confirmed && p[j].legit_confirmed),
                pred == (|e: PendingTransaction| confirmed_by(e, survivor)),
            decreases p.len() - i,
        {
            let e = self.pending[i];
            let ghost old_kept = kept@;
            proof {
                assert(!(p[i as int].cheat_confirmed && p[i as int].legit_confirmed));
            }
            let keep = match survivor {
                ClientId::Cheat => e.cheat_confirmed,
                ClientId::Legit => e.legit_confirmed,
            };
            if keep {
                let f = make_reply_frame(e.action, self.threshold);
                proof {
                    assert(replays(kept@.push(e), self.threshold) =~= replays(
                        kept@,
                        self.threshold,
                    ).push((Peer::Upstream, reply_frame(e.action, self.threshold))));
                }
                kept.push(e);
                sends.push(Outgoing { to: Peer::Upstream, frame: f });
            }
            i = i + 1;
            proof {
                reveal(Seq::filter);
                let q = p.subrange(0, i as int);
                assert(q.drop_last() =~= p.subrange(0, i - 1));
                assert(q.last() == e);
                assert(pred(e) == keep);
                if keep {
                    assert(kept@ == old_kept.push(e));
                } else {
                    assert(kept@ == old_kept);
                }
                assert(q.filter(pred) == kept@);
                assert(sends_view(sends@) =~= replays(kept@, self.threshold));
                assert forall|j: int| 0 <= j < kept@.len() implies !(
                #[trigger] kept@[j].cheat_confirmed && kept@[j].legit_confirmed) by {
                    if j < old_kept.len() {
                        assert(kept@[j] == old_kept[j]);
                    }
                }
            }
        }
        proof {
            assert(p.subrange(0, p.len() as int) =~= p);
            assert(kept@ == confirmed_entries(p, survivor));
        }
        self.pending = kept;
        Reaction { sends, closed: false }
    }

    /// The client whose frames go upstream.
    pub fn active(&self) -> (r: ClientId)
        ensures
            r == self@.active,
    {
        self.active
    }

    /// Whether client `c` is connected.
    pub fn is_alive(&self, c: ClientId) -> (r: bool)
        ensures
            r == alive(self@, c),
    {
        match c {
            ClientId::Cheat => self.cheat_alive,
            ClientId::Legit => self.legit_alive,
        }
    }

    /// The compression threshold of the session.
    pub fn threshold(&self) -> (r: Option<i32>)
        ensures
            r == self@.threshold,
    {
        self.threshold
    }

    /// The pose of the player, as the active client last sent it.
    pub fn position(&self) -> (r: Pose)
        ensures
            r == self@.position,
    {
        self.position
    }

    /// The transactions of the server that are still pending, in the order the
    /// server sent them.
    pub fn pending(&self) -> (r: &Vec<PendingTransaction>)
        ensures
            r@ == self@.pending,
    {
        &self.pending
    }

    /// Takes one event: updates the session and says which frames go to which
    /// peer, in order, and whether the session is over.
    pub fn handle(&mut self, event: Event) -> (r: Reaction)
        requires
            well_formed(old(self)@),
        ensures
            final(self)@ == step(old(self)@, event@).0,
            sends_view(r.sends@) == step(old(self)@, event@).1,
            r.closed == step(old(self)@, event@).2,
            well_formed(final(self)@),
    {
        match event {
            Event::ClientData(who, frame) => {
                let sends = self.on_client_data(who, frame);
                Reaction { sends, closed: false }
            },
            Event::ClientDisconnected(who) => self.on_disconnect(who),
            Event::ServerData(frame) => {
                let sends = self.on_server_data(frame);
                Reaction { sends, closed: false }
            },
        }
    }
}

/// A frame of the active client that is neither a transaction reply nor a move
/// or a turn goes upstream unchanged, to no other peer, and leaves the session
/// as it was.
pub proof fn lemma_opaque_forwarding(s: ControllerView, frame: Seq<u8>)
    requires
        well_formed(s),
        client_reply(frame, s.threshold) is None,
        frame_packet(frame, s.threshold) matches Some((id, _)) ==> id != c2s::POSITION_ID && id
            != c2s::POSITION_LOOK_ID && id != c2s::LOOK_ID,
    ensures
        step(s, EventView::ClientData(s.active, frame)) == (s, seq![(Peer::Upstream, frame)], false),
{
}

/// Nothing that the passive client sends goes to any peer; a frame of it that
/// is not a transaction reply leaves the session as it was.
pub proof fn lemma_passive_drop(s: ControllerView, who: ClientId, frame: Seq<u8>)
    requires
        well_formed(s),
        who != s.active,
    ensures
        step(s, EventView::ClientData(who, frame)).1 == Seq::<(Peer, Seq<u8>)>::empty(),
        client_reply(frame, s.threshold) is None ==> step(
            s,
            EventView::ClientData(who, frame),
        ).0 == s,
{
}

/// A frame of the server goes unchanged to each connected client, once, and to
/// no one else.
pub proof fn lemma_broadcast(s: ControllerView, frame: Seq<u8>)
    requires
        well_formed(s),
    ensures
        ({
            let out = step(s, EventView::ServerData(frame)).1;
            &&& forall|i: int| 0 <= i < out.len() ==> (#[trigger] out[i]).1 == frame
            &&& forall|i: int| 0 <= i < out.len() ==> (#[trigger] out[i]).0 != Peer::Upstream
            &&& forall|c: ClientId|
                #![trigger alive(s, c)]
                alive(s, c) <==> out.contains((peer_of(c), frame))
            &&& out.len() == (if s.cheat_alive {
                1int
            } else {
                0
            }) + (if s.legit_alive {
                1int
            } else {
                0
            })
        }),
        !step(s, EventView::ServerData(frame)).2,
{
    let out = step(s, EventView::ServerData(frame)).1;
    assert forall|c: ClientId| #![trigger alive(s, c)] alive(s, c) <==> out.contains(
        (peer_of(c), frame),
    ) by {
        if alive(s, c) {
            match c {
                ClientId::Cheat => assert(out[0] == (peer_of(c), frame)),
                ClientId::Legit => assert(out[out.len() - 1] == (peer_of(c), frame)),
            }
        }
    }
}

/// A move or a turn of the active client while both clients are connected
/// updates the pose with the fields it carries, keeps the others, and sends the
/// passive client exactly one pose frame, with no flags and teleport id zero,
/// before the packet itself goes upstream.
pub proof fn lemma_pose_sync(s: ControllerView, frame: Seq<u8>, id: u32, data: Seq<u8>)
    requires
        well_formed(s),
        both_alive(s),
        frame_packet(frame, s.threshold) == Some((id, data)),
        moved(s.position, id, data) is Some,
    ensures
        ({
            let p = moved(s.position, id, data)->0;
            let (s1, out, closed) = step(s, EventView::ClientData(s.active, frame));
            &&& s1 == ControllerView { position: p, ..s }
            &&& out == seq![
                (peer_of(other(s.active)), pose_frame(p, s.threshold)),
                (Peer::Upstream, frame),
            ]
            &&& !closed
            &&& pose_packet(p).flags == 0 && pose_packet(p).teleport_id == 0
            &&& id == c2s::POSITION_ID ==> p.yaw == s.position.yaw && p.pitch == s.position.pitch
            &&& id == c2s::LOOK_ID ==> p.x == s.position.x && p.y == s.position.y && p.z
                == s.position.z
        }),
{
    assert(client_reply(frame, s.threshold) is None);
}

/// When the active client leaves while the other is connected, the other
/// becomes active, and the replies that go upstream are those to the pending
/// entries that it confirmed, in the order of the server's requests; exactly
/// those entries stay pending. Each was confirmed by the survivor and not by
/// the client that left.
pub proof fn lemma_role_swap(s: ControllerView)
    requires
        well_formed(s),
        both_alive(s),
    ensures
        ({
            let survivor = other(s.active);
            let kept = s.pending.filter(|e: PendingTransaction| confirmed_by(e, survivor));
            let (s1, out, closed) = step(s, EventView::ClientDisconnected(s.active));
            &&& s1.active == survivor
            &&& alive(s1, survivor) && !alive(s1, s.active)
            &&& s1.pending == kept
            &&& out == replays(kept, s.threshold)
            &&& !closed
            &&& kept.len() <= s.pending.len()
            &&& forall|i: int|
                0 <= i < kept.len() ==> confirmed_by(#[trigger] kept[i], survivor)
                    && !confirmed_by(kept[i], s.active) && s.pending.contains(kept[i])
            &&& forall|i: int|
                0 <= i < s.pending.len() && confirmed_by(#[trigger] s.pending[i], survivor)
                    ==> kept.contains(s.pending[i])
        }),
{
    let survivor = other(s.active);
    let pred = |e: PendingTransaction| confirmed_by(e, survivor);
    let kept = s.pending.filter(pred);
    broadcast use vstd::seq_lib::group_filter_ensures;

    assert forall|i: int| 0 <= i < kept.len() implies confirmed_by(#[trigger] kept[i], survivor)
        && !confirmed_by(kept[i], s.active) && s.pending.contains(kept[i]) by {
        lemma_filter_member(s.pending, pred, i);
        let j = choose|j: int| 0 <= j < s.pending.len() && s.pending[j] == kept[i];
        assert(!(s.pending[j].cheat_confirmed && s.pending[j].legit_confirmed));
    }
}

/// Every entry that a filter keeps comes from the filtered sequence.
pub proof fn lemma_filter_member(
    p: Seq<PendingTransaction>,
    pred: spec_fn(PendingTransaction) -> bool,
    i: int,
)
    requires
        0 <= i < p.filter(pred).len(),
    ensures
        exists|j: int| 0 <= j < p.len() && p[j] == p.filter(pred)[i],
    decreases p.len(),
{
    reveal(Seq::filter);
    let sub = p.drop_last().filter(pred);
    if i < sub.len() {
        lemma_filter_member(p.drop_last(), pred, i);
        let j = choose|j: int| 0 <= j < p.drop_last().len() && p.drop_last()[j] == sub[i];
        assert(p[j] == p.filter(pred)[i]);
    } else {
        assert(p[p.len() - 1] == p.filter(pred)[i]);
    }
}

} // verus!
