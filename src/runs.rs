//! Runs of a session over a sequence of events: the order in which frames
//! reach each peer, and the transaction replies that reach the server.

use vstd::prelude::*;
use crate::controller::{
    confirmed_entries, frame_move, lemma_filter_member, on_client_data, on_disconnect,
    on_server_data,
    alive, both_alive, client_reply, confirmed_by, is_first_match, other, record_confirmation,
    replays, reply_frame, server_request, step, well_formed, ClientId, ControllerView, EventView,
    PendingTransaction, Peer, origin,
};

verus! {

/// The state and the frames sent after the events `evs`, from `s`.
pub open spec fn run(s: ControllerView, evs: Seq<EventView>) -> (ControllerView, Seq<(Peer, Seq<u8>)>)
    decreases evs.len(),
{
    if evs.len() == 0 {
        (s, seq![])
    } else {
        let (s1, out1) = run(s, evs.drop_last());
        let r = step(s1, evs.last());
        (r.0, out1 + r.1)
    }
}

/// The state in which a session starts.
pub open spec fn initial(active: ClientId, threshold: Option<i32>) -> ControllerView {
    ControllerView {
        active,
        cheat_alive: true,
        legit_alive: true,
        threshold,
        position: origin(),
        pending: seq![],
    }
}

/// How many replies to `action` the frames `out` carry upstream.
pub open spec fn upstream_count(out: Seq<(Peer, Seq<u8>)>, t: Option<i32>, action: i16) -> nat
    decreases out.len(),
{
    if out.len() == 0 {
        0
    } else {
        upstream_count(out.drop_last(), t, action) + if out.last().0 == Peer::Upstream
            && client_reply(out.last().1, t) == Some(action) {
            1nat
        } else {
            0nat
        }
    }
}

/// Whether `e` is client `c`'s reply to `action`.
pub open spec fn is_reply(e: EventView, c: ClientId, t: Option<i32>, action: i16) -> bool {
    match e {
        EventView::ClientData(who, f) => who == c && client_reply(f, t) == Some(action),
        _ => false,
    }
}

/// Whether `e` is the server's request of `action`.
pub open spec fn is_request(e: EventView, t: Option<i32>, action: i16) -> bool {
    match e {
        EventView::ServerData(f) => server_request(f, t) == Some(action),
        _ => false,
    }
}

/// Whether `e` comes from client `c`.
pub open spec fn is_from(e: EventView, c: ClientId) -> bool {
    match e {
        EventView::ClientData(who, _) => who == c,
        EventView::ClientDisconnected(who) => who == c,
        _ => false,
    }
}

/// Whether client `c` replied to `action` among `evs`.
pub open spec fn replied(evs: Seq<EventView>, c: ClientId, t: Option<i32>, action: i16) -> bool {
    exists|i: int| 0 <= i < evs.len() && is_reply(#[trigger] evs[i], c, t, action)
}

/// Whether the server requested `action` among `evs`.
pub open spec fn requested(evs: Seq<EventView>, t: Option<i32>, action: i16) -> bool {
    exists|i: int| 0 <= i < evs.len() && is_request(#[trigger] evs[i], t, action)
}

/// Whether client `c` left among `evs`.
pub open spec fn departed(evs: Seq<EventView>, c: ClientId) -> bool {
    exists|i: int| 0 <= i < evs.len() && #[trigger] is_departure(evs[i], c)
}

/// Peers that keep the protocol: the server requests each action once; a
/// client replies to an action once, after the server requested it; a client
/// sends nothing after it left.
pub open spec fn honest(evs: Seq<EventView>, t: Option<i32>) -> bool {
    &&& forall|i: int, j: int, a: i16|
        0 <= i < j < evs.len() && #[trigger] is_request(evs[i], t, a) ==> !#[trigger] is_request(
            evs[j],
            t,
            a,
        )
    &&& forall|j: int, c: ClientId, a: i16|
        0 <= j < evs.len() && #[trigger] is_reply(evs[j], c, t, a) ==> requested(evs.take(j), t, a)
            && !replied(evs.take(j), c, t, a)
    &&& forall|j: int, c: ClientId|
        0 <= j < evs.len() && #[trigger] is_from(evs[j], c) ==> !departed(evs.take(j), c)
}

/// Whether `e` is client `c` leaving.
pub open spec fn is_departure(e: EventView, c: ClientId) -> bool {
    e == EventView::ClientDisconnected(c)
}

/// Whether no transaction pending in `s` was confirmed by `c`.
pub open spec fn none_confirmed_by(s: ControllerView, c: ClientId) -> bool {
    forall|k: int| 0 <= k < s.pending.len() ==> !confirmed_by(#[trigger] s.pending[k], c)
}

/// Each client leaves while both are connected only once every pending
/// transaction it confirmed was confirmed by the other client too, and so has
/// left the pending list.
pub open spec fn departures_settled(s: ControllerView, evs: Seq<EventView>) -> bool {
    forall|j: int, c: ClientId|
        0 <= j < evs.len() && #[trigger] is_departure(evs[j], c) && both_alive(
            run(s, evs.take(j)).0,
        ) ==> none_confirmed_by(run(s, evs.take(j)).0, c)
}

/// How the pending list of a session with both clients connected follows the
/// events so far: one entry for each requested action that not both clients
/// replied to, marked with the clients that did.
pub open spec fn pending_tracks(evs: Seq<EventView>, t: Option<i32>, p: Seq<PendingTransaction>) -> bool {
    &&& forall|k: int| 0 <= k < p.len() ==> requested(evs, t, (#[trigger] p[k]).action)
    &&& forall|k: int, c: ClientId|
        0 <= k < p.len() ==> #[trigger] confirmed_by(p[k], c) == replied(evs, c, t, p[k].action)
    &&& forall|k: int, l: int| 0 <= k < l < p.len() ==> (#[trigger] p[k]).action != (#[trigger] p[l]).action
    &&& forall|a: i16|
        #[trigger] requested(evs, t, a) && !(replied(evs, ClientId::Cheat, t, a) && replied(
            evs,
            ClientId::Legit,
            t,
            a,
        )) ==> exists|k: int| 0 <= k < p.len() && (#[trigger] p[k]).action == a
}

/// What holds after every prefix of an honest run: upstream has seen one reply
/// to each action that the active client replied to, and none to any other.
pub open spec fn run_invariant(
    evs: Seq<EventView>,
    t: Option<i32>,
    s: ControllerView,
    out: Seq<(Peer, Seq<u8>)>,
) -> bool {
    &&& well_formed(s)
    &&& s.threshold == t
    &&& forall|c: ClientId| #![trigger alive(s, c)] alive(s, c) == !departed(evs, c)
    &&& forall|a: i16|
        #![trigger upstream_count(out, t, a)]
        upstream_count(out, t, a) == if replied(evs, s.active, t, a) {
            1nat
        } else {
            0nat
        }
    &&& forall|c: ClientId, a: i16| #[trigger] replied(evs, c, t, a) ==> requested(evs, t, a)
    &&& both_alive(s) ==> pending_tracks(evs, t, s.pending)
    &&& !both_alive(s) ==> none_confirmed_by(s, other(s.active))
}

/// Whether the reply frames that the controller writes itself read back as
/// replies to their actions.
pub open spec fn replies_read_back(t: Option<i32>) -> bool {
    forall|a: i16| #[trigger] client_reply(reply_frame(a, t), t) == Some(a)
}

/// Counting over two runs of frames adds up.
pub proof fn lemma_count_concat(
    a: Seq<(Peer, Seq<u8>)>,
    b: Seq<(Peer, Seq<u8>)>,
    t: Option<i32>,
    action: i16,
)
    ensures
        upstream_count(a + b, t, action) == upstream_count(a, t, action) + upstream_count(
            b,
            t,
            action,
        ),
    decreases b.len(),
{
    if b.len() == 0 {
        assert(a + b =~= a);
    } else {
        assert((a + b).drop_last() =~= a + b.drop_last());
        lemma_count_concat(a, b.drop_last(), t, action);
    }
}

/// Frames that go to no one upstream carry no reply there.
pub proof fn lemma_count_none_upstream(out: Seq<(Peer, Seq<u8>)>, t: Option<i32>, action: i16)
    requires
        forall|i: int| 0 <= i < out.len() ==> (#[trigger] out[i]).0 != Peer::Upstream,
    ensures
        upstream_count(out, t, action) == 0,
    decreases out.len(),
{
    if out.len() > 0 {
        lemma_count_none_upstream(out.drop_last(), t, action);
    }
}

/// The replays of entries with distinct actions carry one reply to each of
/// their actions.
pub proof fn lemma_count_replays(p: Seq<PendingTransaction>, t: Option<i32>, action: i16)
    requires
        replies_read_back(t),
        forall|k: int, l: int| 0 <= k < l < p.len() ==> (#[trigger] p[k]).action != (#[trigger] p[l]).action,
    ensures
        upstream_count(replays(p, t), t, action) == if exists|k: int|
            0 <= k < p.len() && (#[trigger] p[k]).action == action {
            1nat
        } else {
            0nat
        },
    decreases p.len(),
{
    if p.len() > 0 {
        let q = p.drop_last();
        assert(replays(p, t).drop_last() =~= replays(q, t));
        lemma_count_replays(q, t, action);
        assert(client_reply(reply_frame(p.last().action, t), t) == Some(p.last().action));
        if p.last().action == action {
            assert(!exists|k: int| 0 <= k < q.len() && (#[trigger] q[k]).action == action) by {
                assert forall|k: int| 0 <= k < q.len() implies (#[trigger] q[k]).action != action by {
                    assert(q[k] == p[k]);
                }
            }
            assert(p[p.len() - 1].action == action);
        } else {
            if exists|k: int| 0 <= k < p.len() && (#[trigger] p[k]).action == action {
                let k = choose|k: int| 0 <= k < p.len() && (#[trigger] p[k]).action == action;
                assert(q[k] == p[k]);
            }
            if exists|k: int| 0 <= k < q.len() && (#[trigger] q[k]).action == action {
                let k = choose|k: int| 0 <= k < q.len() && (#[trigger] q[k]).action == action;
                assert(q[k] == p[k]);
            }
        }
    } else {
        assert(replays(p, t) =~= seq![]);
    }
}

/// What the events so far say, after one more event.
pub proof fn lemma_push_facts(evs: Seq<EventView>, e: EventView, t: Option<i32>)
    ensures
        forall|c: ClientId, a: i16|
            #[trigger] replied(evs.push(e), c, t, a) == (replied(evs, c, t, a) || is_reply(
                e,
                c,
                t,
                a,
            )),
        forall|a: i16|
            #[trigger] requested(evs.push(e), t, a) == (requested(evs, t, a) || is_request(e, t, a)),
        forall|c: ClientId|
            #[trigger] departed(evs.push(e), c) == (departed(evs, c) || is_departure(e, c)),
{
    let q = evs.push(e);
    assert forall|c: ClientId, a: i16| #[trigger] replied(q, c, t, a) == (replied(evs, c, t, a) || is_reply(e, c, t, a)) by {
        if replied(evs, c, t, a) {
            let i = choose|i: int| 0 <= i < evs.len() && is_reply(#[trigger] evs[i], c, t, a);
            assert(q[i] == evs[i]);
        }
        if is_reply(e, c, t, a) {
            assert(q[evs.len() as int] == e);
        }
        if replied(q, c, t, a) {
            let i = choose|i: int| 0 <= i < q.len() && is_reply(#[trigger] q[i], c, t, a);
            if i < evs.len() {
                assert(q[i] == evs[i]);
            }
        }
    }
    assert forall|a: i16| #[trigger] requested(q, t, a) == (requested(evs, t, a) || is_request(e, t, a)) by {
        if requested(evs, t, a) {
            let i = choose|i: int| 0 <= i < evs.len() && is_request(#[trigger] evs[i], t, a);
            assert(q[i] == evs[i]);
        }
        if is_request(e, t, a) {
            assert(q[evs.len() as int] == e);
        }
        if requested(q, t, a) {
            let i = choose|i: int| 0 <= i < q.len() && is_request(#[trigger] q[i], t, a);
            if i < evs.len() {
                assert(q[i] == evs[i]);
            }
        }
    }
    assert forall|c: ClientId| #[trigger] departed(q, c) == (departed(evs, c) || is_departure(e, c)) by {
        if departed(evs, c) {
            let i = choose|i: int| 0 <= i < evs.len() && #[trigger] is_departure(evs[i], c);
            assert(q[i] == evs[i]);
        }
        if is_departure(e, c) {
            assert(q[evs.len() as int] == e);
        }
        if departed(q, c) {
            let i = choose|i: int| 0 <= i < q.len() && #[trigger] is_departure(q[i], c);
            if i < evs.len() {
                assert(q[i] == evs[i]);
            }
        }
    }
}

/// The conditions on a run hold of its prefix, and say of its last event what
/// the prefix allows.
pub proof fn lemma_prefix_conditions(s0: ControllerView, evs: Seq<EventView>, t: Option<i32>)
    requires
        evs.len() > 0,
        honest(evs, t),
        departures_settled(s0, evs),
    ensures
        honest(evs.drop_last(), t),
        departures_settled(s0, evs.drop_last()),
        forall|c: ClientId, a: i16|
            #[trigger] is_reply(evs.last(), c, t, a) ==> requested(evs.drop_last(), t, a) && !replied(
                evs.drop_last(),
                c,
                t,
                a,
            ),
        forall|a: i16| #[trigger] is_request(evs.last(), t, a) ==> !requested(evs.drop_last(), t, a),
        forall|c: ClientId| #[trigger] is_from(evs.last(), c) ==> !departed(evs.drop_last(), c),
        forall|c: ClientId|
            #[trigger] is_departure(evs.last(), c) && both_alive(run(s0, evs.drop_last()).0)
                ==> none_confirmed_by(run(s0, evs.drop_last()).0, c),
{
    let q = evs.drop_last();
    let n = q.len() as int;
    assert(evs.take(n) =~= q);
    assert forall|j: int| 0 <= j < q.len() implies #[trigger] q.take(j) == evs.take(j) by {
        assert(q.take(j) =~= evs.take(j));
    }
    assert forall|i: int, j: int, a: i16|
        0 <= i < j < q.len() && #[trigger] is_request(q[i], t, a) implies !#[trigger] is_request(
            q[j],
            t,
            a,
        ) by {
        assert(q[i] == evs[i] && q[j] == evs[j]);
    }
    assert forall|j: int, c: ClientId, a: i16|
        0 <= j < q.len() && #[trigger] is_reply(q[j], c, t, a) implies requested(q.take(j), t, a)
            && !replied(q.take(j), c, t, a) by {
        assert(q[j] == evs[j]);
        assert(q.take(j) == evs.take(j));
    }
    assert forall|j: int, c: ClientId| 0 <= j < q.len() && #[trigger] is_from(q[j], c) implies !departed(
        q.take(j),
        c,
    ) by {
        assert(q[j] == evs[j]);
        assert(q.take(j) == evs.take(j));
    }
    assert forall|j: int, c: ClientId|
        0 <= j < q.len() && #[trigger] is_departure(q[j], c) && both_alive(
            run(s0, q.take(j)).0,
        ) implies none_confirmed_by(run(s0, q.take(j)).0, c) by {
        assert(q[j] == evs[j]);
        assert(q.take(j) == evs.take(j));
    }
    assert forall|c: ClientId, a: i16| #[trigger] is_reply(evs.last(), c, t, a) implies requested(
        q,
        t,
        a,
    ) && !replied(q, c, t, a) by {
        assert(evs[n] == evs.last());
    }
    assert forall|a: i16| #[trigger] is_request(evs.last(), t, a) implies !requested(q, t, a) by {
        assert(evs[n] == evs.last());
        if requested(q, t, a) {
            let i = choose|i: int| 0 <= i < q.len() && is_request(#[trigger] q[i], t, a);
            assert(q[i] == evs[i]);
        }
    }
    assert forall|c: ClientId| #[trigger] is_from(evs.last(), c) implies !departed(q, c) by {
        assert(evs[n] == evs.last());
    }
    assert forall|c: ClientId|
        #[trigger] is_departure(evs.last(), c) && both_alive(run(s0, q).0) implies none_confirmed_by(
        run(s0, q).0,
        c,
    ) by {
        assert(evs[n] == evs.last());
    }
}

/// A filter of entries with distinct actions has distinct actions.
pub proof fn lemma_filter_distinct(p: Seq<PendingTransaction>, pred: spec_fn(PendingTransaction) -> bool)
    requires
        forall|k: int, l: int| 0 <= k < l < p.len() ==> (#[trigger] p[k]).action != (#[trigger] p[l]).action,
    ensures
        forall|k: int, l: int|
            0 <= k < l < p.filter(pred).len() ==> (#[trigger] p.filter(pred)[k]).action != (
            #[trigger] p.filter(pred)[l]).action,
    decreases p.len(),
{
    reveal(Seq::filter);
    if p.len() > 0 {
        let q = p.drop_last();
        assert forall|k: int, l: int| 0 <= k < l < q.len() implies (#[trigger] q[k]).action != (
        #[trigger] q[l]).action by {
            assert(q[k] == p[k] && q[l] == p[l]);
        }
        lemma_filter_distinct(q, pred);
        let f = p.filter(pred);
        let g = q.filter(pred);
        if pred(p.last()) {
            assert forall|k: int, l: int| 0 <= k < l < f.len() implies (#[trigger] f[k]).action != (
            #[trigger] f[l]).action by {
                if l == f.len() - 1 {
                    lemma_filter_member(q, pred, k);
                    let j = choose|j: int| 0 <= j < q.len() && q[j] == g[k];
                    assert(q[j] == p[j]);
                    assert(f[l] == p[p.len() - 1]);
                } else {
                    assert(f[k] == g[k] && f[l] == g[l]);
                }
            }
        }
    }
}

/// The facts about one step of a pending list that its two changes share.
pub open spec fn record_premises(
    q: Seq<EventView>,
    q2: Seq<EventView>,
    t: Option<i32>,
    p: Seq<PendingTransaction>,
    k: int,
    e2: PendingTransaction,
    a0: i16,
) -> bool {
    &&& pending_tracks(q, t, p)
    &&& forall|j: int| 0 <= j < p.len() ==> !(#[trigger] p[j].cheat_confirmed && p[j].legit_confirmed)
    &&& 0 <= k < p.len()
    &&& p[k].action == a0
    &&& e2.action == a0
    &&& forall|c: ClientId, a: i16| a != a0 ==> #[trigger] replied(q2, c, t, a) == replied(q, c, t, a)
    &&& forall|a: i16| #[trigger] requested(q2, t, a) == requested(q, t, a)
    &&& forall|c: ClientId| #[trigger] confirmed_by(e2, c) == replied(q2, c, t, a0)
}

/// Removing the entry that both clients have now confirmed.
pub proof fn lemma_remove_tracks(
    q: Seq<EventView>,
    q2: Seq<EventView>,
    t: Option<i32>,
    p: Seq<PendingTransaction>,
    k: int,
    e2: PendingTransaction,
    a0: i16,
)
    requires
        record_premises(q, q2, t, p, k, e2, a0),
        e2.cheat_confirmed && e2.legit_confirmed,
    ensures
        pending_tracks(q2, t, p.remove(k)),
        forall|j: int|
            0 <= j < p.remove(k).len() ==> !(#[trigger] p.remove(k)[j].cheat_confirmed
                && p.remove(k)[j].legit_confirmed),
{
    let r = p.remove(k);
    assert(confirmed_by(e2, ClientId::Cheat) && confirmed_by(e2, ClientId::Legit));
    assert forall|j: int| 0 <= j < r.len() implies #[trigger] r[j] == (if j < k {
        p[j]
    } else {
        p[j + 1]
    }) by {}
    assert forall|j: int| 0 <= j < r.len() implies requested(q2, t, (#[trigger] r[j]).action) by {
        if j < k {
            assert(requested(q, t, p[j].action));
        } else {
            assert(requested(q, t, p[j + 1].action));
        }
    }
    assert forall|j: int, c: ClientId| 0 <= j < r.len() implies #[trigger] confirmed_by(r[j], c)
        == replied(q2, c, t, r[j].action) by {
        let jj = if j < k {
            j
        } else {
            j + 1
        };
        assert(r[j] == p[jj]);
        assert(confirmed_by(p[jj], c) == replied(q, c, t, p[jj].action));
        assert(p[jj].action != a0) by {
            if jj < k {
                assert(p[jj].action != p[k].action);
            } else {
                assert(p[k].action != p[jj].action);
            }
        }
    }
    assert forall|j: int, l: int| 0 <= j < l < r.len() implies (#[trigger] r[j]).action != (
    #[trigger] r[l]).action by {
        let jj = if j < k {
            j
        } else {
            j + 1
        };
        let ll = if l < k {
            l
        } else {
            l + 1
        };
        assert(r[j] == p[jj] && r[l] == p[ll]);
        assert(p[jj].action != p[ll].action);
    }
    assert forall|a: i16|
        #[trigger] requested(q2, t, a) && !(replied(q2, ClientId::Cheat, t, a) && replied(
            q2,
            ClientId::Legit,
            t,
            a,
        )) implies exists|j: int| 0 <= j < r.len() && (#[trigger] r[j]).action == a by {
        assert(a != a0);
        assert(requested(q, t, a));
        assert(replied(q2, ClientId::Cheat, t, a) == replied(q, ClientId::Cheat, t, a));
        assert(replied(q2, ClientId::Legit, t, a) == replied(q, ClientId::Legit, t, a));
        let m = choose|m: int| 0 <= m < p.len() && (#[trigger] p[m]).action == a;
        assert(m != k);
        if m < k {
            assert(r[m] == p[m]);
        } else {
            assert(r[m - 1] == p[m]);
        }
    }
    assert forall|j: int| 0 <= j < r.len() implies !(#[trigger] r[j].cheat_confirmed
        && r[j].legit_confirmed) by {
        if j < k {
            assert(r[j] == p[j]);
        } else {
            assert(r[j] == p[j + 1]);
        }
    }
}

/// Marking an entry that one client has now confirmed.
pub proof fn lemma_update_tracks(
    q: Seq<EventView>,
    q2: Seq<EventView>,
    t: Option<i32>,
    p: Seq<PendingTransaction>,
    k: int,
    e2: PendingTransaction,
    a0: i16,
)
    requires
        record_premises(q, q2, t, p, k, e2, a0),
        !(e2.cheat_confirmed && e2.legit_confirmed),
    ensures
        pending_tracks(q2, t, p.update(k, e2)),
        forall|j: int|
            0 <= j < p.update(k, e2).len() ==> !(#[trigger] p.update(k, e2)[j].cheat_confirmed
                && p.update(k, e2)[j].legit_confirmed),
{
    let r = p.update(k, e2);
    assert forall|j: int| 0 <= j < r.len() implies requested(q2, t, (#[trigger] r[j]).action) by {
        assert(requested(q, t, p[j].action));
    }
    assert forall|j: int, c: ClientId| 0 <= j < r.len() implies #[trigger] confirmed_by(r[j], c)
        == replied(q2, c, t, r[j].action) by {
        if j != k {
            assert(confirmed_by(p[j], c) == replied(q, c, t, p[j].action));
            assert(p[j].action != a0) by {
                if j < k {
                    assert(p[j].action != p[k].action);
                } else {
                    assert(p[k].action != p[j].action);
                }
            }
        }
    }
    assert forall|j: int, l: int| 0 <= j < l < r.len() implies (#[trigger] r[j]).action != (
    #[trigger] r[l]).action by {
        assert(p[j].action != p[l].action);
    }
    assert forall|a: i16|
        #[trigger] requested(q2, t, a) && !(replied(q2, ClientId::Cheat, t, a) && replied(
            q2,
            ClientId::Legit,
            t,
            a,
        )) implies exists|j: int| 0 <= j < r.len() && (#[trigger] r[j]).action == a by {
        if a == a0 {
            assert(r[k].action == a0);
        } else {
            assert(requested(q, t, a));
            assert(replied(q2, ClientId::Cheat, t, a) == replied(q, ClientId::Cheat, t, a));
            assert(replied(q2, ClientId::Legit, t, a) == replied(q, ClientId::Legit, t, a));
            let m = choose|m: int| 0 <= m < p.len() && (#[trigger] p[m]).action == a;
            assert(r[m] == p[m]);
        }
    }
    assert forall|j: int| 0 <= j < r.len() implies !(#[trigger] r[j].cheat_confirmed
        && r[j].legit_confirmed) by {
        if j != k {
            assert(r[j] == p[j]);
        }
    }
}

/// Recording a new confirmation keeps the pending list in step with the events.
pub proof fn lemma_record_tracks(
    q: Seq<EventView>,
    e: EventView,
    t: Option<i32>,
    p: Seq<PendingTransaction>,
    a0: i16,
    who: ClientId,
)
    requires
        pending_tracks(q, t, p),
        forall|k: int| 0 <= k < p.len() ==> !(#[trigger] p[k].cheat_confirmed && p[k].legit_confirmed),
        requested(q, t, a0),
        !replied(q, who, t, a0),
        is_reply(e, who, t, a0),
        forall|c: ClientId, a: i16|
            #[trigger] replied(q.push(e), c, t, a) == (replied(q, c, t, a) || is_reply(e, c, t, a)),
        forall|a: i16| #[trigger] requested(q.push(e), t, a) == requested(q, t, a),
    ensures
        pending_tracks(q.push(e), t, record_confirmation(p, a0, who)),
        forall|k: int|
            0 <= k < record_confirmation(p, a0, who).len() ==> !(
            #[trigger] record_confirmation(p, a0, who)[k].cheat_confirmed && record_confirmation(
                p,
                a0,
                who,
            )[k].legit_confirmed),
{
    let q2 = q.push(e);
    assert(forall|c: ClientId, a: i16| is_reply(e, c, t, a) ==> c == who && a == a0);
    assert(!(replied(q, ClientId::Cheat, t, a0) && replied(q, ClientId::Legit, t, a0)));
    let k = choose|k: int| 0 <= k < p.len() && (#[trigger] p[k]).action == a0;
    assert(is_first_match(p, a0, k)) by {
        assert forall|j: int| 0 <= j < k implies (#[trigger] p[j]).action != a0 by {
            assert(p[j].action != p[k].action);
        }
    }
    let i = choose|i: int| is_first_match(p, a0, i);
    assert(i == k) by {
        if i < k {
            assert(p[i].action != p[k].action);
        } else if i > k {
            assert(p[k].action != p[i].action);
        }
    }
    let e2 = crate::controller::confirm(p[k], who);
    assert forall|c: ClientId| #[trigger] confirmed_by(e2, c) == replied(q2, c, t, a0) by {
        assert(confirmed_by(p[k], c) == replied(q, c, t, a0));
        assert(replied(q2, c, t, a0) == (replied(q, c, t, a0) || is_reply(e, c, t, a0)));
    }
    assert forall|c: ClientId, a: i16| a != a0 implies #[trigger] replied(q2, c, t, a) == replied(
        q,
        c,
        t,
        a,
    ) by {
        assert(replied(q2, c, t, a) == (replied(q, c, t, a) || is_reply(e, c, t, a)));
    }
    assert(record_premises(q, q2, t, p, k, e2, a0));
    if e2.cheat_confirmed && e2.legit_confirmed {
        lemma_remove_tracks(q, q2, t, p, k, e2, a0);
    } else {
        lemma_update_tracks(q, q2, t, p, k, e2, a0);
    }
}

/// A frame of the server keeps the invariant.
pub proof fn lemma_server_step(
    q: Seq<EventView>,
    f: Seq<u8>,
    t: Option<i32>,
    s: ControllerView,
    out0: Seq<(Peer, Seq<u8>)>,
)
    requires
        run_invariant(q, t, s, out0),
        forall|a: i16| #[trigger] is_request(EventView::ServerData(f), t, a) ==> !requested(q, t, a),
    ensures
        run_invariant(
            q.push(EventView::ServerData(f)),
            t,
            step(s, EventView::ServerData(f)).0,
            out0 + step(s, EventView::ServerData(f)).1,
        ),
{
    let e = EventView::ServerData(f);
    let q2 = q.push(e);
    lemma_push_facts(q, e, t);
    let (s2, o) = on_server_data(s, f);
    assert forall|i: int| 0 <= i < o.len() implies (#[trigger] o[i]).0 != Peer::Upstream by {}
    assert forall|a: i16| #[trigger] upstream_count(out0 + o, t, a) == upstream_count(out0, t, a) by {
        lemma_count_concat(out0, o, t, a);
        lemma_count_none_upstream(o, t, a);
    }
    assert forall|c: ClientId, a: i16| #[trigger] replied(q2, c, t, a) == replied(q, c, t, a) by {
        assert(!is_reply(e, c, t, a));
    }
    assert forall|c: ClientId| #[trigger] departed(q2, c) == departed(q, c) by {
        assert(!is_departure(e, c));
    }
    assert forall|c: ClientId, a: i16| #[trigger] replied(q2, c, t, a) implies requested(q2, t, a) by {
        assert(replied(q, c, t, a));
    }
    match server_request(f, t) {
        Some(a0) => {
            assert(is_request(e, t, a0));
            let p = s.pending;
            let n = PendingTransaction { action: a0, cheat_confirmed: false, legit_confirmed: false };
            let p2 = p.push(n);
            assert(s2.pending == p2);
            assert forall|k: int| 0 <= k < p2.len() implies !(#[trigger] p2[k].cheat_confirmed
                && p2[k].legit_confirmed) by {
                if k < p.len() {
                    assert(p2[k] == p[k]);
                }
            }
            assert(forall|c: ClientId| !replied(q, c, t, a0));
            if both_alive(s) {
                assert forall|k: int| 0 <= k < p2.len() implies requested(q2, t, (#[trigger] p2[k]).action) by {
                    if k < p.len() {
                        assert(p2[k] == p[k]);
                        assert(requested(q, t, p[k].action));
                    }
                }
                assert forall|k: int, c: ClientId| 0 <= k < p2.len() implies #[trigger] confirmed_by(p2[k], c)
                    == replied(q2, c, t, p2[k].action) by {
                    if k < p.len() {
                        assert(p2[k] == p[k]);
                        assert(confirmed_by(p[k], c) == replied(q, c, t, p[k].action));
                    }
                }
                assert forall|k: int, l: int| 0 <= k < l < p2.len() implies (#[trigger] p2[k]).action != (
                #[trigger] p2[l]).action by {
                    assert(p2[k] == p[k]);
                    if l < p.len() {
                        assert(p2[l] == p[l]);
                    } else {
                        assert(requested(q, t, p[k].action));
                    }
                }
                assert forall|a: i16|
                    #[trigger] requested(q2, t, a) && !(replied(q2, ClientId::Cheat, t, a) && replied(
                        q2,
                        ClientId::Legit,
                        t,
                        a,
                    )) implies exists|k: int| 0 <= k < p2.len() && (#[trigger] p2[k]).action == a by {
                    if a == a0 {
                        assert(p2[p.len() as int].action == a0);
                    } else {
                        assert(requested(q, t, a));
                        let m = choose|m: int| 0 <= m < p.len() && (#[trigger] p[m]).action == a;
                        assert(p2[m] == p[m]);
                    }
                }
            } else {
                assert forall|k: int| 0 <= k < p2.len() implies !confirmed_by(
                    #[trigger] p2[k],
                    other(s.active),
                ) by {
                    if k < p.len() {
                        assert(p2[k] == p[k]);
                    }
                }
            }
        },
        None => {
            assert forall|a: i16| #[trigger] requested(q2, t, a) == requested(q, t, a) by {
                assert(!is_request(e, t, a));
            }
            assert(s2 == s);
        },
    }
    assert(s2.active == s.active && s2.cheat_alive == s.cheat_alive && s2.legit_alive
        == s.legit_alive && s2.threshold == t);
    assert forall|a: i16| #[trigger] upstream_count(out0 + o, t, a) == if replied(
        q2,
        s2.active,
        t,
        a,
    ) {
        1nat
    } else {
        0nat
    } by {
        assert(upstream_count(out0, t, a) == if replied(q, s.active, t, a) {
            1nat
        } else {
            0nat
        });
    }
    assert forall|c: ClientId| #![trigger alive(s2, c)] alive(s2, c) == !departed(q2, c) by {
        assert(alive(s, c) == !departed(q, c));
    }
}

/// A client leaving keeps the invariant.
pub proof fn lemma_disconnect_step(
    q: Seq<EventView>,
    who: ClientId,
    t: Option<i32>,
    s: ControllerView,
    out0: Seq<(Peer, Seq<u8>)>,
)
    requires
        run_invariant(q, t, s, out0),
        replies_read_back(t),
        !departed(q, who),
        both_alive(s) ==> none_confirmed_by(s, who),
    ensures
        run_invariant(
            q.push(EventView::ClientDisconnected(who)),
            t,
            step(s, EventView::ClientDisconnected(who)).0,
            out0 + step(s, EventView::ClientDisconnected(who)).1,
        ),
{
    let e = EventView::ClientDisconnected(who);
    let q2 = q.push(e);
    lemma_push_facts(q, e, t);
    let (s2, o, _) = on_disconnect(s, who);
    assert forall|c: ClientId, a: i16| #[trigger] replied(q2, c, t, a) == replied(q, c, t, a) by {
        assert(!is_reply(e, c, t, a));
    }
    assert forall|a: i16| #[trigger] requested(q2, t, a) == requested(q, t, a) by {
        assert(!is_request(e, t, a));
    }
    assert(departed(q2, who));
    assert forall|c: ClientId| c != who implies #[trigger] departed(q2, c) == departed(q, c) by {
        assert(!is_departure(e, c));
    }
    assert forall|c: ClientId, a: i16| #[trigger] replied(q2, c, t, a) implies requested(q2, t, a) by {
        assert(replied(q, c, t, a));
    }
    assert(alive(s, who));
    if !both_alive(s) || who != s.active {
        assert(o =~= seq![]);
        assert forall|a: i16| #[trigger] upstream_count(out0 + o, t, a) == upstream_count(out0, t, a) by {
            assert(out0 + o =~= out0);
        }
        assert forall|c: ClientId| #![trigger alive(s2, c)] alive(s2, c) == !departed(q2, c) by {
            if c != who {
                assert(alive(s2, c) == alive(s, c));
            }
        }
        if both_alive(s) {
            assert(other(s.active) == who) by {
                match who {
                    ClientId::Cheat => assert(s.active != ClientId::Cheat),
                    ClientId::Legit => assert(s.active != ClientId::Legit),
                }
            }
        }
    } else {
        let survivor = other(who);
        let pred = |e: PendingTransaction| confirmed_by(e, survivor);
        let p = s.pending;
        let kept = p.filter(pred);
        assert(kept == confirmed_entries(p, survivor));
        assert(s2.pending == kept);
        assert(o == replays(kept, t));
        broadcast use vstd::seq_lib::group_filter_ensures;

        lemma_filter_distinct(p, pred);
        assert forall|k: int| 0 <= k < kept.len() implies confirmed_by(#[trigger] kept[k], survivor)
            && !confirmed_by(kept[k], who) && requested(q, t, kept[k].action) && replied(
            q,
            survivor,
            t,
            kept[k].action,
        ) && !replied(q, who, t, kept[k].action) by {
            lemma_filter_member(p, pred, k);
            let j = choose|j: int| 0 <= j < p.len() && p[j] == kept[k];
            assert(!confirmed_by(p[j], who));
            assert(requested(q, t, p[j].action));
            assert(confirmed_by(p[j], survivor) == replied(q, survivor, t, p[j].action));
            assert(confirmed_by(p[j], who) == replied(q, who, t, p[j].action));
        }
        assert forall|a: i16| #[trigger] upstream_count(out0 + o, t, a) == if replied(q2, survivor, t, a) {
            1nat
        } else {
            0nat
        } by {
            lemma_count_concat(out0, o, t, a);
            lemma_count_replays(kept, t, a);
            assert(upstream_count(out0, t, a) == if replied(q, who, t, a) {
                1nat
            } else {
                0nat
            });
            if replied(q, survivor, t, a) && !replied(q, who, t, a) {
                assert(requested(q, t, a));
                let m = choose|m: int| 0 <= m < p.len() && (#[trigger] p[m]).action == a;
                assert(confirmed_by(p[m], survivor) == replied(q, survivor, t, a));
                assert(pred(p[m]));
                assert(kept.contains(p[m]));
            } else if replied(q, who, t, a) {
                assert(requested(q, t, a));
                if !replied(q, survivor, t, a) {
                    let m = choose|m: int| 0 <= m < p.len() && (#[trigger] p[m]).action == a;
                    assert(confirmed_by(p[m], who) == replied(q, who, t, a));
                    assert(false);
                }
                assert forall|k: int| 0 <= k < kept.len() implies (#[trigger] kept[k]).action != a by {
                    assert(!replied(q, who, t, kept[k].action));
                }
            } else {
                assert forall|k: int| 0 <= k < kept.len() implies (#[trigger] kept[k]).action != a by {
                    assert(replied(q, survivor, t, kept[k].action));
                }
            }
        }
        assert(s2.active == survivor);
        assert(alive(s, survivor));
        assert forall|c: ClientId| #![trigger alive(s2, c)] alive(s2, c) == !departed(q2, c) by {
            if c != who {
                assert(c == survivor);
                assert(departed(q2, c) == departed(q, c));
            }
        }
        assert forall|k: int| 0 <= k < kept.len() implies !(#[trigger] kept[k].cheat_confirmed
            && kept[k].legit_confirmed) by {
            assert(!confirmed_by(kept[k], who));
        }
        assert(other(survivor) == who);
    }
}

/// Frames that carry no reply to `action` upstream count for nothing.
pub proof fn lemma_count_zero(out: Seq<(Peer, Seq<u8>)>, t: Option<i32>, action: i16)
    requires
        forall|i: int|
            0 <= i < out.len() ==> (#[trigger] out[i]).0 != Peer::Upstream || client_reply(
                out[i].1,
                t,
            ) != Some(action),
    ensures
        upstream_count(out, t, action) == 0,
    decreases out.len(),
{
    if out.len() > 0 {
        lemma_count_zero(out.drop_last(), t, action);
    }
}

/// A frame of a client keeps the invariant.
pub proof fn lemma_client_step(
    q: Seq<EventView>,
    who: ClientId,
    f: Seq<u8>,
    t: Option<i32>,
    s: ControllerView,
    out0: Seq<(Peer, Seq<u8>)>,
)
    requires
        run_invariant(q, t, s, out0),
        !departed(q, who),
        forall|a: i16|
            #[trigger] is_reply(EventView::ClientData(who, f), who, t, a) ==> requested(q, t, a)
                && !replied(q, who, t, a),
    ensures
        run_invariant(
            q.push(EventView::ClientData(who, f)),
            t,
            step(s, EventView::ClientData(who, f)).0,
            out0 + step(s, EventView::ClientData(who, f)).1,
        ),
{
    let e = EventView::ClientData(who, f);
    let q2 = q.push(e);
    lemma_push_facts(q, e, t);
    let (s2, o) = on_client_data(s, who, f);
    let reply = client_reply(f, t);
    assert forall|a: i16| #[trigger] requested(q2, t, a) == requested(q, t, a) by {
        assert(!is_request(e, t, a));
    }
    assert forall|c: ClientId| #[trigger] departed(q2, c) == departed(q, c) by {
        assert(!is_departure(e, c));
    }
    assert forall|c: ClientId, a: i16| #[trigger] replied(q2, c, t, a) == (replied(q, c, t, a) || (c
        == who && reply == Some(a))) by {
        assert(is_reply(e, c, t, a) == (c == who && reply == Some(a)));
    }
    assert(alive(s, who));
    if !both_alive(s) {
        assert(who == s.active) by {
            if who != s.active {
                assert(alive(s, s.active));
                match who {
                    ClientId::Cheat => assert(s.active == ClientId::Legit),
                    ClientId::Legit => assert(s.active == ClientId::Cheat),
                }
            }
        }
        if s.pending.len() > 0 {
            assert(!confirmed_by(s.pending[0], other(s.active)));
        }
    }
    if frame_move(s.position, f, t) is Some {
        assert(reply is None);
    }
    if who == s.active {
        assert(o.last() == (Peer::Upstream, f));
        assert forall|i: int| 0 <= i < o.len() - 1 implies (#[trigger] o[i]).0 != Peer::Upstream by {}
    } else {
        assert(o =~= seq![]);
    }
    assert forall|a: i16| #[trigger] upstream_count(out0 + o, t, a) == upstream_count(out0, t, a) + if who
        == s.active && reply == Some(a) {
        1nat
    } else {
        0nat
    } by {
        lemma_count_concat(out0, o, t, a);
        if o.len() > 0 {
            lemma_count_zero(o.drop_last(), t, a);
        } else {
            lemma_count_zero(o, t, a);
        }
    }
    match reply {
        Some(a0) => {
            assert(is_reply(e, who, t, a0));
            if both_alive(s) {
                lemma_record_tracks(q, e, t, s.pending, a0, who);
            }
        },
        None => {},
    }
    assert(s2.active == s.active && s2.cheat_alive == s.cheat_alive && s2.legit_alive
        == s.legit_alive && s2.threshold == t);
    assert forall|a: i16| #[trigger] upstream_count(out0 + o, t, a) == if replied(
        q2,
        s2.active,
        t,
        a,
    ) {
        1nat
    } else {
        0nat
    } by {
        assert(upstream_count(out0, t, a) == if replied(q, s.active, t, a) {
            1nat
        } else {
            0nat
        });
    }
    assert forall|c: ClientId| #![trigger alive(s2, c)] alive(s2, c) == !departed(q2, c) by {
        assert(alive(s, c) == !departed(q, c));
    }
    assert forall|c: ClientId, a: i16| #[trigger] replied(q2, c, t, a) implies requested(q2, t, a) by {
        if replied(q, c, t, a) {
            assert(requested(q, t, a));
        }
    }
}

/// Reading back a two-byte big-endian field gives its value.
pub proof fn lemma_be_round_trip_2(w: nat)
    requires
        w < 0x1_0000,
    ensures
        crate::codec::be_value(crate::codec::be_bytes(w, 2)) == w,
{
    reveal_with_fuel(crate::codec::be_bytes, 3);
    reveal_with_fuel(crate::codec::be_value, 3);
    let b = crate::codec::be_bytes(w, 2);
    assert(b =~= seq![((w / 256) % 256) as u8, (w % 256) as u8]);
    assert(b.drop_last() =~= seq![((w / 256) % 256) as u8]);
    assert(b.drop_last().drop_last() =~= Seq::<u8>::empty());
}

/// Without compression, or with a threshold above the size of a reply, the
/// reply frames that the controller writes read back as replies to their
/// actions.
pub proof fn lemma_replies_read_back(t: Option<i32>)
    requires
        t matches Some(th) ==> th > 5,
    ensures
        replies_read_back(t),
{
    assert forall|a: i16| #[trigger] client_reply(reply_frame(a, t), t) == Some(a) by {
        let tr = crate::packets::c2s::Transaction { window_id: 0, action: a, accepted: true };
        let data = tr.data();
        crate::codec::lemma_be_bytes_len(crate::codec::i16_bits(a), 2);
        assert(data.len() == 4);
        let inner = crate::codec::packet_bytes(crate::packets::c2s::TRANSACTION_ID, data);
        crate::codec::lemma_varint_prefix_round_trip(crate::packets::c2s::TRANSACTION_ID, data);
        assert(crate::codec::varint_bytes(7) =~= seq![7u8]);
        assert(inner.skip(1) =~= data);
        assert(crate::codec::split_packet(inner) == Some((7u32, data)));
        assert(data.subrange(1, 3) =~= crate::codec::be_bytes(crate::codec::i16_bits(a), 2));
        lemma_be_round_trip_2(crate::codec::i16_bits(a));
        match t {
            None => {},
            Some(th) => {
                let body = crate::codec::varint_bytes(0) + inner;
                crate::codec::lemma_varint_prefix_round_trip(0, inner);
                assert(crate::codec::varint_bytes(0) =~= seq![0u8]);
                assert(body.skip(1) =~= inner);
                assert(reply_frame(a, t) == body);
            },
        }
    }
}

/// The invariant holds after every honest run whose departures are settled.
pub proof fn lemma_run_keeps_invariant(active: ClientId, t: Option<i32>, evs: Seq<EventView>)
    requires
        honest(evs, t),
        departures_settled(initial(active, t), evs),
        replies_read_back(t),
    ensures
        run_invariant(evs, t, run(initial(active, t), evs).0, run(initial(active, t), evs).1),
    decreases evs.len(),
{
    let s0 = initial(active, t);
    if evs.len() == 0 {
        assert(run(s0, evs) == (s0, Seq::<(Peer, Seq<u8>)>::empty()));
        assert(forall|c: ClientId, a: i16| !#[trigger] replied(evs, c, t, a));
        assert(forall|a: i16| !#[trigger] requested(evs, t, a));
        assert(forall|c: ClientId| !#[trigger] departed(evs, c));
        assert forall|c: ClientId| #![trigger alive(s0, c)] alive(s0, c) == !departed(evs, c) by {
            match c {
                ClientId::Cheat => {},
                ClientId::Legit => {},
            }
        }
    } else {
        let q = evs.drop_last();
        let e = evs.last();
        lemma_prefix_conditions(s0, evs, t);
        lemma_run_keeps_invariant(active, t, q);
        let (s, out0) = run(s0, q);
        assert(q.push(e) =~= evs);
        match e {
            EventView::ServerData(f) => {
                lemma_server_step(q, f, t, s, out0);
            },
            EventView::ClientDisconnected(who) => {
                assert(is_from(e, who));
                if both_alive(s) {
                    assert(is_departure(e, who));
                }
                lemma_disconnect_step(q, who, t, s, out0);
            },
            EventView::ClientData(who, f) => {
                assert(is_from(e, who));
                lemma_client_step(q, who, f, t, s, out0);
            },
        }
    }
}

/// Along a run in which the server requests each action once, each client
/// replies to an action at most once and only after its request and sends
/// nothing after it left, and each client leaves while both are connected only
/// once no pending transaction awaits the other's confirmation alone, upstream
/// gets at most one reply to each action, whatever role changes happen: exactly
/// one where the client that is active at the end has replied to it.
pub proof fn lemma_one_reply_per_transaction(active: ClientId, t: Option<i32>, evs: Seq<EventView>)
    requires
        honest(evs, t),
        departures_settled(initial(active, t), evs),
        replies_read_back(t),
    ensures
        forall|a: i16| #[trigger] upstream_count(run(initial(active, t), evs).1, t, a) <= 1,
        forall|a: i16|
            #[trigger] upstream_count(run(initial(active, t), evs).1, t, a) == 1 <==> replied(
                evs,
                run(initial(active, t), evs).0.active,
                t,
                a,
            ),
{
    lemma_run_keeps_invariant(active, t, evs);
}

/// The frames that `out` sends to `peer`, in order.
pub open spec fn frames_to(out: Seq<(Peer, Seq<u8>)>, peer: Peer) -> Seq<Seq<u8>>
    decreases out.len(),
{
    if out.len() == 0 {
        seq![]
    } else if out.last().0 == peer {
        frames_to(out.drop_last(), peer).push(out.last().1)
    } else {
        frames_to(out.drop_last(), peer)
    }
}

/// Picking the frames of a peer out of two runs of frames, one after the other.
pub proof fn lemma_frames_to_concat(a: Seq<(Peer, Seq<u8>)>, b: Seq<(Peer, Seq<u8>)>, peer: Peer)
    ensures
        frames_to(a + b, peer) == frames_to(a, peer) + frames_to(b, peer),
    decreases b.len(),
{
    if b.len() == 0 {
        assert(a + b =~= a);
        assert(frames_to(a, peer) + frames_to(b, peer) =~= frames_to(a, peer));
    } else {
        assert((a + b).drop_last() =~= a + b.drop_last());
        lemma_frames_to_concat(a, b.drop_last(), peer);
        assert(frames_to(a, peer) + frames_to(b, peer) =~= frames_to(a + b, peer));
    }
}

/// The events of one client sending `frames`, in order.
pub open spec fn sent_by(c: ClientId, frames: Seq<Seq<u8>>) -> Seq<EventView> {
    frames.map_values(|f: Seq<u8>| EventView::ClientData(c, f))
}

/// The events of the server sending `frames`, in order.
pub open spec fn sent_by_server(frames: Seq<Seq<u8>>) -> Seq<EventView> {
    frames.map_values(|f: Seq<u8>| EventView::ServerData(f))
}

/// Whether a frame is neither a transaction reply nor a move or a turn.
pub open spec fn is_opaque(f: Seq<u8>, t: Option<i32>) -> bool {
    &&& client_reply(f, t) is None
    &&& crate::codec::frame_packet(f, t) matches Some((id, _)) ==> id
        != crate::packets::c2s::POSITION_ID && id != crate::packets::c2s::POSITION_LOOK_ID && id
        != crate::packets::c2s::LOOK_ID
}

/// The frames of the active client that are neither transaction replies nor
/// moves nor turns reach upstream unchanged and in the order they came, and
/// nothing else is sent.
pub proof fn lemma_forwarding_order(s: ControllerView, frames: Seq<Seq<u8>>)
    requires
        well_formed(s),
        forall|i: int| 0 <= i < frames.len() ==> is_opaque(#[trigger] frames[i], s.threshold),
    ensures
        run(s, sent_by(s.active, frames)).0 == s,
        run(s, sent_by(s.active, frames)).1 == frames.map_values(
            |f: Seq<u8>| (Peer::Upstream, f),
        ),
        frames_to(run(s, sent_by(s.active, frames)).1, Peer::Upstream) == frames,
    decreases frames.len(),
{
    let evs = sent_by(s.active, frames);
    if frames.len() == 0 {
        assert(evs =~= seq![]);
        assert(frames.map_values(|f: Seq<u8>| (Peer::Upstream, f)) =~= seq![]);
        assert(frames_to(seq![], Peer::Upstream) =~= frames);
    } else {
        let init = frames.drop_last();
        assert forall|i: int| 0 <= i < init.len() implies is_opaque(#[trigger] init[i], s.threshold) by {
            assert(init[i] == frames[i]);
        }
        lemma_forwarding_order(s, init);
        assert(evs.drop_last() =~= sent_by(s.active, init));
        let f = frames.last();
        assert(is_opaque(frames[frames.len() - 1], s.threshold));
        crate::controller::lemma_opaque_forwarding(s, f);
        let out = run(s, evs).1;
        assert(out =~= frames.map_values(|f: Seq<u8>| (Peer::Upstream, f)));
        lemma_frames_to_concat(
            init.map_values(|f: Seq<u8>| (Peer::Upstream, f)),
            seq![(Peer::Upstream, f)],
            Peer::Upstream,
        );
        let single = seq![(Peer::Upstream, f)];
        assert(single.drop_last() =~= Seq::<(Peer, Seq<u8>)>::empty());
        reveal_with_fuel(frames_to, 2);
        assert(Seq::<Seq<u8>>::empty().push(f) =~= seq![f]);
        assert(frames_to(single, Peer::Upstream) =~= seq![f]);
        assert(init.push(f) =~= frames);
        assert(init + seq![f] =~= frames);
    }
}

/// The frames of the server reach each connected client unchanged and in the
/// order they came, and none goes upstream.
pub proof fn lemma_broadcast_order(s: ControllerView, frames: Seq<Seq<u8>>)
    requires
        well_formed(s),
    ensures
        run(s, sent_by_server(frames)).0.cheat_alive == s.cheat_alive,
        run(s, sent_by_server(frames)).0.legit_alive == s.legit_alive,
        frames_to(run(s, sent_by_server(frames)).1, Peer::Cheat) == if s.cheat_alive {
            frames
        } else {
            seq![]
        },
        frames_to(run(s, sent_by_server(frames)).1, Peer::Legit) == if s.legit_alive {
            frames
        } else {
            seq![]
        },
        frames_to(run(s, sent_by_server(frames)).1, Peer::Upstream) == Seq::<Seq<u8>>::empty(),
    decreases frames.len(),
{
    let evs = sent_by_server(frames);
    if frames.len() == 0 {
        assert(evs =~= seq![]);
        assert(frames =~= seq![]);
    } else {
        let init = frames.drop_last();
        lemma_broadcast_order(s, init);
        assert(evs.drop_last() =~= sent_by_server(init));
        let f = frames.last();
        let (s1, out1) = run(s, sent_by_server(init));
        let o = step(s1, EventView::ServerData(f)).1;
        assert(run(s, evs).1 == out1 + o);
        let to_cheat = if s.cheat_alive {
            seq![(Peer::Cheat, f)]
        } else {
            seq![]
        };
        let to_legit = if s.legit_alive {
            seq![(Peer::Legit, f)]
        } else {
            seq![]
        };
        assert(o == to_cheat + to_legit);
        assert forall|p: Peer| #[trigger] frames_to(o, p) == (if p == Peer::Cheat && s.cheat_alive {
            seq![f]
        } else if p == Peer::Legit && s.legit_alive {
            seq![f]
        } else {
            Seq::<Seq<u8>>::empty()
        }) by {
            lemma_frames_to_concat(to_cheat, to_legit, p);
            reveal_with_fuel(frames_to, 2);
            assert(seq![(Peer::Cheat, f)].drop_last() =~= Seq::<(Peer, Seq<u8>)>::empty());
            assert(seq![(Peer::Legit, f)].drop_last() =~= Seq::<(Peer, Seq<u8>)>::empty());
            assert(Seq::<Seq<u8>>::empty().push(f) =~= seq![f]);
            assert(Seq::<Seq<u8>>::empty() + Seq::<Seq<u8>>::empty() =~= Seq::<Seq<u8>>::empty());
            assert(seq![f] + Seq::<Seq<u8>>::empty() =~= seq![f]);
            assert(Seq::<Seq<u8>>::empty() + seq![f] =~= seq![f]);
        }
        lemma_frames_to_concat(out1, o, Peer::Cheat);
        lemma_frames_to_concat(out1, o, Peer::Legit);
        lemma_frames_to_concat(out1, o, Peer::Upstream);
        assert(init.push(f) =~= frames);
        assert(init + seq![f] =~= frames);
        assert(Seq::<Seq<u8>>::empty() + Seq::<Seq<u8>>::empty() =~= Seq::<Seq<u8>>::empty());
    }
}

} // verus!
