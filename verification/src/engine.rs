use vstd::prelude::*;
use crate::config::Config;
use crate::messages::{Disconnect, ForwardJoin, HyParViewMessage, Join, JoinAck, NeighborRequest,
    NeighborResponse, Priority, Shuffle, ShuffleReply};
use crate::peer::PeerId;
use crate::rng::XorShiftRng;
use crate::views::ViewStore;

verus! {

/// A frame the engine asks the transport to send; the header sender is
/// always the local node.
#[derive(PartialEq, Debug)]
pub enum OutMessage {
    Join(Join),
    ForwardJoin(ForwardJoin),
    JoinAck(JoinAck),
    Disconnect(Disconnect),
    NeighborRequest(NeighborRequest),
    NeighborResponse(NeighborResponse),
    Shuffle(Shuffle),
    ShuffleReply(ShuffleReply),
}

/// One effect of an event: a frame to a peer, or opening or closing the
/// stream (and so the writer-map entry) for a peer.
#[derive(PartialEq, Debug)]
pub enum Action {
    Send(PeerId, OutMessage),
    Open(PeerId),
    Close(PeerId),
}

// ---------------------------------------------------------------------------
// The writer-map discipline: a frame may only be sent to a peer whose stream
// is open at that point in the action sequence.
// ---------------------------------------------------------------------------

/// How one action changes the set of peers with open streams.
pub open spec fn writer_step(ws: Set<PeerId>, a: Action) -> Set<PeerId> {
    match a {
        Action::Send(_, _) => ws,
        Action::Open(p) => ws.insert(p),
        Action::Close(p) => ws.remove(p),
    }
}

pub open spec fn send_allowed(ws: Set<PeerId>, a: Action) -> bool {
    match a {
        Action::Send(p, _) => ws.contains(p),
        Action::Open(_) => true,
        Action::Close(_) => true,
    }
}

/// Every `Send` in `acts` goes to a peer whose stream is open when it is
/// emitted, starting from the writer map `ws`.
pub open spec fn sends_ok(ws: Set<PeerId>, acts: Seq<Action>) -> bool
    decreases acts.len(),
{
    acts.len() == 0 || (send_allowed(ws, acts[0]) && sends_ok(
        writer_step(ws, acts[0]),
        acts.skip(1),
    ))
}

/// The writer map after performing `acts` from `ws`.
pub open spec fn writers_after(ws: Set<PeerId>, acts: Seq<Action>) -> Set<PeerId>
    decreases acts.len(),
{
    if acts.len() == 0 {
        ws
    } else {
        writers_after(writer_step(ws, acts[0]), acts.skip(1))
    }
}

proof fn lemma_sends_ok_push(ws: Set<PeerId>, acts: Seq<Action>, a: Action)
    ensures
        sends_ok(ws, acts.push(a)) == (sends_ok(ws, acts) && send_allowed(
            writers_after(ws, acts),
            a,
        )),
        writers_after(ws, acts.push(a)) == writer_step(writers_after(ws, acts), a),
    decreases acts.len(),
{
    if acts.len() == 0 {
        assert(acts.push(a)[0] == a);
        assert(acts.push(a).skip(1) =~= Seq::<Action>::empty());
        assert(sends_ok(writer_step(ws, a), Seq::<Action>::empty()));
        assert(writers_after(writer_step(ws, a), Seq::<Action>::empty()) == writer_step(ws, a));
        assert(writers_after(ws, acts) == ws);
        assert(sends_ok(ws, acts));
    } else {
        assert(acts.push(a)[0] == acts[0]);
        assert(acts.push(a).skip(1) =~= acts.skip(1).push(a));
        lemma_sends_ok_push(writer_step(ws, acts[0]), acts.skip(1), a);
        assert(sends_ok(ws, acts.push(a)) == (send_allowed(ws, acts[0]) && sends_ok(
            writer_step(ws, acts[0]),
            acts.skip(1).push(a),
        )));
        assert(writers_after(ws, acts.push(a)) == writers_after(
            writer_step(ws, acts[0]),
            acts.skip(1).push(a),
        ));
        assert(sends_ok(ws, acts) == (send_allowed(ws, acts[0]) && sends_ok(
            writer_step(ws, acts[0]),
            acts.skip(1),
        )));
        assert(writers_after(ws, acts) == writers_after(writer_step(ws, acts[0]), acts.skip(1)));
    }
}

/// A send sequence legal from a writer map stays legal from a larger one.
proof fn lemma_sends_ok_mono(ws1: Set<PeerId>, ws2: Set<PeerId>, acts: Seq<Action>)
    requires
        ws1.subset_of(ws2),
        sends_ok(ws1, acts),
    ensures
        sends_ok(ws2, acts),
    decreases acts.len(),
{
    if acts.len() > 0 {
        assert(writer_step(ws1, acts[0]).subset_of(writer_step(ws2, acts[0]))) by {
            match acts[0] {
                Action::Send(_, _) => {},
                Action::Open(p) => {},
                Action::Close(p) => {},
            }
        }
        lemma_sends_ok_mono(writer_step(ws1, acts[0]), writer_step(ws2, acts[0]), acts.skip(1));
    }
}

// ---------------------------------------------------------------------------
// Counting emitted frames of a given kind.
// ---------------------------------------------------------------------------

pub open spec fn is_forward_join_send(a: Action) -> bool {
    a matches Action::Send(_, OutMessage::ForwardJoin(_))
}

pub open spec fn is_join_ack_send(a: Action) -> bool {
    a matches Action::Send(_, OutMessage::JoinAck(_))
}

pub open spec fn is_shuffle_reply_send(a: Action) -> bool {
    a matches Action::Send(_, OutMessage::ShuffleReply(_))
}

pub open spec fn is_shuffle_send(a: Action) -> bool {
    a matches Action::Send(_, OutMessage::Shuffle(_))
}

/// How many actions in `acts` satisfy `f`.
pub open spec fn count(acts: Seq<Action>, f: spec_fn(Action) -> bool) -> int
    decreases acts.len(),
{
    if acts.len() == 0 {
        0
    } else {
        count(acts.drop_last(), f) + if f(acts.last()) {
            1int
        } else {
            0int
        }
    }
}

proof fn lemma_count_push(acts: Seq<Action>, f: spec_fn(Action) -> bool, a: Action)
    ensures
        count(acts.push(a), f) == count(acts, f) + if f(a) {
            1int
        } else {
            0int
        },
{
    assert(acts.push(a).drop_last() =~= acts);
    assert(acts.push(a).last() == a);
}

/// How many members of `s` differ from `p`.
pub open spec fn count_excl(s: Seq<PeerId>, p: PeerId) -> int
    decreases s.len(),
{
    if s.len() == 0 {
        0
    } else {
        count_excl(s.drop_last(), p) + if s.last() != p {
            1int
        } else {
            0int
        }
    }
}

/// In a duplicate-free list the members other than `p` number the length,
/// less one if `p` is present.
proof fn lemma_count_excl(s: Seq<PeerId>, p: PeerId)
    requires
        s.no_duplicates(),
    ensures
        count_excl(s, p) == s.len() - if s.contains(p) {
            1int
        } else {
            0int
        },
    decreases s.len(),
{
    if s.len() > 0 {
        let pre = s.drop_last();
        assert(pre.no_duplicates());
        lemma_count_excl(pre, p);
        if s.last() == p {
            assert(!pre.contains(p)) by {
                if pre.contains(p) {
                    let j = choose|j: int| 0 <= j < pre.len() && pre[j] == p;
                    assert(s[j] == p && s[s.len() - 1] == p && j != s.len() - 1);
                }
            }
            assert(s.contains(p)) by {
                assert(s[s.len() - 1] == p);
            }
        } else {
            assert(s.contains(p) == pre.contains(p)) by {
                if s.contains(p) {
                    let j = choose|j: int| 0 <= j < s.len() && s[j] == p;
                    assert(pre[j] == p);
                }
                if pre.contains(p) {
                    let j = choose|j: int| 0 <= j < pre.len() && pre[j] == p;
                    assert(s[j] == p);
                }
            }
        }
    }
}

// ---------------------------------------------------------------------------
// What each event does, as predicates over the engine before and after and
// the emitted actions. Every handler ensures its predicate, and
// `handle_event` forwards the matching one, so the dispatcher's contract
// carries the whole per-event behaviour.
// ---------------------------------------------------------------------------

/// The "always accept" adoption of `p` into the active view: a no-op when
/// already present; a plain insert (promoting `p` out of the passive view)
/// while there is room; and otherwise the eviction of one current member,
/// which is demoted to the passive view and sent DISCONNECT before its
/// stream closes.
pub open spec fn adopts(pre: ViewStore, post: ViewStore, p: PeerId, out: Seq<Action>) -> bool {
    &&& post.active@.contains(p)
    &&& (pre.active@.contains(p) ==> post.active@ == pre.active@ && post.passive@ == pre.passive@)
    &&& (!pre.active@.contains(p) && pre.active@.len() < pre.active_view_size
        ==> post.active@.to_set() == pre.active@.to_set().insert(p) && post.passive@.to_set()
        == pre.passive@.to_set().remove(p))
    &&& (!pre.active@.contains(p) && pre.active@.len() >= pre.active_view_size ==> exists|e: PeerId|
        #[trigger] pre.active@.contains(e) && e != p && post.active@.to_set()
            == pre.active@.to_set().remove(e).insert(p) && post.passive@.contains(e)
            && !post.passive@.contains(p) && (forall|x: PeerId| post.passive@.contains(x) ==> x == e
            || pre.passive@.contains(x)) && out.contains(Action::Send(
            e,
            OutMessage::Disconnect(Disconnect),
        )) && out.contains(Action::Close(e)))
}

/// A member evicted from the active view is eligible for the passive view:
/// it is not the node itself, no longer active, and (the views being
/// disjoint) not passive either.
proof fn lemma_evicted_eligible(pre: ViewStore, mid: ViewStore, p: PeerId, e: PeerId)
    requires
        pre.wf(),
        pre.active@.contains(e),
        e != p,
        mid.self_id == pre.self_id,
        mid.active@.to_set() == pre.active@.to_set().remove(e).insert(p),
        mid.passive@.to_set() == pre.passive@.to_set().remove(p),
    ensures
        mid.passive_eligible(e),
{
    assert(e != pre.self_id);
    assert(!mid.active@.contains(e)) by {
        if mid.active@.contains(e) {
            assert(mid.active@.to_set().contains(e));
        }
    }
    assert(!mid.passive@.contains(e)) by {
        if mid.passive@.contains(e) {
            assert(mid.passive@.to_set().contains(e));
            assert(pre.passive@.to_set().contains(e));
            assert(pre.passive@.contains(e));
        }
    }
}

/// Inbound JOIN from `p`: `p` is adopted, answered with exactly one
/// JOIN_ACK, and announced once to every other previously active peer with
/// `ttl = arwl`.
pub open spec fn join_effect(pre: Engine, post: Engine, p: PeerId, out: Seq<Action>) -> bool {
    &&& p == pre.self_id() ==> out == Seq::<Action>::empty() && post.views == pre.views
    &&& p != pre.self_id() ==> {
        &&& adopts(pre.views, post.views, p, out)
        &&& count(out, |a: Action| is_join_ack_send(a)) == 1
        &&& count(out, |a: Action| is_forward_join_send(a)) == pre.views.active@.len() - if
            pre.views.active@.contains(p) {
            1int
        } else {
            0int
        }
        &&& forall|i: int| 0 <= i < out.len() && is_join_ack_send(out[i]) ==> out[i]
            == Action::Send(p, OutMessage::JoinAck(JoinAck))
        &&& forall|i: int| 0 <= i < out.len() && is_forward_join_send(out[i]) ==> (out[i] matches
            Action::Send(q, OutMessage::ForwardJoin(fj)) && pre.views.active@.contains(q) && q != p
            && fj == (ForwardJoin {
            originator: p,
            arwl: pre.config.active_random_walk_length,
            prwl: pre.config.passive_random_walk_length,
            ttl: pre.config.active_random_walk_length,
        }))
    }
}

/// Inbound FORWARD_JOIN carrying `fj` from neighbour `from`: a terminal hop
/// adopts the originator and answers JOIN_ACK; a non-terminal hop forwards
/// exactly one copy with the TTL one less, recording the originator
/// passively when the TTL equals the walk's `prwl`.
pub open spec fn forward_join_effect(
    pre: Engine,
    post: Engine,
    fj: ForwardJoin,
    from: PeerId,
    out: Seq<Action>,
) -> bool {
    &&& fj.originator == pre.self_id() ==> out == Seq::<Action>::empty() && post.views
        == pre.views
    &&& forall|i: int| 0 <= i < out.len() && is_forward_join_send(out[i]) ==> (out[i] matches
        Action::Send(r, OutMessage::ForwardJoin(f)) && fj.ttl > 0 && f == (ForwardJoin {
        originator: fj.originator,
        arwl: fj.arwl,
        prwl: fj.prwl,
        ttl: (fj.ttl - 1) as u8,
    }) && pre.views.active@.contains(r) && r != from)
    &&& count(out, |a: Action| is_forward_join_send(a)) <= 1
    &&& fj.originator != pre.self_id() ==> {
        let terminal = fj.ttl == 0 || pre.views.active@.len() == 1 || only_peer(
            pre.views.active@,
            from,
        );
        &&& terminal ==> adopts(pre.views, post.views, fj.originator, out) && count(
            out,
            |a: Action| is_join_ack_send(a),
        ) == 1 && (forall|i: int| 0 <= i < out.len() && is_join_ack_send(out[i]) ==> out[i]
            == Action::Send(fj.originator, OutMessage::JoinAck(JoinAck))) && count(
            out,
            |a: Action| is_forward_join_send(a),
        ) == 0
        &&& !terminal ==> {
            &&& count(out, |a: Action| is_forward_join_send(a)) == 1
            &&& post.views.active@ == pre.views.active@
            &&& fj.ttl != fj.prwl ==> post.views.passive@ == pre.views.passive@
            &&& fj.ttl == fj.prwl && pre.views.passive_eligible(fj.originator)
                ==> post.views.passive@.contains(fj.originator)
            &&& forall|x: PeerId| post.views.passive@.contains(x)
                ==> pre.views.passive@.contains(x) || x == fj.originator
        }
    }
}

/// Inbound JOIN_ACK from `p`: `p` is adopted and the node records itself as
/// joined.
pub open spec fn join_ack_effect(pre: Engine, post: Engine, p: PeerId, out: Seq<Action>) -> bool {
    &&& p == pre.self_id() ==> out == Seq::<Action>::empty() && post.views == pre.views
    &&& p != pre.self_id() ==> adopts(pre.views, post.views, p, out) && post.joined
}

/// Loss of the link to `p`: `p` leaves the active view and enters the
/// passive view (nothing else does), and an underfull active view prompts a
/// NEIGHBOR_REQUEST to a random passive peer, High exactly when the active
/// view is empty.
pub open spec fn disconnect_effect(pre: Engine, post: Engine, p: PeerId, out: Seq<Action>) -> bool {
    &&& post.views.active@.to_set() == pre.views.active_set().remove(p)
    &&& p != pre.self_id() ==> post.views.passive@.contains(p)
    &&& forall|x: PeerId| post.views.passive@.contains(x) ==> pre.views.passive@.contains(x) || x
        == p
    &&& post.views.active@.len() < pre.views.active_view_size && post.views.passive@.len() > 0
        ==> exists|t: PeerId|
        post.views.passive@.contains(t) && out.contains(Action::Open(t)) && out.contains(
            Action::Send(t, OutMessage::NeighborRequest(NeighborRequest {
                priority: if post.views.active@.len() == 0 {
                    Priority::High
                } else {
                    Priority::Low
                },
            })),
        )
}

/// Inbound NEIGHBOR_REQUEST from `p`: High, or Low with room, adopts `p` and
/// answers Accept; Low against a full view answers Reject alone and changes
/// nothing.
pub open spec fn neighbor_request_effect(
    pre: Engine,
    post: Engine,
    m: NeighborRequest,
    p: PeerId,
    out: Seq<Action>,
) -> bool {
    &&& p == pre.self_id() ==> out == Seq::<Action>::empty() && post.views == pre.views
    &&& p != pre.self_id() && (m.priority == Priority::High || pre.views.active@.len()
        < pre.views.active_view_size) ==> adopts(pre.views, post.views, p, out) && out.len() >= 1
        && out.last() == Action::Send(p, OutMessage::NeighborResponse(NeighborResponse {
        result: crate::messages::Result::Accept,
    }))
    &&& p != pre.self_id() && m.priority == Priority::Low && pre.views.active@.len()
        >= pre.views.active_view_size ==> post.views == pre.views && out =~= seq![
        Action::Send(p, OutMessage::NeighborResponse(NeighborResponse {
                result: crate::messages::Result::Reject,
            })),
    ]
}

/// Inbound NEIGHBOR_RESPONSE from `p`: Accept adopts `p`; Reject leaves the
/// views unchanged and, while the active view is underfull and another
/// passive peer exists, asks that peer next.
pub open spec fn neighbor_response_effect(
    pre: Engine,
    post: Engine,
    m: NeighborResponse,
    p: PeerId,
    out: Seq<Action>,
) -> bool {
    &&& p == pre.self_id() ==> out == Seq::<Action>::empty() && post.views == pre.views
    &&& p != pre.self_id() && m.result == crate::messages::Result::Accept ==> adopts(
        pre.views,
        post.views,
        p,
        out,
    )
    &&& m.result == crate::messages::Result::Reject ==> post.views.active@ == pre.views.active@
        && post.views.passive@ == pre.views.passive@
    &&& p != pre.self_id() && m.result == crate::messages::Result::Reject
        && pre.views.active@.len() < pre.views.active_view_size && (exists|w: PeerId|
        pre.views.passive@.contains(w) && w != p) ==> exists|t: PeerId|
        t != p && pre.views.passive@.contains(t) && out.contains(Action::Open(t)) && out.contains(
            Action::Send(t, OutMessage::NeighborRequest(NeighborRequest {
                priority: if pre.views.active@.len() == 0 {
                    Priority::High
                } else {
                    Priority::Low
                },
            })),
        )
}

/// Inbound SHUFFLE (as its view `m`) from `q`: the active view never
/// changes, the passive view gains only offered nodes; a positive TTL with
/// another active peer forwards one copy with the TTL one less, and a
/// terminal hop merges the offer and answers the originator with exactly one
/// SHUFFLE_REPLY echoing the offered list and returning
/// `min(|passive|, |nodes|)` distinct passive members.
pub open spec fn shuffle_effect(
    pre: Engine,
    post: Engine,
    m: crate::messages::ShuffleView,
    q: PeerId,
    out: Seq<Action>,
) -> bool {
    &&& m.originator == pre.self_id() ==> out == Seq::<Action>::empty() && post.views == pre.views
    &&& post.views.active@ == pre.views.active@
    &&& forall|x: PeerId| post.views.passive@.contains(x) ==> pre.views.passive@.contains(x)
        || m.nodes.contains(x)
    &&& forall|i: int| 0 <= i < out.len() && is_shuffle_reply_send(out[i]) ==> (out[i] matches
        Action::Send(t, OutMessage::ShuffleReply(sr)) && t == m.originator && sr.sent_nodes@
        == m.nodes && sr.nodes@.no_duplicates() && sr.nodes@.len() == (if m.nodes.len()
        <= pre.views.passive@.len() {
        m.nodes.len() as int
    } else {
        pre.views.passive@.len() as int
    }) && (forall|x: PeerId| sr.nodes@.contains(x) ==> pre.views.passive@.contains(x)))
    &&& forall|i: int| 0 <= i < out.len() && is_shuffle_send(out[i]) ==> (out[i] matches
        Action::Send(r, OutMessage::Shuffle(f)) && m.ttl > 0 && f.ttl == m.ttl - 1 && f.originator
        == m.originator && f.nodes@ == m.nodes && pre.views.active@.contains(r) && r != q)
    &&& m.originator != pre.self_id() ==> {
        let terminal = m.ttl == 0 || only_peer(pre.views.active@, q);
        &&& terminal ==> count(out, |a: Action| is_shuffle_reply_send(a)) == 1
        &&& !terminal ==> count(out, |a: Action| is_shuffle_send(a)) == 1
        &&& terminal && pre.views.passive@.len() + m.nodes.len() <= pre.views.passive_view_size
            ==> forall|x: PeerId|
            m.nodes.contains(x) && x != pre.self_id() && !pre.views.active@.contains(x)
                ==> post.views.passive@.contains(x)
    }
}

/// Inbound SHUFFLE_REPLY (as its view `m`): nothing is sent; the active view
/// never changes; the passive view gains only offered nodes, all of them
/// when it has room for the whole offer. Which member yields when it is full
/// is the per-insertion contract of `ViewStore::add_passive_preferring`:
/// the peers in `sent_nodes` yield first.
pub open spec fn shuffle_reply_effect(
    pre: Engine,
    post: Engine,
    m: crate::messages::ShuffleReplyView,
    out: Seq<Action>,
) -> bool {
    &&& out == Seq::<Action>::empty()
    &&& post.views.active@ == pre.views.active@
    &&& forall|x: PeerId| post.views.passive@.contains(x) ==> pre.views.passive@.contains(x)
        || m.nodes.contains(x)
    &&& pre.views.passive@.len() + m.nodes.len() <= pre.views.passive_view_size ==> forall|
        x: PeerId,
    |
        m.nodes.contains(x) && x != pre.self_id() && !pre.views.active@.contains(x)
            ==> post.views.passive@.contains(x)
}

/// Bootstrap: with a usable contact, the node opens a stream to one random
/// contact, sends JOIN first and adopts the contact; with none, nothing
/// happens.
pub open spec fn bootstrap_effect(pre: Engine, post: Engine, out: Seq<Action>) -> bool {
    &&& out.len() == 0 ==> post.views == pre.views
    &&& out.len() == 0 || exists|c: PeerId|
        #[trigger] pre.config.contact_nodes@.contains(c) && c != pre.self_id() && out[0]
            == Action::Open(c) && out[1] == Action::Send(c, OutMessage::Join(Join)) && adopts(
            pre.views,
            post.views,
            c,
            out,
        )
    &&& pre.config.contact_nodes@.len() > 0 && !pre.config.contact_nodes@.contains(pre.self_id())
        ==> out.len() >= 2
}

/// Shuffle round: a non-empty active view sends exactly one SHUFFLE to a
/// random active peer, offering this node first and then duplicate-free
/// samples of both views, with the configured walk length as TTL; the views
/// do not change.
pub open spec fn shuffle_tick_effect(pre: Engine, post: Engine, out: Seq<Action>) -> bool {
    &&& post.views == pre.views
    &&& pre.views.active@.len() == 0 ==> out == Seq::<Action>::empty()
    &&& pre.views.active@.len() > 0 ==> out.len() == 1
    &&& forall|i: int| 0 <= i < out.len() ==> #[trigger] is_shuffle_send(out[i]) && (out[i] matches
        Action::Send(r, OutMessage::Shuffle(f)) && pre.views.active@.contains(r) && f.originator
        == pre.self_id() && f.ttl == pre.config.shuffle_walk_length && f.nodes@.len() >= 1
        && f.nodes@[0] == pre.self_id() && f.nodes@.len() <= 255 && f.nodes@.no_duplicates() && (
        forall|k: int|
            1 <= k < f.nodes@.len() ==> pre.views.active@.contains(f.nodes@[k])
                || pre.views.passive@.contains(f.nodes@[k])) && f.nodes@.len() == 1 + (if
        pre.config.shuffle_active_view_count as int <= pre.views.active@.len() - 1 {
        pre.config.shuffle_active_view_count as int
    } else {
        pre.views.active@.len() - 1
    }) + (if pre.config.shuffle_passive_view_count as int <= pre.views.passive@.len() {
        pre.config.shuffle_passive_view_count as int
    } else {
        pre.views.passive@.len() as int
    }))
}

// ---------------------------------------------------------------------------
// The membership engine.
// ---------------------------------------------------------------------------

/// The protocol state machine: it owns the two views and reacts to each
/// event with view mutations and a sequence of actions for the transport.
pub struct Engine {
    pub config: Config,
    pub views: ViewStore,
    pub rng: XorShiftRng,
    pub joined: bool,
}

impl Engine {
    pub open spec fn self_id(self) -> PeerId {
        self.views.self_id
    }

    pub open spec fn wf(self) -> bool {
        &&& self.views.wf()
        &&& self.config.wf()
        &&& self.views.self_id == self.config.local_addr
        &&& self.views.active_view_size == self.config.active_view_size
        &&& self.views.passive_view_size == self.config.passive_view_size
    }

    /// The engine and the next engine agree on identity and limits.
    pub open spec fn same_config(self, other: Engine) -> bool {
        self.config == other.config && self.views.self_id == other.views.self_id
            && self.views.active_view_size == other.views.active_view_size
            && self.views.passive_view_size == other.views.passive_view_size
    }

    pub fn new(config: Config, seed: u64) -> (r: Engine)
        requires
            config.wf(),
        ensures
            r.wf(),
            r.config == config,
            r.views.active@ == Seq::<PeerId>::empty(),
            r.views.passive@ == Seq::<PeerId>::empty(),
            !r.joined,
    {
        let self_id = config.local_addr;
        let active_view_size = config.active_view_size;
        let passive_view_size = config.passive_view_size;
        Engine {
            config,
            views: ViewStore::new(self_id, active_view_size, passive_view_size),
            rng: XorShiftRng::new(seed),
            joined: false,
        }
    }

    /// Inbound JOIN from `p`: `p` is always accepted into the active view
    /// (evicting a random member of a full view), answered with exactly one
    /// JOIN_ACK, and announced with one FORWARD_JOIN to every other peer that
    /// was in the active view, carrying `ttl = arwl`.
    pub fn handle_join(&mut self, p: PeerId) -> (out: Vec<Action>)
        requires
            old(self).wf(),
        ensures
            final(self).wf(),
            old(self).same_config(*final(self)),
            sends_ok(old(self).views.active_set().insert(p), out@),
            join_effect(*old(self), *final(self), p, out@),
    {
        let mut out: Vec<Action> = Vec::new();
        if p == self.views.self_id {
            return out;
        }
        let ghost ws0 = old(self).views.active_set().insert(p);
        let ghost acts0 = self.views.active@;
        let arwl = self.config.active_random_walk_length;
        let prwl = self.config.passive_random_walk_length;
        let fj = ForwardJoin { originator: p, arwl, prwl, ttl: arwl };
        let n = self.views.active.len();
        let mut i: usize = 0;
        while i < n
        invariant
            self == old(self),
            acts0 == self.views.active@,
            ws0 == old(self).views.active_set().insert(p),
            old(self).wf(),
            p != old(self).self_id(),
            fj == (ForwardJoin {
                originator: p,
                arwl: old(self).config.active_random_walk_length,
                prwl: old(self).config.passive_random_walk_length,
                ttl: old(self).config.active_random_walk_length,
            }),
            n == acts0.len(),
            i <= n,
            sends_ok(ws0, out@),
            writers_after(ws0, out@) == ws0,
            count(out@, |a: Action| is_join_ack_send(a)) == 0,
            count(out@, |a: Action| is_forward_join_send(a)) == count_excl(
                acts0.take(i as int),
                p,
            ),
            forall|k: int| 0 <= k < out@.len() && is_forward_join_send(out@[k])
                ==> (out@[k] matches Action::Send(q, OutMessage::ForwardJoin(f))
                    && acts0.contains(q) && q != p && f == fj),
            forall|k: int| 0 <= k < out@.len() ==> is_forward_join_send(out@[k]),
        decreases n - i,
        {
            let q = self.views.active[i];
            proof {
                assert(acts0.take(i + 1).drop_last() =~= acts0.take(i as int));
                assert(acts0.take(i + 1).last() == acts0[i as int]);
            }
            if q != p {
                let a = Action::Send(q, OutMessage::ForwardJoin(fj));
                let ghost pre = out@;
                proof {
                    lemma_sends_ok_push(ws0, out@, a);
                    lemma_count_push(out@, |x: Action| is_join_ack_send(x), a);
                    lemma_count_push(out@, |x: Action| is_forward_join_send(x), a);
                    assert(acts0.contains(q)) by {
                        assert(acts0[i as int] == q);
                    }
                    assert(acts0.to_set().contains(q));
                    assert(ws0.contains(q));
                }
                out.push(a);
                proof {
                    assert forall|k: int| 0 <= k < out@.len() && is_forward_join_send(out@[k])
                        implies (out@[k] matches Action::Send(qq, OutMessage::ForwardJoin(f))
                            && acts0.contains(qq) && qq != p && f == fj) by {
                        if k < out@.len() - 1 {
                            assert(out@[k] == pre[k]);
                        } else {
                            assert(out@[k] == a);
                        }
                    }
                }
            }
            i = i + 1;
        }
        proof {
            assert(acts0.take(n as int) =~= acts0);
            lemma_count_excl(acts0, p);
        }
        let ghost mut i1: int = 0;
        let evicted = self.views.add_active(p, &mut self.rng);
        if let Option::Some(e) = evicted {
            proof {
                lemma_evicted_eligible(old(self).views, self.views, p, e);
            }
            self.views.add_passive(e, &mut self.rng);
            let a1 = Action::Send(e, OutMessage::Disconnect(Disconnect));
            let a2 = Action::Close(e);
            proof {
                lemma_sends_ok_push(ws0, out@, a1);
                lemma_count_push(out@, |x: Action| is_join_ack_send(x), a1);
                lemma_count_push(out@, |x: Action| is_forward_join_send(x), a1);
                assert(acts0.to_set().contains(e));
                assert(ws0.contains(e));
                i1 = out@.len() as int;
            }
            out.push(a1);
            proof {
                lemma_sends_ok_push(ws0, out@, a2);
                lemma_count_push(out@, |x: Action| is_join_ack_send(x), a2);
                lemma_count_push(out@, |x: Action| is_forward_join_send(x), a2);
            }
            out.push(a2);
        }
        let ack = Action::Send(p, OutMessage::JoinAck(JoinAck));
        proof {
            lemma_sends_ok_push(ws0, out@, ack);
            lemma_count_push(out@, |x: Action| is_join_ack_send(x), ack);
            lemma_count_push(out@, |x: Action| is_forward_join_send(x), ack);
            if let Option::Some(e) = evicted {
                assert(writers_after(ws0, out@) == ws0.remove(e));
                assert(e != p);
                assert(ws0.remove(e).contains(p)) by {
                    assert(ws0.contains(p));
                }
            } else {
                assert(writers_after(ws0, out@) == ws0);
            }
        }
        out.push(ack);
        proof {
            if let Option::Some(e) = evicted {
                assert(out@[i1] == Action::Send(e, OutMessage::Disconnect(Disconnect)));
                assert(out@[i1 + 1] == Action::Close(e));
                assert(out@.contains(Action::Send(e, OutMessage::Disconnect(Disconnect))));
                assert(out@.contains(Action::Close(e)));
                assert(old(self).views.active@.contains(e));
            }
            if let Option::Some(e) = evicted {
                assert(self.views.passive@.contains(e));
                assert(!self.views.passive@.contains(p));
                assert forall|x: PeerId| self.views.passive@.contains(x) implies x == e || old(self).views.passive@.contains(x) by {}
                assert(self.views.active@.to_set() == old(self).views.active@.to_set().remove(
                    e,
                ).insert(p));
            } else {
                if old(self).views.active@.contains(p) {
                    assert(self.views.active@ == old(self).views.active@);
                    assert(self.views.passive@ == old(self).views.passive@);
                } else {
                    assert(self.views.active@.to_set() == old(self).views.active@.to_set().insert(
                        p,
                    ));
                    assert(self.views.passive@.to_set() == old(self).views.passive@.to_set().remove(
                        p,
                    ));
                }
            }
            assert(adopts(old(self).views, self.views, p, out@));
        }
        out
    }
}


/// Every member of `s` is `q`.
pub open spec fn only_peer(s: Seq<PeerId>, q: PeerId) -> bool {
    forall|x: PeerId| s.contains(x) ==> x == q
}

impl Engine {
    /// Inbound FORWARD_JOIN from neighbour `from`. A terminal hop (TTL zero,
    /// a lone active peer, or no forwarding target other than `from`) accepts
    /// the originator into the active view and answers it with JOIN_ACK; a
    /// non-terminal hop forwards exactly one copy with the TTL decremented by
    /// one, first recording the originator in the passive view when the TTL
    /// equals the walk's `prwl`. A FORWARD_JOIN about the node itself is
    /// dropped.
    pub fn handle_forward_join(&mut self, fj: ForwardJoin, from: PeerId) -> (out: Vec<Action>)
        requires
            old(self).wf(),
        ensures
            final(self).wf(),
            old(self).same_config(*final(self)),
            sends_ok(old(self).views.active_set().insert(from), out@),
            forward_join_effect(*old(self), *final(self), fj, from, out@),
    {
        let mut out: Vec<Action> = Vec::new();
        if fj.originator == self.views.self_id {
            return out;
        }
        let ghost ws0 = old(self).views.active_set().insert(from);
        let orig = fj.originator;
        let r_opt = self.views.random_active_except(&from, &mut self.rng);
        let no_r = match r_opt {
            Option::Some(_) => false,
            Option::None => true,
        };
        if fj.ttl == 0 || self.views.active.len() == 1 || no_r {
            let a0 = Action::Open(orig);
            proof {
                lemma_sends_ok_push(ws0, out@, a0);
                lemma_count_push(out@, |x: Action| is_join_ack_send(x), a0);
                lemma_count_push(out@, |x: Action| is_forward_join_send(x), a0);
            }
            out.push(a0);
            let evicted = self.views.add_active(orig, &mut self.rng);
            if let Option::Some(e) = evicted {
                proof {
                    lemma_evicted_eligible(old(self).views, self.views, orig, e);
                }
                self.views.add_passive(e, &mut self.rng);
                let a1 = Action::Send(e, OutMessage::Disconnect(Disconnect));
                proof {
                    lemma_sends_ok_push(ws0, out@, a1);
                    lemma_count_push(out@, |x: Action| is_join_ack_send(x), a1);
                    lemma_count_push(out@, |x: Action| is_forward_join_send(x), a1);
                    assert(old(self).views.active@.to_set().contains(e));
                    assert(writers_after(ws0, out@) == ws0.insert(orig));
                    assert(ws0.insert(orig).contains(e));
                }
                out.push(a1);
                let a2 = Action::Close(e);
                proof {
                    lemma_sends_ok_push(ws0, out@, a2);
                    lemma_count_push(out@, |x: Action| is_join_ack_send(x), a2);
                    lemma_count_push(out@, |x: Action| is_forward_join_send(x), a2);
                }
                out.push(a2);
                let ack = Action::Send(orig, OutMessage::JoinAck(JoinAck));
                proof {
                    lemma_sends_ok_push(ws0, out@, ack);
                    lemma_count_push(out@, |x: Action| is_join_ack_send(x), ack);
                    lemma_count_push(out@, |x: Action| is_forward_join_send(x), ack);
                    assert(writers_after(ws0, out@) == ws0.insert(orig).remove(e));
                    assert(e != orig);
                    assert(ws0.insert(orig).remove(e).contains(orig));
                }
                out.push(ack);
                proof {
                    assert(out@ =~= seq![a0, a1, a2, ack]);
                    assert forall|i: int| 0 <= i < out@.len() implies !is_forward_join_send(
                        out@[i],
                    ) && (is_join_ack_send(out@[i]) ==> out@[i] == Action::Send(
                        orig,
                        OutMessage::JoinAck(JoinAck),
                    )) by {}
                    assert(out@[1] == a1 && out@[2] == a2);
                    assert(out@.contains(Action::Send(e, OutMessage::Disconnect(Disconnect))));
                    assert(out@.contains(Action::Close(e)));
                    assert(old(self).views.active@.contains(e));
                    assert(self.views.passive@.contains(e));
                    assert(!self.views.passive@.contains(orig));
                    assert forall|x: PeerId| self.views.passive@.contains(x) implies x == e || old(self).views.passive@.contains(x) by {}
                    assert(adopts(old(self).views, self.views, orig, out@));
                }
            } else {
                let ack = Action::Send(orig, OutMessage::JoinAck(JoinAck));
                proof {
                    lemma_sends_ok_push(ws0, out@, ack);
                    lemma_count_push(out@, |x: Action| is_join_ack_send(x), ack);
                    lemma_count_push(out@, |x: Action| is_forward_join_send(x), ack);
                    assert(writers_after(ws0, out@) == ws0.insert(orig));
                }
                out.push(ack);
                proof {
                    assert(out@ =~= seq![a0, ack]);
                    assert forall|i: int| 0 <= i < out@.len() implies !is_forward_join_send(
                        out@[i],
                    ) && (is_join_ack_send(out@[i]) ==> out@[i] == Action::Send(
                        orig,
                        OutMessage::JoinAck(JoinAck),
                    )) by {}
                    if old(self).views.active@.contains(orig) {
                        assert(self.views.active@ == old(self).views.active@);
                        assert(self.views.passive@ == old(self).views.passive@);
                    } else {
                        assert(self.views.active@.to_set() == old(self).views.active@.to_set().insert(orig));
                        assert(self.views.passive@.to_set() == old(self).views.passive@.to_set().remove(orig));
                    }
                    assert(adopts(old(self).views, self.views, orig, out@));
                }
            }
        } else {
            if let Option::Some(r) = r_opt {
                if fj.ttl == fj.prwl {
                    self.views.add_passive(orig, &mut self.rng);
                }
                let f2 = ForwardJoin {
                    originator: orig,
                    arwl: fj.arwl,
                    prwl: fj.prwl,
                    ttl: fj.ttl - 1,
                };
                let a = Action::Send(r, OutMessage::ForwardJoin(f2));
                proof {
                    lemma_sends_ok_push(ws0, out@, a);
                    lemma_count_push(out@, |x: Action| is_join_ack_send(x), a);
                    lemma_count_push(out@, |x: Action| is_forward_join_send(x), a);
                    assert(old(self).views.active@.to_set().contains(r));
                    assert(ws0.contains(r));
                }
                out.push(a);
                proof {
                    assert(out@ =~= seq![a]);
                }
            }
        }
        out
    }

    /// Inbound JOIN_ACK from `p`: our JOIN (or neighbour handshake) was
    /// accepted, so make sure `p` is in the active view and record that the
    /// node is joined.
    pub fn handle_join_ack(&mut self, p: PeerId) -> (out: Vec<Action>)
        requires
            old(self).wf(),
        ensures
            final(self).wf(),
            old(self).same_config(*final(self)),
            sends_ok(old(self).views.active_set().insert(p), out@),
            join_ack_effect(*old(self), *final(self), p, out@),
    {
        let mut out: Vec<Action> = Vec::new();
        if p == self.views.self_id {
            return out;
        }
        let ghost ws0 = old(self).views.active_set().insert(p);
        self.joined = true;
        let evicted = self.views.add_active(p, &mut self.rng);
        if let Option::Some(e) = evicted {
            proof {
                lemma_evicted_eligible(old(self).views, self.views, p, e);
            }
            self.views.add_passive(e, &mut self.rng);
            let a1 = Action::Send(e, OutMessage::Disconnect(Disconnect));
            proof {
                lemma_sends_ok_push(ws0, out@, a1);
                assert(old(self).views.active@.to_set().contains(e));
                assert(ws0.contains(e));
            }
            out.push(a1);
            let a2 = Action::Close(e);
            proof {
                lemma_sends_ok_push(ws0, out@, a2);
            }
            out.push(a2);
        }
        proof {
            if let Option::Some(e) = evicted {
                assert(out@[out@.len() - 2] == Action::Send(
                    e,
                    OutMessage::Disconnect(Disconnect),
                ));
                assert(out@[out@.len() - 1] == Action::Close(e));
                assert(out@.contains(Action::Send(e, OutMessage::Disconnect(Disconnect))));
                assert(out@.contains(Action::Close(e)));
                assert(old(self).views.active@.contains(e));
            }
            if let Option::Some(e) = evicted {
                assert(self.views.passive@.contains(e));
                assert(!self.views.passive@.contains(p));
                assert forall|x: PeerId| self.views.passive@.contains(x) implies x == e || old(self).views.passive@.contains(x) by {}
                assert(self.views.active@.to_set() == old(self).views.active@.to_set().remove(
                    e,
                ).insert(p));
            } else {
                if old(self).views.active@.contains(p) {
                    assert(self.views.active@ == old(self).views.active@);
                    assert(self.views.passive@ == old(self).views.passive@);
                } else {
                    assert(self.views.active@.to_set() == old(self).views.active@.to_set().insert(
                        p,
                    ));
                    assert(self.views.passive@.to_set() == old(self).views.passive@.to_set().remove(
                        p,
                    ));
                }
            }
            assert(adopts(old(self).views, self.views, p, out@));
        }
        out
    }

    /// Loss of the link to `p`, graceful (inbound DISCONNECT) or detected by
    /// the transport: `p` moves from the active to the passive view, and an
    /// underfull active view prompts one NEIGHBOR_REQUEST towards a random
    /// passive peer, with priority High exactly when the active view is
    /// empty.
    pub fn handle_disconnect(&mut self, p: PeerId) -> (out: Vec<Action>)
        requires
            old(self).wf(),
        ensures
            final(self).wf(),
            old(self).same_config(*final(self)),
            sends_ok(old(self).views.active_set(), out@),
            disconnect_effect(*old(self), *final(self), p, out@),
    {
        let mut out: Vec<Action> = Vec::new();
        let ghost ws0 = old(self).views.active_set();
        let was = self.views.remove_active(&p);
        if was {
            let a = Action::Close(p);
            proof {
                lemma_sends_ok_push(ws0, out@, a);
            }
            out.push(a);
        }
        proof {
            assert(!self.views.active@.contains(p)) by {
                if self.views.active@.contains(p) {
                    assert(self.views.active@.to_set().contains(p));
                }
            }
        }
        self.views.add_passive(p, &mut self.rng);
        if self.views.active.len() < self.views.active_view_size && self.views.passive.len() > 0 {
            let empty: Vec<PeerId> = Vec::new();
            let picks = self.views.sample_passive(1, &empty, &mut self.rng);
            proof {
                let elig = self.views.passive_set().difference(empty@.to_set());
                assert(elig =~= self.views.passive_set());
                self.views.passive@.unique_seq_to_set();
                assert(elig.len() > 0);
                assert(picks@.len() == 1);
            }
            let t = picks[0];
            proof {
                assert(picks@.contains(t)) by {
                    assert(picks@[0] == t);
                }
            }
            let prio = if self.views.active.len() == 0 {
                Priority::High
            } else {
                Priority::Low
            };
            let a1 = Action::Open(t);
            proof {
                lemma_sends_ok_push(ws0, out@, a1);
            }
            out.push(a1);
            let a2 = Action::Send(t, OutMessage::NeighborRequest(NeighborRequest { priority: prio }));
            proof {
                lemma_sends_ok_push(ws0, out@, a2);
                assert(send_allowed(writers_after(ws0, out@), a2)) by {
                    if was {
                        assert(writers_after(ws0, out@) == ws0.remove(p).insert(t));
                    } else {
                        assert(writers_after(ws0, out@) == ws0.insert(t));
                    }
                }
            }
            out.push(a2);
            proof {
                assert(out@.contains(a1)) by {
                    assert(out@[out@.len() - 2] == a1);
                }
                assert(out@.contains(a2)) by {
                    assert(out@[out@.len() - 1] == a2);
                }
            }
        }
        out
    }
}


/// Copies a peer list.
fn clone_peers(v: &Vec<PeerId>) -> (r: Vec<PeerId>)
    ensures
        r@ == v@,
{
    let mut r: Vec<PeerId> = Vec::new();
    let mut i: usize = 0;
    while i < v.len()
        invariant
            i <= v@.len(),
            r@ == v@.take(i as int),
        decreases v@.len() - i,
    {
        r.push(v[i]);
        proof {
            assert(r@ =~= v@.take(i + 1));
        }
        i = i + 1;
    }
    proof {
        assert(v@.take(v@.len() as int) =~= v@);
    }
    r
}

impl Engine {
    /// Inbound NEIGHBOR_REQUEST from `p`: a High request is always accepted
    /// (evicting if the view is full); a Low request is accepted only while
    /// the active view has room, and otherwise answered with Reject and no
    /// view change.
    pub fn handle_neighbor_request(&mut self, m: NeighborRequest, p: PeerId) -> (out: Vec<Action>)
        requires
            old(self).wf(),
        ensures
            final(self).wf(),
            old(self).same_config(*final(self)),
            sends_ok(old(self).views.active_set().insert(p), out@),
            neighbor_request_effect(*old(self), *final(self), m, p, out@),
    {
        let mut out: Vec<Action> = Vec::new();
        if p == self.views.self_id {
            return out;
        }
        let ghost ws0 = old(self).views.active_set().insert(p);
        let accept = match m.priority {
            Priority::High => true,
            Priority::Low => self.views.active.len() < self.views.active_view_size,
        };
        if accept {
            let ghost mut i1: int = 0;
            let evicted = self.views.add_active(p, &mut self.rng);
            if let Option::Some(e) = evicted {
                proof {
                    lemma_evicted_eligible(old(self).views, self.views, p, e);
                }
                self.views.add_passive(e, &mut self.rng);
                let a1 = Action::Send(e, OutMessage::Disconnect(Disconnect));
                proof {
                    lemma_sends_ok_push(ws0, out@, a1);
                    assert(old(self).views.active@.to_set().contains(e));
                    i1 = out@.len() as int;
                }
                out.push(a1);
                let a2 = Action::Close(e);
                proof {
                    lemma_sends_ok_push(ws0, out@, a2);
                }
                out.push(a2);
            }
            let ack = Action::Send(p, OutMessage::NeighborResponse(NeighborResponse {
                result: crate::messages::Result::Accept,
            }));
            proof {
                lemma_sends_ok_push(ws0, out@, ack);
                if let Option::Some(e) = evicted {
                    assert(writers_after(ws0, out@) == ws0.remove(e));
                    assert(e != p);
                    assert(ws0.remove(e).contains(p));
                } else {
                    assert(writers_after(ws0, out@) == ws0);
                }
            }
            out.push(ack);
            proof {
                assert(out@.last() == ack);
                if let Option::Some(e) = evicted {
                    assert(out@[i1] == Action::Send(e, OutMessage::Disconnect(Disconnect)));
                    assert(out@[i1 + 1] == Action::Close(e));
                    assert(out@.contains(Action::Send(e, OutMessage::Disconnect(Disconnect))));
                    assert(out@.contains(Action::Close(e)));
                    assert(old(self).views.active@.contains(e));
                }
                assert(adopts(old(self).views, self.views, p, out@));
            }
        } else {
            let a = Action::Send(p, OutMessage::NeighborResponse(NeighborResponse {
                result: crate::messages::Result::Reject,
            }));
            proof {
                lemma_sends_ok_push(ws0, out@, a);
            }
            out.push(a);
            proof {
                assert(out@ =~= seq![a]);
            }
        }
        out
    }

    /// Inbound NEIGHBOR_RESPONSE from `p`. Accept promotes `p` into the
    /// active view. Reject leaves the views as they are except that the
    /// transient stream to `p` is closed, and while the active view is still
    /// underfull one more NEIGHBOR_REQUEST goes to a random passive peer
    /// other than `p`; when no such peer is left the search is abandoned.
    pub fn handle_neighbor_response(&mut self, m: NeighborResponse, p: PeerId) -> (out: Vec<Action>)
        requires
            old(self).wf(),
        ensures
            final(self).wf(),
            old(self).same_config(*final(self)),
            sends_ok(old(self).views.active_set().insert(p), out@),
            neighbor_response_effect(*old(self), *final(self), m, p, out@),
    {
        let mut out: Vec<Action> = Vec::new();
        if p == self.views.self_id {
            return out;
        }
        let ghost ws0 = old(self).views.active_set().insert(p);
        match m.result {
            crate::messages::Result::Accept => {
                let evicted = self.views.add_active(p, &mut self.rng);
                if let Option::Some(e) = evicted {
                    proof {
                        lemma_evicted_eligible(old(self).views, self.views, p, e);
                    }
                    self.views.add_passive(e, &mut self.rng);
                    let a1 = Action::Send(e, OutMessage::Disconnect(Disconnect));
                    proof {
                        lemma_sends_ok_push(ws0, out@, a1);
                        assert(old(self).views.active@.to_set().contains(e));
                    }
                    out.push(a1);
                    let a2 = Action::Close(e);
                    proof {
                        lemma_sends_ok_push(ws0, out@, a2);
                    }
                    out.push(a2);
                }
                proof {
                    if let Option::Some(e) = evicted {
                        assert(out@[out@.len() - 2] == Action::Send(
                            e,
                            OutMessage::Disconnect(Disconnect),
                        ));
                        assert(out@[out@.len() - 1] == Action::Close(e));
                        assert(out@.contains(Action::Send(e, OutMessage::Disconnect(Disconnect))));
                        assert(out@.contains(Action::Close(e)));
                        assert(old(self).views.active@.contains(e));
                    }
                    assert(adopts(old(self).views, self.views, p, out@));
                }
            },
            crate::messages::Result::Reject => {
                let a = Action::Close(p);
                proof {
                    lemma_sends_ok_push(ws0, out@, a);
                }
                out.push(a);
                if self.views.active.len() < self.views.active_view_size {
                    let mut excl: Vec<PeerId> = Vec::new();
                    excl.push(p);
                    let picks = self.views.sample_passive(1, &excl, &mut self.rng);
                    if picks.len() > 0 {
                        let t = picks[0];
                        proof {
                            assert(picks@.contains(t)) by {
                                assert(picks@[0] == t);
                            }
                            assert(excl@.contains(p)) by {
                                assert(excl@[0] == p);
                            }
                        }
                        let prio = if self.views.active.len() == 0 {
                            Priority::High
                        } else {
                            Priority::Low
                        };
                        let a1 = Action::Open(t);
                        proof {
                            lemma_sends_ok_push(ws0, out@, a1);
                        }
                        out.push(a1);
                        let a2 = Action::Send(t, OutMessage::NeighborRequest(NeighborRequest {
                            priority: prio,
                        }));
                        proof {
                            lemma_sends_ok_push(ws0, out@, a2);
                            assert(writers_after(ws0, out@) == ws0.remove(p).insert(t));
                        }
                        out.push(a2);
                        proof {
                            assert(out@.contains(a1)) by {
                                assert(out@[out@.len() - 2] == a1);
                            }
                            assert(out@.contains(a2)) by {
                                assert(out@[out@.len() - 1] == a2);
                            }
                        }
                    } else {
                        proof {
                            let elig = self.views.passive_set().difference(excl@.to_set());
                            assert forall|w: PeerId|
                                self.views.passive@.contains(w) implies w == p by {
                                if w != p {
                                    assert(!excl@.contains(w)) by {
                                        if excl@.contains(w) {
                                            let j = choose|j: int|
                                                0 <= j < excl@.len() && excl@[j] == w;
                                            assert(excl@[0] == p);
                                        }
                                    }
                                    assert(elig.contains(w));
                                    vstd::set_lib::lemma_set_empty_equivalency_len(elig);
                                }
                            }
                        }
                    }
                }
            },
        }
        out
    }

    /// Inbound SHUFFLE from `q`. While the TTL is positive and another
    /// active peer exists the message walks on with the TTL decremented.
    /// At the terminal hop the node samples as many passive peers as the
    /// shuffle offered nodes, merges the offered nodes into its passive view
    /// (evicting outside the sample when possible), and answers the
    /// originator directly with a SHUFFLE_REPLY whose `sent_nodes` echo the
    /// shuffle's nodes bit for bit.
    pub fn handle_shuffle(&mut self, m: Shuffle, q: PeerId) -> (out: Vec<Action>)
        requires
            old(self).wf(),
            m.nodes@.len() <= 255,
        ensures
            final(self).wf(),
            old(self).same_config(*final(self)),
            sends_ok(old(self).views.active_set().insert(q), out@),
            shuffle_effect(*old(self), *final(self), m@, q, out@),
    {
        let mut out: Vec<Action> = Vec::new();
        if m.originator == self.views.self_id {
            return out;
        }
        let ghost ws0 = old(self).views.active_set().insert(q);
        let r_opt = if m.ttl > 0 {
            self.views.random_active_except(&q, &mut self.rng)
        } else {
            Option::None
        };
        if let Option::Some(r) = r_opt {
            let fwd = Shuffle {
                originator: m.originator,
                nodes: clone_peers(&m.nodes),
                ttl: m.ttl - 1,
            };
            let a = Action::Send(r, OutMessage::Shuffle(fwd));
            proof {
                lemma_sends_ok_push(ws0, out@, a);
                assert(old(self).views.active@.to_set().contains(r));
            }
            proof {
                lemma_count_push(out@, |x: Action| is_shuffle_send(x), a);
                lemma_count_push(out@, |x: Action| is_shuffle_reply_send(x), a);
            }
            out.push(a);
            proof {
                assert(out@ =~= seq![a]);
            }
        } else {
            let empty: Vec<PeerId> = Vec::new();
            let reply_nodes = self.views.sample_passive(m.nodes.len(), &empty, &mut self.rng);
            proof {
                let elig = self.views.passive_set().difference(empty@.to_set());
                assert(elig =~= self.views.passive_set());
                self.views.passive@.unique_seq_to_set();
                assert(reply_nodes@.len() == if m.nodes@.len() <= self.views.passive@.len() {
                    m.nodes@.len() as int
                } else {
                    self.views.passive@.len() as int
                });
            }
            let ghost room = old(self).views.passive@.len() + m.nodes@.len() <= old(self).views.passive_view_size;
            let mut i: usize = 0;
            while i < m.nodes.len()
                invariant
                    old(self).wf(),
                    self.wf(),
                    old(self).same_config(*self),
                    self.views.active@ == old(self).views.active@,
                    i <= m.nodes@.len(),
                    room == (old(self).views.passive@.len() + m.nodes@.len() <= old(self).views.passive_view_size),
                    room ==> self.views.passive@.len() <= old(self).views.passive@.len() + i,
                    room ==> forall|j: int|
                        0 <= j < i && m.nodes@[j] != old(self).self_id() && !old(self).views.active@.contains(m.nodes@[j]) ==> self.views.passive@.contains(
                            m.nodes@[j],
                        ),
                    forall|x: PeerId| self.views.passive@.contains(x) ==> old(self).views.passive@.contains(x) || m.nodes@.contains(x),
                decreases m.nodes@.len() - i,
            {
                let node = m.nodes[i];
                let ghost pre = self.views.passive@;
                proof {
                    assert(m.nodes@.contains(node)) by {
                        assert(m.nodes@[i as int] == node);
                    }
                    if room {
                        assert(pre.len() < self.views.passive_view_size);
                    }
                }
                self.views.add_passive_avoiding(node, &reply_nodes, &mut self.rng);
                proof {
                    if room {
                        assert forall|x: PeerId|
                            pre.contains(x) implies self.views.passive@.contains(x) by {
                            let j = choose|j: int| 0 <= j < pre.len() && pre[j] == x;
                            assert(self.views.passive@[j] == x);
                        }
                        if node != old(self).self_id() && !old(self).views.active@.contains(node) {
                            if pre.contains(node) {
                            } else {
                                assert(self.views.passive@ == pre.push(node));
                                assert(self.views.passive@[pre.len() as int] == node);
                            }
                            assert(self.views.passive@.contains(node));
                        }
                    }
                }
                i = i + 1;
            }
            proof {
                if room {
                    assert forall|x: PeerId|
                        m.nodes@.contains(x) && x != old(self).self_id() && !old(self).views.active@.contains(x) implies self.views.passive@.contains(x) by {
                        let j = choose|j: int| 0 <= j < m.nodes@.len() && m.nodes@[j] == x;
                    }
                }
            }
            let sent = clone_peers(&m.nodes);
            let reply = ShuffleReply { sent_nodes: sent, nodes: reply_nodes };
            let a0 = Action::Open(m.originator);
            proof {
                lemma_sends_ok_push(ws0, out@, a0);
                lemma_count_push(out@, |x: Action| is_shuffle_reply_send(x), a0);
            }
            out.push(a0);
            let a1 = Action::Send(m.originator, OutMessage::ShuffleReply(reply));
            proof {
                lemma_sends_ok_push(ws0, out@, a1);
                lemma_count_push(out@, |x: Action| is_shuffle_reply_send(x), a1);
                assert(writers_after(ws0, out@) == ws0.insert(m.originator));
            }
            out.push(a1);
            let a2 = Action::Close(m.originator);
            proof {
                lemma_sends_ok_push(ws0, out@, a2);
                lemma_count_push(out@, |x: Action| is_shuffle_reply_send(x), a2);
            }
            out.push(a2);
            proof {
                assert(out@ =~= seq![a0, a1, a2]);
            }
        }
        out
    }

    /// Inbound SHUFFLE_REPLY: merge the offered nodes into the passive view,
    /// preferring to evict the peers this node gave away (`sent_nodes`).
    /// Nothing is sent.
    pub fn handle_shuffle_reply(&mut self, m: ShuffleReply, _q: PeerId) -> (out: Vec<Action>)
        requires
            old(self).wf(),
        ensures
            final(self).wf(),
            old(self).same_config(*final(self)),
            shuffle_reply_effect(*old(self), *final(self), m@, out@),
    {
        let out: Vec<Action> = Vec::new();
        let ghost room = old(self).views.passive@.len() + m.nodes@.len() <= old(self).views.passive_view_size;
        let mut i: usize = 0;
        while i < m.nodes.len()
            invariant
                old(self).wf(),
                self.wf(),
                old(self).same_config(*self),
                self.views.active@ == old(self).views.active@,
                i <= m.nodes@.len(),
                room == (old(self).views.passive@.len() + m.nodes@.len() <= old(self).views.passive_view_size),
                room ==> self.views.passive@.len() <= old(self).views.passive@.len() + i,
                room ==> forall|x: PeerId|
                    old(self).views.passive@.contains(x) ==> self.views.passive@.contains(x),
                room ==> forall|j: int|
                    0 <= j < i && m.nodes@[j] != old(self).self_id() && !old(self).views.active@.contains(m.nodes@[j]) ==> self.views.passive@.contains(
                        m.nodes@[j],
                    ),
                forall|x: PeerId| self.views.passive@.contains(x) ==> old(self).views.passive@.contains(x) || m.nodes@.contains(x),
            decreases m.nodes@.len() - i,
        {
            let node = m.nodes[i];
            let ghost pre = self.views.passive@;
            proof {
                assert(m.nodes@.contains(node)) by {
                    assert(m.nodes@[i as int] == node);
                }
                if room {
                    assert(pre.len() < self.views.passive_view_size);
                }
            }
            self.views.add_passive_preferring(node, &m.sent_nodes, &mut self.rng);
            proof {
                if room {
                    assert forall|x: PeerId| pre.contains(x) implies self.views.passive@.contains(
                        x,
                    ) by {
                        let j = choose|j: int| 0 <= j < pre.len() && pre[j] == x;
                        assert(self.views.passive@[j] == x);
                    }
                    if node != old(self).self_id() && !old(self).views.active@.contains(node) {
                        if pre.contains(node) {
                        } else {
                            assert(self.views.passive@ == pre.push(node));
                            assert(self.views.passive@[pre.len() as int] == node);
                        }
                        assert(self.views.passive@.contains(node));
                    }
                }
            }
            i = i + 1;
        }
        proof {
            if room {
                assert forall|x: PeerId|
                    m.nodes@.contains(x) && x != old(self).self_id() && !old(self).views.active@.contains(x) implies self.views.passive@.contains(x) by {
                    let j = choose|j: int| 0 <= j < m.nodes@.len() && m.nodes@[j] == x;
                }
            }
        }
        out
    }

    /// Bootstrap: pick a random contact node, open a stream to it, send JOIN
    /// and place it in the active view. With no usable contact nothing
    /// happens; a failed attempt is retried on the next join-retry tick.
    pub fn handle_bootstrap(&mut self) -> (out: Vec<Action>)
        requires
            old(self).wf(),
        ensures
            final(self).wf(),
            old(self).same_config(*final(self)),
            sends_ok(old(self).views.active_set(), out@),
            bootstrap_effect(*old(self), *final(self), out@),
    {
        let mut out: Vec<Action> = Vec::new();
        if self.config.contact_nodes.len() == 0 {
            return out;
        }
        let idx = self.rng.below(self.config.contact_nodes.len());
        let c = self.config.contact_nodes[idx];
        proof {
            assert(self.config.contact_nodes@.contains(c)) by {
                assert(self.config.contact_nodes@[idx as int] == c);
            }
        }
        if c == self.views.self_id {
            return out;
        }
        let ghost ws0 = old(self).views.active_set();
        let a0 = Action::Open(c);
        proof {
            lemma_sends_ok_push(ws0, out@, a0);
        }
        out.push(a0);
        let a1 = Action::Send(c, OutMessage::Join(Join));
        proof {
            lemma_sends_ok_push(ws0, out@, a1);
            assert(writers_after(ws0, out@) == ws0.insert(c));
        }
        out.push(a1);
        let evicted = self.views.add_active(c, &mut self.rng);
        if let Option::Some(e) = evicted {
            proof {
                lemma_evicted_eligible(old(self).views, self.views, c, e);
            }
            self.views.add_passive(e, &mut self.rng);
            let a2 = Action::Send(e, OutMessage::Disconnect(Disconnect));
            proof {
                lemma_sends_ok_push(ws0, out@, a2);
                assert(old(self).views.active@.to_set().contains(e));
                assert(ws0.insert(c).contains(e));
            }
            out.push(a2);
            let a3 = Action::Close(e);
            proof {
                lemma_sends_ok_push(ws0, out@, a3);
            }
            out.push(a3);
        }
        proof {
            assert(out@[0] == a0 && out@[1] == a1);
            if let Option::Some(e) = evicted {
                assert(out@[out@.len() - 2] == Action::Send(
                    e,
                    OutMessage::Disconnect(Disconnect),
                ));
                assert(out@[out@.len() - 1] == Action::Close(e));
                assert(out@.contains(Action::Send(e, OutMessage::Disconnect(Disconnect))));
                assert(out@.contains(Action::Close(e)));
                assert(old(self).views.active@.contains(e));
            }
            assert(adopts(old(self).views, self.views, c, out@));
        }
        out
    }

    /// Shuffle round: with a non-empty active view, send one SHUFFLE to a
    /// random active peer, offering this node's identity followed by samples
    /// of both views, with the configured walk length as TTL.
    pub fn handle_shuffle_tick(&mut self) -> (out: Vec<Action>)
        requires
            old(self).wf(),
        ensures
            final(self).wf(),
            old(self).same_config(*final(self)),
            sends_ok(old(self).views.active_set(), out@),
            shuffle_tick_effect(*old(self), *final(self), out@),
    {
        let mut out: Vec<Action> = Vec::new();
        if self.views.active.len() == 0 {
            return out;
        }
        let ghost ws0 = old(self).views.active_set();
        let empty: Vec<PeerId> = Vec::new();
        let picks = self.views.sample_active(1, &empty, &mut self.rng);
        proof {
            let elig = self.views.active_set().difference(empty@.to_set());
            assert(elig =~= self.views.active_set());
            self.views.active@.unique_seq_to_set();
            assert(elig.len() > 0);
            assert(picks@.len() == 1);
        }
        let r = picks[0];
        proof {
            assert(picks@.contains(r)) by {
                assert(picks@[0] == r);
            }
        }
        let mut excl_r: Vec<PeerId> = Vec::new();
        excl_r.push(r);
        let act = self.views.sample_active(
            self.config.shuffle_active_view_count as usize,
            &excl_r,
            &mut self.rng,
        );
        let pas = self.views.sample_passive(
            self.config.shuffle_passive_view_count as usize,
            &empty,
            &mut self.rng,
        );
        proof {
            // the eligible pool for the active sample is the active view
            // without the walk target, so the sample's exact size follows
            assert(excl_r@.contains(r)) by {
                assert(excl_r@[0] == r);
            }
            assert forall|x: PeerId| excl_r@.contains(x) implies x == r by {
                let k = choose|k: int| 0 <= k < excl_r@.len() && excl_r@[k] == x;
                assert(excl_r@[0] == r);
            }
            let elig2 = self.views.active_set().difference(excl_r@.to_set());
            assert(elig2 =~= self.views.active_set().remove(r));
            assert(self.views.active_set().contains(r));
            assert(elig2.len() == self.views.active@.len() - 1) by {
                self.views.active@.unique_seq_to_set();
            }
            let elig3 = self.views.passive_set().difference(empty@.to_set());
            assert(elig3 =~= self.views.passive_set());
            self.views.passive@.unique_seq_to_set();
            assert(pas@.len() == if self.config.shuffle_passive_view_count as int
                <= self.views.passive@.len() {
                self.config.shuffle_passive_view_count as int
            } else {
                self.views.passive@.len() as int
            });
        }
        let mut nodes: Vec<PeerId> = Vec::new();
        nodes.push(self.views.self_id);
        let mut i: usize = 0;
        while i < act.len()
            invariant
                i <= act@.len(),
                nodes@ == seq![old(self).self_id()] + act@.take(i as int),
            decreases act@.len() - i,
        {
            nodes.push(act[i]);
            proof {
                assert(nodes@ =~= seq![old(self).self_id()] + act@.take(i + 1));
            }
            i = i + 1;
        }
        proof {
            assert(act@.take(act@.len() as int) =~= act@);
        }
        let mut j: usize = 0;
        while j < pas.len()
            invariant
                j <= pas@.len(),
                nodes@ == seq![old(self).self_id()] + act@ + pas@.take(j as int),
            decreases pas@.len() - j,
        {
            nodes.push(pas[j]);
            proof {
                assert(nodes@ =~= seq![old(self).self_id()] + act@ + pas@.take(j + 1));
            }
            j = j + 1;
        }
        proof {
            assert(pas@.take(pas@.len() as int) =~= pas@);
            assert(nodes@ == seq![old(self).self_id()] + act@ + pas@);
            let al = act@.len() as int;
            let pl = pas@.len() as int;
            assert forall|k: int| 1 <= k < nodes@.len() implies old(self).views.active@.contains(
                nodes@[k],
            ) || old(self).views.passive@.contains(nodes@[k]) by {
                if k < 1 + al {
                    assert(nodes@[k] == act@[k - 1]);
                    assert(act@.contains(act@[k - 1]));
                } else {
                    assert(nodes@[k] == pas@[k - 1 - al]);
                    assert(pas@.contains(pas@[k - 1 - al]));
                }
            }
            assert forall|a1: int, b1: int|
                0 <= a1 < nodes@.len() && 0 <= b1 < nodes@.len() && a1 != b1 implies nodes@[a1]
                != nodes@[b1] by {
                let lo: int = if a1 < b1 {
                    a1
                } else {
                    b1
                };
                let hi: int = if a1 < b1 {
                    b1
                } else {
                    a1
                };
                if lo == 0 {
                    if hi < 1 + al {
                        assert(nodes@[hi] == act@[hi - 1]);
                        assert(act@.contains(act@[hi - 1]));
                        assert(old(self).views.active@.contains(nodes@[hi]));
                    } else {
                        assert(nodes@[hi] == pas@[hi - 1 - al]);
                        assert(pas@.contains(pas@[hi - 1 - al]));
                        assert(old(self).views.passive@.contains(nodes@[hi]));
                    }
                } else if hi < 1 + al {
                    assert(nodes@[lo] == act@[lo - 1] && nodes@[hi] == act@[hi - 1]);
                } else if lo >= 1 + al {
                    assert(nodes@[lo] == pas@[lo - 1 - al] && nodes@[hi] == pas@[hi - 1 - al]);
                } else {
                    assert(nodes@[lo] == act@[lo - 1] && nodes@[hi] == pas@[hi - 1 - al]);
                    assert(act@.contains(act@[lo - 1]));
                    assert(pas@.contains(pas@[hi - 1 - al]));
                    assert(old(self).views.active@.contains(nodes@[lo]));
                    assert(old(self).views.passive@.contains(nodes@[hi]));
                }
            }
            assert(nodes@.no_duplicates());
        }
        let sh = Shuffle {
            originator: self.views.self_id,
            nodes,
            ttl: self.config.shuffle_walk_length,
        };
        let a = Action::Send(r, OutMessage::Shuffle(sh));
        proof {
            lemma_sends_ok_push(ws0, out@, a);
        }
        out.push(a);
        proof {
            assert(out@ =~= seq![a]);
        }
        out
    }
}


/// The writer map when an event arrives: the streams of the active view,
/// plus, for an inbound frame, the stream it arrived on.
pub open spec fn event_writers(e: Engine, ev: crate::messages::MessageView) -> Set<PeerId> {
    match ev {
        crate::messages::MessageView::JoinMessage(_, s) => e.views.active_set().insert(s),
        crate::messages::MessageView::ForwardJoinMessage(_, s) => e.views.active_set().insert(s),
        crate::messages::MessageView::JoinAckMessage(_, s) => e.views.active_set().insert(s),
        crate::messages::MessageView::DisconnectMessage(_, s) => e.views.active_set().insert(s),
        crate::messages::MessageView::NeighborRequestMessage(_, s) => e.views.active_set().insert(
            s,
        ),
        crate::messages::MessageView::NeighborResponseMessage(_, s) => e.views.active_set().insert(
            s,
        ),
        crate::messages::MessageView::ShuffleMessage(_, s) => e.views.active_set().insert(s),
        crate::messages::MessageView::ShuffleReplyMessage(_, s) => e.views.active_set().insert(s),
        crate::messages::MessageView::JoinBegin => e.views.active_set(),
        crate::messages::MessageView::NextShuffleRound => e.views.active_set(),
        crate::messages::MessageView::PeerDisconnect(_) => e.views.active_set(),
    }
}

impl Engine {
    /// One step of the dispatcher: feed a decoded message, a tick or a
    /// control event to the engine. The view invariants hold afterwards, and
    /// every frame in `out` goes to a peer whose stream is open at that
    /// point, starting from the writer map the event arrived with.
    pub fn handle_event(&mut self, ev: HyParViewMessage) -> (out: Vec<Action>)
        requires
            old(self).wf(),
            ev@ matches crate::messages::MessageView::ShuffleMessage(sh, _)
                ==> sh.nodes.len() <= 255,
        ensures
            final(self).wf(),
            old(self).same_config(*final(self)),
            sends_ok(event_writers(*old(self), ev@), out@),
            match ev@ {
                crate::messages::MessageView::JoinMessage(_, s) => join_effect(
                    *old(self),
                    *final(self),
                    s,
                    out@,
                ),
                crate::messages::MessageView::ForwardJoinMessage(m, s) => forward_join_effect(
                    *old(self),
                    *final(self),
                    m,
                    s,
                    out@,
                ),
                crate::messages::MessageView::JoinAckMessage(_, s) => join_ack_effect(
                    *old(self),
                    *final(self),
                    s,
                    out@,
                ),
                crate::messages::MessageView::DisconnectMessage(_, s) => disconnect_effect(
                    *old(self),
                    *final(self),
                    s,
                    out@,
                ),
                crate::messages::MessageView::NeighborRequestMessage(m, s) => neighbor_request_effect(
                    *old(self),
                    *final(self),
                    m,
                    s,
                    out@,
                ),
                crate::messages::MessageView::NeighborResponseMessage(m, s) => neighbor_response_effect(
                    *old(self),
                    *final(self),
                    m,
                    s,
                    out@,
                ),
                crate::messages::MessageView::ShuffleMessage(m, s) => shuffle_effect(
                    *old(self),
                    *final(self),
                    m,
                    s,
                    out@,
                ),
                crate::messages::MessageView::ShuffleReplyMessage(m, _) => shuffle_reply_effect(
                    *old(self),
                    *final(self),
                    m,
                    out@,
                ),
                crate::messages::MessageView::JoinBegin => bootstrap_effect(
                    *old(self),
                    *final(self),
                    out@,
                ),
                crate::messages::MessageView::NextShuffleRound => shuffle_tick_effect(
                    *old(self),
                    *final(self),
                    out@,
                ),
                crate::messages::MessageView::PeerDisconnect(p) => disconnect_effect(
                    *old(self),
                    *final(self),
                    p,
                    out@,
                ),
            },
    {
        match ev {
            HyParViewMessage::JoinMessage(_, sender) => self.handle_join(sender),
            HyParViewMessage::ForwardJoinMessage(m, sender) => self.handle_forward_join(m, sender),
            HyParViewMessage::JoinAckMessage(_, sender) => self.handle_join_ack(sender),
            HyParViewMessage::DisconnectMessage(_, sender) => {
                let o = self.handle_disconnect(sender);
                proof {
                    lemma_sends_ok_mono(
                        old(self).views.active_set(),
                        old(self).views.active_set().insert(sender),
                        o@,
                    );
                }
                o
            },
            HyParViewMessage::NeighborRequestMessage(m, sender) => self.handle_neighbor_request(
                m,
                sender,
            ),
            HyParViewMessage::NeighborResponseMessage(m, sender) => self.handle_neighbor_response(
                m,
                sender,
            ),
            HyParViewMessage::ShuffleMessage(m, sender) => self.handle_shuffle(m, sender),
            HyParViewMessage::ShuffleReplyMessage(m, sender) => self.handle_shuffle_reply(
                m,
                sender,
            ),
            HyParViewMessage::JoinBegin => self.handle_bootstrap(),
            HyParViewMessage::NextShuffleRound => self.handle_shuffle_tick(),
            HyParViewMessage::PeerDisconnect(p) => self.handle_disconnect(p),
        }
    }
}

/// The TTLs seen along one forward-join walk: each hop forwards with the TTL
/// one less, and a hop with TTL zero never forwards. A walk that starts at
/// `arwl` therefore makes at most `arwl` forwarding hops.
pub proof fn lemma_forward_join_walk_bounded(ttls: Seq<int>, arwl: int)
    requires
        ttls.len() >= 1,
        arwl >= 0,
        ttls[0] <= arwl,
        forall|i: int| #![trigger ttls[i]] 0 <= i < ttls.len() - 1 ==> ttls[i] > 0 && ttls[i + 1]
            == ttls[i] - 1,
    ensures
        ttls.len() <= arwl + 1,
    decreases ttls.len(),
{
    if ttls.len() >= 2 {
        let rest = ttls.skip(1);
        assert(rest[0] == ttls[1] && ttls[1] == ttls[0] - 1);
        assert forall|i: int| #![trigger rest[i]] 0 <= i < rest.len() - 1 implies rest[i] > 0
            && rest[i + 1] == rest[i] - 1 by {
            assert(rest[i] == ttls[i + 1] && rest[i + 1] == ttls[i + 2]);
            assert(ttls[i + 1] > 0 && ttls[i + 1 + 1] == ttls[i + 1] - 1);
        }
        lemma_forward_join_walk_bounded(rest, arwl - 1);
    }
}

} // verus!
