use hyparview::config::Config;
use hyparview::engine::{Action, Engine, OutMessage};
use hyparview::messages::{Disconnect, ForwardJoin, HyParViewMessage, Join, JoinAck, Priority,
    Shuffle};
use hyparview::peer::PeerId;
use hyparview::rng::XorShiftRng;

fn peer(a: u8, b: u8, c: u8, d: u8, port: u16) -> PeerId {
    PeerId::new(a, b, c, d, port)
}

fn config(local: PeerId, contacts: Vec<PeerId>, arwl: u8, prwl: u8, av: usize, pv: usize) -> Config {
    Config {
        local_addr: local,
        contact_nodes: contacts,
        active_random_walk_length: arwl,
        passive_random_walk_length: prwl,
        active_view_size: av,
        passive_view_size: pv,
        shuffle_period_seconds: 10,
        shuffle_active_view_count: 3,
        shuffle_passive_view_count: 4,
        shuffle_walk_length: 6,
    }
}

/// The view invariants, checked concretely after each event.
fn check_invariants(e: &Engine) {
    let active = &e.views.active;
    let passive = &e.views.passive;
    for (i, p) in active.iter().enumerate() {
        assert!(!passive.contains(p), "active and passive overlap");
        assert_ne!(*p, e.views.self_id, "self in active view");
        assert!(!active[i + 1..].contains(p), "duplicate in active view");
    }
    for (i, p) in passive.iter().enumerate() {
        assert_ne!(*p, e.views.self_id, "self in passive view");
        assert!(!passive[i + 1..].contains(p), "duplicate in passive view");
    }
    assert!(active.len() <= e.views.active_view_size);
    assert!(passive.len() <= e.views.passive_view_size);
}

fn sends_to(out: &[Action]) -> Vec<PeerId> {
    out.iter()
        .filter_map(|a| match a {
            Action::Send(p, _) => Some(*p),
            _ => None,
        })
        .collect()
}

#[test]
fn two_node_join() {
    let a_id = peer(127, 0, 0, 1, 9001);
    let b_id = peer(127, 0, 0, 1, 9002);
    let mut a = Engine::new(config(a_id, Vec::new(), 6, 3, 5, 30), 1);
    let mut b = Engine::new(config(b_id, vec![a_id], 6, 3, 5, 30), 2);

    let out_b = b.handle_event(HyParViewMessage::JoinBegin);
    check_invariants(&b);
    assert!(out_b.contains(&Action::Open(a_id)));
    assert!(out_b.contains(&Action::Send(a_id, OutMessage::Join(Join))));
    assert_eq!(b.views.active, vec![a_id]);

    let out_a = a.handle_event(HyParViewMessage::JoinMessage(Join, b_id));
    check_invariants(&a);
    assert!(out_a.contains(&Action::Send(b_id, OutMessage::JoinAck(JoinAck))));
    assert_eq!(a.views.active, vec![b_id]);

    let _ = b.handle_event(HyParViewMessage::JoinAckMessage(JoinAck, a_id));
    check_invariants(&b);
    assert_eq!(a.views.active, vec![b_id]);
    assert_eq!(b.views.active, vec![a_id]);
    assert!(a.views.passive.is_empty());
    assert!(b.views.passive.is_empty());
    assert!(b.joined);
}

#[test]
fn three_node_forward_join_arwl_one() {
    let a_id = peer(127, 0, 0, 1, 9001);
    let b_id = peer(127, 0, 0, 1, 9002);
    let c_id = peer(127, 0, 0, 1, 9003);
    let mut a = Engine::new(config(a_id, Vec::new(), 1, 1, 5, 30), 1);
    let mut b = Engine::new(config(b_id, vec![a_id], 1, 1, 5, 30), 2);
    let mut c = Engine::new(config(c_id, vec![a_id], 1, 1, 5, 30), 3);

    // B joins A.
    b.handle_event(HyParViewMessage::JoinBegin);
    a.handle_event(HyParViewMessage::JoinMessage(Join, b_id));
    b.handle_event(HyParViewMessage::JoinAckMessage(JoinAck, a_id));

    // C bootstraps against A.
    c.handle_event(HyParViewMessage::JoinBegin);
    let out_a = a.handle_event(HyParViewMessage::JoinMessage(Join, c_id));
    check_invariants(&a);
    // A announces C to B with ttl = arwl = 1.
    let mut fwd = None;
    for act in &out_a {
        if let Action::Send(to, OutMessage::ForwardJoin(fj)) = act {
            assert_eq!(*to, b_id);
            assert_eq!(fj.originator, c_id);
            assert_eq!(fj.ttl, 1);
            fwd = Some(*fj);
        }
    }
    let fwd = fwd.expect("A must forward the join to B");
    c.handle_event(HyParViewMessage::JoinAckMessage(JoinAck, a_id));

    // B is a terminal hop (its active view is only {A}): it adopts C.
    let out_b = b.handle_event(HyParViewMessage::ForwardJoinMessage(fwd, a_id));
    check_invariants(&b);
    assert!(out_b.contains(&Action::Open(c_id)));
    assert!(out_b.contains(&Action::Send(c_id, OutMessage::JoinAck(JoinAck))));
    c.handle_event(HyParViewMessage::JoinAckMessage(JoinAck, b_id));
    check_invariants(&c);

    let set = |v: &Vec<PeerId>| {
        let mut s = v.clone();
        s.sort();
        s
    };
    let mut ab = vec![b_id, c_id];
    ab.sort();
    let mut ba = vec![a_id, c_id];
    ba.sort();
    let mut ca = vec![a_id, b_id];
    ca.sort();
    assert_eq!(set(&a.views.active), ab);
    assert_eq!(set(&b.views.active), ba);
    assert_eq!(set(&c.views.active), ca);
}

#[test]
fn passive_fill_at_prwl() {
    let me = peer(10, 0, 0, 1, 7000);
    let x = peer(10, 0, 0, 2, 7000);
    let y = peer(10, 0, 0, 3, 7000);
    let z = peer(10, 0, 0, 4, 7000);
    let mut e = Engine::new(config(me, Vec::new(), 6, 3, 5, 30), 7);
    e.handle_event(HyParViewMessage::JoinMessage(Join, x));
    e.handle_event(HyParViewMessage::JoinMessage(Join, y));
    assert_eq!(e.views.active.len(), 2);

    // ttl == prwl == 3: the originator enters the passive view and the walk
    // still continues with ttl 2.
    let fj = ForwardJoin::new(&z, 6, 3, 3);
    let out = e.handle_event(HyParViewMessage::ForwardJoinMessage(fj, x));
    check_invariants(&e);
    assert!(e.views.passive.contains(&z), "originator must be recorded passively");
    let mut forwarded = false;
    for act in &out {
        if let Action::Send(to, OutMessage::ForwardJoin(f)) = act {
            assert_eq!(*to, y);
            assert_eq!(f.ttl, 2);
            assert_eq!(f.originator, z);
            forwarded = true;
        }
    }
    assert!(forwarded, "the walk must continue");
}

#[test]
fn forward_join_ttl_zero_terminates() {
    let me = peer(10, 0, 0, 1, 7000);
    let x = peer(10, 0, 0, 2, 7000);
    let y = peer(10, 0, 0, 3, 7000);
    let z = peer(10, 0, 0, 4, 7000);
    let mut e = Engine::new(config(me, Vec::new(), 6, 3, 5, 30), 7);
    e.handle_event(HyParViewMessage::JoinMessage(Join, x));
    e.handle_event(HyParViewMessage::JoinMessage(Join, y));

    let fj = ForwardJoin::new(&z, 6, 3, 0);
    let out = e.handle_event(HyParViewMessage::ForwardJoinMessage(fj, x));
    check_invariants(&e);
    assert!(e.views.active.contains(&z));
    assert!(out.contains(&Action::Send(z, OutMessage::JoinAck(JoinAck))));
    for act in &out {
        assert!(!matches!(act, Action::Send(_, OutMessage::ForwardJoin(_))));
    }
}

#[test]
fn active_eviction_on_overflow() {
    let me = peer(10, 0, 0, 1, 8000);
    let x = peer(10, 0, 0, 2, 8000);
    let y = peer(10, 0, 0, 3, 8000);
    let z = peer(10, 0, 0, 4, 8000);
    let mut e = Engine::new(config(me, Vec::new(), 6, 3, 2, 30), 42);
    e.handle_event(HyParViewMessage::JoinMessage(Join, x));
    e.handle_event(HyParViewMessage::JoinMessage(Join, y));
    assert_eq!(e.views.active.len(), 2);

    let out = e.handle_event(HyParViewMessage::JoinMessage(Join, z));
    check_invariants(&e);
    assert!(e.views.active.contains(&z), "JOIN is always accepted");
    assert_eq!(e.views.active.len(), 2);
    let evicted = if e.views.active.contains(&x) { y } else { x };
    assert!(e.views.passive.contains(&evicted), "evicted peer is demoted");
    assert!(out.contains(&Action::Send(evicted, OutMessage::Disconnect(Disconnect))));
    assert!(out.contains(&Action::Close(evicted)));
    assert!(out.contains(&Action::Send(z, OutMessage::JoinAck(JoinAck))));
    // exactly |active_before| forward joins, none to the joiner
    let fwds: Vec<&Action> = out
        .iter()
        .filter(|a| matches!(a, Action::Send(_, OutMessage::ForwardJoin(_))))
        .collect();
    assert_eq!(fwds.len(), 2);
}

#[test]
fn join_emission_counts() {
    let me = peer(10, 0, 0, 1, 8000);
    let mut e = Engine::new(config(me, Vec::new(), 6, 3, 5, 30), 9);
    let members = [peer(10, 0, 0, 2, 1), peer(10, 0, 0, 3, 1), peer(10, 0, 0, 4, 1)];
    for m in members.iter() {
        e.handle_event(HyParViewMessage::JoinMessage(Join, *m));
    }
    let w = peer(10, 0, 0, 9, 1);
    let out = e.handle_event(HyParViewMessage::JoinMessage(Join, w));
    check_invariants(&e);
    let acks = out
        .iter()
        .filter(|a| matches!(a, Action::Send(_, OutMessage::JoinAck(_))))
        .count();
    assert_eq!(acks, 1);
    let fwds: Vec<&Action> = out
        .iter()
        .filter(|a| matches!(a, Action::Send(_, OutMessage::ForwardJoin(_))))
        .collect();
    assert_eq!(fwds.len(), 3, "one FORWARD_JOIN per prior active member");
    for act in fwds {
        if let Action::Send(to, OutMessage::ForwardJoin(fj)) = act {
            assert_ne!(*to, w);
            assert_eq!(fj.originator, w);
            assert_eq!(fj.ttl, 6);
            assert_eq!(fj.arwl, 6);
            assert_eq!(fj.prwl, 3);
        }
    }
}

#[test]
fn shuffle_reply_echoes_sent_nodes() {
    let r_id = peer(10, 1, 0, 1, 4000);
    let o_id = peer(10, 1, 0, 2, 4000);
    let p1 = peer(10, 1, 1, 1, 1);
    let p2 = peer(10, 1, 1, 2, 1);
    let p3 = peer(10, 1, 1, 3, 1);
    let qs = [peer(10, 1, 2, 1, 1), peer(10, 1, 2, 2, 1), peer(10, 1, 2, 3, 1), peer(10, 1, 2, 4, 1)];

    let mut r = Engine::new(config(r_id, Vec::new(), 6, 3, 5, 30), 5);
    let mut aux = XorShiftRng::new(99);
    for q in qs.iter() {
        r.views.add_passive(*q, &mut aux);
    }
    assert_eq!(r.views.passive.len(), 4);

    let sh = Shuffle::new(o_id, vec![p1, p2, p3], 0);
    let out = r.handle_event(HyParViewMessage::ShuffleMessage(sh, o_id));
    check_invariants(&r);
    assert!(r.views.passive.contains(&p1));
    assert!(r.views.passive.contains(&p2));
    assert!(r.views.passive.contains(&p3));

    let mut reply = None;
    for act in out {
        if let Action::Send(to, OutMessage::ShuffleReply(sr)) = act {
            assert_eq!(to, o_id);
            reply = Some(sr);
        }
    }
    let reply = reply.expect("terminal shuffle must be answered");
    assert_eq!(reply.sent_nodes, vec![p1, p2, p3], "sent_nodes echo the shuffle bit for bit");
    assert_eq!(reply.nodes.len(), 3, "min(|passive|, |nodes|) entries");
    for n in &reply.nodes {
        assert!(qs.contains(n));
    }

    // the originator merges the reply into its passive view
    let mut o = Engine::new(config(o_id, Vec::new(), 6, 3, 5, 30), 6);
    let expected: Vec<PeerId> = reply.nodes.clone();
    o.handle_event(HyParViewMessage::ShuffleReplyMessage(reply, r_id));
    check_invariants(&o);
    for n in expected {
        assert!(o.views.passive.contains(&n));
    }
}

#[test]
fn shuffle_forwards_while_ttl_positive() {
    let me = peer(10, 1, 0, 1, 4000);
    let x = peer(10, 1, 0, 2, 4000);
    let y = peer(10, 1, 0, 3, 4000);
    let o = peer(10, 1, 0, 4, 4000);
    let mut e = Engine::new(config(me, Vec::new(), 6, 3, 5, 30), 5);
    e.handle_event(HyParViewMessage::JoinMessage(Join, x));
    e.handle_event(HyParViewMessage::JoinMessage(Join, y));

    let sh = Shuffle::new(o, vec![peer(9, 9, 9, 9, 9)], 2);
    let out = e.handle_event(HyParViewMessage::ShuffleMessage(sh, x));
    check_invariants(&e);
    let mut forwarded = false;
    for act in &out {
        if let Action::Send(to, OutMessage::Shuffle(f)) = act {
            assert_eq!(*to, y);
            assert_eq!(f.ttl, 1);
            assert_eq!(f.originator, o);
            assert_eq!(f.nodes, vec![peer(9, 9, 9, 9, 9)]);
            forwarded = true;
        }
    }
    assert!(forwarded);
}

#[test]
fn symmetric_disconnect() {
    let b_id = peer(127, 0, 0, 1, 9002);
    let a_id = peer(127, 0, 0, 1, 9001);
    let c_id = peer(127, 0, 0, 1, 9003);
    let mut b = Engine::new(config(b_id, Vec::new(), 6, 3, 5, 30), 3);
    b.handle_event(HyParViewMessage::JoinMessage(Join, a_id));
    let mut aux = XorShiftRng::new(4);
    b.views.add_passive(c_id, &mut aux);

    let out = b.handle_event(HyParViewMessage::DisconnectMessage(Disconnect, a_id));
    check_invariants(&b);
    assert!(!b.views.active.contains(&a_id));
    assert!(b.views.passive.contains(&a_id));
    assert!(out.contains(&Action::Close(a_id)));

    // active view now empty and underfull: a High neighbour request goes out
    let mut asked = None;
    for act in &out {
        if let Action::Send(t, OutMessage::NeighborRequest(nr)) = act {
            assert_eq!(nr.priority, Priority::High);
            asked = Some(*t);
        }
    }
    let t = asked.expect("an underfull node must seek a neighbour");
    assert!(b.views.passive.contains(&t));
    assert!(out.contains(&Action::Open(t)));
}

#[test]
fn peer_lost_equals_disconnect() {
    let b_id = peer(127, 0, 0, 1, 9002);
    let a_id = peer(127, 0, 0, 1, 9001);
    let mut b = Engine::new(config(b_id, Vec::new(), 6, 3, 5, 30), 3);
    b.handle_event(HyParViewMessage::JoinMessage(Join, a_id));
    let out = b.handle_event(HyParViewMessage::PeerDisconnect(a_id));
    check_invariants(&b);
    assert!(!b.views.active.contains(&a_id));
    assert!(b.views.passive.contains(&a_id));
    assert!(out.contains(&Action::Close(a_id)));
}

#[test]
fn neighbor_request_low_rejected_when_full() {
    let me = peer(10, 0, 0, 1, 8000);
    let x = peer(10, 0, 0, 2, 8000);
    let y = peer(10, 0, 0, 3, 8000);
    let z = peer(10, 0, 0, 4, 8000);
    let mut e = Engine::new(config(me, Vec::new(), 6, 3, 2, 30), 11);
    e.handle_event(HyParViewMessage::JoinMessage(Join, x));
    e.handle_event(HyParViewMessage::JoinMessage(Join, y));

    let nr = hyparview::messages::NeighborRequest::new(Priority::Low);
    let out = e.handle_event(HyParViewMessage::NeighborRequestMessage(nr, z));
    check_invariants(&e);
    assert!(!e.views.active.contains(&z));
    assert_eq!(out.len(), 1);
    match &out[0] {
        Action::Send(to, OutMessage::NeighborResponse(resp)) => {
            assert_eq!(*to, z);
            assert_eq!(resp.result, hyparview::messages::Result::Reject);
        }
        other => panic!("expected a rejection, got {:?}", other),
    }

    // High is accepted even when full.
    let nr_high = hyparview::messages::NeighborRequest::new(Priority::High);
    let out2 = e.handle_event(HyParViewMessage::NeighborRequestMessage(nr_high, z));
    check_invariants(&e);
    assert!(e.views.active.contains(&z));
    let accepted = out2.iter().any(|a| {
        matches!(a, Action::Send(to, OutMessage::NeighborResponse(r))
            if *to == z && r.result == hyparview::messages::Result::Accept)
    });
    assert!(accepted);
}

#[test]
fn shuffle_tick_sends_one_shuffle() {
    let me = peer(10, 0, 0, 1, 8000);
    let x = peer(10, 0, 0, 2, 8000);
    let mut e = Engine::new(config(me, Vec::new(), 6, 3, 5, 30), 12);
    e.handle_event(HyParViewMessage::JoinMessage(Join, x));
    let out = e.handle_event(HyParViewMessage::NextShuffleRound);
    check_invariants(&e);
    assert_eq!(out.len(), 1);
    match &out[0] {
        Action::Send(to, OutMessage::Shuffle(sh)) => {
            assert_eq!(*to, x);
            assert_eq!(sh.originator, me);
            assert_eq!(sh.ttl, 6);
            assert_eq!(sh.nodes[0], me, "the node offers itself first");
        }
        other => panic!("expected a shuffle, got {:?}", other),
    }
    // every send of this event went to a currently active peer (writer map)
    for p in sends_to(&out) {
        assert!(e.views.active.contains(&p));
    }
}

#[test]
fn empty_tick_and_bootstrap_do_nothing() {
    let me = peer(10, 0, 0, 1, 8000);
    let mut e = Engine::new(config(me, Vec::new(), 6, 3, 5, 30), 13);
    assert!(e.handle_event(HyParViewMessage::NextShuffleRound).is_empty());
    assert!(e.handle_event(HyParViewMessage::JoinBegin).is_empty());
    check_invariants(&e);
}
