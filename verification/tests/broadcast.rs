use std::collections::HashSet;

use gossip_glomers::broadcast::{
    gossip_signal, BroadcastNode, IPayload, OPayload, Res, GOSSIP_INTERVAL_MS,
};
use gossip_glomers::node::{Node, State};
use gossip_glomers::{
    AtomicResponce, BodySerde, Init, InitPayload, MessageSerde, NodeError, NodeId, Response,
};

fn id(name: &str) -> NodeId {
    NodeId::new(name.to_string())
}

fn ids(names: &[&str]) -> Vec<NodeId> {
    names.iter().map(|n| id(n)).collect()
}

fn set(values: &[usize]) -> HashSet<usize> {
    values.iter().copied().collect()
}

fn node(me: &str) -> BroadcastNode<()> {
    let init = MessageSerde {
        src: id("c0"),
        dst: id(me),
        body: BodySerde {
            id: Some(1),
            in_reply_to: None,
            payload: InitPayload::Init(Init { node_id: me.to_string(), node_ids: vec![me.to_string()] }),
        },
    };
    BroadcastNode::with_initial_state(State::from(init, ()))
}

fn node_with_neighbors(me: &str, neighbors: &[&str]) -> BroadcastNode<()> {
    let mut n = node(me);
    let out = deliver(&mut n, "c0", topology(&[(me, neighbors)])).unwrap();
    assert_eq!(out.len(), 1);
    n
}

fn topology(entries: &[(&str, &[&str])]) -> IPayload {
    IPayload::Topology { topology: entries.iter().map(|(n, ns)| (id(n), ids(ns))).collect() }
}

fn deliver(
    node: &mut BroadcastNode<()>,
    from: &str,
    payload: IPayload,
) -> Result<Vec<AtomicResponce<OPayload>>, NodeError> {
    let me = node.get_state().node_id();
    let frame = MessageSerde {
        src: id(from),
        dst: me,
        body: BodySerde { id: Some(9), in_reply_to: None, payload },
    };
    let payload = node.get_state_mut().set_message(frame);
    node.step(payload).map(|res| res.into_iter())
}

fn tick(node: &mut BroadcastNode<()>) -> Vec<(NodeId, HashSet<usize>)> {
    let me = node.get_state().node_id();
    let payload = node.get_state_mut().set_message(gossip_signal(&me));
    let out = node.step(payload).unwrap().into_iter();
    out.into_iter()
        .map(|r| {
            assert!(!r.is_reply());
            let (to, payload, _) = r.into_parts();
            match payload {
                OPayload::Gossip { messages } => (to, messages),
                other => panic!("a tick sends gossip only, not {:?}", other),
            }
        })
        .collect()
}

fn only(out: Vec<AtomicResponce<OPayload>>) -> AtomicResponce<OPayload> {
    assert_eq!(out.len(), 1);
    out.into_iter().next().unwrap()
}

#[test]
fn a_new_node_knows_nothing_and_nobody() {
    let mut n = node("A");
    assert_eq!(n.snapshot(), set(&[]));
    assert_eq!(n.neighbors(), ids(&[]));
    assert_eq!(n.outstanding(&id("B")), set(&[]));
    assert_eq!(tick(&mut n), vec![]);
}

#[test]
fn broadcast_is_gossiped_until_acknowledged() {
    let mut a = node_with_neighbors("A", &["B", "C"]);

    let reply = only(deliver(&mut a, "c1", IPayload::Broadcast { message: 42 }).unwrap());
    assert_eq!(reply.recipient(), &id("c1"));
    assert!(reply.is_reply());
    assert!(matches!(reply.payload(), OPayload::BroadcastOk));
    assert_eq!(a.outstanding(&id("B")), set(&[42]));
    assert_eq!(a.outstanding(&id("C")), set(&[42]));

    let mut frames = tick(&mut a);
    frames.sort_by_key(|(to, _)| to.to_string());
    assert_eq!(frames, vec![(id("B"), set(&[42])), (id("C"), set(&[42]))]);

    let out = deliver(&mut a, "B", IPayload::GossipOk { messages: set(&[42]) }).unwrap();
    assert!(out.is_empty());
    assert_eq!(a.outstanding(&id("B")), set(&[]));
    assert_eq!(a.outstanding(&id("C")), set(&[42]));

    assert_eq!(tick(&mut a), vec![(id("C"), set(&[42]))]);
    assert_eq!(tick(&mut a), vec![(id("C"), set(&[42]))]);
}

#[test]
fn topology_is_acknowledged_and_read_is_empty() {
    let mut a = node("A");
    let reply = only(deliver(&mut a, "c1", topology(&[("A", &["B", "C"])])).unwrap());
    assert_eq!(reply.recipient(), &id("c1"));
    assert!(reply.is_reply());
    assert!(matches!(reply.payload(), OPayload::TopologyOk));
    assert_eq!(a.neighbors(), ids(&["B", "C"]));

    let reply = only(deliver(&mut a, "c2", IPayload::Read).unwrap());
    assert_eq!(reply.recipient(), &id("c2"));
    assert!(reply.is_reply());
    match reply.payload() {
        OPayload::ReadOk { messages } => assert_eq!(messages, &set(&[])),
        other => panic!("not a read_ok: {:?}", other),
    }
}

#[test]
fn gossip_with_a_known_value_spreads_the_new_one_only() {
    let mut b = node_with_neighbors("B", &["A", "C", "D"]);
    deliver(&mut b, "c1", IPayload::Broadcast { message: 7 }).unwrap();
    for n in ["A", "C", "D"] {
        deliver(&mut b, n, IPayload::GossipOk { messages: set(&[7]) }).unwrap();
        assert_eq!(b.outstanding(&id(n)), set(&[]));
    }

    let reply = only(deliver(&mut b, "A", IPayload::Gossip { messages: set(&[7, 8]) }).unwrap());
    assert_eq!(b.snapshot(), set(&[7, 8]));
    assert_eq!(reply.recipient(), &id("A"));
    assert!(reply.is_reply());
    match reply.payload() {
        OPayload::GossipOk { messages } => assert_eq!(messages, &set(&[7, 8])),
        other => panic!("not a gossip_ok: {:?}", other),
    }
    assert_eq!(b.outstanding(&id("A")), set(&[]));
    assert_eq!(b.outstanding(&id("C")), set(&[8]));
    assert_eq!(b.outstanding(&id("D")), set(&[8]));
}

#[test]
fn gossip_delivered_twice_is_gossip_delivered_once() {
    let mut once = node_with_neighbors("B", &["A", "C"]);
    let mut twice = node_with_neighbors("B", &["A", "C"]);
    for n in [&mut once, &mut twice] {
        deliver(n, "c1", IPayload::Broadcast { message: 1 }).unwrap();
        deliver(n, "c1", IPayload::Broadcast { message: 2 }).unwrap();
    }
    deliver(&mut once, "A", IPayload::Gossip { messages: set(&[2, 3, 4]) }).unwrap();
    deliver(&mut twice, "A", IPayload::Gossip { messages: set(&[2, 3, 4]) }).unwrap();
    let again = only(deliver(&mut twice, "A", IPayload::Gossip { messages: set(&[2, 3, 4]) }).unwrap());
    match again.payload() {
        OPayload::GossipOk { messages } => assert_eq!(messages, &set(&[2, 3, 4])),
        other => panic!("not a gossip_ok: {:?}", other),
    }

    assert_eq!(once.snapshot(), set(&[1, 2, 3, 4]));
    assert_eq!(twice.snapshot(), once.snapshot());
    for n in ["A", "C"] {
        assert_eq!(twice.outstanding(&id(n)), once.outstanding(&id(n)));
    }
    assert_eq!(once.outstanding(&id("A")), set(&[1]));
    assert_eq!(once.outstanding(&id("C")), set(&[1, 2, 3, 4]));
}

#[test]
fn knowledge_never_shrinks() {
    let mut n = node("B");
    let script: Vec<(&str, IPayload)> = vec![
        ("c1", IPayload::Broadcast { message: 5 }),
        ("c1", topology(&[("B", &["A", "C"])])),
        ("A", IPayload::Gossip { messages: set(&[5, 6]) }),
        ("B", IPayload::GossipSignal),
        ("C", IPayload::GossipOk { messages: set(&[5, 6, 99]) }),
        ("c2", IPayload::Read),
        ("c1", topology(&[("B", &["A"])])),
        ("c3", IPayload::Broadcast { message: 5 }),
        ("C", IPayload::Gossip { messages: set(&[]) }),
        ("c3", IPayload::Broadcast { message: 0 }),
        ("A", IPayload::GossipOk { messages: set(&[0]) }),
    ];
    let mut before = n.snapshot();
    for (from, payload) in script {
        let _ = deliver(&mut n, from, payload);
        let after = n.snapshot();
        assert!(before.is_subset(&after));
        before = after;
    }
    assert_eq!(before, set(&[0, 5, 6]));
}

#[test]
fn gossip_is_not_owed_back_to_its_sender() {
    let mut b = node_with_neighbors("B", &["A", "C"]);
    deliver(&mut b, "A", IPayload::Gossip { messages: set(&[1, 2, 3]) }).unwrap();
    assert_eq!(b.outstanding(&id("A")), set(&[]));
    assert_eq!(b.outstanding(&id("C")), set(&[1, 2, 3]));
    assert_eq!(tick(&mut b), vec![(id("C"), set(&[1, 2, 3]))]);
}

#[test]
fn gossip_from_a_neighbor_strikes_what_was_owed_to_it() {
    let mut b = node_with_neighbors("B", &["A", "C"]);
    deliver(&mut b, "c1", IPayload::Broadcast { message: 1 }).unwrap();
    deliver(&mut b, "c1", IPayload::Broadcast { message: 2 }).unwrap();
    deliver(&mut b, "A", IPayload::Gossip { messages: set(&[2, 3]) }).unwrap();
    assert_eq!(b.outstanding(&id("A")), set(&[1]));
    assert_eq!(b.outstanding(&id("C")), set(&[1, 2, 3]));
}

#[test]
fn gossip_from_a_stranger_is_owed_to_every_neighbor() {
    let mut b = node_with_neighbors("B", &["A", "C"]);
    let reply = only(deliver(&mut b, "Z", IPayload::Gossip { messages: set(&[4]) }).unwrap());
    assert_eq!(reply.recipient(), &id("Z"));
    assert_eq!(b.snapshot(), set(&[4]));
    assert_eq!(b.outstanding(&id("A")), set(&[4]));
    assert_eq!(b.outstanding(&id("C")), set(&[4]));
    assert_eq!(b.outstanding(&id("Z")), set(&[]));
    assert_eq!(b.neighbors(), ids(&["A", "C"]));
}

#[test]
fn an_acknowledgment_strikes_what_it_names_and_no_more() {
    let mut a = node_with_neighbors("A", &["B", "C"]);
    deliver(&mut a, "c1", IPayload::Broadcast { message: 1 }).unwrap();
    assert_eq!(tick(&mut a).len(), 2);
    deliver(&mut a, "c1", IPayload::Broadcast { message: 2 }).unwrap();
    deliver(&mut a, "B", IPayload::GossipOk { messages: set(&[1]) }).unwrap();
    assert_eq!(a.outstanding(&id("B")), set(&[2]));
    assert_eq!(a.outstanding(&id("C")), set(&[1, 2]));
    assert_eq!(a.snapshot(), set(&[1, 2]));
}

#[test]
fn a_stale_acknowledgment_is_absorbed() {
    let mut a = node_with_neighbors("A", &["B"]);
    deliver(&mut a, "c1", IPayload::Broadcast { message: 1 }).unwrap();
    deliver(&mut a, "B", IPayload::GossipOk { messages: set(&[1]) }).unwrap();
    let out = deliver(&mut a, "B", IPayload::GossipOk { messages: set(&[1, 77]) }).unwrap();
    assert!(out.is_empty());
    assert_eq!(a.outstanding(&id("B")), set(&[]));
    assert_eq!(a.snapshot(), set(&[1]));
}

#[test]
fn an_acknowledgment_from_a_stranger_is_absorbed() {
    let mut a = node_with_neighbors("A", &["B"]);
    deliver(&mut a, "c1", IPayload::Broadcast { message: 1 }).unwrap();
    let out = deliver(&mut a, "Z", IPayload::GossipOk { messages: set(&[1]) }).unwrap();
    assert!(out.is_empty());
    assert_eq!(a.outstanding(&id("B")), set(&[1]));
    assert_eq!(a.neighbors(), ids(&["B"]));
}

#[test]
fn a_repeated_broadcast_is_acknowledged_and_not_spread_again() {
    let mut a = node_with_neighbors("A", &["B"]);
    deliver(&mut a, "c1", IPayload::Broadcast { message: 3 }).unwrap();
    deliver(&mut a, "B", IPayload::GossipOk { messages: set(&[3]) }).unwrap();
    let reply = only(deliver(&mut a, "c2", IPayload::Broadcast { message: 3 }).unwrap());
    assert_eq!(reply.recipient(), &id("c2"));
    assert!(matches!(reply.payload(), OPayload::BroadcastOk));
    assert_eq!(a.outstanding(&id("B")), set(&[]));
    assert_eq!(tick(&mut a), vec![]);
    assert_eq!(a.snapshot(), set(&[3]));
}

#[test]
fn a_broadcast_before_the_topology_is_owed_to_nobody() {
    let mut a = node("A");
    deliver(&mut a, "c1", IPayload::Broadcast { message: 3 }).unwrap();
    deliver(&mut a, "c1", topology(&[("A", &["B"])])).unwrap();
    assert_eq!(a.snapshot(), set(&[3]));
    assert_eq!(a.outstanding(&id("B")), set(&[]));
    assert_eq!(tick(&mut a), vec![]);
}

#[test]
fn a_tick_offers_each_neighbor_all_that_it_is_owed_last_neighbor_first() {
    let mut a = node_with_neighbors("A", &["B", "C", "D"]);
    deliver(&mut a, "c1", IPayload::Broadcast { message: 1 }).unwrap();
    deliver(&mut a, "c1", IPayload::Broadcast { message: 2 }).unwrap();
    deliver(&mut a, "C", IPayload::GossipOk { messages: set(&[1, 2]) }).unwrap();
    deliver(&mut a, "D", IPayload::GossipOk { messages: set(&[2]) }).unwrap();
    assert_eq!(tick(&mut a), vec![(id("D"), set(&[1])), (id("B"), set(&[1, 2]))]);
    assert_eq!(a.outstanding(&id("B")), set(&[1, 2]));
    assert_eq!(a.outstanding(&id("D")), set(&[1]));
}

#[test]
fn a_second_topology_is_refused() {
    let mut a = node_with_neighbors("A", &["B", "C"]);
    deliver(&mut a, "c1", IPayload::Broadcast { message: 1 }).unwrap();
    let refused = deliver(&mut a, "c1", topology(&[("A", &["D"])]));
    assert!(matches!(refused, Err(NodeError::TopologyReassigned)));
    assert_eq!(a.neighbors(), ids(&["B", "C"]));
    assert_eq!(a.outstanding(&id("B")), set(&[1]));
    assert_eq!(a.outstanding(&id("D")), set(&[]));
    assert_eq!(a.snapshot(), set(&[1]));

    let same = deliver(&mut a, "c1", topology(&[("A", &["B", "C"])]));
    assert!(matches!(same, Err(NodeError::TopologyReassigned)));
}

#[test]
fn a_node_without_neighbors_can_be_assigned_some() {
    let mut a = node_with_neighbors("A", &[]);
    assert_eq!(a.neighbors(), ids(&[]));
    deliver(&mut a, "c1", topology(&[("B", &["A"])])).unwrap();
    assert_eq!(a.neighbors(), ids(&[]));
    deliver(&mut a, "c1", topology(&[("A", &["B"])])).unwrap();
    assert_eq!(a.neighbors(), ids(&["B"]));
}

#[test]
fn a_topology_names_each_neighbor_once_and_never_the_node() {
    let a = node_with_neighbors("A", &["B", "A", "C", "B", "A", "D", "C"]);
    assert_eq!(a.neighbors(), ids(&["B", "C", "D"]));
    let b = node_with_neighbors("B", &["B"]);
    assert_eq!(b.neighbors(), ids(&[]));
}

#[test]
fn a_topology_is_read_under_the_nodes_first_entry() {
    let mut a = node("A");
    deliver(
        &mut a,
        "c1",
        topology(&[("B", &["A", "C"]), ("A", &["B"]), ("C", &["B"]), ("A", &["C", "D"])]),
    )
    .unwrap();
    assert_eq!(a.neighbors(), ids(&["B"]));
}

#[test]
fn record_takes_note_without_owing() {
    let mut a = node_with_neighbors("A", &["B"]);
    assert!(a.record(5));
    assert!(!a.record(5));
    assert!(a.record(6));
    assert_eq!(a.snapshot(), set(&[5, 6]));
    assert_eq!(a.outstanding(&id("B")), set(&[]));
}

#[test]
fn a_snapshot_is_a_copy() {
    let mut a = node("A");
    a.record(1);
    let mut copy = a.snapshot();
    copy.insert(2);
    a.record(3);
    assert_eq!(copy, set(&[1, 2]));
    assert_eq!(a.snapshot(), set(&[1, 3]));
}

#[test]
fn a_stack_of_responses_leaves_from_the_top() {
    let mut res = Res::Broadcast(vec![
        AtomicResponce::send(id("B"), OPayload::BroadcastOk),
        AtomicResponce::send(id("C"), OPayload::TopologyOk),
    ]);
    assert_eq!(res.next().unwrap().recipient(), &id("C"));
    assert_eq!(res.next().unwrap().recipient(), &id("B"));
    assert!(res.next().is_none());
    assert!(res.next().is_none());
    assert!(matches!(res, Res::Broadcast(_)));

    let mut res = Res::Reply(AtomicResponce::new(id("c1"), OPayload::BroadcastOk));
    assert_eq!(res.next().unwrap().recipient(), &id("c1"));
    assert!(res.next().is_none());
    assert!(matches!(res, Res::Nothing));

    let mut res = Res::Nothing;
    assert!(res.next().is_none());
}

#[test]
fn responses_as_a_list_are_in_leaving_order() {
    let res = Res::Broadcast(vec![
        AtomicResponce::send(id("B"), OPayload::BroadcastOk),
        AtomicResponce::send(id("C"), OPayload::BroadcastOk),
        AtomicResponce::send(id("D"), OPayload::BroadcastOk),
    ]);
    let order: Vec<String> = res.into_iter().iter().map(|r| r.recipient().to_string()).collect();
    assert_eq!(order, vec!["D", "C", "B"]);
    assert!(Res::Nothing.into_iter().is_empty());
    assert_eq!(Res::Reply(AtomicResponce::new(id("c1"), OPayload::TopologyOk)).into_iter().len(), 1);
}

#[test]
fn the_tick_frame_goes_from_the_node_to_itself() {
    let frame = gossip_signal(&id("n1"));
    assert_eq!(frame.src, id("n1"));
    assert_eq!(frame.dst, id("n1"));
    assert_eq!(frame.body.id, None);
    assert_eq!(frame.body.in_reply_to, None);
    assert!(matches!(frame.body.payload, IPayload::GossipSignal));
    assert_eq!(GOSSIP_INTERVAL_MS, 300);
}

#[test]
fn gossip_frames_are_numbered_and_refer_to_nothing() {
    let mut a = node_with_neighbors("A", &["B", "C"]);
    deliver(&mut a, "c1", IPayload::Broadcast { message: 42 }).unwrap();
    let payload = a.get_state_mut().set_message(gossip_signal(&id("A")));
    let res = a.step(payload).unwrap();
    let frames = a.get_state_mut().envelopes(res).unwrap();
    assert_eq!(frames.len(), 2);
    assert_eq!(frames[0].dst, id("C"));
    assert_eq!(frames[1].dst, id("B"));
    for (k, frame) in frames.iter().enumerate() {
        assert_eq!(frame.src, id("A"));
        assert_eq!(frame.body.id, Some(k + 1));
        assert_eq!(frame.body.in_reply_to, None);
        assert!(matches!(&frame.body.payload, OPayload::Gossip { messages } if messages == &set(&[42])));
    }
}

#[test]
fn a_gossip_answer_refers_to_the_gossip() {
    let mut b = node_with_neighbors("B", &["A"]);
    let gossip = MessageSerde {
        src: id("A"),
        dst: id("B"),
        body: BodySerde { id: Some(31), in_reply_to: None, payload: IPayload::Gossip { messages: set(&[1]) } },
    };
    let payload = b.get_state_mut().set_message(gossip);
    let res = b.step(payload).unwrap();
    let frames = b.get_state_mut().envelopes(res).unwrap();
    assert_eq!(frames.len(), 1);
    assert_eq!(frames[0].dst, id("A"));
    assert_eq!(frames[0].body.in_reply_to, Some(31));
}
