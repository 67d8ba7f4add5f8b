use gossip_glomers::broadcast::{self, BroadcastNode};
use gossip_glomers::echo::{self, EchoNode};
use gossip_glomers::node::{handshake, turn, Node, State};
use gossip_glomers::{
    AtomicResponce, BodySerde, Init, InitPayload, MessageSerde, NodeError, NodeId, Response,
};

fn id(name: &str) -> NodeId {
    NodeId::new(name.to_string())
}

fn init(me: &str, all: &[&str], number: Option<usize>) -> MessageSerde<InitPayload> {
    MessageSerde {
        src: id("c1"),
        dst: id(me),
        body: BodySerde {
            id: number,
            in_reply_to: None,
            payload: InitPayload::Init(Init {
                node_id: me.to_string(),
                node_ids: all.iter().map(|n| n.to_string()).collect(),
            }),
        },
    }
}

fn request(from: &str, to: &str, number: Option<usize>, payload: u32) -> MessageSerde<u32> {
    MessageSerde {
        src: id(from),
        dst: id(to),
        body: BodySerde { id: number, in_reply_to: None, payload },
    }
}

#[test]
fn node_id_keeps_its_text() {
    let a = id("n1");
    assert_eq!(a.to_string(), "n1");
    assert_eq!(a, id("n1"));
    assert_ne!(a, id("n2"));
    assert_eq!(a.clone(), a);
}

#[test]
fn responses_are_answers_or_not() {
    let answer = AtomicResponce::new(id("c1"), 7u32);
    assert_eq!(answer.recipient(), &id("c1"));
    assert_eq!(*answer.payload(), 7);
    assert!(answer.is_reply());

    let notice = AtomicResponce::send(id("n2"), 8u32);
    assert_eq!(notice.recipient(), &id("n2"));
    assert_eq!(*notice.payload(), 8);
    assert!(!notice.is_reply());

    let (recipient, payload, is_reply) = notice.into_parts();
    assert_eq!(recipient, id("n2"));
    assert_eq!(payload, 8);
    assert!(!is_reply);
}

#[test]
fn a_single_response_is_a_batch_of_one() {
    let batch = AtomicResponce::new(id("c1"), 7u32).into_iter();
    assert_eq!(batch.len(), 1);
    assert_eq!(batch[0].recipient(), &id("c1"));
    assert_eq!(*batch[0].payload(), 7);
}

#[test]
fn session_starts_from_the_init_frame() {
    let state = State::from(init("n1", &["n1", "n2", "n3"], Some(1)), 5u8);
    assert_eq!(state.node_id(), id("n1"));
    assert_eq!(state.node_ids(), &vec![id("n1"), id("n2"), id("n3")]);
    assert_eq!(state.get_sender(), id("c1"));
    assert_eq!(state.ids_left(), usize::MAX);
    assert_eq!(state.into_writer(), 5u8);
}

#[test]
fn init_is_answered_in_reply_to_its_number() {
    let mut state = State::from(init("n1", &["n1"], Some(1)), ());
    let answer = state.reply("init_ok");
    let frames = state.envelopes(answer).unwrap();
    assert_eq!(frames.len(), 1);
    assert_eq!(frames[0].src, id("n1"));
    assert_eq!(frames[0].dst, id("c1"));
    assert_eq!(frames[0].body.id, Some(1));
    assert_eq!(frames[0].body.in_reply_to, Some(1));
    assert_eq!(frames[0].body.payload, "init_ok");
}

#[test]
fn set_message_records_sender_and_number() {
    let mut state = State::from(init("n1", &["n1", "n2"], Some(1)), ());
    let payload = state.set_message(request("c9", "n1", Some(41), 1234));
    assert_eq!(payload, 1234);
    assert_eq!(state.get_sender(), id("c9"));
    assert_eq!(state.node_id(), id("n1"));
    let answer = state.reply(0u32);
    assert_eq!(answer.recipient(), &id("c9"));
    assert!(answer.is_reply());
    let frames = state.envelopes(answer).unwrap();
    assert_eq!(frames[0].body.in_reply_to, Some(41));
}

#[test]
fn convert_records_sender_and_number() {
    let state = State::from(init("n1", &["n1", "n2"], Some(1)), 9u8);
    let (payload, mut state) = state.convert(request("n2", "n1", Some(3), 55));
    assert_eq!(payload, 55);
    assert_eq!(state.get_sender(), id("n2"));
    assert_eq!(state.node_id(), id("n1"));
    assert_eq!(state.node_ids(), &vec![id("n1"), id("n2")]);
    let frames = state.envelopes(AtomicResponce::new(id("n2"), 1u32)).unwrap();
    assert_eq!(frames[0].body.in_reply_to, Some(3));
    assert_eq!(state.into_writer(), 9u8);
}

#[test]
fn a_request_without_number_is_answered_without_reference() {
    let mut state = State::from(init("n1", &["n1"], Some(1)), ());
    state.set_message(request("n2", "n1", None, 0));
    let answer = state.reply(1u32);
    let frames = state.envelopes(answer).unwrap();
    assert_eq!(frames[0].body.id, Some(1));
    assert_eq!(frames[0].body.in_reply_to, None);
}

#[test]
fn a_message_of_the_nodes_own_refers_to_nothing() {
    let mut state = State::from(init("n1", &["n1"], Some(1)), ());
    state.set_message(request("c1", "n1", Some(17), 0));
    let frames = state.envelopes(AtomicResponce::send(id("n2"), 3u32)).unwrap();
    assert_eq!(frames[0].src, id("n1"));
    assert_eq!(frames[0].dst, id("n2"));
    assert_eq!(frames[0].body.in_reply_to, None);
    assert_eq!(frames[0].body.payload, 3);
}

#[test]
fn frames_are_numbered_one_after_the_other() {
    let mut state = State::from(init("n1", &["n1"], Some(1)), ());
    assert_eq!(state.generate_message_id(), 1);
    assert_eq!(state.generate_message_id(), 2);
    let first = state.envelopes(AtomicResponce::new(id("c1"), 1u32)).unwrap();
    assert_eq!(first[0].body.id, Some(3));
    let second = state.envelopes(AtomicResponce::send(id("n2"), 2u32)).unwrap();
    assert_eq!(second[0].body.id, Some(4));
    assert_eq!(state.ids_left(), usize::MAX - 4);
}

#[test]
fn seal_takes_the_number_it_is_given() {
    let mut state = State::from(init("n1", &["n1"], Some(1)), ());
    state.set_message(request("c2", "n1", Some(8), 0));
    let frame = state.seal(AtomicResponce::new(id("c2"), 5u32), 77);
    assert_eq!(frame.src, id("n1"));
    assert_eq!(frame.dst, id("c2"));
    assert_eq!(frame.body.id, Some(77));
    assert_eq!(frame.body.in_reply_to, Some(8));
    assert_eq!(frame.body.payload, 5);
    assert_eq!(state.ids_left(), usize::MAX);
}

#[test]
fn reserve_sets_numbers_aside() {
    let mut state = State::from(init("n1", &["n1"], Some(1)), ());
    assert_eq!(state.reserve(10), Ok(0));
    assert_eq!(state.reserve(0), Ok(10));
    assert_eq!(state.reserve(5), Ok(10));
    assert_eq!(state.generate_message_id(), 16);
}

#[test]
fn numbers_run_out() {
    let mut state = State::from(init("n1", &["n1"], Some(1)), ());
    assert_eq!(state.reserve(usize::MAX - 1), Ok(0));
    assert_eq!(state.ids_left(), 1);
    assert_eq!(state.reserve(2), Err(NodeError::CounterExhausted));
    assert_eq!(state.ids_left(), 1);
    let last = state.envelopes(AtomicResponce::new(id("c1"), 1u32)).unwrap();
    assert_eq!(last[0].body.id, Some(usize::MAX));
    assert_eq!(state.ids_left(), 0);
    let none = state.envelopes(AtomicResponce::new(id("c1"), 2u32));
    assert!(matches!(none, Err(NodeError::CounterExhausted)));
    assert_eq!(state.ids_left(), 0);
    assert_eq!(state.reserve(0), Ok(usize::MAX));
}

#[test]
fn the_writer_is_carried_along() {
    let mut state = State::from(init("n1", &["n1"], Some(1)), Vec::<u8>::new());
    state.writer_mut().push(1);
    state.set_message(request("c1", "n1", Some(2), 0));
    state.writer_mut().push(2);
    assert_eq!(state.into_writer(), vec![1, 2]);
}

#[test]
fn errors_have_a_sentence() {
    assert_eq!(NodeError::TopologyReassigned.message(), "topology assigned a second time");
    assert_eq!(NodeError::CounterExhausted.message(), "identifier counter exhausted");
}

#[test]
fn a_session_opens_with_init_ok() {
    let (node, frame): (EchoNode<u8>, _) =
        handshake(init("n7", &["n7", "n8"], Some(12)), 3u8);
    assert_eq!(frame.src, id("n7"));
    assert_eq!(frame.dst, id("c1"));
    assert_eq!(frame.body.id, Some(1));
    assert_eq!(frame.body.in_reply_to, Some(12));
    assert_eq!(frame.body.payload, gossip_glomers::InitOk::InitOk);
    assert_eq!(node.get_state().node_id(), id("n7"));
    assert_eq!(node.get_state().node_ids(), &vec![id("n7"), id("n8")]);
    assert_eq!(node.get_state().get_sender(), id("c1"));
    assert_eq!(node.get_state().ids_left(), usize::MAX - 1);
}

#[test]
fn a_turn_numbers_on_from_the_handshake() {
    let (mut node, _): (EchoNode<()>, _) =
        handshake(init("n1", &["n1"], Some(1)), ());
    for k in 0..3usize {
        let ask = MessageSerde {
            src: id("c4"),
            dst: id("n1"),
            body: BodySerde {
                id: Some(100 + k),
                in_reply_to: None,
                payload: echo::IPayload::Echo { echo: format!("hello {k}") },
            },
        };
        let frames = turn(&mut node, ask).unwrap();
        assert_eq!(frames.len(), 1);
        assert_eq!(frames[0].src, id("n1"));
        assert_eq!(frames[0].dst, id("c4"));
        assert_eq!(frames[0].body.id, Some(k + 2));
        assert_eq!(frames[0].body.in_reply_to, Some(100 + k));
        let echo::OPayload::EchoOk { echo } = &frames[0].body.payload;
        assert_eq!(echo, &format!("hello {k}"));
    }
}

#[test]
fn a_failed_turn_numbers_nothing() {
    let (mut node, _): (BroadcastNode<()>, _) =
        handshake(init("A", &["A", "B"], Some(1)), ());
    let topology = |number: usize| MessageSerde {
        src: id("c1"),
        dst: id("A"),
        body: BodySerde {
            id: Some(number),
            in_reply_to: None,
            payload: broadcast::IPayload::Topology { topology: vec![(id("A"), vec![id("B")])] },
        },
    };
    assert_eq!(turn(&mut node, topology(2)).unwrap().len(), 1);
    let left = node.get_state().ids_left();
    let refused = turn(&mut node, topology(3));
    assert!(matches!(refused, Err(NodeError::TopologyReassigned)));
    assert_eq!(node.get_state().ids_left(), left);
    assert_eq!(node.get_state().get_sender(), id("c1"));
}

#[test]
fn identifiers_can_be_keys() {
    let mut seen = std::collections::HashSet::new();
    assert!(seen.insert(id("n1")));
    assert!(seen.insert(id("n2")));
    assert!(!seen.insert(id("n1")));
    assert_eq!(seen.len(), 2);
}

#[test]
fn an_init_payload_can_be_copied() {
    let first = Init { node_id: "n1".to_string(), node_ids: vec!["n1".to_string(), "n2".to_string()] };
    let second = first.clone();
    assert_eq!(second.node_id, "n1");
    assert_eq!(second.node_ids, vec!["n1", "n2"]);
    assert_eq!(first.node_ids.len(), 2);
}
