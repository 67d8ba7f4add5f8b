//! What every node keeps besides its protocol: who it is, whom it is
//! answering, and the number of the last frame it sent.

use vstd::prelude::*;
use crate::{
    names, AtomicResponce, BodySerde, InitOk, InitPayload, MessageSerde, Name, NodeError, NodeId,
    Response,
};

verus! {

/// The request that is being answered: its sender and its number.
struct MessageData {
    src: NodeId,
    id: Option<usize>,
}

/// What a [`State`] holds, apart from its writer.
pub struct StateView {
    /// This node.
    pub node_id: Name,
    /// Every node of the cluster.
    pub node_ids: Seq<Name>,
    /// Who sent the request at hand.
    pub sender: Name,
    /// The number that the sender gave the request at hand.
    pub request_id: Option<usize>,
    /// The number of the last frame sent.
    pub id_counter: usize,
}

/// The session of one node. `W` is whatever the caller writes frames to; it
/// is carried along, and only the caller writes.
pub struct State<W> {
    node_id: NodeId,
    node_ids: Vec<NodeId>,
    req: MessageData,
    id_counter: usize,
    writer: W,
}

impl<W> View for State<W> {
    type V = StateView;

    closed spec fn view(&self) -> StateView {
        StateView {
            node_id: self.node_id@,
            node_ids: names(self.node_ids@),
            sender: self.req.src@,
            request_id: self.req.id,
            id_counter: self.id_counter,
        }
    }
}

/// Whether `frame` is the envelope that a node in `state` puts around
/// `response` under the number `id`.
pub open spec fn sealed<OP>(
    state: StateView,
    response: AtomicResponce<OP>,
    id: usize,
    frame: MessageSerde<OP>,
) -> bool {
    &&& frame.src@ == state.node_id
    &&& frame.dst@ == response@.recipient
    &&& frame.body.id == Some(id)
    &&& frame.body.in_reply_to == if response@.is_reply {
        state.request_id
    } else {
        None
    }
    &&& frame.body.payload == response@.payload
}

impl<W> State<W> {
    /// The writer that the session was made with.
    pub closed spec fn writer(&self) -> W {
        self.writer
    }

    /// This node's identifier.
    pub fn node_id(&self) -> (r: NodeId)
        ensures
            r@ == self@.node_id,
    {
        self.node_id.clone()
    }

    /// The identifiers of all nodes of the cluster.
    pub fn node_ids(&self) -> (r: &Vec<NodeId>)
        ensures
            names(r@) == self@.node_ids,
    {
        &self.node_ids
    }

    /// Starts a session from the first frame: the node learns who it is and
    /// who else there is, and the frame becomes the request at hand.
    pub fn from(req: MessageSerde<InitPayload>, writer: W) -> (s: Self)
        ensures
            s@.node_id == req.body.payload->Init_0.node_id@,
            s@.node_ids == req.body.payload->Init_0.node_ids@.map_values(|id: String| id@),
            s@.sender == req.src@,
            s@.request_id == req.body.id,
            s@.id_counter == 0,
            s.writer() == writer,
    {
        let id = req.body.id;
        let InitPayload::Init(payload) = req.body.payload;
        let mut node_ids: Vec<NodeId> = Vec::new();
        let mut i: usize = 0;
        while i < payload.node_ids.len()
            invariant
                i <= payload.node_ids@.len(),
                node_ids@.len() == i,
                forall|j: int| 0 <= j < i ==> (#[trigger] node_ids@[j])@ == payload.node_ids@[j]@,
            decreases payload.node_ids@.len() - i,
        {
            node_ids.push(NodeId::new(payload.node_ids[i].clone()));
            i = i + 1;
        }
        assert(names(node_ids@) =~= payload.node_ids@.map_values(|id: String| id@));
        Self {
            node_id: NodeId::new(payload.node_id),
            node_ids,
            req: MessageData { src: req.src, id },
            writer,
            id_counter: 0,
        }
    }

    /// Makes `req` the request at hand and hands out what it carries,
    /// passing the session on by value.
    pub fn convert<P>(self, req: MessageSerde<P>) -> (r: (P, Self))
        ensures
            r.0 == req.body.payload,
            r.1@ == (StateView { sender: req.src@, request_id: req.body.id, ..self@ }),
            r.1.writer() == self.writer(),
    {
        let payload = req.body.payload;
        let state = Self {
            node_id: self.node_id,
            node_ids: self.node_ids,
            req: MessageData { src: req.src, id: req.body.id },
            writer: self.writer,
            id_counter: self.id_counter,
        };
        (payload, state)
    }

    /// Makes `req` the request at hand and hands out what it carries.
    pub fn set_message<P>(&mut self, req: MessageSerde<P>) -> (payload: P)
        ensures
            payload == req.body.payload,
            final(self)@ == (StateView { sender: req.src@, request_id: req.body.id, ..old(self)@ }),
            final(self).writer() == old(self).writer(),
    {
        self.req = MessageData { src: req.src, id: req.body.id };
        req.body.payload
    }

    /// The number for the next frame: one more than the last.
    pub fn generate_message_id(&mut self) -> (id: usize)
        requires
            old(self)@.id_counter < usize::MAX,
        ensures
            id == old(self)@.id_counter + 1,
            final(self)@ == (StateView { id_counter: id, ..old(self)@ }),
            final(self).writer() == old(self).writer(),
    {
        self.id_counter = self.id_counter + 1;
        self.id_counter
    }

    /// Addresses `payload` to the sender of the request at hand, as its
    /// answer.
    pub fn reply<OP>(&mut self, payload: OP) -> (r: AtomicResponce<OP>)
        ensures
            r@.recipient == old(self)@.sender,
            r@.payload == payload,
            r@.is_reply,
            *final(self) == *old(self),
    {
        AtomicResponce::new(self.req.src.clone(), payload)
    }

    /// Who sent the request at hand.
    pub fn get_sender(&self) -> (r: NodeId)
        ensures
            r@ == self@.sender,
    {
        self.req.src.clone()
    }

    /// How many frames can still be numbered.
    pub fn ids_left(&self) -> (n: usize)
        ensures
            n == usize::MAX - self@.id_counter,
    {
        usize::MAX - self.id_counter
    }

    /// Sets the next `n` numbers aside and hands back the one before them,
    /// so that the `k`-th of them is that number plus `k`. Where fewer than
    /// `n` are left, none is set aside.
    pub fn reserve(&mut self, n: usize) -> (r: Result<usize, NodeError>)
        ensures
            r is Ok <==> old(self)@.id_counter + n <= usize::MAX,
            match r {
                Ok(last) => last == old(self)@.id_counter && final(self)@ == (StateView {
                    id_counter: (last + n) as usize,
                    ..old(self)@
                }),
                Err(e) => e == NodeError::CounterExhausted && final(self)@ == old(self)@,
            },
            final(self).writer() == old(self).writer(),
    {
        if n > self.ids_left() {
            return Err(NodeError::CounterExhausted);
        }
        let last = self.id_counter;
        self.id_counter = last + n;
        Ok(last)
    }

    /// Puts `response` into an envelope: from this node, to the recipient,
    /// under the number `id`, and, if it is an answer, in reply to the number
    /// of the request at hand.
    pub fn seal<OP>(&self, response: AtomicResponce<OP>, id: usize) -> (frame: MessageSerde<OP>)
        ensures
            sealed(self@, response, id, frame),
    {
        let (recipient, payload, is_reply) = response.into_parts();
        let in_reply_to = if is_reply {
            self.req.id
        } else {
            None
        };
        MessageSerde {
            src: self.node_id.clone(),
            dst: recipient,
            body: BodySerde { id: Some(id), in_reply_to, payload },
        }
    }

    /// Puts every response of `response` into an envelope, in order, each
    /// under the number after the one before. Where the numbers would run
    /// out before the last response, nothing is numbered.
    pub fn envelopes<OP, R: Response<OP>>(&mut self, response: R) -> (r: Result<
        Vec<MessageSerde<OP>>,
        NodeError,
    >)
        ensures
            final(self).writer() == old(self).writer(),
            r is Ok <==> old(self)@.id_counter + response.batch().len() <= usize::MAX,
            match r {
                Ok(frames) => {
                    &&& frames@.len() == response.batch().len()
                    &&& forall|k: int|
                        0 <= k < frames@.len() ==> sealed(
                            old(self)@,
                            response.batch()[k],
                            (old(self)@.id_counter + k + 1) as usize,
                            #[trigger] frames@[k],
                        )
                    &&& final(self)@ == (StateView {
                        id_counter: (old(self)@.id_counter + frames@.len()) as usize,
                        ..old(self)@
                    })
                },
                Err(e) => e == NodeError::CounterExhausted && final(self)@ == old(self)@,
            },
    {
        let batch = response.into_iter();
        let last = match self.reserve(batch.len()) {
            Ok(last) => last,
            Err(e) => {
                return Err(e);
            },
        };
        let ghost all = batch@;
        let mut frames: Vec<MessageSerde<OP>> = Vec::new();
        for item in it: batch
            invariant
                it.seq() == all,
                last + all.len() <= usize::MAX,
                frames@.len() == it.index(),
                forall|k: int|
                    0 <= k < frames@.len() ==> sealed(
                        self@,
                        all[k],
                        (last + k + 1) as usize,
                        #[trigger] frames@[k],
                    ),
        {
            let frame = self.seal(item, last + frames.len() + 1);
            frames.push(frame);
        }
        Ok(frames)
    }

    /// The writer, to write with.
    pub fn writer_mut(&mut self) -> (w: &mut W)
        ensures
            *w == old(self).writer(),
            final(self).writer() == *final(w),
            final(self)@ == old(self)@,
    {
        &mut self.writer
    }

    /// Gives the writer back.
    pub fn into_writer(self) -> (w: W)
        ensures
            w == self.writer(),
    {
        self.writer
    }
}

/// A protocol that runs on a session: it takes the payload of each request
/// and says what to send.
pub trait Node<IP, OP, W>: Sized {
    /// What a step hands back.
    type Response: Response<OP>;

    /// The session that the node runs on.
    spec fn state(&self) -> State<W>;

    /// Takes one payload. The session stays as it is: a step decides what to
    /// send, and numbers nothing.
    fn step(&mut self, payload: IP) -> (r: Result<Self::Response, NodeError>)
        ensures
            final(self).state() == old(self).state(),
    ;

    /// A node at the start of `state`'s session.
    fn with_initial_state(state: State<W>) -> (node: Self)
        ensures
            node.state() == state,
    ;

    /// The session.
    fn get_state(&self) -> (s: &State<W>)
        ensures
            *s == self.state(),
    ;

    /// The session, to record the next request in or to number frames with.
    fn get_state_mut(&mut self) -> (s: &mut State<W>)
        ensures
            *s == old(self).state(),
            final(self).state() == *final(s),
    ;
}

/// The start of a session: the node learns from `init` who it is, and
/// answers the sender with its first frame.
pub fn handshake<N, IP, OP, W>(init: MessageSerde<InitPayload>, writer: W) -> (r: (
    N,
    MessageSerde<InitOk>,
))
    where N: Node<IP, OP, W>
    ensures
        r.0.state()@ == (StateView {
            node_id: init.body.payload->Init_0.node_id@,
            node_ids: init.body.payload->Init_0.node_ids@.map_values(|id: String| id@),
            sender: init.src@,
            request_id: init.body.id,
            id_counter: 1,
        }),
        r.0.state().writer() == writer,
        r.1.src@ == init.body.payload->Init_0.node_id@,
        r.1.dst@ == init.src@,
        r.1.body.id == Some(1usize),
        r.1.body.in_reply_to == init.body.id,
{
    let state = State::from(init, writer);
    let mut node = N::with_initial_state(state);
    let session = node.get_state_mut();
    let reply = session.reply(InitOk::InitOk);
    let id = session.generate_message_id();
    let frame = session.seal(reply, id);
    (node, frame)
}

/// One turn of a node: `message` becomes the request at hand, the node
/// takes what it carries, and what the node hands back is put into
/// envelopes. Whatever the node, the envelopes are from it, are numbered on
/// from the last frame, and refer to `message` or to nothing. Where the turn
/// fails nothing is numbered.
pub fn turn<N, IP, OP, W>(node: &mut N, message: MessageSerde<IP>) -> (r: Result<
    Vec<MessageSerde<OP>>,
    NodeError,
>)
    where N: Node<IP, OP, W>
    ensures
        final(node).state().writer() == old(node).state().writer(),
        match r {
            Ok(frames) => {
                &&& final(node).state()@ == (StateView {
                    sender: message.src@,
                    request_id: message.body.id,
                    id_counter: (old(node).state()@.id_counter + frames@.len()) as usize,
                    ..old(node).state()@
                })
                &&& old(node).state()@.id_counter + frames@.len() <= usize::MAX
                &&& forall|k: int|
                    0 <= k < frames@.len() ==> {
                        &&& (#[trigger] frames@[k]).src@ == old(node).state()@.node_id
                        &&& frames@[k].body.id == Some((old(node).state()@.id_counter + k + 1) as usize)
                        &&& frames@[k].body.in_reply_to is None || frames@[k].body.in_reply_to
                            == message.body.id
                    }
            },
            Err(e) => final(node).state()@ == (StateView {
                sender: message.src@,
                request_id: message.body.id,
                ..old(node).state()@
            }),
        },
{
    let payload = node.get_state_mut().set_message(message);
    let response = match node.step(payload) {
        Ok(response) => response,
        Err(e) => {
            return Err(e);
        },
    };
    node.get_state_mut().envelopes(response)
}

} // verus!
