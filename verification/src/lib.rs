//! A node of a gossip cluster: the message envelope, the state that every
//! node keeps about the request it is answering, and the protocols that run
//! on top of it.
//!
//! Nothing here reads or writes a stream. A caller decodes a frame into a
//! [`MessageSerde`], hands it to a node, and encodes the envelopes that come
//! back.

use vstd::prelude::*;

pub mod broadcast;
pub mod cluster;
pub mod echo;
pub mod ledger;
pub mod node;
pub mod unique_ids;

verus! {

/// The name of a node or client: the characters of its identifier.
pub type Name = Seq<char>;

/// Identifier of a node or client, compared by its characters.
#[derive(Debug, Hash)]
pub struct NodeId(String);

impl View for NodeId {
    type V = Name;

    closed spec fn view(&self) -> Name {
        self.0@
    }
}

impl NodeId {
    /// Wraps the text of an identifier.
    pub fn new(id: String) -> (r: NodeId)
        ensures
            r@ == id@,
    {
        NodeId(id)
    }

    /// The text of the identifier.
    pub fn to_string(&self) -> (r: String)
        ensures
            r@ == self@,
    {
        self.0.clone()
    }
}

impl Clone for NodeId {
    fn clone(&self) -> (r: Self)
        ensures
            r@ == self@,
    {
        NodeId(self.0.clone())
    }
}

impl PartialEq for NodeId {
    fn eq(&self, other: &Self) -> (b: bool) {
        self.0 == other.0
    }
}

impl vstd::std_specs::cmp::PartialEqSpecImpl for NodeId {
    open spec fn obeys_eq_spec() -> bool {
        true
    }

    open spec fn eq_spec(&self, other: &Self) -> bool {
        self@ == other@
    }
}

impl Eq for NodeId {

}

/// The name of each identifier of a list.
pub open spec fn names(ids: Seq<NodeId>) -> Seq<Name> {
    ids.map_values(|id: NodeId| id@)
}

/// A frame: who sent it, whom it is for, and what it carries.
pub struct MessageSerde<Payload> {
    pub src: NodeId,
    pub dst: NodeId,
    pub body: BodySerde<Payload>,
}

/// The body of a frame. `id` is the sender's own number for the frame,
/// `in_reply_to` the number of the request that the frame answers.
pub struct BodySerde<Payload> {
    pub id: Option<usize>,
    pub in_reply_to: Option<usize>,
    pub payload: Payload,
}

/// What the first frame of a session carries.
pub enum InitPayload {
    Init(Init),
}

/// The node's own identifier and those of the whole cluster.
#[derive(Debug)]
pub struct Init {
    pub node_id: String,
    pub node_ids: Vec<String>,
}

impl Clone for Init {
    fn clone(&self) -> (r: Self)
        ensures
            r.node_id@ == self.node_id@,
            r.node_ids@.map_values(|id: String| id@) == self.node_ids@.map_values(|id: String| id@),
    {
        let r = Init { node_id: self.node_id.clone(), node_ids: self.node_ids.clone() };
        assert(r.node_ids@.map_values(|id: String| id@) =~= self.node_ids@.map_values(
            |id: String| id@,
        ));
        r
    }
}

/// The answer to the first frame of a session.
#[derive(Debug, Clone, Copy, PartialEq, Eq, Structural)]
pub enum InitOk {
    InitOk,
}

/// Why a node cannot go on.
#[derive(Debug, Clone, Copy, PartialEq, Eq, Structural)]
pub enum NodeError {
    /// Neighbors were assigned while trackers for earlier ones were in place.
    TopologyReassigned,
    /// A counter has reached the largest number it can hold.
    CounterExhausted,
}

impl NodeError {
    /// A sentence for the operator.
    pub fn message(&self) -> (r: String)
        ensures
            r@ == match self {
                NodeError::TopologyReassigned => "topology assigned a second time"@,
                NodeError::CounterExhausted => "identifier counter exhausted"@,
            },
    {
        match self {
            NodeError::TopologyReassigned => "topology assigned a second time".to_string(),
            NodeError::CounterExhausted => "identifier counter exhausted".to_string(),
        }
    }
}

/// What an [`AtomicResponce`] holds.
pub struct Outgoing<OP> {
    pub recipient: Name,
    pub payload: OP,
    pub is_reply: bool,
}

/// One payload on its way to one recipient, either as the answer to the
/// request at hand or as a message of the node's own accord.
pub struct AtomicResponce<OP> {
    recipient: NodeId,
    payload: OP,
    is_reply: bool,
}

impl<OP> View for AtomicResponce<OP> {
    type V = Outgoing<OP>;

    closed spec fn view(&self) -> Outgoing<OP> {
        Outgoing { recipient: self.recipient@, payload: self.payload, is_reply: self.is_reply }
    }
}

impl<OP> AtomicResponce<OP> {
    /// An answer to the request at hand.
    pub fn new(recipient: NodeId, payload: OP) -> (r: Self)
        ensures
            r@ == (Outgoing { recipient: recipient@, payload, is_reply: true }),
    {
        Self { recipient, payload, is_reply: true }
    }

    /// A message that answers nothing.
    pub fn send(recipient: NodeId, payload: OP) -> (r: Self)
        ensures
            r@ == (Outgoing { recipient: recipient@, payload, is_reply: false }),
    {
        Self { recipient, payload, is_reply: false }
    }

    /// Whom the payload is for.
    pub fn recipient(&self) -> (r: &NodeId)
        ensures
            r@ == self@.recipient,
    {
        &self.recipient
    }

    /// What is sent.
    pub fn payload(&self) -> (r: &OP)
        ensures
            *r == self@.payload,
    {
        &self.payload
    }

    /// Whether the payload answers the request at hand.
    pub fn is_reply(&self) -> (r: bool)
        ensures
            r == self@.is_reply,
    {
        self.is_reply
    }

    /// Takes the response apart.
    pub fn into_parts(self) -> (r: (NodeId, OP, bool))
        ensures
            r.0@ == self@.recipient,
            r.1 == self@.payload,
            r.2 == self@.is_reply,
    {
        (self.recipient, self.payload, self.is_reply)
    }
}

/// What a step of a node hands back: any number of responses, in the order
/// in which they are to leave.
pub trait Response<OP>: Sized {
    /// The responses, first to leave first.
    spec fn batch(&self) -> Seq<AtomicResponce<OP>>;

    /// The responses as a list.
    fn into_iter(self) -> (v: Vec<AtomicResponce<OP>>)
        ensures
            v@ == self.batch(),
    ;
}

impl<OP> Response<OP> for AtomicResponce<OP> {
    open spec fn batch(&self) -> Seq<AtomicResponce<OP>> {
        seq![*self]
    }

    fn into_iter(self) -> (v: Vec<AtomicResponce<OP>>) {
        let mut v = Vec::new();
        v.push(self);
        v
    }
}

} // verus!
