//! The echo node: it sends back what it is sent.

use vstd::prelude::*;
use crate::node::{Node, State};
use crate::{AtomicResponce, NodeError, Outgoing};

verus! {

/// What an echo node takes.
pub enum IPayload {
    /// A text to send back.
    Echo { echo: String },
}

/// What an echo node sends.
pub enum OPayload {
    /// The text that was sent.
    EchoOk { echo: String },
}

/// An echo node: nothing but its session.
pub struct EchoNode<W> {
    state: State<W>,
}

impl<W> Node<IPayload, OPayload, W> for EchoNode<W> {
    type Response = AtomicResponce<OPayload>;

    closed spec fn state(&self) -> State<W> {
        self.state
    }

    /// Answers the sender of the request at hand with the text it sent.
    fn step(&mut self, payload: IPayload) -> (r: Result<AtomicResponce<OPayload>, NodeError>)
        ensures
            r is Ok,
            r->Ok_0@ == (Outgoing {
                recipient: old(self).state()@.sender,
                payload: OPayload::EchoOk { echo: payload->echo },
                is_reply: true,
            }),
    {
        let payload = match payload {
            IPayload::Echo { echo } => OPayload::EchoOk { echo },
        };
        Ok(self.state.reply(payload))
    }

    fn with_initial_state(state: State<W>) -> (node: Self) {
        Self { state }
    }

    fn get_state(&self) -> (s: &State<W>) {
        &self.state
    }

    fn get_state_mut(&mut self) -> (s: &mut State<W>) {
        &mut self.state
    }
}

} // verus!
