//! Many nodes and the wire between them, as mathematics: what holds of a
//! cluster of [`Ledger`]s whatever is lost, repeated or late, and when all
//! of them come to know the same.
//!
//! A step of the cluster is a step of one node, as [`Ledger::step`] has it;
//! what the node sends, as [`Ledger::responses`] has it, goes on the wire
//! and stays there. A packet may be delivered never, once, or many times,
//! and in any order.

use vstd::prelude::*;
use crate::ledger::{
    lemma_roster_is_clean, own_entry, roster, Adjacency, Dispatch, Event, Ledger, Reply,
};
use crate::Name;

verus! {

/// A payload on the wire.
pub struct Packet {
    pub from: Name,
    pub to: Name,
    pub body: Reply,
}

/// What can happen in a cluster.
pub enum Move {
    /// `client` submits `value` to `node`.
    Broadcast { client: Name, node: Name, value: usize },
    /// The gossip interval of `node` elapses.
    Tick { node: Name },
    /// A packet on the wire reaches the node it is for.
    Deliver { packet: Packet },
}

/// The values that a payload carries.
pub open spec fn cargo(body: Reply) -> Set<usize> {
    match body {
        Reply::Gossip { messages } => messages,
        Reply::GossipOk { messages } => messages,
        Reply::ReadOk { messages } => messages,
        _ => Set::empty(),
    }
}

/// What a node makes of a payload from a peer. Only gossip and its
/// confirmation mean anything to a node.
pub open spec fn event_of(body: Reply) -> Option<Event> {
    match body {
        Reply::Gossip { messages } => Some(Event::Gossip { messages }),
        Reply::GossipOk { messages } => Some(Event::GossipOk { messages }),
        _ => None,
    }
}

/// The packets that `by` puts on the wire with `responses`.
pub open spec fn posted(by: Name, responses: Seq<Dispatch>) -> Set<Packet> {
    Set::new(
        |k: Packet|
            exists|i: int|
                0 <= i < responses.len() && k == (Packet {
                    from: by,
                    to: (#[trigger] responses[i]).recipient,
                    body: responses[i].reply,
                }),
    )
}

/// Nodes by name, and every packet ever sent.
pub struct Cluster {
    pub nodes: Map<Name, Ledger>,
    pub wire: Set<Packet>,
}

impl Cluster {
    /// Whether `n` is a node of the cluster.
    pub open spec fn has(self, n: Name) -> bool {
        self.nodes.dom().contains(n)
    }

    /// Whether `u` gossips to `p`.
    pub open spec fn edge(self, u: Name, p: Name) -> bool {
        self.has(u) && self.nodes[u].tracks(p)
    }

    /// Whatever `u` knows, `p` knows or is still owed by `u`.
    pub open spec fn covered(self, u: Name, p: Name) -> bool {
        self.nodes[u].known.subset_of(self.nodes[p].known.union(self.nodes[u].outstanding(p)))
    }

    /// The sender of `k` knows what `k` carries.
    pub open spec fn backed(self, k: Packet) -> bool {
        self.has(k.from) && cargo(k.body).subset_of(self.nodes[k.from].known)
    }

    /// What holds of a cluster at all times: every ledger is in order and
    /// under its own name, neighbors are nodes, whatever a node knows each
    /// neighbor knows or is owed, and whatever is on the wire its sender
    /// knows.
    pub open spec fn sound(self) -> bool {
        &&& forall|n: Name| #[trigger] self.has(n) ==> self.nodes[n].wf() && self.nodes[n].me == n
        &&& forall|u: Name, p: Name| #[trigger]
            self.edge(u, p) ==> self.has(p) && self.covered(u, p)
        &&& forall|k: Packet| #[trigger] self.wire.contains(k) ==> self.backed(k)
    }

    /// Every value that some node knows.
    pub open spec fn everything(self) -> Set<usize> {
        Set::new(
            |v: usize| exists|n: Name| #[trigger] self.has(n) && self.nodes[n].known.contains(v),
        )
    }

    /// `node` takes `event` from `sender`, and what it sends goes on the
    /// wire.
    pub open spec fn deliver(self, sender: Name, node: Name, event: Event) -> Cluster {
        Cluster {
            nodes: self.nodes.insert(node, self.nodes[node].step(sender, event)),
            wire: self.wire.union(posted(node, self.nodes[node].responses(sender, event))),
        }
    }

    /// Whether `m` can happen: it concerns a node of the cluster, and a
    /// packet can only arrive that was sent.
    pub open spec fn enabled(self, m: Move) -> bool {
        match m {
            Move::Broadcast { client, node, value } => self.has(node),
            Move::Tick { node } => self.has(node),
            Move::Deliver { packet } => self.wire.contains(packet) && self.has(packet.to) && event_of(
                packet.body,
            ) is Some,
        }
    }

    /// The cluster after `m`. What cannot happen changes nothing.
    pub open spec fn apply(self, m: Move) -> Cluster {
        if !self.enabled(m) {
            self
        } else {
            match m {
                Move::Broadcast { client, node, value } => self.deliver(
                    client,
                    node,
                    Event::Broadcast { message: value },
                ),
                Move::Tick { node } => self.deliver(node, node, Event::Tick),
                Move::Deliver { packet } => self.deliver(
                    packet.from,
                    packet.to,
                    event_of(packet.body)->0,
                ),
            }
        }
    }

    /// The cluster after `moves`, the first of them first.
    pub open spec fn run(self, moves: Seq<Move>) -> Cluster
        decreases moves.len(),
    {
        if moves.len() == 0 {
            self
        } else {
            self.run(moves.drop_last()).apply(moves.last())
        }
    }

    /// A step of a node keeps the cluster sound, provided that gossip and
    /// confirmations carry only what their sender knows.
    pub proof fn lemma_deliver_keeps_soundness(self, sender: Name, node: Name, event: Event)
        requires
            self.sound(),
            self.has(node),
            !(event is Topology),
            event is Gossip ==> self.has(sender) && event->Gossip_messages.subset_of(
                self.nodes[sender].known,
            ),
            event is GossipOk ==> self.has(sender) && event->GossipOk_messages.subset_of(
                self.nodes[sender].known,
            ),
        ensures
            self.deliver(sender, node, event).sound(),
    {
        let after = self.deliver(sender, node, event);
        let before = self.nodes[node];
        let now = before.step(sender, event);
        before.lemma_step_keeps_wf(sender, event);
        before.lemma_neighbors_stay(sender, event);
        before.law_knowledge_grows(sender, event);
        assert(self.has(node));
        assert forall|n: Name| #[trigger] after.has(n) implies after.nodes[n].wf() && after.nodes[n].me
            == n by {
            assert(self.has(n));
        }
        assert forall|u: Name, p: Name| #[trigger] after.edge(u, p) implies after.has(p)
            && after.covered(u, p) by {
            assert(self.has(u));
            assert(self.edge(u, p));
            if u == node {
                assert(p != node) by {
                    if p == node {
                        let i = choose|i: int|
                            0 <= i < before.trackers.len() && (#[trigger] before.trackers[i]).neighbor == p;
                    }
                }
                match event {
                    Event::Gossip { messages } => {
                        before.lemma_outstanding_after_gossip(sender, messages, p);
                    },
                    Event::GossipOk { messages } => {
                        before.lemma_outstanding_after_ack(sender, messages, p);
                    },
                    Event::Broadcast { message } => {
                        before.law_broadcast_reaches_all(message, p);
                    },
                    _ => {},
                }
            }
        }
        assert forall|k: Packet| #[trigger] after.wire.contains(k) implies after.backed(k) by {
            if self.wire.contains(k) {
                assert(self.backed(k));
                assert(self.has(k.from));
            } else {
                let responses = before.responses(sender, event);
                let i = choose|i: int|
                    0 <= i < responses.len() && k == (Packet {
                        from: node,
                        to: (#[trigger] responses[i]).recipient,
                        body: responses[i].reply,
                    });
                if event is Tick {
                    before.lemma_frames_offer_what_is_owed();
                    before.lemma_owed_is_known(responses[i].recipient);
                }
            }
        }
    }

    /// Whatever happens, the cluster stays sound.
    pub proof fn law_soundness_is_kept(self, m: Move)
        requires
            self.sound(),
        ensures
            self.apply(m).sound(),
    {
        if self.enabled(m) {
            match m {
                Move::Broadcast { client, node, value } => {
                    let event = Event::Broadcast { message: value };
                    self.lemma_deliver_keeps_soundness(client, node, event);
                },
                Move::Tick { node } => {
                    self.lemma_deliver_keeps_soundness(node, node, Event::Tick);
                },
                Move::Deliver { packet } => {
                    assert(self.backed(packet));
                    let event = event_of(packet.body)->0;
                    self.lemma_deliver_keeps_soundness(packet.from, packet.to, event);
                },
            }
        }
    }
}

impl Cluster {
    /// A move changes neither the nodes nor their neighbors, takes nothing
    /// from what a node knows, and takes nothing off the wire.
    pub proof fn lemma_move_only_adds(self, m: Move)
        ensures
            forall|n: Name| self.apply(m).has(n) == self.has(n),
            forall|u: Name, p: Name| self.apply(m).edge(u, p) == self.edge(u, p),
            forall|n: Name| #[trigger]
                self.has(n) ==> self.nodes[n].known.subset_of(self.apply(m).nodes[n].known),
            self.wire.subset_of(self.apply(m).wire),
    {
        if self.enabled(m) {
            let (sender, node, event) = match m {
                Move::Broadcast { client, node, value } => (
                    client,
                    node,
                    Event::Broadcast { message: value },
                ),
                Move::Tick { node } => (node, node, Event::Tick),
                Move::Deliver { packet } => (packet.from, packet.to, event_of(packet.body)->0),
            };
            assert(self.apply(m) == self.deliver(sender, node, event));
            self.nodes[node].lemma_neighbors_stay(sender, event);
            self.nodes[node].law_knowledge_grows(sender, event);
            assert forall|n: Name| self.apply(m).has(n) == self.has(n) by {}
            assert forall|u: Name, p: Name| self.apply(m).edge(u, p) == self.edge(u, p) by {
                assert(self.apply(m).has(u) == self.has(u));
            }
        }
    }

    /// Moves change neither the nodes nor their neighbors, take nothing from
    /// what a node knows, take nothing off the wire, and keep a sound
    /// cluster sound.
    pub proof fn lemma_run_only_adds(self, moves: Seq<Move>)
        ensures
            forall|n: Name| self.run(moves).has(n) == self.has(n),
            forall|u: Name, p: Name| self.run(moves).edge(u, p) == self.edge(u, p),
            forall|n: Name| #[trigger]
                self.has(n) ==> self.nodes[n].known.subset_of(self.run(moves).nodes[n].known),
            self.wire.subset_of(self.run(moves).wire),
            self.sound() ==> self.run(moves).sound(),
        decreases moves.len(),
    {
        if moves.len() > 0 {
            let before = self.run(moves.drop_last());
            self.lemma_run_only_adds(moves.drop_last());
            before.lemma_move_only_adds(moves.last());
            if self.sound() {
                before.law_soundness_is_kept(moves.last());
            }
            assert forall|n: Name| #[trigger] self.has(n) implies self.nodes[n].known.subset_of(
                self.run(moves).nodes[n].known,
            ) by {
                assert(before.has(n));
            }
        }
    }

    /// Running moves is running a first part of them and then the rest.
    pub proof fn lemma_run_in_two(self, moves: Seq<Move>, i: int)
        requires
            0 <= i <= moves.len(),
        ensures
            self.run(moves) == self.run(moves.take(i)).run(moves.skip(i)),
        decreases moves.len() - i,
    {
        if i == moves.len() {
            assert(moves.take(i) =~= moves);
            assert(moves.skip(i) =~= Seq::empty());
        } else {
            self.lemma_run_in_two(moves.drop_last(), i);
            assert(moves.drop_last().take(i) =~= moves.take(i));
            assert(moves.drop_last().skip(i) =~= moves.skip(i).drop_last());
            assert(moves.skip(i).last() == moves.last());
        }
    }

    /// The cluster after the first `i` of `moves`.
    pub open spec fn at(self, moves: Seq<Move>, i: int) -> Cluster {
        self.run(moves.take(i))
    }

    /// From any point of a run to its end, nodes only learn and the wire
    /// only fills.
    pub proof fn lemma_later_is_more(self, moves: Seq<Move>, i: int)
        requires
            0 <= i <= moves.len(),
        ensures
            forall|n: Name| self.at(moves, i).has(n) == self.has(n),
            forall|u: Name, p: Name| self.at(moves, i).edge(u, p) == self.edge(u, p),
            forall|n: Name| #[trigger]
                self.has(n) ==> self.nodes[n].known.subset_of(self.at(moves, i).nodes[n].known)
                    && self.at(moves, i).nodes[n].known.subset_of(self.run(moves).nodes[n].known),
            self.at(moves, i).wire.subset_of(self.run(moves).wire),
            self.sound() ==> self.at(moves, i).sound(),
            i < moves.len() ==> self.at(moves, i + 1) == self.at(moves, i).apply(moves[i]),
    {
        let mid = self.at(moves, i);
        self.lemma_run_only_adds(moves.take(i));
        self.lemma_run_in_two(moves, i);
        mid.lemma_run_only_adds(moves.skip(i));
        assert forall|n: Name| #[trigger] self.has(n) implies self.nodes[n].known.subset_of(
            mid.nodes[n].known,
        ) && mid.nodes[n].known.subset_of(self.run(moves).nodes[n].known) by {
            assert(mid.has(n));
        }
        if i < moves.len() {
            assert(moves.take(i + 1).drop_last() =~= moves.take(i));
            assert(moves.take(i + 1).last() == moves[i]);
        }
    }
}

/// The packet with which `u` offers `p` the values `messages`.
pub open spec fn offer(u: Name, p: Name, messages: Set<usize>) -> Packet {
    Packet { from: u, to: p, body: Reply::Gossip { messages } }
}

impl Cluster {
    /// Among `moves`, the `i`-th is a tick of `u`, and the frame that this
    /// tick makes for `p` arrives as the `j`-th. Where nothing is owed to
    /// `p` at the tick there is no frame, and `j` says nothing.
    pub open spec fn serves(self, moves: Seq<Move>, u: Name, p: Name, i: int, j: int) -> bool {
        &&& 0 <= i < moves.len()
        &&& moves[i] == Move::Tick { node: u }
        &&& {
            let owed = self.at(moves, i).nodes[u].outstanding(p);
            ||| owed.is_empty()
            ||| i < j < moves.len() && moves[j] == (Move::Deliver { packet: offer(u, p, owed) })
        }
    }

    /// Among `moves`, `u` ticks and what it offers `p` at that tick arrives.
    pub open spec fn served(self, moves: Seq<Move>, u: Name, p: Name) -> bool {
        exists|i: int, j: int| #[trigger] self.serves(moves, u, p, i, j)
    }

    /// Any edge can be served: by a tick of `u` and the arrival at `p` of
    /// what `u` owes it.
    pub proof fn law_an_edge_can_be_served(self, u: Name, p: Name)
        ensures
            self.served(
                seq![
                    Move::Tick { node: u },
                    Move::Deliver { packet: offer(u, p, self.nodes[u].outstanding(p)) },
                ],
                u,
                p,
            ),
    {
        let moves = seq![
            Move::Tick { node: u },
            Move::Deliver { packet: offer(u, p, self.nodes[u].outstanding(p)) },
        ];
        assert(moves.take(0) =~= Seq::<Move>::empty());
        assert(self.at(moves, 0) == self);
        assert(self.serves(moves, u, p, 0, 1));
    }

    /// Every node ticks among `moves`, and every frame of those ticks
    /// arrives: each edge is served.
    pub open spec fn complete(self, moves: Seq<Move>) -> bool {
        forall|u: Name, p: Name| #[trigger] self.edge(u, p) ==> self.served(moves, u, p)
    }

    /// Once an edge from `u` to `p` is served, `p` knows what `u` knew
    /// before.
    pub proof fn lemma_served_edge_carries(self, moves: Seq<Move>, u: Name, p: Name)
        requires
            self.sound(),
            self.edge(u, p),
            self.served(moves, u, p),
        ensures
            self.nodes[u].known.subset_of(self.run(moves).nodes[p].known),
    {
        let (i, j) = choose|i: int, j: int| #[trigger] self.serves(moves, u, p, i, j);
        let at_tick = self.at(moves, i);
        let owed = at_tick.nodes[u].outstanding(p);
        self.lemma_later_is_more(moves, i);
        assert(self.has(u));
        assert(at_tick.edge(u, p));
        assert(at_tick.has(p) && at_tick.covered(u, p));
        assert(self.has(p));
        if owed.is_empty() {
            assert(owed =~= Set::<usize>::empty());
        } else {
            let after_tick = self.at(moves, i + 1);
            assert(at_tick.enabled(moves[i]));
            assert(after_tick == at_tick.deliver(u, u, Event::Tick));
            at_tick.nodes[u].lemma_frames_offer_what_is_owed();
            let d = Dispatch {
                recipient: p,
                reply: Reply::Gossip { messages: owed },
                is_reply: false,
            };
            assert(at_tick.nodes[u].frames().contains(d));
            let k = choose|k: int|
                0 <= k < at_tick.nodes[u].frames().len() && at_tick.nodes[u].frames()[k] == d;
            let sent = at_tick.nodes[u].responses(u, Event::Tick);
            assert(posted(u, sent).contains(offer(u, p, owed))) by {
                assert(sent[k] == d);
            }
            assert(after_tick.wire.contains(offer(u, p, owed)));

            let at_arrival = self.at(moves, j);
            let after_arrival = self.at(moves, j + 1);
            self.lemma_later_is_more(moves, j);
            self.lemma_later_is_more(moves, j + 1);
            assert(at_arrival.wire.contains(offer(u, p, owed))) by {
                self.lemma_from_to(moves, i + 1, j);
            }
            assert(at_tick.nodes[p].known.subset_of(at_arrival.nodes[p].known)) by {
                self.lemma_from_to(moves, i, j);
            }
            assert(at_arrival.has(p));
            assert(at_arrival.enabled(moves[j]));
            assert(after_arrival == at_arrival.deliver(u, p, Event::Gossip { messages: owed }));
            assert(after_arrival.nodes[p].known == at_arrival.nodes[p].known.union(owed));
        }
    }

    /// From any point of a run to any later one, nodes only learn and the
    /// wire only fills.
    pub proof fn lemma_from_to(self, moves: Seq<Move>, i: int, j: int)
        requires
            0 <= i <= j <= moves.len(),
        ensures
            forall|n: Name| #[trigger]
                self.has(n) ==> self.at(moves, i).nodes[n].known.subset_of(
                    self.at(moves, j).nodes[n].known,
                ),
            self.at(moves, i).wire.subset_of(self.at(moves, j).wire),
    {
        self.lemma_later_is_more(moves.take(j), i);
        assert(moves.take(j).take(i) =~= moves.take(i));
        assert(moves.take(j).take(j) =~= moves.take(j));
    }

    /// The cluster after `rounds`, one after the other.
    pub open spec fn run_rounds(self, rounds: Seq<Seq<Move>>) -> Cluster
        decreases rounds.len(),
    {
        if rounds.len() == 0 {
            self
        } else {
            self.run_rounds(rounds.drop_last()).run(rounds.last())
        }
    }

    /// Each of `rounds` is complete for the cluster that it starts from.
    pub open spec fn fair(self, rounds: Seq<Seq<Move>>) -> bool {
        forall|k: int|
            0 <= k < rounds.len() ==> self.run_rounds(rounds.take(k)).complete(#[trigger] rounds[k])
    }

    /// No client submits anything during `rounds`.
    pub open spec fn quiet(rounds: Seq<Seq<Move>>) -> bool {
        forall|k: int, i: int|
            0 <= k < rounds.len() && 0 <= i < rounds[k].len() ==> !((
            #[trigger] rounds[k][i]) is Broadcast)
    }

    /// From the end of any of `rounds` to the end of the last, nodes only
    /// learn; nodes and neighbors stay, and a sound cluster stays sound.
    pub proof fn lemma_rounds_only_add(self, rounds: Seq<Seq<Move>>, k: int)
        requires
            0 <= k <= rounds.len(),
        ensures
            forall|n: Name| self.run_rounds(rounds.take(k)).has(n) == self.has(n),
            forall|u: Name, p: Name| self.run_rounds(rounds.take(k)).edge(u, p) == self.edge(u, p),
            forall|n: Name| #[trigger]
                self.has(n) ==> self.nodes[n].known.subset_of(self.run_rounds(rounds.take(k)).nodes[n].known)
                    && self.run_rounds(rounds.take(k)).nodes[n].known.subset_of(
                    self.run_rounds(rounds).nodes[n].known,
                ),
            self.sound() ==> self.run_rounds(rounds.take(k)).sound(),
            k < rounds.len() ==> self.run_rounds(rounds.take(k + 1)) == self.run_rounds(rounds.take(k)).run(
                rounds[k],
            ),
        decreases rounds.len() - k, rounds.len(),
    {
        let here = self.run_rounds(rounds.take(k));
        if rounds.len() == 0 {
            assert(rounds.take(k) =~= rounds);
        } else if k == rounds.len() {
            assert(rounds.take(k) =~= rounds);
            let earlier = rounds.drop_last();
            self.lemma_rounds_only_add(earlier, earlier.len() as int);
            assert(earlier.take(earlier.len() as int) =~= earlier);
            let before = self.run_rounds(earlier);
            before.lemma_run_only_adds(rounds.last());
            assert forall|n: Name| #[trigger] self.has(n) implies self.nodes[n].known.subset_of(
                here.nodes[n].known,
            ) by {
                assert(before.has(n));
            }
        } else {
            self.lemma_rounds_only_add(rounds, k + 1);
            let next = self.run_rounds(rounds.take(k + 1));
            assert(rounds.take(k + 1).drop_last() =~= rounds.take(k));
            assert(rounds.take(k + 1).last() == rounds[k]);
            assert(next == here.run(rounds[k]));
            self.lemma_rounds_only_add(rounds.take(k), k);
            assert(rounds.take(k).take(k) =~= rounds.take(k));
            here.lemma_run_only_adds(rounds[k]);
            assert forall|n: Name| #[trigger] self.has(n) implies here.nodes[n].known.subset_of(
                self.run_rounds(rounds).nodes[n].known,
            ) by {
                assert(here.has(n));
                assert(next.has(n));
            }
        }
    }

    /// Whether `path` leads from node to neighbor to neighbor.
    pub open spec fn walk(self, path: Seq<Name>) -> bool {
        &&& path.len() >= 1
        &&& self.has(path[0])
        &&& forall|i: int| 0 <= i < path.len() - 1 ==> self.edge(#[trigger] path[i], path[i + 1])
    }

    /// After as many fair rounds as a walk has edges, its last node knows
    /// what its first node knew at the start.
    pub proof fn lemma_walk_carries(self, rounds: Seq<Seq<Move>>, path: Seq<Name>)
        requires
            self.sound(),
            self.fair(rounds),
            self.walk(path),
            path.len() - 1 <= rounds.len(),
        ensures
            self.has(path.last()),
            self.nodes[path[0]].known.subset_of(self.run_rounds(rounds).nodes[path.last()].known),
        decreases path.len(),
    {
        let edges = path.len() - 1;
        if edges == 0 {
            self.lemma_rounds_only_add(rounds, 0);
        } else {
            let shorter = path.drop_last();
            let w = shorter.last();
            let p = path.last();
            assert(self.walk(shorter)) by {
                assert forall|i: int| 0 <= i < shorter.len() - 1 implies self.edge(
                    #[trigger] shorter[i],
                    shorter[i + 1],
                ) by {
                    assert(self.edge(path[i], path[i + 1]));
                }
            }
            let first = rounds.take(edges - 1);
            assert(self.fair(first)) by {
                assert forall|k: int| 0 <= k < first.len() implies self.run_rounds(first.take(k)).complete(
                    #[trigger] first[k],
                ) by {
                    assert(first.take(k) =~= rounds.take(k));
                    assert(first[k] == rounds[k]);
                }
            }
            self.lemma_walk_carries(first, shorter);
            let here = self.run_rounds(first);
            self.lemma_rounds_only_add(rounds, edges - 1);
            self.lemma_rounds_only_add(rounds, edges);
            assert(self.edge(path[edges - 1], path[edges - 1 + 1]));
            assert(here.edge(w, p));
            assert(here.complete(rounds[edges - 1]));
            assert(here.served(rounds[edges - 1], w, p));
            here.lemma_served_edge_carries(rounds[edges - 1], w, p);
            assert(here.has(p));
            assert(self.has(p));
            assert(self.has(path[0]));
        }
    }

    /// Every node is at most `reach` edges away from every other.
    pub open spec fn connected_within(self, reach: nat) -> bool {
        forall|u: Name, p: Name|
            self.has(u) && self.has(p) ==> exists|path: Seq<Name>|
                #![trigger self.walk(path), path[0], path.last()]
                self.walk(path) && path[0] == u && path.last() == p && path.len() <= reach + 1
    }

    /// A move that is no submission brings no value into the cluster.
    pub proof fn lemma_gossip_invents_nothing(self, m: Move)
        requires
            self.sound(),
            !(m is Broadcast),
        ensures
            self.apply(m).everything() == self.everything(),
    {
        self.lemma_move_only_adds(m);
        let after = self.apply(m);
        assert forall|v: usize| self.everything().contains(v) implies after.everything().contains(
            v,
        ) by {
            let n = choose|n: Name| #[trigger] self.has(n) && self.nodes[n].known.contains(v);
            assert(after.has(n));
        }
        assert forall|v: usize| after.everything().contains(v) implies self.everything().contains(
            v,
        ) by {
            let n = choose|n: Name| #[trigger] after.has(n) && after.nodes[n].known.contains(v);
            assert(self.has(n));
            if !self.nodes[n].known.contains(v) {
                match m {
                    Move::Deliver { packet } => {
                        assert(self.backed(packet));
                        assert(self.has(packet.from));
                        assert(self.nodes[packet.from].known.contains(v));
                    },
                    _ => {},
                }
            }
        }
        assert(after.everything() =~= self.everything());
    }

    /// Moves without a submission bring no value into the cluster.
    pub proof fn lemma_quiet_run_invents_nothing(self, moves: Seq<Move>)
        requires
            self.sound(),
            forall|i: int| 0 <= i < moves.len() ==> !((#[trigger] moves[i]) is Broadcast),
        ensures
            self.run(moves).everything() == self.everything(),
        decreases moves.len(),
    {
        if moves.len() > 0 {
            self.lemma_quiet_run_invents_nothing(moves.drop_last());
            self.lemma_run_only_adds(moves.drop_last());
            assert(!(moves[moves.len() - 1] is Broadcast));
            self.run(moves.drop_last()).lemma_gossip_invents_nothing(moves.last());
        }
    }

    /// Rounds without a submission bring no value into the cluster.
    pub proof fn lemma_quiet_rounds_invent_nothing(self, rounds: Seq<Seq<Move>>)
        requires
            self.sound(),
            Self::quiet(rounds),
        ensures
            self.run_rounds(rounds).everything() == self.everything(),
        decreases rounds.len(),
    {
        if rounds.len() > 0 {
            let earlier = rounds.drop_last();
            assert(Self::quiet(earlier)) by {
                assert forall|k: int, i: int| 0 <= k < earlier.len() && 0 <= i < earlier[k].len() implies !((
                #[trigger] earlier[k][i]) is Broadcast) by {
                    assert(earlier[k][i] == rounds[k][i]);
                }
            }
            self.lemma_quiet_rounds_invent_nothing(earlier);
            self.lemma_rounds_only_add(earlier, earlier.len() as int);
            assert(earlier.take(earlier.len() as int) =~= earlier);
            let last = rounds.last();
            assert forall|i: int| 0 <= i < last.len() implies !((#[trigger] last[i]) is Broadcast) by {
                assert(last[i] == rounds[rounds.len() - 1][i]);
            }
            self.run_rounds(earlier).lemma_quiet_run_invents_nothing(rounds.last());
        }
    }

    /// Convergence. In a sound cluster where every node is at most `reach`
    /// edges away from every other, after `reach` rounds or more in which no
    /// client submits anything, every node ticks and every frame of those
    /// ticks arrives, each node knows exactly what the nodes knew between
    /// them at the start. Confirmations may be lost, and anything may arrive
    /// late or more than once.
    pub proof fn law_convergence(self, rounds: Seq<Seq<Move>>, reach: nat)
        requires
            self.sound(),
            self.connected_within(reach),
            reach <= rounds.len(),
            self.fair(rounds),
            Self::quiet(rounds),
        ensures
            forall|n: Name| #[trigger]
                self.has(n) ==> self.run_rounds(rounds).nodes[n].known == self.everything(),
    {
        let end = self.run_rounds(rounds);
        self.lemma_quiet_rounds_invent_nothing(rounds);
        self.lemma_rounds_only_add(rounds, rounds.len() as int);
        assert(rounds.take(rounds.len() as int) =~= rounds);
        assert forall|n: Name| #[trigger] self.has(n) implies end.nodes[n].known
            == self.everything() by {
            let known = end.nodes[n].known;
            assert(end.has(n));
            assert forall|v: usize| self.everything().contains(v) implies known.contains(v) by {
                let u = choose|u: Name| #[trigger] self.has(u) && self.nodes[u].known.contains(v);
                let path = choose|path: Seq<Name>|
                    #![trigger self.walk(path), path[0], path.last()]
                    self.walk(path) && path[0] == u && path.last() == n && path.len() <= reach + 1;
                self.lemma_walk_carries(rounds, path);
            }
            assert forall|v: usize| known.contains(v) implies self.everything().contains(v) by {
                assert(end.everything().contains(v));
            }
            assert(known =~= self.everything());
        }
    }
}

impl Cluster {
    /// The cluster of `names` at the start: each node knows nothing and has
    /// the neighbors that `topology` lists for it, and nothing was sent.
    pub open spec fn start(names: Set<Name>, topology: Adjacency) -> Cluster {
        Cluster {
            nodes: Map::new(
                |n: Name| names.contains(n),
                |n: Name| Ledger::fresh(n).step(n, Event::Topology { topology }),
            ),
            wire: Set::empty(),
        }
    }

    /// Whether `topology` lists only nodes of `names` as neighbors of nodes
    /// of `names`.
    pub open spec fn closed(names: Set<Name>, topology: Adjacency) -> bool {
        forall|n: Name, p: Name|
            names.contains(n) && #[trigger] own_entry(n, topology).contains(p) ==> names.contains(p)
    }

    /// A cluster at the start is sound, and nothing is known in it.
    pub proof fn law_start_is_sound(names: Set<Name>, topology: Adjacency)
        requires
            Self::closed(names, topology),
        ensures
            Self::start(names, topology).sound(),
            Self::start(names, topology).everything() == Set::<usize>::empty(),
            forall|n: Name| Self::start(names, topology).has(n) == names.contains(n),
    {
        let c = Self::start(names, topology);
        assert forall|n: Name| #[trigger] c.has(n) implies c.nodes[n].wf() && c.nodes[n].me == n by {
            Ledger::fresh(n).lemma_step_keeps_wf(n, Event::Topology { topology });
        }
        assert forall|u: Name, p: Name| #[trigger] c.edge(u, p) implies c.has(p) && c.covered(
            u,
            p,
        ) by {
            let entry = own_entry(u, topology);
            lemma_roster_is_clean(u, entry);
            let i = choose|i: int|
                0 <= i < c.nodes[u].trackers.len() && (#[trigger] c.nodes[u].trackers[i]).neighbor == p;
            assert(roster(u, entry)[i] == p);
            assert(roster(u, entry).contains(p));
            assert(entry.contains(p));
        }
        assert(c.everything() =~= Set::<usize>::empty());
    }

    /// The values that clients submit to nodes of the cluster among `moves`.
    pub open spec fn submitted(self, moves: Seq<Move>) -> Set<usize> {
        Set::new(
            |v: usize|
                exists|i: int|
                    0 <= i < moves.len() && (#[trigger] moves[i]) is Broadcast && moves[i]->value == v
                        && self.has(moves[i]->Broadcast_node),
        )
    }

    /// After any moves, the nodes know between them what they knew before
    /// and what was submitted since: no value is lost, and none comes from
    /// nowhere.
    pub proof fn law_knowledge_is_what_was_submitted(self, moves: Seq<Move>)
        requires
            self.sound(),
        ensures
            self.run(moves).everything() == self.everything().union(self.submitted(moves)),
        decreases moves.len(),
    {
        if moves.len() == 0 {
            assert(self.submitted(moves) =~= Set::<usize>::empty());
            assert(self.everything().union(self.submitted(moves)) =~= self.everything());
        } else {
            let earlier = moves.drop_last();
            let before = self.run(earlier);
            let m = moves.last();
            self.law_knowledge_is_what_was_submitted(earlier);
            self.lemma_run_only_adds(earlier);
            before.lemma_move_only_adds(m);
            let after = before.apply(m);
            assert forall|v: usize| self.submitted(moves).contains(v) <==> self.submitted(earlier).contains(v)
                || (m is Broadcast && m->value == v && self.has(m->Broadcast_node)) by {
                if self.submitted(moves).contains(v) {
                    let i = choose|i: int|
                        0 <= i < moves.len() && (#[trigger] moves[i]) is Broadcast && moves[i]->value == v
                            && self.has(moves[i]->Broadcast_node);
                    if i < moves.len() - 1 {
                        assert(earlier[i] == moves[i]);
                    }
                }
                if self.submitted(earlier).contains(v) {
                    let i = choose|i: int|
                        0 <= i < earlier.len() && (#[trigger] earlier[i]) is Broadcast && earlier[i]->value
                            == v && self.has(earlier[i]->Broadcast_node);
                    assert(moves[i] == earlier[i]);
                }
                if m is Broadcast && m->value == v && self.has(m->Broadcast_node) {
                    assert(moves[moves.len() - 1] == m);
                }
            }
            if m is Broadcast {
                if before.enabled(m) {
                    let node = m->Broadcast_node;
                    let v = m->value;
                    assert(after.nodes[node].known == before.nodes[node].known.insert(v)) by {
                        before.nodes[node].law_broadcast_reaches_all(v, node);
                    }
                    assert forall|w: usize| after.everything().contains(w) <==> before.everything().contains(w)
                        || w == v by {
                        if after.everything().contains(w) {
                            let n = choose|n: Name| #[trigger]
                                after.has(n) && after.nodes[n].known.contains(w);
                            assert(before.has(n));
                        }
                        if before.everything().contains(w) {
                            let n = choose|n: Name| #[trigger]
                                before.has(n) && before.nodes[n].known.contains(w);
                            assert(after.has(n));
                        }
                        if w == v {
                            assert(after.has(node));
                        }
                    }
                }
            } else {
                before.lemma_gossip_invents_nothing(m);
            }
            assert(after.everything() =~= self.everything().union(self.submitted(moves)));
        }
    }

    /// Convergence from the start. Take a cluster whose nodes have their
    /// neighbors and know nothing, and where every node is at most `reach`
    /// edges away from every other. Let anything happen: submissions, ticks,
    /// arrivals, in any order. Then let `reach` rounds or more pass without a
    /// submission, in each of which every node ticks and every frame of
    /// those ticks arrives. Every node now knows exactly the values that
    /// were submitted.
    pub proof fn law_submissions_reach_every_node(
        names: Set<Name>,
        topology: Adjacency,
        history: Seq<Move>,
        rounds: Seq<Seq<Move>>,
        reach: nat,
    )
        requires
            Self::closed(names, topology),
            Self::start(names, topology).connected_within(reach),
            reach <= rounds.len(),
            Self::start(names, topology).run(history).fair(rounds),
            Self::quiet(rounds),
        ensures
            forall|n: Name| #[trigger]
                names.contains(n) ==> Self::start(names, topology).run(history).run_rounds(
                    rounds,
                ).nodes[n].known == Self::start(names, topology).submitted(history),
    {
        let c = Self::start(names, topology);
        let busy = c.run(history);
        Self::law_start_is_sound(names, topology);
        c.lemma_run_only_adds(history);
        c.law_knowledge_is_what_was_submitted(history);
        assert(busy.everything() =~= c.submitted(history));
        assert(busy.connected_within(reach)) by {
            assert forall|u: Name, p: Name| busy.has(u) && busy.has(p) implies exists|
                path: Seq<Name>,
            |
                #![trigger busy.walk(path), path[0], path.last()]
                busy.walk(path) && path[0] == u && path.last() == p && path.len() <= reach + 1 by {
                assert(c.has(u) && c.has(p));
                let path = choose|path: Seq<Name>|
                    #![trigger c.walk(path), path[0], path.last()]
                    c.walk(path) && path[0] == u && path.last() == p && path.len() <= reach + 1;
                assert(busy.walk(path)) by {
                    assert(busy.has(path[0]));
                    assert forall|i: int| 0 <= i < path.len() - 1 implies busy.edge(
                        #[trigger] path[i],
                        path[i + 1],
                    ) by {
                        assert(c.edge(path[i], path[i + 1]));
                    }
                }
            }
        }
        busy.law_convergence(rounds, reach);
        let end = busy.run_rounds(rounds);
        assert forall|n: Name| #[trigger] names.contains(n) implies end.nodes[n].known
            == c.submitted(history) by {
            assert(c.has(n));
            assert(busy.has(n));
        }
    }
}

impl Cluster {
    /// A round for two nodes: `a` ticks and what it owes `b` arrives, then
    /// `b` ticks and what it owes `a` by then arrives. No confirmation
    /// arrives.
    pub open spec fn back_and_forth(self, a: Name, b: Name) -> Seq<Move> {
        let there = seq![
            Move::Tick { node: a },
            Move::Deliver { packet: offer(a, b, self.nodes[a].outstanding(b)) },
        ];
        let back = seq![
            Move::Tick { node: b },
            Move::Deliver { packet: offer(b, a, self.run(there).nodes[b].outstanding(a)) },
        ];
        there + back
    }

    /// Two nodes that are each other's only neighbor know the same after one
    /// round back and forth: all that either knew.
    pub proof fn law_two_nodes_converge(self, a: Name, b: Name)
        requires
            self.sound(),
            a != b,
            self.nodes.dom() == set![a, b],
            self.nodes[a].neighbors() == seq![b],
            self.nodes[b].neighbors() == seq![a],
        ensures
            self.run(self.back_and_forth(a, b)).nodes[a].known == self.everything(),
            self.run(self.back_and_forth(a, b)).nodes[b].known == self.everything(),
    {
        let round = self.back_and_forth(a, b);
        let rounds = seq![round];
        assert(self.has(a) && self.has(b));
        assert(self.nodes[a].trackers.len() == self.nodes[a].neighbors().len() == 1);
        assert(self.nodes[b].trackers.len() == self.nodes[b].neighbors().len() == 1);
        assert forall|u: Name, p: Name| self.edge(u, p) <==> (u == a && p == b) || (u == b && p == a) by {
            if self.edge(u, p) {
                assert(u == a || u == b);
                let i = choose|i: int|
                    0 <= i < self.nodes[u].trackers.len() && (#[trigger] self.nodes[u].trackers[i]).neighbor
                        == p;
                assert(self.nodes[u].neighbors()[i] == p);
            }
            if u == a && p == b {
                assert(self.nodes[a].neighbors()[0] == b);
                assert(self.nodes[a].trackers[0].neighbor == b);
            }
            if u == b && p == a {
                assert(self.nodes[b].neighbors()[0] == a);
                assert(self.nodes[b].trackers[0].neighbor == a);
            }
        }
        assert(rounds.take(0) =~= Seq::<Seq<Move>>::empty());
        assert(self.complete(round)) by {
            assert(round.take(0) =~= Seq::<Move>::empty());
            assert(self.serves(round, a, b, 0, 1));
            assert(round.take(2) =~= seq![
                Move::Tick { node: a },
                Move::Deliver { packet: offer(a, b, self.nodes[a].outstanding(b)) },
            ]);
            assert(self.serves(round, b, a, 2, 3));
        }
        assert(self.fair(rounds));
        assert(Self::quiet(rounds));
        assert(self.connected_within(1)) by {
            assert forall|u: Name, p: Name| self.has(u) && self.has(p) implies exists|path: Seq<Name>|
                #![trigger self.walk(path), path[0], path.last()]
                self.walk(path) && path[0] == u && path.last() == p && path.len() <= 1 + 1 by {
                let path = if u == p {
                    seq![u]
                } else {
                    seq![u, p]
                };
                assert(self.walk(path));
                assert(path[0] == u && path.last() == p);
            }
        }
        self.law_convergence(rounds, 1);
        assert(rounds.drop_last() =~= Seq::<Seq<Move>>::empty());
        assert(self.run_rounds(rounds) == self.run(round));
    }
}

} // verus!
