//! The gossip protocol as mathematics: what a node knows, what it still
//! owes each neighbor, and how each event changes both.
//!
//! The contracts of the executable node in [`crate::broadcast`] are stated
//! over these functions; the laws at the end of this file are proved of
//! them.

use vstd::prelude::*;
use crate::Name;

verus! {

/// Each node's neighbors, by node.
pub type Adjacency = Seq<(Name, Seq<Name>)>;

/// What is still owed to one neighbor.
#[verifier::ext_equal]
pub struct Tracking {
    pub neighbor: Name,
    pub pending: Set<usize>,
}

/// An event as a node sees it.
pub enum Event {
    /// The gossip interval has elapsed.
    Tick,
    /// A peer passes values on.
    Gossip { messages: Set<usize> },
    /// A peer confirms values.
    GossipOk { messages: Set<usize> },
    /// A client submits a value.
    Broadcast { message: usize },
    /// A client asks for everything known.
    Read,
    /// Each node's neighbors, by node.
    Topology { topology: Adjacency },
}

/// What a node sends.
#[verifier::ext_equal]
pub enum Reply {
    /// Values that a neighbor has not confirmed.
    Gossip { messages: Set<usize> },
    /// The values of a gossip frame, confirmed.
    GossipOk { messages: Set<usize> },
    /// A submission is taken.
    BroadcastOk,
    /// Everything known.
    ReadOk { messages: Set<usize> },
    /// Neighbors are assigned.
    TopologyOk,
}

/// One payload on its way to one recipient.
#[verifier::ext_equal]
pub struct Dispatch {
    pub recipient: Name,
    pub reply: Reply,
    pub is_reply: bool,
}

/// The neighbors of `me` according to `topology`: the list under the first
/// entry for `me`, or none where there is no such entry.
pub open spec fn own_entry(me: Name, topology: Adjacency) -> Seq<Name>
    decreases topology.len(),
{
    if topology.len() == 0 {
        Seq::empty()
    } else if topology[0].0 == me {
        topology[0].1
    } else {
        own_entry(me, topology.drop_first())
    }
}

/// The names of `list` other than `me`, each once, in the order in which
/// they first occur.
pub open spec fn roster(me: Name, list: Seq<Name>) -> Seq<Name>
    decreases list.len(),
{
    if list.len() == 0 {
        Seq::empty()
    } else {
        let before = roster(me, list.drop_last());
        if list.last() == me || before.contains(list.last()) {
            before
        } else {
            before.push(list.last())
        }
    }
}

/// The trackers that stand for work to do, the last one first.
pub open spec fn due(trackers: Seq<Tracking>) -> Seq<Tracking>
    decreases trackers.len(),
{
    if trackers.len() == 0 {
        Seq::empty()
    } else if trackers.last().pending.is_empty() {
        due(trackers.drop_last())
    } else {
        seq![trackers.last()] + due(trackers.drop_last())
    }
}

/// The protocol state of one node.
#[verifier::ext_equal]
pub struct Ledger {
    /// The node itself.
    pub me: Name,
    /// Every value the node has learned.
    pub known: Set<usize>,
    /// One tracker for each neighbor.
    pub trackers: Seq<Tracking>,
}

impl Ledger {
    /// A node that knows nothing and has no neighbors.
    pub open spec fn fresh(me: Name) -> Ledger {
        Ledger { me, known: Set::empty(), trackers: Seq::empty() }
    }

    /// No neighbor is tracked twice, none is the node itself, and nothing is
    /// owed that the node does not know.
    pub open spec fn wf(self) -> bool {
        &&& forall|i: int, j: int|
            0 <= i < j < self.trackers.len() ==> self.trackers[i].neighbor != self.trackers[j].neighbor
        &&& forall|i: int| 0 <= i < self.trackers.len() ==> self.trackers[i].neighbor != self.me
        &&& forall|i: int|
            0 <= i < self.trackers.len() ==> (#[trigger] self.trackers[i]).pending.subset_of(self.known)
    }

    /// Whether `p` is a neighbor.
    pub open spec fn tracks(self, p: Name) -> bool {
        exists|i: int| 0 <= i < self.trackers.len() && (#[trigger] self.trackers[i]).neighbor == p
    }

    /// The neighbors, in the order of their trackers.
    pub open spec fn neighbors(self) -> Seq<Name> {
        self.trackers.map_values(|t: Tracking| t.neighbor)
    }

    /// The values that `p` has not confirmed: what is pending under `p`.
    pub open spec fn outstanding(self, p: Name) -> Set<usize> {
        Set::new(
            |v: usize|
                exists|i: int|
                    0 <= i < self.trackers.len() && (#[trigger] self.trackers[i]).neighbor == p
                        && self.trackers[i].pending.contains(v),
        )
    }

    /// The node learns `v`: a value that is new is owed to every neighbor,
    /// one that is known changes nothing.
    pub open spec fn learn(self, v: usize) -> Ledger {
        if self.known.contains(v) {
            self
        } else {
            Ledger {
                known: self.known.insert(v),
                trackers: self.trackers.map_values(
                    |t: Tracking| Tracking { pending: t.pending.insert(v), ..t },
                ),
                ..self
            }
        }
    }

    /// Peer `p` passes on `messages`: each becomes known, those that are new
    /// are owed to every neighbor but `p`, and none of them is owed to `p`
    /// any longer.
    pub open spec fn on_gossip(self, p: Name, messages: Set<usize>) -> Ledger {
        Ledger {
            known: self.known.union(messages),
            trackers: self.trackers.map_values(
                |t: Tracking|
                    if t.neighbor == p {
                        Tracking { pending: t.pending.difference(messages), ..t }
                    } else {
                        Tracking { pending: t.pending.union(messages.difference(self.known)), ..t }
                    },
            ),
            ..self
        }
    }

    /// Peer `p` confirms `messages`: they are no longer owed to `p`.
    pub open spec fn on_gossip_ok(self, p: Name, messages: Set<usize>) -> Ledger {
        Ledger {
            trackers: self.trackers.map_values(
                |t: Tracking|
                    if t.neighbor == p {
                        Tracking { pending: t.pending.difference(messages), ..t }
                    } else {
                        t
                    },
            ),
            ..self
        }
    }

    /// Whether neighbors can be assigned: only while none is tracked.
    pub open spec fn assignable(self) -> bool {
        self.trackers.len() == 0
    }

    /// The node's neighbors become those that `topology` lists for it, with
    /// nothing owed to any of them.
    pub open spec fn assign(self, topology: Adjacency) -> Ledger {
        Ledger {
            trackers: roster(self.me, own_entry(self.me, topology)).map_values(
                |n: Name| Tracking { neighbor: n, pending: Set::empty() },
            ),
            ..self
        }
    }

    /// Whether the node can take `event`. It refuses one thing: neighbors
    /// when it has some.
    pub open spec fn accepts(self, event: Event) -> bool {
        event is Topology ==> self.assignable()
    }

    /// The node after `event` from `sender`. An event that the node refuses
    /// changes nothing.
    pub open spec fn step(self, sender: Name, event: Event) -> Ledger {
        match event {
            Event::Tick => self,
            Event::Gossip { messages } => self.on_gossip(sender, messages),
            Event::GossipOk { messages } => self.on_gossip_ok(sender, messages),
            Event::Broadcast { message } => self.learn(message),
            Event::Read => self,
            Event::Topology { topology } => if self.assignable() {
                self.assign(topology)
            } else {
                self
            },
        }
    }

    /// The gossip frames of one tick: for each neighbor to whom something is
    /// owed, all that is owed. The last neighbor comes first.
    pub open spec fn frames(self) -> Seq<Dispatch> {
        due(self.trackers).map_values(
            |t: Tracking|
                Dispatch {
                    recipient: t.neighbor,
                    reply: Reply::Gossip { messages: t.pending },
                    is_reply: false,
                },
        )
    }

    /// What the node sends on `event` from `sender`, where it accepts the
    /// event.
    pub open spec fn responses(self, sender: Name, event: Event) -> Seq<Dispatch> {
        match event {
            Event::Tick => self.frames(),
            Event::Gossip { messages } => seq![
                Dispatch { recipient: sender, reply: Reply::GossipOk { messages }, is_reply: true },
            ],
            Event::GossipOk { messages } => Seq::empty(),
            Event::Broadcast { message } => seq![
                Dispatch { recipient: sender, reply: Reply::BroadcastOk, is_reply: true },
            ],
            Event::Read => seq![
                Dispatch {
                    recipient: sender,
                    reply: Reply::ReadOk { messages: self.known },
                    is_reply: true,
                },
            ],
            Event::Topology { topology } => seq![
                Dispatch { recipient: sender, reply: Reply::TopologyOk, is_reply: true },
            ],
        }
    }

    /// The node after a history of events, each with its sender, the oldest
    /// first.
    pub open spec fn run(self, history: Seq<(Name, Event)>) -> Ledger
        decreases history.len(),
    {
        if history.len() == 0 {
            self
        } else {
            self.run(history.drop_last()).step(history.last().0, history.last().1)
        }
    }
}

/// A roster names nobody twice and never `me`.
pub proof fn lemma_roster_is_clean(me: Name, list: Seq<Name>)
    ensures
        roster(me, list).no_duplicates(),
        !roster(me, list).contains(me),
        forall|n: Name| roster(me, list).contains(n) ==> list.contains(n),
        forall|n: Name| list.contains(n) && n != me ==> roster(me, list).contains(n),
    decreases list.len(),
{
    if list.len() > 0 {
        let before = roster(me, list.drop_last());
        lemma_roster_is_clean(me, list.drop_last());
        assert forall|n: Name| roster(me, list).contains(n) implies list.contains(n) by {
            if before.contains(n) {
                assert(list.drop_last().contains(n));
                let i = choose|i: int| 0 <= i < list.drop_last().len() && list.drop_last()[i] == n;
                assert(list[i] == n);
            } else {
                let i = choose|i: int| 0 <= i < roster(me, list).len() && roster(me, list)[i] == n;
                assert(n == list.last());
                assert(list[list.len() - 1] == n);
            }
        }
        assert forall|n: Name| list.contains(n) && n != me implies roster(me, list).contains(
            n,
        ) by {
            let i = choose|i: int| 0 <= i < list.len() && list[i] == n;
            if i < list.len() - 1 {
                assert(list.drop_last()[i] == n);
                assert(list.drop_last().contains(n));
                assert(before.contains(n));
                let j = choose|j: int| 0 <= j < before.len() && before[j] == n;
                assert(roster(me, list)[j] == n);
            } else if before.contains(n) {
                let j = choose|j: int| 0 <= j < before.len() && before[j] == n;
                assert(roster(me, list)[j] == n);
            } else {
                assert(roster(me, list) == before.push(n));
                assert(roster(me, list)[before.len() as int] == n);
            }
        }
    }
}

impl Ledger {
    /// Whatever happens, the ledger stays in order.
    pub proof fn lemma_step_keeps_wf(self, sender: Name, event: Event)
        requires
            self.wf(),
        ensures
            self.step(sender, event).wf(),
    {
        match event {
            Event::Topology { topology } => {
                if self.assignable() {
                    let r = roster(self.me, own_entry(self.me, topology));
                    lemma_roster_is_clean(self.me, own_entry(self.me, topology));
                    let next = self.assign(topology);
                    assert forall|i: int| 0 <= i < next.trackers.len() implies next.trackers[i].neighbor
                        != self.me by {
                        assert(r.contains(r[i]));
                    }
                }
            },
            _ => {},
        }
    }
}

impl Ledger {
    /// What is owed to `p` after gossip from `p`: what was owed before, less
    /// what `p` passed on. What is owed to anyone else: what was owed before,
    /// and what was new of the gossip.
    pub proof fn lemma_outstanding_after_gossip(self, p: Name, messages: Set<usize>, q: Name)
        ensures
            self.on_gossip(p, messages).outstanding(q) == if q == p {
                self.outstanding(p).difference(messages)
            } else if self.tracks(q) {
                self.outstanding(q).union(messages.difference(self.known))
            } else {
                self.outstanding(q)
            },
    {
        let after = self.on_gossip(p, messages);
        let expected = if q == p {
            self.outstanding(p).difference(messages)
        } else if self.tracks(q) {
            self.outstanding(q).union(messages.difference(self.known))
        } else {
            self.outstanding(q)
        };
        assert forall|v: usize| after.outstanding(q).contains(v) implies expected.contains(v) by {
            let i = choose|i: int|
                0 <= i < after.trackers.len() && (#[trigger] after.trackers[i]).neighbor == q
                    && after.trackers[i].pending.contains(v);
            assert(self.trackers[i].neighbor == q);
            if self.trackers[i].pending.contains(v) {
                assert(self.outstanding(q).contains(v));
            }
        }
        assert forall|v: usize| expected.contains(v) implies after.outstanding(q).contains(v) by {
            if self.outstanding(q).contains(v) {
                let i = choose|i: int|
                    0 <= i < self.trackers.len() && (#[trigger] self.trackers[i]).neighbor == q
                        && self.trackers[i].pending.contains(v);
                assert(after.trackers[i].neighbor == q);
                assert(after.trackers[i].pending.contains(v));
            } else {
                let i = choose|i: int|
                    0 <= i < self.trackers.len() && (#[trigger] self.trackers[i]).neighbor == q;
                assert(after.trackers[i].neighbor == q);
                assert(after.trackers[i].pending.contains(v));
            }
        }
        assert(after.outstanding(q) =~= expected);
    }

    /// What is owed to `p` after `p` confirms `messages`: what was owed
    /// before, less `messages`. What is owed to anyone else stays.
    pub proof fn lemma_outstanding_after_ack(self, p: Name, messages: Set<usize>, q: Name)
        ensures
            self.on_gossip_ok(p, messages).outstanding(q) == if q == p {
                self.outstanding(p).difference(messages)
            } else {
                self.outstanding(q)
            },
    {
        let after = self.on_gossip_ok(p, messages);
        let expected = if q == p {
            self.outstanding(p).difference(messages)
        } else {
            self.outstanding(q)
        };
        assert forall|v: usize| after.outstanding(q).contains(v) implies expected.contains(v) by {
            let i = choose|i: int|
                0 <= i < after.trackers.len() && (#[trigger] after.trackers[i]).neighbor == q
                    && after.trackers[i].pending.contains(v);
            assert(self.trackers[i].neighbor == q);
            assert(self.trackers[i].pending.contains(v));
        }
        assert forall|v: usize| expected.contains(v) implies after.outstanding(q).contains(v) by {
            let i = choose|i: int|
                0 <= i < self.trackers.len() && (#[trigger] self.trackers[i]).neighbor == q
                    && self.trackers[i].pending.contains(v);
            assert(after.trackers[i].neighbor == q);
            assert(after.trackers[i].pending.contains(v));
        }
        assert(after.outstanding(q) =~= expected);
    }

    /// Gossip in two parts from one peer leaves what the whole leaves.
    pub proof fn law_gossip_composes(self, p: Name, first: Set<usize>, second: Set<usize>)
        ensures
            self.on_gossip(p, first).on_gossip(p, second) == self.on_gossip(p, first.union(second)),
    {
        assert(self.on_gossip(p, first).on_gossip(p, second) =~~= self.on_gossip(
            p,
            first.union(second),
        ));
    }

    /// Delivering a gossip frame a second time changes nothing: the node
    /// knows and owes what it did after the first delivery, and answers as
    /// it did.
    pub proof fn law_gossip_is_idempotent(self, p: Name, messages: Set<usize>)
        ensures
            self.on_gossip(p, messages).on_gossip(p, messages) == self.on_gossip(p, messages),
            self.step(p, Event::Gossip { messages }).step(p, Event::Gossip { messages }) == self.step(
                p,
                Event::Gossip { messages },
            ),
            self.step(p, Event::Gossip { messages }).responses(p, Event::Gossip { messages })
                == self.responses(p, Event::Gossip { messages }),
    {
        self.law_gossip_composes(p, messages, messages);
        assert(messages.union(messages) =~= messages);
    }

    /// No event takes a value away from what the node knows.
    pub proof fn law_knowledge_grows(self, sender: Name, event: Event)
        ensures
            self.known.subset_of(self.step(sender, event).known),
    {
    }

    /// Whatever the history, the node knows at its end all that it knew at
    /// its start.
    pub proof fn law_knowledge_never_shrinks(self, history: Seq<(Name, Event)>)
        ensures
            self.known.subset_of(self.run(history).known),
        decreases history.len(),
    {
        if history.len() > 0 {
            self.law_knowledge_never_shrinks(history.drop_last());
            self.run(history.drop_last()).law_knowledge_grows(history.last().0, history.last().1);
        }
    }

    /// Gossip from `p` adds nothing to what is owed to `p`, and nothing that
    /// `p` passed on is owed to `p` afterwards.
    pub proof fn law_no_self_echo(self, p: Name, messages: Set<usize>)
        ensures
            self.on_gossip(p, messages).outstanding(p).subset_of(self.outstanding(p)),
            self.on_gossip(p, messages).outstanding(p).disjoint(messages),
    {
        self.lemma_outstanding_after_gossip(p, messages, p);
    }

    /// A confirmation of `v` by `p` strikes `v`, and only `v`, from what is
    /// owed to `p`, whatever else is owed by then. What is owed to others
    /// and what the node knows stay as they are.
    pub proof fn law_ack_is_precise(self, p: Name, v: usize)
        ensures
            self.on_gossip_ok(p, set![v]).outstanding(p) == self.outstanding(p).remove(v),
            forall|q: Name|
                q != p ==> self.on_gossip_ok(p, set![v]).outstanding(q) == self.outstanding(q),
            self.on_gossip_ok(p, set![v]).known == self.known,
            self.on_gossip_ok(p, set![v]).neighbors() == self.neighbors(),
    {
        self.lemma_outstanding_after_ack(p, set![v], p);
        assert(self.outstanding(p).difference(set![v]) =~= self.outstanding(p).remove(v));
        assert forall|q: Name| q != p implies self.on_gossip_ok(p, set![v]).outstanding(q)
            == self.outstanding(q) by {
            self.lemma_outstanding_after_ack(p, set![v], q);
        }
        assert(self.on_gossip_ok(p, set![v]).neighbors() =~= self.neighbors());
    }

    /// A value that a client submits for the first time is owed to every
    /// neighbor; one that is known changes nothing.
    pub proof fn law_broadcast_reaches_all(self, v: usize, q: Name)
        ensures
            self.known.contains(v) ==> self.learn(v) == self,
            !self.known.contains(v) && self.tracks(q) ==> self.learn(v).outstanding(q)
                == self.outstanding(q).insert(v),
            self.learn(v).known == self.known.insert(v),
    {
        if !self.known.contains(v) && self.tracks(q) {
            let after = self.learn(v);
            assert forall|w: usize| after.outstanding(q).contains(w) implies self.outstanding(q).insert(
                v,
            ).contains(w) by {
                let i = choose|i: int|
                    0 <= i < after.trackers.len() && (#[trigger] after.trackers[i]).neighbor == q
                        && after.trackers[i].pending.contains(w);
                assert(self.trackers[i].neighbor == q);
                if w != v {
                    assert(self.trackers[i].pending.contains(w));
                }
            }
            assert forall|w: usize| self.outstanding(q).insert(v).contains(w) implies after.outstanding(
                q,
            ).contains(w) by {
                if self.outstanding(q).contains(w) {
                    let i = choose|i: int|
                        0 <= i < self.trackers.len() && (#[trigger] self.trackers[i]).neighbor == q
                            && self.trackers[i].pending.contains(w);
                    assert(after.trackers[i].neighbor == q);
                    assert(after.trackers[i].pending.contains(w));
                } else {
                    let i = choose|i: int|
                        0 <= i < self.trackers.len() && (#[trigger] self.trackers[i]).neighbor == q;
                    assert(after.trackers[i].neighbor == q);
                    assert(after.trackers[i].pending.contains(w));
                }
            }
            assert(after.outstanding(q) =~= self.outstanding(q).insert(v));
        }
        if self.known.contains(v) {
            assert(self.known.insert(v) =~= self.known);
        }
    }
}

/// What [`due`] lists are the trackers with something pending, each once.
pub proof fn lemma_due_are_the_busy(trackers: Seq<Tracking>)
    ensures
        forall|k: int|
            0 <= k < due(trackers).len() ==> trackers.contains(#[trigger] due(trackers)[k]) && !due(
                trackers,
            )[k].pending.is_empty(),
        forall|i: int|
            0 <= i < trackers.len() && !(#[trigger] trackers[i]).pending.is_empty() ==> due(
                trackers,
            ).contains(trackers[i]),
    decreases trackers.len(),
{
    if trackers.len() > 0 {
        let rest = trackers.drop_last();
        lemma_due_are_the_busy(rest);
        assert forall|k: int| 0 <= k < due(trackers).len() implies trackers.contains(
            #[trigger] due(trackers)[k],
        ) && !due(trackers)[k].pending.is_empty() by {
            let d = due(trackers)[k];
            if trackers.last().pending.is_empty() {
                assert(rest.contains(due(rest)[k]));
                let i = choose|i: int| 0 <= i < rest.len() && rest[i] == d;
                assert(trackers[i] == d);
            } else if k == 0 {
                assert(trackers[trackers.len() - 1] == d);
            } else {
                assert(due(rest)[k - 1] == d);
                assert(rest.contains(due(rest)[k - 1]));
                let i = choose|i: int| 0 <= i < rest.len() && rest[i] == d;
                assert(trackers[i] == d);
            }
        }
        assert forall|i: int|
            0 <= i < trackers.len() && !(#[trigger] trackers[i]).pending.is_empty() implies due(
            trackers,
        ).contains(trackers[i]) by {
            if i < trackers.len() - 1 {
                assert(rest[i] == trackers[i]);
                assert(due(rest).contains(rest[i]));
                let k = choose|k: int| 0 <= k < due(rest).len() && due(rest)[k] == trackers[i];
                if trackers.last().pending.is_empty() {
                    assert(due(trackers)[k] == trackers[i]);
                } else {
                    assert(due(trackers)[k + 1] == trackers[i]);
                }
            } else {
                assert(due(trackers)[0] == trackers[i]);
            }
        }
    }
}

impl Ledger {
    /// Gossip, confirmations, broadcasts, ticks and reads leave the
    /// neighbors as they are.
    pub proof fn lemma_neighbors_stay(self, sender: Name, event: Event)
        requires
            !(event is Topology),
        ensures
            self.step(sender, event).me == self.me,
            self.step(sender, event).neighbors() == self.neighbors(),
            forall|p: Name| self.step(sender, event).tracks(p) == self.tracks(p),
    {
        let after = self.step(sender, event);
        assert(after.neighbors() =~= self.neighbors());
        assert forall|p: Name| after.tracks(p) == self.tracks(p) by {
            if self.tracks(p) {
                let i = choose|i: int|
                    0 <= i < self.trackers.len() && (#[trigger] self.trackers[i]).neighbor == p;
                assert(after.trackers[i].neighbor == p);
            }
            if after.tracks(p) {
                let i = choose|i: int|
                    0 <= i < after.trackers.len() && (#[trigger] after.trackers[i]).neighbor == p;
                assert(after.neighbors()[i] == p);
                assert(self.neighbors()[i] == p);
                assert(self.trackers[i].neighbor == p);
            }
        }
    }

    /// What is owed is known, where the ledger is in order.
    pub proof fn lemma_owed_is_known(self, p: Name)
        requires
            self.wf(),
        ensures
            self.outstanding(p).subset_of(self.known),
            !self.tracks(p) ==> self.outstanding(p) == Set::<usize>::empty(),
    {
        assert forall|v: usize| self.outstanding(p).contains(v) implies self.known.contains(v) by {
            let i = choose|i: int|
                0 <= i < self.trackers.len() && (#[trigger] self.trackers[i]).neighbor == p
                    && self.trackers[i].pending.contains(v);
            assert(self.trackers[i].pending.subset_of(self.known));
        }
        if !self.tracks(p) {
            assert(self.outstanding(p) =~= Set::<usize>::empty());
        }
    }

    /// A tick offers each neighbor to whom something is owed exactly that,
    /// and offers nothing else.
    pub proof fn lemma_frames_offer_what_is_owed(self)
        requires
            self.wf(),
        ensures
            forall|k: int|
                0 <= k < self.frames().len() ==> {
                    let d = #[trigger] self.frames()[k];
                    &&& self.tracks(d.recipient)
                    &&& !self.outstanding(d.recipient).is_empty()
                    &&& d.reply == Reply::Gossip { messages: self.outstanding(d.recipient) }
                    &&& !d.is_reply
                },
            forall|p: Name|
                self.tracks(p) && !self.outstanding(p).is_empty() ==> self.frames().contains(
                    Dispatch {
                        recipient: p,
                        reply: Reply::Gossip { messages: #[trigger] self.outstanding(p) },
                        is_reply: false,
                    },
                ),
    {
        lemma_due_are_the_busy(self.trackers);
        assert forall|k: int| 0 <= k < self.frames().len() implies {
            let d = #[trigger] self.frames()[k];
            &&& self.tracks(d.recipient)
            &&& !self.outstanding(d.recipient).is_empty()
            &&& d.reply == Reply::Gossip { messages: self.outstanding(d.recipient) }
            &&& !d.is_reply
        } by {
            let t = due(self.trackers)[k];
            assert(self.trackers.contains(t));
            let i = choose|i: int| 0 <= i < self.trackers.len() && self.trackers[i] == t;
            self.lemma_sole_tracker(i);
        }
        assert forall|p: Name|
            self.tracks(p) && !self.outstanding(p).is_empty() implies self.frames().contains(
            Dispatch {
                recipient: p,
                reply: Reply::Gossip { messages: #[trigger] self.outstanding(p) },
                is_reply: false,
            },
        ) by {
            let i = choose|i: int|
                0 <= i < self.trackers.len() && (#[trigger] self.trackers[i]).neighbor == p;
            self.lemma_sole_tracker(i);
            assert(due(self.trackers).contains(self.trackers[i]));
            let k = choose|k: int|
                0 <= k < due(self.trackers).len() && due(self.trackers)[k] == self.trackers[i];
            assert(self.frames()[k] == Dispatch {
                recipient: p,
                reply: Reply::Gossip { messages: self.outstanding(p) },
                is_reply: false,
            });
        }
    }

    /// Where the ledger is in order, what is owed to a neighbor is what its
    /// one tracker holds.
    pub proof fn lemma_sole_tracker(self, i: int)
        requires
            self.wf(),
            0 <= i < self.trackers.len(),
        ensures
            self.tracks(self.trackers[i].neighbor),
            self.outstanding(self.trackers[i].neighbor) == self.trackers[i].pending,
    {
        let p = self.trackers[i].neighbor;
        assert forall|v: usize| self.outstanding(p).contains(v) implies self.trackers[i].pending.contains(
            v,
        ) by {
            let j = choose|j: int|
                0 <= j < self.trackers.len() && (#[trigger] self.trackers[j]).neighbor == p
                    && self.trackers[j].pending.contains(v);
            assert(i == j);
        }
        assert(self.outstanding(p) =~= self.trackers[i].pending);
    }
}

} // verus!
