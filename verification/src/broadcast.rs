//! The broadcast node: it learns values from clients and peers, owes each
//! new value to every neighbor, offers what it owes at every tick, and
//! strikes what a neighbor confirms.

use vstd::prelude::*;
use std::collections::HashSet;
use crate::ledger::{due, own_entry, roster, Adjacency, Dispatch, Event, Ledger, Reply, Tracking};
use crate::node::{Node, State};
use crate::{names, AtomicResponce, BodySerde, MessageSerde, Name, NodeError, NodeId, Response};

verus! {

broadcast use vstd::std_specs::hash::group_hash_axioms;

/// Milliseconds between two ticks.
pub const GOSSIP_INTERVAL_MS: u64 = 300;

/// What a broadcast node takes.
#[derive(Debug)]
pub enum IPayload {
    /// The gossip interval has elapsed.
    GossipSignal,
    /// A peer passes values on.
    Gossip { messages: HashSet<usize> },
    /// A peer confirms values.
    GossipOk { messages: HashSet<usize> },
    /// A client submits a value.
    Broadcast { message: usize },
    /// A client asks for everything known.
    Read,
    /// Each node's neighbors, by node.
    Topology { topology: Vec<(NodeId, Vec<NodeId>)> },
}

/// A topology as names.
pub open spec fn adjacency(topology: Seq<(NodeId, Vec<NodeId>)>) -> Adjacency {
    topology.map_values(|e: (NodeId, Vec<NodeId>)| (e.0@, names(e.1@)))
}

impl View for IPayload {
    type V = Event;

    open spec fn view(&self) -> Event {
        match self {
            IPayload::GossipSignal => Event::Tick,
            IPayload::Gossip { messages } => Event::Gossip { messages: messages@ },
            IPayload::GossipOk { messages } => Event::GossipOk { messages: messages@ },
            IPayload::Broadcast { message } => Event::Broadcast { message: *message },
            IPayload::Read => Event::Read,
            IPayload::Topology { topology } => Event::Topology { topology: adjacency(topology@) },
        }
    }
}

/// What a broadcast node sends.
#[derive(Debug)]
pub enum OPayload {
    /// Values that a neighbor has not confirmed.
    Gossip { messages: HashSet<usize> },
    /// The values of a gossip frame, confirmed.
    GossipOk { messages: HashSet<usize> },
    /// A submission is taken.
    BroadcastOk,
    /// Everything known.
    ReadOk { messages: HashSet<usize> },
    /// Neighbors are assigned.
    TopologyOk,
}

impl View for OPayload {
    type V = Reply;

    open spec fn view(&self) -> Reply {
        match self {
            OPayload::Gossip { messages } => Reply::Gossip { messages: messages@ },
            OPayload::GossipOk { messages } => Reply::GossipOk { messages: messages@ },
            OPayload::BroadcastOk => Reply::BroadcastOk,
            OPayload::ReadOk { messages } => Reply::ReadOk { messages: messages@ },
            OPayload::TopologyOk => Reply::TopologyOk,
        }
    }
}

/// A response as names and sets.
pub open spec fn dispatch(r: AtomicResponce<OPayload>) -> Dispatch {
    Dispatch { recipient: r@.recipient, reply: r@.payload@, is_reply: r@.is_reply }
}

/// Responses as names and sets.
pub open spec fn dispatches(rs: Seq<AtomicResponce<OPayload>>) -> Seq<Dispatch> {
    rs.map_values(|r: AtomicResponce<OPayload>| dispatch(r))
}

/// What a step of a broadcast node hands back. `Broadcast` is a stack: its
/// last response leaves first.
pub enum Res {
    /// Nothing to send.
    Nothing,
    /// One answer.
    Reply(AtomicResponce<OPayload>),
    /// Any number of responses, the last to leave first.
    Broadcast(Vec<AtomicResponce<OPayload>>),
}

impl Res {
    /// Takes the response that is to leave next, if any is left.
    pub fn next(&mut self) -> (r: Option<AtomicResponce<OPayload>>)
        ensures
            r == if old(self).batch().len() > 0 {
                Some(old(self).batch()[0])
            } else {
                None
            },
            final(self).batch() == if old(self).batch().len() > 0 {
                old(self).batch().drop_first()
            } else {
                old(self).batch()
            },
            *old(self) is Broadcast <==> *final(self) is Broadcast,
    {
        let mut taken = Res::Nothing;
        std::mem::swap(self, &mut taken);
        match taken {
            Res::Reply(this) => Some(this),
            Res::Broadcast(mut v) => {
                let ghost before = v@;
                let result = v.pop();
                assert(v@.reverse() =~= if before.len() > 0 {
                    before.reverse().drop_first()
                } else {
                    before.reverse()
                });
                *self = Res::Broadcast(v);
                result
            },
            Res::Nothing => None,
        }
    }
}

impl Response<OPayload> for Res {
    open spec fn batch(&self) -> Seq<AtomicResponce<OPayload>> {
        match self {
            Res::Nothing => Seq::empty(),
            Res::Reply(r) => seq![*r],
            Res::Broadcast(v) => v@.reverse(),
        }
    }

    fn into_iter(self) -> (v: Vec<AtomicResponce<OPayload>>) {
        let mut rest = self;
        let mut v: Vec<AtomicResponce<OPayload>> = Vec::new();
        loop
            invariant
                v@ + rest.batch() == self.batch(),
            ensures
                v@ == self.batch(),
            decreases rest.batch().len(),
        {
            let ghost before = rest.batch();
            match rest.next() {
                Some(r) => {
                    v.push(r);
                    assert(v@ + rest.batch() =~= (v@.drop_last() + before));
                },
                None => {
                    assert(v@ + rest.batch() =~= v@);
                    break ;
                },
            }
        }
        v
    }
}

/// What is still owed to one neighbor.
struct Tracker {
    neighbor: NodeId,
    pending: HashSet<usize>,
}

impl View for Tracker {
    type V = Tracking;

    closed spec fn view(&self) -> Tracking {
        Tracking { neighbor: self.neighbor@, pending: self.pending@ }
    }
}

spec fn trackings(trackers: Seq<Tracker>) -> Seq<Tracking> {
    trackers.map_values(|t: Tracker| t@)
}

/// The first `n` of `keys` as a set.
spec fn seen(keys: Seq<&usize>, n: int) -> Set<usize> {
    Set::new(|v: usize| exists|j: int| 0 <= j < n && *(#[trigger] keys[j]) == v)
}

/// Walking through `keys`, which are the values of `all` in some order:
/// the key at `n` is the one that the first `n + 1` have over the first
/// `n`, and at the end all have been seen.
proof fn lemma_seen_next(keys: Seq<&usize>, n: int, all: Set<usize>)
    requires
        0 <= n < keys.len(),
        keys.unref().to_set() == all,
    ensures
        seen(keys, n + 1) == seen(keys, n).insert(*keys[n]),
        n + 1 == keys.len() ==> seen(keys, n + 1) == all,
{
    assert(seen(keys, n + 1) =~= seen(keys, n).insert(*keys[n]));
    if n + 1 == keys.len() {
        assert forall|v: usize| all.contains(v) implies seen(keys, n + 1).contains(v) by {
            assert(keys.unref().contains(v));
            let j = choose|j: int| 0 <= j < keys.unref().len() && keys.unref()[j] == v;
            assert(*keys[j] == v);
        }
        assert forall|v: usize| seen(keys, n + 1).contains(v) implies all.contains(v) by {
            let j = choose|j: int| 0 <= j < n + 1 && *(#[trigger] keys[j]) == v;
            assert(keys.unref()[j] == v);
        }
        assert(seen(keys, n + 1) =~= all);
    }
}

/// A set with the values of `source`.
fn copy_set(source: &HashSet<usize>) -> (r: HashSet<usize>)
    ensures
        r@ == source@,
{
    let mut r: HashSet<usize> = HashSet::new();
    insert_all(&mut r, source);
    r
}

/// Puts every value of `source` into `set`.
fn insert_all(set: &mut HashSet<usize>, source: &HashSet<usize>)
    ensures
        final(set)@ == old(set)@.union(source@),
{
    for x in it: source.iter()
        invariant
            it.seq().unref().to_set() == source@,
            set@ == old(set)@.union(seen(it.seq(), it.index())),
            it.index() == it.seq().len() ==> seen(it.seq(), it.index()) == source@,
    {
        set.insert(*x);
        assert({
            &&& seen(it.seq(), it.index() + 1) == seen(it.seq(), it.index()).insert(*x)
            &&& it.index() + 1 == it.seq().len() ==> seen(it.seq(), it.index() + 1) == source@
        }) by {
            lemma_seen_next(it.seq(), it.index(), source@);
        }
    }
}

/// Takes every value of `source` out of `set`.
fn remove_all(set: &mut HashSet<usize>, source: &HashSet<usize>)
    ensures
        final(set)@ == old(set)@.difference(source@),
{
    for x in it: source.iter()
        invariant
            it.seq().unref().to_set() == source@,
            set@ == old(set)@.difference(seen(it.seq(), it.index())),
            it.index() == it.seq().len() ==> seen(it.seq(), it.index()) == source@,
    {
        set.remove(x);
        assert({
            &&& seen(it.seq(), it.index() + 1) == seen(it.seq(), it.index()).insert(*x)
            &&& it.index() + 1 == it.seq().len() ==> seen(it.seq(), it.index() + 1) == source@
        }) by {
            lemma_seen_next(it.seq(), it.index(), source@);
        }
    }
}

/// Puts every value of `source` into `known` and hands back those that
/// were not in it.
fn merge(known: &mut HashSet<usize>, source: &HashSet<usize>) -> (fresh: HashSet<usize>)
    ensures
        final(known)@ == old(known)@.union(source@),
        fresh@ == source@.difference(old(known)@),
{
    let mut fresh: HashSet<usize> = HashSet::new();
    for x in it: source.iter()
        invariant
            it.seq().unref().to_set() == source@,
            known@ == old(known)@.union(seen(it.seq(), it.index())),
            fresh@ == seen(it.seq(), it.index()).difference(old(known)@),
            it.index() == it.seq().len() ==> seen(it.seq(), it.index()) == source@,
    {
        if known.insert(*x) {
            fresh.insert(*x);
        }
        assert({
            &&& seen(it.seq(), it.index() + 1) == seen(it.seq(), it.index()).insert(*x)
            &&& it.index() + 1 == it.seq().len() ==> seen(it.seq(), it.index() + 1) == source@
        }) by {
            lemma_seen_next(it.seq(), it.index(), source@);
        }
    }
    fresh
}

/// Whether a tracker of `trackers` is for `p`.
fn has_tracker(trackers: &Vec<Tracker>, p: &NodeId) -> (b: bool)
    ensures
        b == exists|j: int| 0 <= j < trackers@.len() && (#[trigger] trackers@[j]@).neighbor == p@,
{
    let mut i: usize = 0;
    while i < trackers.len()
        invariant
            i <= trackers@.len(),
            forall|j: int| 0 <= j < i ==> (#[trigger] trackers@[j]@).neighbor != p@,
        decreases trackers@.len() - i,
    {
        if trackers[i].neighbor == *p {
            assert(trackers@[i as int]@.neighbor == p@);
            return true;
        }
        i = i + 1;
    }
    false
}

/// The place of the first entry of `topology` for `me`.
fn find_entry(me: &NodeId, topology: &Vec<(NodeId, Vec<NodeId>)>) -> (r: Option<usize>)
    ensures
        match r {
            Some(k) => k < topology@.len() && own_entry(me@, adjacency(topology@)) == names(
                topology@[k as int].1@,
            ),
            None => own_entry(me@, adjacency(topology@)) == Seq::<Name>::empty(),
        },
{
    let ghost all = adjacency(topology@);
    let mut k: usize = 0;
    assert(all.subrange(0, all.len() as int) =~= all);
    while k < topology.len()
        invariant
            k <= topology@.len(),
            all == adjacency(topology@),
            own_entry(me@, all) == own_entry(me@, all.subrange(k as int, all.len() as int)),
        decreases topology@.len() - k,
    {
        let ghost rest = all.subrange(k as int, all.len() as int);
        assert(rest[0] == all[k as int]);
        assert(rest.drop_first() =~= all.subrange(k + 1, all.len() as int));
        if topology[k].0 == *me {
            return Some(k);
        }
        k = k + 1;
    }
    None
}

/// A tracker with nothing pending for each name of `list` other than `me`,
/// each name once, in the order of `list`.
fn enlist(me: &NodeId, list: &Vec<NodeId>) -> (trackers: Vec<Tracker>)
    ensures
        trackings(trackers@) == roster(me@, names(list@)).map_values(
            |n: Name| Tracking { neighbor: n, pending: Set::empty() },
        ),
{
    let ghost all = names(list@);
    let mut trackers: Vec<Tracker> = Vec::new();
    let mut i: usize = 0;
    assert(all.take(0) =~= Seq::empty());
    while i < list.len()
        invariant
            i <= list@.len(),
            all == names(list@),
            trackings(trackers@) == roster(me@, all.take(i as int)).map_values(
                |n: Name| Tracking { neighbor: n, pending: Set::empty() },
            ),
        decreases list@.len() - i,
    {
        let ghost before = roster(me@, all.take(i as int));
        assert(all.take(i + 1).drop_last() =~= all.take(i as int));
        assert(all.take(i + 1).last() == list@[i as int]@);
        let listed = has_tracker(&trackers, &list[i]);
        proof {
            assert(trackings(trackers@).len() == before.len());
            if listed {
                let j = choose|j: int|
                    0 <= j < trackers@.len() && (#[trigger] trackers@[j]@).neighbor == list@[i as int]@;
                assert(trackings(trackers@)[j].neighbor == before[j]);
                assert(before.contains(list@[i as int]@));
            }
            if before.contains(list@[i as int]@) {
                let j = choose|j: int| 0 <= j < before.len() && before[j] == list@[i as int]@;
                assert(trackings(trackers@)[j].neighbor == before[j]);
                assert(trackers@[j]@.neighbor == list@[i as int]@);
            }
        }
        if !(list[i] == *me) && !listed {
            let ghost earlier = trackings(trackers@);
            trackers.push(Tracker { neighbor: list[i].clone(), pending: HashSet::new() });
            assert(trackings(trackers@) =~= earlier.push(
                Tracking { neighbor: list@[i as int]@, pending: Set::empty() },
            ));
            assert(trackings(trackers@) =~= before.push(list@[i as int]@).map_values(
                |n: Name| Tracking { neighbor: n, pending: Set::empty() },
            ));
        }
        i = i + 1;
    }
    assert(all.take(list@.len() as int) =~= all);
    trackers
}

/// Gossip from `sender` reaches the trackers: what it passed on is no longer
/// owed to it, and what was new of it is owed to the others.
fn settle(
    trackers: &mut Vec<Tracker>,
    sender: &NodeId,
    messages: &HashSet<usize>,
    fresh: &HashSet<usize>,
)
    ensures
        trackings(final(trackers)@) == trackings(old(trackers)@).map_values(
            |t: Tracking|
                if t.neighbor == sender@ {
                    Tracking { pending: t.pending.difference(messages@), ..t }
                } else {
                    Tracking { pending: t.pending.union(fresh@), ..t }
                },
        ),
{
    let mut i: usize = 0;
    while i < trackers.len()
        invariant
            i <= trackers@.len(),
            trackers@.len() == old(trackers)@.len(),
            forall|j: int|
                0 <= j < i ==> (#[trigger] trackers@[j])@ == if old(trackers)@[j]@.neighbor == sender@ {
                    Tracking {
                        pending: old(trackers)@[j]@.pending.difference(messages@),
                        ..old(trackers)@[j]@
                    }
                } else {
                    Tracking { pending: old(trackers)@[j]@.pending.union(fresh@), ..old(trackers)@[j]@ }
                },
            forall|j: int| i <= j < trackers@.len() ==> (#[trigger] trackers@[j]) == old(trackers)@[j],
        decreases trackers@.len() - i,
    {
        if trackers[i].neighbor == *sender {
            remove_all(&mut trackers[i].pending, messages);
        } else {
            insert_all(&mut trackers[i].pending, fresh);
        }
        i = i + 1;
    }
    assert(trackings(trackers@) =~= trackings(old(trackers)@).map_values(
        |t: Tracking|
            if t.neighbor == sender@ {
                Tracking { pending: t.pending.difference(messages@), ..t }
            } else {
                Tracking { pending: t.pending.union(fresh@), ..t }
            },
    ));
}

/// A confirmation from `sender` reaches the trackers: what it names is no
/// longer owed to `sender`.
fn retire(trackers: &mut Vec<Tracker>, sender: &NodeId, messages: &HashSet<usize>)
    ensures
        trackings(final(trackers)@) == trackings(old(trackers)@).map_values(
            |t: Tracking|
                if t.neighbor == sender@ {
                    Tracking { pending: t.pending.difference(messages@), ..t }
                } else {
                    t
                },
        ),
{
    let mut i: usize = 0;
    while i < trackers.len()
        invariant
            i <= trackers@.len(),
            trackers@.len() == old(trackers)@.len(),
            forall|j: int|
                0 <= j < i ==> (#[trigger] trackers@[j])@ == if old(trackers)@[j]@.neighbor == sender@ {
                    Tracking {
                        pending: old(trackers)@[j]@.pending.difference(messages@),
                        ..old(trackers)@[j]@
                    }
                } else {
                    old(trackers)@[j]@
                },
            forall|j: int| i <= j < trackers@.len() ==> (#[trigger] trackers@[j]) == old(trackers)@[j],
        decreases trackers@.len() - i,
    {
        if trackers[i].neighbor == *sender {
            remove_all(&mut trackers[i].pending, messages);
        }
        i = i + 1;
    }
    assert(trackings(trackers@) =~= trackings(old(trackers)@).map_values(
        |t: Tracking|
            if t.neighbor == sender@ {
                Tracking { pending: t.pending.difference(messages@), ..t }
            } else {
                t
            },
    ));
}

/// A broadcast node: its session, what it knows, and what it owes.
pub struct BroadcastNode<W> {
    state: State<W>,
    messages: HashSet<usize>,
    trackers: Vec<Tracker>,
}

impl<W> View for BroadcastNode<W> {
    type V = Ledger;

    closed spec fn view(&self) -> Ledger {
        Ledger {
            me: self.state@.node_id,
            known: self.messages@,
            trackers: trackings(self.trackers@),
        }
    }
}

impl<W> BroadcastNode<W> {
    /// Takes note of `value` and says whether it was new. Nothing is owed to
    /// anyone on this account.
    pub fn record(&mut self, value: usize) -> (fresh: bool)
        ensures
            fresh == !old(self)@.known.contains(value),
            final(self)@ == (Ledger { known: old(self)@.known.insert(value), ..old(self)@ }),
            final(self).state() == old(self).state(),
            old(self)@.wf() ==> final(self)@.wf(),
    {
        self.messages.insert(value)
    }

    /// Every value known, as a set of its own.
    pub fn snapshot(&self) -> (known: HashSet<usize>)
        ensures
            known@ == self@.known,
    {
        copy_set(&self.messages)
    }

    /// The neighbors, in the order of their trackers.
    pub fn neighbors(&self) -> (r: Vec<NodeId>)
        ensures
            names(r@) == self@.neighbors(),
    {
        let mut r: Vec<NodeId> = Vec::new();
        let mut i: usize = 0;
        while i < self.trackers.len()
            invariant
                i <= self.trackers@.len(),
                r@.len() == i,
                forall|j: int| 0 <= j < i ==> (#[trigger] r@[j])@ == self.trackers@[j]@.neighbor,
            decreases self.trackers@.len() - i,
        {
            r.push(self.trackers[i].neighbor.clone());
            i = i + 1;
        }
        assert(names(r@) =~= self@.neighbors());
        r
    }

    /// What `neighbor` has not confirmed, as a set of its own.
    pub fn outstanding(&self, neighbor: &NodeId) -> (r: HashSet<usize>)
        ensures
            r@ == self@.outstanding(neighbor@),
    {
        let mut r: HashSet<usize> = HashSet::new();
        let mut i: usize = 0;
        while i < self.trackers.len()
            invariant
                i <= self.trackers@.len(),
                forall|v: usize|
                    r@.contains(v) <==> exists|j: int|
                        0 <= j < i && (#[trigger] trackings(self.trackers@)[j]).neighbor == neighbor@
                            && trackings(self.trackers@)[j].pending.contains(v),
            decreases self.trackers@.len() - i,
        {
            let ghost before = r@;
            if self.trackers[i].neighbor == *neighbor {
                insert_all(&mut r, &self.trackers[i].pending);
            }
            assert forall|v: usize| r@.contains(v) implies exists|j: int|
                0 <= j < i + 1 && (#[trigger] trackings(self.trackers@)[j]).neighbor == neighbor@
                    && trackings(self.trackers@)[j].pending.contains(v) by {
                if !before.contains(v) {
                    assert(trackings(self.trackers@)[i as int].pending.contains(v));
                }
            }
            i = i + 1;
        }
        assert(r@ =~= self@.outstanding(neighbor@));
        r
    }

    /// The node learns `value`, as from a client: where it is new, it is
    /// owed to every neighbor.
    fn learn(&mut self, value: usize)
        ensures
            final(self)@ == old(self)@.learn(value),
            final(self).state == old(self).state,
    {
        if self.messages.insert(value) {
            let mut i: usize = 0;
            while i < self.trackers.len()
                invariant
                    i <= self.trackers@.len(),
                    self.trackers@.len() == old(self).trackers@.len(),
                    self.state == old(self).state,
                    self.messages@ == old(self).messages@.insert(value),
                    forall|j: int|
                        0 <= j < i ==> (#[trigger] self.trackers@[j])@ == (Tracking {
                            pending: old(self).trackers@[j]@.pending.insert(value),
                            ..old(self).trackers@[j]@
                        }),
                    forall|j: int|
                        i <= j < self.trackers@.len() ==> (#[trigger] self.trackers@[j]) == old(
                            self,
                        ).trackers@[j],
                decreases self.trackers@.len() - i,
            {
                self.trackers[i].pending.insert(value);
                i = i + 1;
            }
            assert(self@.trackers =~= old(self)@.learn(value).trackers);
        }
    }

    /// One gossip frame for each neighbor to whom something is owed, with
    /// all that is owed. The frames are stacked: the last one leaves first.
    fn gossip_frames(&self) -> (v: Vec<AtomicResponce<OPayload>>)
        ensures
            dispatches(v@.reverse()) == self@.frames(),
    {
        let ghost all = trackings(self.trackers@);
        let mut v: Vec<AtomicResponce<OPayload>> = Vec::new();
        let mut i: usize = 0;
        assert(all.take(0) =~= Seq::empty());
        assert(dispatches(v@.reverse()) =~= Seq::empty());
        while i < self.trackers.len()
            invariant
                i <= self.trackers@.len(),
                all == trackings(self.trackers@),
                dispatches(v@.reverse()) == due(all.take(i as int)).map_values(
                    |t: Tracking|
                        Dispatch {
                            recipient: t.neighbor,
                            reply: Reply::Gossip { messages: t.pending },
                            is_reply: false,
                        },
                ),
            decreases self.trackers@.len() - i,
        {
            assert(all.take(i + 1).drop_last() =~= all.take(i as int));
            assert(all.take(i + 1).last() == self.trackers@[i as int]@);
            if !self.trackers[i].pending.is_empty() {
                let ghost before = v@;
                let frame = AtomicResponce::send(
                    self.trackers[i].neighbor.clone(),
                    OPayload::Gossip { messages: copy_set(&self.trackers[i].pending) },
                );
                v.push(frame);
                assert(v@.reverse() =~= seq![frame] + before.reverse());
                assert(dispatches(v@.reverse()) =~= seq![dispatch(frame)] + dispatches(
                    before.reverse(),
                ));
                assert(dispatches(v@.reverse()) =~= due(all.take(i + 1)).map_values(
                    |t: Tracking|
                        Dispatch {
                            recipient: t.neighbor,
                            reply: Reply::Gossip { messages: t.pending },
                            is_reply: false,
                        },
                ));
            }
            i = i + 1;
        }
        assert(all.take(self.trackers@.len() as int) =~= all);
        v
    }
}

impl<W> Node<IPayload, OPayload, W> for BroadcastNode<W> {
    type Response = Res;

    closed spec fn state(&self) -> State<W> {
        self.state
    }

    /// A node that knows nothing and has no neighbors.
    fn with_initial_state(state: State<W>) -> (node: Self)
        ensures
            node@ == Ledger::fresh(state@.node_id),
            node@.wf(),
    {
        let node = Self { state, messages: HashSet::new(), trackers: Vec::new() };
        assert(node@.trackers =~= Seq::empty());
        node
    }

    fn get_state(&self) -> (s: &State<W>) {
        &self.state
    }

    /// The session. What the node knows and owes stays as it is.
    fn get_state_mut(&mut self) -> (s: &mut State<W>)
        ensures
            final(self)@ == (Ledger { me: final(s)@.node_id, ..old(self)@ }),
    {
        &mut self.state
    }

    /// Takes one payload from the sender of the request at hand. Neighbors
    /// assigned to a node that has some are refused, and nothing changes;
    /// everything else is accepted, changes what the node knows and owes as
    /// [`Ledger::step`] says, and is answered as [`Ledger::responses`] says.
    fn step(&mut self, payload: IPayload) -> (r: Result<Res, NodeError>)
        ensures
            old(self)@.accepts(payload@) <==> r is Ok,
            match r {
                Ok(res) => {
                    &&& final(self)@ == old(self)@.step(old(self).state()@.sender, payload@)
                    &&& dispatches(res.batch()) == old(self)@.responses(
                        old(self).state()@.sender,
                        payload@,
                    )
                    &&& payload matches IPayload::Gossip { messages } ==> res.batch()[0]@.payload
                        == (OPayload::GossipOk { messages })
                },
                Err(e) => e == NodeError::TopologyReassigned && final(self)@ == old(self)@,
            },
            old(self)@.wf() ==> final(self)@.wf(),
            old(self)@.known.subset_of(final(self)@.known),
    {
        proof {
            old(self)@.law_knowledge_grows(old(self).state()@.sender, payload@);
            if old(self)@.wf() {
                old(self)@.lemma_step_keeps_wf(old(self).state()@.sender, payload@);
            }
        }
        match payload {
            IPayload::GossipSignal => {
                let frames = self.gossip_frames();
                Ok(Res::Broadcast(frames))
            },
            IPayload::Gossip { messages } => {
                let sender = self.state.get_sender();
                let fresh = merge(&mut self.messages, &messages);
                settle(&mut self.trackers, &sender, &messages, &fresh);
                assert(self@.trackers =~= old(self)@.on_gossip(sender@, messages@).trackers);
                let reply = self.state.reply(OPayload::GossipOk { messages });
                assert(dispatches(seq![reply]) =~= seq![dispatch(reply)]);
                Ok(Res::Reply(reply))
            },
            IPayload::GossipOk { messages } => {
                let sender = self.state.get_sender();
                retire(&mut self.trackers, &sender, &messages);
                assert(dispatches(Seq::empty()) =~= Seq::empty());
                Ok(Res::Nothing)
            },
            IPayload::Broadcast { message } => {
                self.learn(message);
                let reply = self.state.reply(OPayload::BroadcastOk);
                assert(dispatches(seq![reply]) =~= seq![dispatch(reply)]);
                Ok(Res::Reply(reply))
            },
            IPayload::Read => {
                let known = self.snapshot();
                let reply = self.state.reply(OPayload::ReadOk { messages: known });
                assert(dispatches(seq![reply]) =~= seq![dispatch(reply)]);
                Ok(Res::Reply(reply))
            },
            IPayload::Topology { topology } => {
                if self.trackers.len() > 0 {
                    return Err(NodeError::TopologyReassigned);
                }
                let me = self.state.node_id();
                self.trackers = match find_entry(&me, &topology) {
                    Some(k) => enlist(&me, &topology[k].1),
                    None => {
                        let none: Vec<Tracker> = Vec::new();
                        assert(trackings(none@) =~= roster(
                            me@,
                            Seq::<Name>::empty(),
                        ).map_values(|n: Name| Tracking { neighbor: n, pending: Set::empty() }));
                        none
                    },
                };
                let reply = self.state.reply(OPayload::TopologyOk);
                assert(dispatches(seq![reply]) =~= seq![dispatch(reply)]);
                Ok(Res::Reply(reply))
            },
        }
    }
}

/// The frame that stands for a tick: from `name` to itself, without a
/// number, carrying the signal.
pub fn gossip_signal(name: &NodeId) -> (frame: MessageSerde<IPayload>)
    ensures
        frame.src@ == name@,
        frame.dst@ == name@,
        frame.body.id is None,
        frame.body.in_reply_to is None,
        frame.body.payload is GossipSignal,
{
    MessageSerde {
        src: name.clone(),
        dst: name.clone(),
        body: BodySerde { id: None, in_reply_to: None, payload: IPayload::GossipSignal },
    }
}

} // verus!
