//! The broadcast node: it collects the values it is told of and, on every tick
//! of the gossip clock, pushes to each neighbour what that neighbour is not
//! yet known to have.

use vstd::prelude::*;
use crate::node_map::NodeMap;
use crate::proto::{
    envelopes, names, reply_to, BroadcastBody, BroadcastBodyView, BroadcastEvent,
    BroadcastEventView, BroadcastMessage, Envelope, HandleError, Message, MessageHandler,
    MessageId,
};
use crate::value_set::{with_value, without, ValueSet};

verus! {

/// What a broadcast node knows.
pub struct BroadcastState {
    /// The id that the next originated message will carry.
    pub next_id: u64,
    /// The node's own identity; empty until an `Init` arrives.
    pub node_id: Seq<char>,
    /// The direct neighbours, as the last topology named them.
    pub links: Seq<Seq<char>>,
    /// For each node, the values it is known to have, in the order in which
    /// this node came to know so. The entry under `node_id` lists everything
    /// this node has learned.
    pub seen: Map<Seq<char>, Seq<BroadcastMessage>>,
}

impl BroadcastState {
    /// The state of a node that has not been told anything yet.
    pub open spec fn initial() -> Self {
        BroadcastState {
            next_id: 0,
            node_id: Seq::empty(),
            links: Seq::empty(),
            seen: Map::empty(),
        }
    }

    /// The values that `node` is known to have; none for a node never heard of.
    pub open spec fn values_of(self, node: Seq<char>) -> Seq<BroadcastMessage> {
        if self.seen.dom().contains(node) {
            self.seen[node]
        } else {
            Seq::empty()
        }
    }

    /// Everything this node has learned.
    pub open spec fn known(self) -> Seq<BroadcastMessage> {
        self.values_of(self.node_id)
    }

    /// The state after noting that `node` has `value`.
    pub open spec fn record(self, node: Seq<char>, value: BroadcastMessage) -> Self {
        BroadcastState {
            seen: self.seen.insert(node, with_value(self.values_of(node), value)),
            ..self
        }
    }

    /// The state after `count` fresh message ids have been handed out.
    pub open spec fn advance(self, count: nat) -> Self {
        BroadcastState { next_id: (self.next_id + count) as u64, ..self }
    }

    /// The values this node has learned and `link` is not known to have.
    pub open spec fn pending(self, link: Seq<char>) -> Seq<BroadcastMessage> {
        without(self.known(), self.values_of(link))
    }

    /// The gossip for one neighbour: one `Broadcast` per pending value, numbered
    /// upwards from `first_id`.
    pub open spec fn gossip_to(self, link: Seq<char>, first_id: int) -> Seq<
        Envelope<BroadcastBodyView>,
    > {
        let values = self.pending(link);
        Seq::new(
            values.len(),
            |i: int|
                Envelope {
                    src: self.node_id,
                    dest: link,
                    body: BroadcastBodyView::Broadcast {
                        msg_id: MessageId((first_id + i) as u64),
                        message: values[i],
                    },
                },
        )
    }

    /// The gossip for the neighbours `links`, taken in order; the ids count
    /// upwards from `next_id` across the whole round.
    pub open spec fn gossip(self, links: Seq<Seq<char>>) -> Seq<Envelope<BroadcastBodyView>>
        decreases links.len(),
    {
        if links.len() == 0 {
            Seq::empty()
        } else {
            let earlier = self.gossip(links.drop_last());
            earlier + self.gossip_to(links.last(), self.next_id + earlier.len())
        }
    }

    /// What handling `event` leads to: the state afterwards and the replies, or
    /// the reason why the event is refused.
    pub open spec fn step(self, event: BroadcastEventView) -> Result<
        (Self, Seq<Envelope<BroadcastBodyView>>),
        HandleError,
    > {
        match event {
            BroadcastEventView::Gossip => {
                let round = self.gossip(self.links);
                if self.next_id + round.len() > u64::MAX {
                    Err(HandleError::MessageIdsExhausted)
                } else {
                    Ok((self.advance(round.len()), round))
                }
            },
            BroadcastEventView::Message(request) => match request.body {
                BroadcastBodyView::Init { msg_id, node_id, node_ids } => Ok(
                    (
                        BroadcastState { node_id, ..self },
                        seq![reply_to(request, BroadcastBodyView::InitOk { in_reply_to: msg_id })],
                    ),
                ),
                BroadcastBodyView::Broadcast { msg_id, message } => if self.next_id == u64::MAX {
                    Err(HandleError::MessageIdsExhausted)
                } else {
                    Ok(
                        (
                            self.record(request.src, message).record(self.node_id, message).advance(
                                1,
                            ),
                            seq![
                                reply_to(
                                    request,
                                    BroadcastBodyView::BroadcastOk {
                                        msg_id: MessageId(self.next_id),
                                        in_reply_to: msg_id,
                                    },
                                ),
                            ],
                        ),
                    )
                },
                BroadcastBodyView::Read { msg_id } => if self.next_id == u64::MAX {
                    Err(HandleError::MessageIdsExhausted)
                } else {
                    Ok(
                        (
                            self.advance(1),
                            seq![
                                reply_to(
                                    request,
                                    BroadcastBodyView::ReadOk {
                                        msg_id: MessageId(self.next_id),
                                        in_reply_to: msg_id,
                                        messages: self.known(),
                                    },
                                ),
                            ],
                        ),
                    )
                },
                BroadcastBodyView::Topology { msg_id, topology } => if !topology.dom().contains(
                    self.node_id,
                ) {
                    Err(HandleError::MissingTopologyEntry)
                } else if self.next_id == u64::MAX {
                    Err(HandleError::MessageIdsExhausted)
                } else {
                    Ok(
                        (
                            BroadcastState { links: topology[self.node_id], ..self }.advance(1),
                            seq![
                                reply_to(
                                    request,
                                    BroadcastBodyView::TopologyOk {
                                        msg_id: MessageId(self.next_id),
                                        in_reply_to: msg_id,
                                    },
                                ),
                            ],
                        ),
                    )
                },
                BroadcastBodyView::InitOk { .. }
                | BroadcastBodyView::BroadcastOk { .. }
                | BroadcastBodyView::ReadOk { .. }
                | BroadcastBodyView::TopologyOk { .. }
                | BroadcastBodyView::Error { .. } => Ok((self, Seq::empty())),
            },
        }
    }
}

/// What a table of value sets records: for each node, its values in order.
pub open spec fn recorded(seen: Map<Seq<char>, ValueSet>) -> Map<Seq<char>, Seq<BroadcastMessage>> {
    seen.map_values(|values: ValueSet| values@)
}

/// A round of gossip never shrinks when more neighbours are served.
proof fn lemma_gossip_grows(state: BroadcastState, links: Seq<Seq<char>>, served: int)
    requires
        0 <= served <= links.len(),
    ensures
        state.gossip(links.take(served)).len() <= state.gossip(links).len(),
    decreases links.len() - served,
{
    if served == links.len() {
        assert(links.take(served) == links);
    } else {
        lemma_gossip_grows(state, links, served + 1);
        assert(links.take(served + 1).drop_last() == links.take(served));
    }
}

/// A node of the broadcast protocol.
#[derive(Debug)]
pub struct BroadcastNode {
    id: u64,
    node_id: String,
    links: Vec<String>,
    seen: NodeMap<ValueSet>,
}

impl View for BroadcastNode {
    type V = BroadcastState;

    closed spec fn view(&self) -> BroadcastState {
        BroadcastState {
            next_id: self.id,
            node_id: self.node_id@,
            links: names(self.links@),
            seen: recorded(self.seen@),
        }
    }
}

/// Notes in `seen` that `node` has `value`.
fn note(seen: &mut NodeMap<ValueSet>, node: &String, value: BroadcastMessage)
    ensures
        recorded(final(seen)@) == recorded(old(seen)@).insert(
            node@,
            with_value(
                if old(seen)@.dom().contains(node@) {
                    old(seen)@[node@]@
                } else {
                    Seq::empty()
                },
                value,
            ),
        ),
{
    let mut values = match seen.remove(node) {
        Some(values) => values,
        None => ValueSet::new(),
    };
    values.insert(value);
    seen.insert(node.clone(), values);
    assert(recorded(seen@) =~= recorded(old(seen)@).insert(
        node@,
        with_value(
            if old(seen)@.dom().contains(node@) {
                old(seen)@[node@]@
            } else {
                Seq::empty()
            },
            value,
        ),
    ));
}

impl BroadcastNode {
    /// A node that has not been told anything yet.
    pub fn new() -> (node: Self)
        ensures
            node@ == BroadcastState::initial(),
    {
        let node = BroadcastNode {
            id: 0,
            node_id: String::new(),
            links: Vec::new(),
            seen: NodeMap::new(),
        };
        assert(names(node.links@) =~= Seq::<Seq<char>>::empty());
        assert(recorded(node.seen@) =~= Map::<Seq<char>, Seq<BroadcastMessage>>::empty());
        node
    }

    /// A node that has not been told anything yet and whose message ids
    /// start at `first_id` instead of 0.
    pub fn starting_at(first_id: u64) -> (node: Self)
        ensures
            node@ == (BroadcastState { next_id: first_id, ..BroadcastState::initial() }),
    {
        let node = BroadcastNode {
            id: first_id,
            node_id: String::new(),
            links: Vec::new(),
            seen: NodeMap::new(),
        };
        assert(names(node.links@) =~= Seq::<Seq<char>>::empty());
        assert(recorded(node.seen@) =~= Map::<Seq<char>, Seq<BroadcastMessage>>::empty());
        node
    }

    /// The values this node has learned and `link` is not known to have.
    fn pending_for(&self, link: &String) -> (values: Vec<BroadcastMessage>)
        ensures
            values@ == self@.pending(link@),
    {
        let nothing = ValueSet::new();
        let own = match self.seen.get(&self.node_id) {
            Some(values) => values,
            None => &nothing,
        };
        let theirs = match self.seen.get(link) {
            Some(values) => values,
            None => &nothing,
        };
        own.difference(theirs)
    }

    /// The messages of one round of gossip, or `None` if the round needs more
    /// ids than are left.
    fn gossip_round(&self) -> (round: Option<Vec<Message<BroadcastBody>>>)
        ensures
            match round {
                Some(messages) => envelopes(messages@) == self@.gossip(self@.links) && self@.next_id
                    + messages@.len() <= u64::MAX,
                None => self@.next_id + self@.gossip(self@.links).len() > u64::MAX,
            },
    {
        let mut messages: Vec<Message<BroadcastBody>> = Vec::new();
        let mut next: u64 = self.id;
        let mut served: usize = 0;
        let ghost links = self@.links;
        proof {
            assert(links.take(0) == Seq::<Seq<char>>::empty());
            assert(envelopes(messages@) =~= self@.gossip(links.take(0)));
        }
        while served < self.links.len()
            invariant
                links == self@.links,
                links.len() == self.links@.len(),
                served <= self.links@.len(),
                envelopes(messages@) == self@.gossip(links.take(served as int)),
                next == self.id + messages@.len(),
            decreases self.links@.len() - served,
        {
            let link = &self.links[served];
            let values = self.pending_for(link);
            let ghost earlier = self@.gossip(links.take(served as int));
            let ghost first = self.id + earlier.len();
            let ghost batch = self@.gossip_to(link@, first);
            proof {
                assert(links.take(served + 1).drop_last() == links.take(served as int));
                assert(links.take(served + 1).last() == link@);
                assert(self@.gossip(links.take(served + 1)) == earlier + batch);
                assert(earlier + batch.take(0) == earlier);
            }
            let mut sent: usize = 0;
            while sent < values.len()
                invariant
                    links == self@.links,
                    served < self.links@.len(),
                    link@ == links[served as int],
                    values@ == self@.pending(link@),
                    earlier == self@.gossip(links.take(served as int)),
                    first == self.id + earlier.len(),
                    batch == self@.gossip_to(link@, first),
                    self@.gossip(links.take(served + 1)) == earlier + batch,
                    sent <= values@.len(),
                    envelopes(messages@) == earlier + batch.take(sent as int),
                    next == self.id + messages@.len(),
                decreases values@.len() - sent,
            {
                proof {
                    assert(envelopes(messages@).len() == messages@.len());
                    assert(batch.take(sent as int).len() == sent);
                    assert(batch.len() == values@.len());
                }
                if next == u64::MAX {
                    proof {
                        lemma_gossip_grows(self@, links, served + 1);
                        assert((earlier + batch).len() == earlier.len() + batch.len());
                    }
                    return None;
                }
                let message = Message::new(
                    self.node_id.clone(),
                    link.clone(),
                    BroadcastBody::Broadcast { msg_id: MessageId(next), message: values[sent] },
                );
                proof {
                    assert(message@ == batch[sent as int]);
                    assert(batch.take(sent + 1) == batch.take(sent as int).push(batch[sent as int]));
                    assert(envelopes(messages@.push(message)) =~= envelopes(messages@).push(
                        message@,
                    ));
                    assert(earlier + batch.take(sent + 1) == (earlier + batch.take(
                        sent as int,
                    )).push(batch[sent as int]));
                }
                messages.push(message);
                next = next + 1;
                sent = sent + 1;
            }
            proof {
                assert(batch.take(sent as int) == batch);
            }
            served = served + 1;
        }
        proof {
            assert(links.take(served as int) == links);
        }
        Some(messages)
    }
}

impl MessageHandler<BroadcastBody, BroadcastEvent> for BroadcastNode {
    open spec fn identity(state: BroadcastState) -> Seq<char> {
        state.node_id
    }

    open spec fn reaction(state: BroadcastState, event: BroadcastEventView) -> Result<
        (BroadcastState, Seq<Envelope<BroadcastBodyView>>),
        HandleError,
    > {
        state.step(event)
    }

    fn identifier(&self) -> (id: &str)
        ensures
            id@ == self@.node_id,
    {
        self.node_id.as_str()
    }

    /// Handles `event` as [`BroadcastState::step`] says: on `Ok` the node is in the
    /// state named there and the replies are those named there, in order; a
    /// refused event leaves the node as it was.
    fn handle(&mut self, event: BroadcastEvent) -> (outcome: Result<
        Vec<Message<BroadcastBody>>,
        HandleError,
    >)
        ensures
            match old(self)@.step(event@) {
                Ok((next, replies)) => {
                    &&& outcome is Ok
                    &&& envelopes(outcome->Ok_0@) == replies
                    &&& final(self)@ == next
                },
                Err(reason) => {
                    &&& outcome == Err::<Vec<Message<BroadcastBody>>, HandleError>(reason)
                    &&& final(self)@ == old(self)@
                },
            },
    {
        match event {
            BroadcastEvent::Gossip => {
                match self.gossip_round() {
                    Some(messages) => {
                        self.id = self.id + (messages.len() as u64);
                        Ok(messages)
                    },
                    None => Err(HandleError::MessageIdsExhausted),
                }
            },
            BroadcastEvent::Message(request) => {
                let ghost asked = request@;
                let Message { src, dest, body } = request;
                match body {
                    BroadcastBody::Init { msg_id, node_id, node_ids } => {
                        self.node_id = node_id;
                        let response = Message::new(
                            dest,
                            src,
                            BroadcastBody::InitOk { in_reply_to: msg_id },
                        );
                        let mut replies: Vec<Message<BroadcastBody>> = Vec::new();
                        replies.push(response);
                        proof {
                            assert(envelopes(replies@) =~= seq![
                                reply_to(asked, BroadcastBodyView::InitOk { in_reply_to: msg_id }),
                            ]);
                        }
                        Ok(replies)
                    },
                    BroadcastBody::Broadcast { msg_id, message } => {
                        if self.id == u64::MAX {
                            return Err(HandleError::MessageIdsExhausted);
                        }
                        note(&mut self.seen, &src, message);
                        note(&mut self.seen, &self.node_id, message);
                        let response = Message::new(
                            dest,
                            src,
                            BroadcastBody::BroadcastOk {
                                msg_id: MessageId(self.id),
                                in_reply_to: msg_id,
                            },
                        );
                        self.id = self.id + 1;
                        let mut replies: Vec<Message<BroadcastBody>> = Vec::new();
                        replies.push(response);
                        proof {
                            assert(envelopes(replies@) =~= seq![
                                reply_to(
                                    asked,
                                    BroadcastBodyView::BroadcastOk {
                                        msg_id: MessageId(old(self).id),
                                        in_reply_to: msg_id,
                                    },
                                ),
                            ]);
                        }
                        Ok(replies)
                    },
                    BroadcastBody::Read { msg_id } => {
                        if self.id == u64::MAX {
                            return Err(HandleError::MessageIdsExhausted);
                        }
                        let messages = match self.seen.get(&self.node_id) {
                            Some(values) => values.snapshot(),
                            None => ValueSet::new(),
                        };
                        let response = Message::new(
                            dest,
                            src,
                            BroadcastBody::ReadOk {
                                messages,
                                msg_id: MessageId(self.id),
                                in_reply_to: msg_id,
                            },
                        );
                        self.id = self.id + 1;
                        let mut replies: Vec<Message<BroadcastBody>> = Vec::new();
                        replies.push(response);
                        proof {
                            assert(envelopes(replies@) =~= seq![
                                reply_to(
                                    asked,
                                    BroadcastBodyView::ReadOk {
                                        msg_id: MessageId(old(self).id),
                                        in_reply_to: msg_id,
                                        messages: old(self)@.known(),
                                    },
                                ),
                            ]);
                        }
                        Ok(replies)
                    },
                    BroadcastBody::Topology { msg_id, topology } => {
                        let mut topology = topology;
                        match topology.remove(&self.node_id) {
                            None => Err(HandleError::MissingTopologyEntry),
                            Some(links) => {
                                if self.id == u64::MAX {
                                    return Err(HandleError::MessageIdsExhausted);
                                }
                                self.links = links;
                                let response = Message::new(
                                    dest,
                                    src,
                                    BroadcastBody::TopologyOk {
                                        msg_id: MessageId(self.id),
                                        in_reply_to: msg_id,
                                    },
                                );
                                self.id = self.id + 1;
                                let mut replies: Vec<Message<BroadcastBody>> = Vec::new();
                                replies.push(response);
                                proof {
                                    assert(envelopes(replies@) =~= seq![
                                        reply_to(
                                            asked,
                                            BroadcastBodyView::TopologyOk {
                                                msg_id: MessageId(old(self).id),
                                                in_reply_to: msg_id,
                                            },
                                        ),
                                    ]);
                                }
                                Ok(replies)
                            },
                        }
                    },
                    BroadcastBody::InitOk { .. }
                    | BroadcastBody::BroadcastOk { .. }
                    | BroadcastBody::ReadOk { .. }
                    | BroadcastBody::TopologyOk { .. }
                    | BroadcastBody::Error { .. } => {
                        let replies: Vec<Message<BroadcastBody>> = Vec::new();
                        proof {
                            assert(envelopes(replies@) =~= Seq::<
                                Envelope<BroadcastBodyView>,
                            >::empty());
                        }
                        Ok(replies)
                    },
                }
            },
        }
    }
}

} // verus!
