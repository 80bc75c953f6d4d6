//! The echo node: every `Echo` request is answered with its own text.

use vstd::prelude::*;
use crate::proto::{
    counting, envelopes, reply_to, EchoBody, EchoBodyView, EchoEvent, EchoEventView, Envelope,
    HandleError, Message, MessageHandler, MessageId,
};

verus! {

/// What an echo node knows.
pub struct EchoState {
    /// The id that the next originated message will carry.
    pub next_id: u64,
    /// The node's own identity; empty until an `Init` arrives.
    pub node_id: Seq<char>,
}

impl EchoState {
    /// The state of a node that has not been told anything yet.
    pub open spec fn initial() -> Self {
        EchoState { next_id: 0, node_id: Seq::empty() }
    }

    /// What handling `event` leads to: the state afterwards and the replies, or
    /// the reason why the event is refused.
    pub open spec fn step(self, event: EchoEventView) -> Result<
        (Self, Seq<Envelope<EchoBodyView>>),
        HandleError,
    > {
        match event {
            EchoEventView::Message(request) => match request.body {
                EchoBodyView::Init { msg_id, node_id, node_ids } => Ok(
                    (
                        EchoState { node_id, ..self },
                        seq![reply_to(request, EchoBodyView::InitOk { in_reply_to: msg_id })],
                    ),
                ),
                EchoBodyView::Echo { msg_id, echo } => if self.next_id == u64::MAX {
                    Err(HandleError::MessageIdsExhausted)
                } else {
                    Ok(
                        (
                            EchoState { next_id: (self.next_id + 1) as u64, ..self },
                            seq![
                                reply_to(
                                    request,
                                    EchoBodyView::EchoOk {
                                        msg_id: MessageId(self.next_id),
                                        in_reply_to: msg_id,
                                        echo,
                                    },
                                ),
                            ],
                        ),
                    )
                },
                EchoBodyView::InitOk { .. }
                | EchoBodyView::EchoOk { .. }
                | EchoBodyView::Error { .. } => Ok((self, Seq::empty())),
            },
        }
    }
}

/// The state after `event`; a refused event changes nothing.
pub open spec fn after(state: EchoState, event: EchoEventView) -> EchoState {
    match state.step(event) {
        Ok((next, _)) => next,
        Err(_) => state,
    }
}

/// The replies to `event`; a refused event has none.
pub open spec fn replies(state: EchoState, event: EchoEventView) -> Seq<Envelope<EchoBodyView>> {
    match state.step(event) {
        Ok((_, sent)) => sent,
        Err(_) => Seq::empty(),
    }
}

/// The state reached from `state` by handling `events` in order.
pub open spec fn run(state: EchoState, events: Seq<EchoEventView>) -> EchoState
    decreases events.len(),
{
    if events.len() == 0 {
        state
    } else {
        after(run(state, events.drop_last()), events.last())
    }
}

/// Everything a node sends while it handles `events` in order, starting in `state`.
pub open spec fn transcript(state: EchoState, events: Seq<EchoEventView>) -> Seq<
    Envelope<EchoBodyView>,
>
    decreases events.len(),
{
    if events.len() == 0 {
        Seq::empty()
    } else {
        transcript(state, events.drop_last()) + replies(
            run(state, events.drop_last()),
            events.last(),
        )
    }
}

/// The message id that `body` carries as its own, if it carries one.
pub open spec fn msg_id_of(body: EchoBodyView) -> Option<MessageId> {
    match body {
        EchoBodyView::Init { msg_id, .. } => Some(msg_id),
        EchoBodyView::Echo { msg_id, .. } => Some(msg_id),
        EchoBodyView::EchoOk { msg_id, .. } => Some(msg_id),
        EchoBodyView::InitOk { .. } => None,
        EchoBodyView::Error { .. } => None,
    }
}

/// The message ids that `messages` carry as their own, in order.
pub open spec fn fresh_ids(messages: Seq<Envelope<EchoBodyView>>) -> Seq<MessageId>
    decreases messages.len(),
{
    if messages.len() == 0 {
        Seq::empty()
    } else {
        let earlier = fresh_ids(messages.drop_last());
        match msg_id_of(messages.last().body) {
            Some(id) => earlier.push(id),
            None => earlier,
        }
    }
}

/// An event is answered with at most one message; if that message carries an
/// id of its own, the id is the node's counter, and the counter moves on by one.
pub proof fn lemma_step_ids(state: EchoState, event: EchoEventView)
    ensures
        after(state, event).next_id >= state.next_id,
        fresh_ids(replies(state, event)) == counting(
            state.next_id as int,
            (after(state, event).next_id - state.next_id) as nat,
        ),
{
    let sent = replies(state, event);
    if sent.len() == 0 {
        assert(fresh_ids(sent) =~= counting(state.next_id as int, 0));
    } else {
        assert(sent.len() == 1);
        assert(sent.drop_last().len() == 0);
        assert(fresh_ids(sent.drop_last()) =~= Seq::<MessageId>::empty());
        assert(sent.last() == sent[0]);
        match msg_id_of(sent[0].body) {
            Some(id) => {
                assert(fresh_ids(sent) =~= counting(state.next_id as int, 1));
            },
            None => {
                assert(fresh_ids(sent) =~= counting(state.next_id as int, 0));
            },
        }
    }
}

/// Message ids count up. The ids that a node gives to the messages it
/// originates, over any sequence of events and in the order in which the
/// messages are sent, are the node's counter at the start and its successors,
/// each once: for a fresh node 0, 1, 2 and so on.
pub proof fn lemma_ids_count_up(state: EchoState, events: Seq<EchoEventView>)
    ensures
        run(state, events).next_id >= state.next_id,
        fresh_ids(transcript(state, events)) == counting(
            state.next_id as int,
            (run(state, events).next_id - state.next_id) as nat,
        ),
    decreases events.len(),
{
    if events.len() == 0 {
        assert(fresh_ids(transcript(state, events)) =~= counting(state.next_id as int, 0));
    } else {
        let earlier = events.drop_last();
        let reached = run(state, earlier);
        let before = transcript(state, earlier);
        let sent = replies(reached, events.last());
        lemma_ids_count_up(state, earlier);
        lemma_step_ids(reached, events.last());
        let done = (reached.next_id - state.next_id) as nat;
        if sent.len() == 0 {
            assert(before + sent =~= before);
        } else {
            assert(sent.len() == 1);
            assert((before + sent).drop_last() =~= before);
            assert((before + sent).last() == sent[0]);
            assert(sent.drop_last().len() == 0);
            assert(sent.last() == sent[0]);
            match msg_id_of(sent[0].body) {
                Some(id) => {
                    assert(fresh_ids(sent) =~= seq![id]);
                    assert(counting(reached.next_id as int, 1)[0] == id);
                    assert(fresh_ids(before + sent) =~= counting(state.next_id as int, done + 1));
                },
                None => {
                    assert(fresh_ids(sent) =~= Seq::<MessageId>::empty());
                },
            }
        }
    }
}

/// A node of the echo protocol.
#[derive(Debug)]
pub struct EchoNode {
    id: u64,
    node_id: String,
}

impl View for EchoNode {
    type V = EchoState;

    closed spec fn view(&self) -> EchoState {
        EchoState { next_id: self.id, node_id: self.node_id@ }
    }
}

impl EchoNode {
    /// A node that has not been told anything yet and whose message ids
    /// start at `first_id` instead of 0.
    pub fn starting_at(first_id: u64) -> (node: Self)
        ensures
            node@ == (EchoState { next_id: first_id, ..EchoState::initial() }),
    {
        EchoNode { id: first_id, node_id: String::new() }
    }
}

impl Default for EchoNode {
    /// A node that has not been told anything yet.
    fn default() -> (node: Self)
        ensures
            node@ == EchoState::initial(),
    {
        EchoNode { id: 0, node_id: String::new() }
    }
}

impl MessageHandler<EchoBody, EchoEvent> for EchoNode {
    open spec fn identity(state: EchoState) -> Seq<char> {
        state.node_id
    }

    open spec fn reaction(state: EchoState, event: EchoEventView) -> Result<
        (EchoState, Seq<Envelope<EchoBodyView>>),
        HandleError,
    > {
        state.step(event)
    }

    fn identifier(&self) -> (id: &str)
        ensures
            id@ == self@.node_id,
    {
        self.node_id.as_str()
    }

    /// Handles `event` as [`EchoState::step`] says: on `Ok` the node is in the
    /// state named there and the replies are those named there, in order; a
    /// refused event leaves the node as it was.
    fn handle(&mut self, event: EchoEvent) -> (outcome: Result<
        Vec<Message<EchoBody>>,
        HandleError,
    >)
        ensures
            match old(self)@.step(event@) {
                Ok((next, replies)) => {
                    &&& outcome is Ok
                    &&& envelopes(outcome->Ok_0@) == replies
                    &&& final(self)@ == next
                },
                Err(reason) => {
                    &&& outcome == Err::<Vec<Message<EchoBody>>, HandleError>(reason)
                    &&& final(self)@ == old(self)@
                },
            },
    {
        match event {
            EchoEvent::Message(request) => {
                let ghost asked = request@;
                let Message { src, dest, body } = request;
                let mut replies: Vec<Message<EchoBody>> = Vec::new();
                match body {
                    EchoBody::Init { msg_id, node_id, node_ids } => {
                        self.node_id = node_id;
                        replies.push(
                            Message::new(dest, src, EchoBody::InitOk { in_reply_to: msg_id }),
                        );
                        proof {
                            assert(envelopes(replies@) =~= seq![
                                reply_to(asked, EchoBodyView::InitOk { in_reply_to: msg_id }),
                            ]);
                        }
                    },
                    EchoBody::Echo { msg_id, echo } => {
                        if self.id == u64::MAX {
                            return Err(HandleError::MessageIdsExhausted);
                        }
                        let ghost text = echo@;
                        replies.push(
                            Message::new(
                                dest,
                                src,
                                EchoBody::EchoOk {
                                    msg_id: MessageId(self.id),
                                    in_reply_to: msg_id,
                                    echo,
                                },
                            ),
                        );
                        self.id = self.id + 1;
                        proof {
                            assert(envelopes(replies@) =~= seq![
                                reply_to(
                                    asked,
                                    EchoBodyView::EchoOk {
                                        msg_id: MessageId(old(self).id),
                                        in_reply_to: msg_id,
                                        echo: text,
                                    },
                                ),
                            ]);
                        }
                    },
                    EchoBody::InitOk { .. } | EchoBody::EchoOk { .. } | EchoBody::Error { .. } => {
                        proof {
                            assert(envelopes(replies@) =~= Seq::<Envelope<EchoBodyView>>::empty());
                        }
                    },
                }
                Ok(replies)
            },
        }
    }
}

} // verus!
