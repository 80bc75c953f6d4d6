//! What holds of a broadcast node over any sequence of events.

use vstd::prelude::*;
use crate::broadcast::BroadcastState;
use crate::proto::{
    counting, BroadcastBodyView, BroadcastEventView, BroadcastMessage, Envelope, HandleError, MessageId,
};
use crate::value_set::{lemma_with_value_distinct, lemma_with_value_holds, with_value};

verus! {

/// The state after `event`; a refused event changes nothing.
pub open spec fn after(state: BroadcastState, event: BroadcastEventView) -> BroadcastState {
    match state.step(event) {
        Ok((next, _)) => next,
        Err(_) => state,
    }
}

/// The replies to `event`; a refused event has none.
pub open spec fn replies(state: BroadcastState, event: BroadcastEventView) -> Seq<
    Envelope<BroadcastBodyView>,
> {
    match state.step(event) {
        Ok((_, sent)) => sent,
        Err(_) => Seq::empty(),
    }
}

/// The state reached from `state` by handling `events` in order.
pub open spec fn run(state: BroadcastState, events: Seq<BroadcastEventView>) -> BroadcastState
    decreases events.len(),
{
    if events.len() == 0 {
        state
    } else {
        after(run(state, events.drop_last()), events.last())
    }
}

/// Everything a node sends while it handles `events` in order, starting in `state`.
pub open spec fn transcript(state: BroadcastState, events: Seq<BroadcastEventView>) -> Seq<
    Envelope<BroadcastBodyView>,
>
    decreases events.len(),
{
    if events.len() == 0 {
        Seq::empty()
    } else {
        transcript(state, events.drop_last()) + replies(
            run(state, events.drop_last()),
            events.last(),
        )
    }
}

/// The message id that `body` carries as its own, if it carries one.
pub open spec fn msg_id_of(body: BroadcastBodyView) -> Option<MessageId> {
    match body {
        BroadcastBodyView::Init { msg_id, .. } => Some(msg_id),
        BroadcastBodyView::InitOk { .. } => None,
        BroadcastBodyView::Broadcast { msg_id, .. } => Some(msg_id),
        BroadcastBodyView::BroadcastOk { msg_id, .. } => Some(msg_id),
        BroadcastBodyView::Read { msg_id } => Some(msg_id),
        BroadcastBodyView::ReadOk { msg_id, .. } => Some(msg_id),
        BroadcastBodyView::Topology { msg_id, .. } => Some(msg_id),
        BroadcastBodyView::TopologyOk { msg_id, .. } => Some(msg_id),
        BroadcastBodyView::Error { .. } => None,
    }
}

/// The message ids that `messages` carry as their own, in order.
pub open spec fn fresh_ids(messages: Seq<Envelope<BroadcastBodyView>>) -> Seq<MessageId>
    decreases messages.len(),
{
    if messages.len() == 0 {
        Seq::empty()
    } else {
        let earlier = fresh_ids(messages.drop_last());
        match msg_id_of(messages.last().body) {
            Some(id) => earlier.push(id),
            None => earlier,
        }
    }
}

/// Whether `event` delivers the value `value`: it is a `Broadcast` message
/// that carries it.
pub open spec fn delivers(event: BroadcastEventView, value: BroadcastMessage) -> bool {
    match event {
        BroadcastEventView::Message(request) => match request.body {
            BroadcastBodyView::Broadcast { message, .. } => message == value,
            _ => false,
        },
        BroadcastEventView::Gossip => false,
    }
}

/// The values that `events` deliver.
pub open spec fn delivered(events: Seq<BroadcastEventView>) -> Set<BroadcastMessage> {
    Set::new(
        |value: BroadcastMessage|
            exists|i: int| 0 <= i < events.len() && delivers(#[trigger] events[i], value),
    )
}

/// Whether `event` is a `Broadcast` message.
pub open spec fn is_broadcast(event: BroadcastEventView) -> bool {
    match event {
        BroadcastEventView::Message(request) => request.body is Broadcast,
        BroadcastEventView::Gossip => false,
    }
}

proof fn lemma_fresh_ids_concat(
    front: Seq<Envelope<BroadcastBodyView>>,
    back: Seq<Envelope<BroadcastBodyView>>,
)
    ensures
        fresh_ids(front + back) == fresh_ids(front) + fresh_ids(back),
    decreases back.len(),
{
    if back.len() == 0 {
        assert(front + back =~= front);
        assert(fresh_ids(front) + fresh_ids(back) =~= fresh_ids(front));
    } else {
        lemma_fresh_ids_concat(front, back.drop_last());
        assert((front + back).drop_last() =~= front + back.drop_last());
        assert((front + back).last() == back.last());
        match msg_id_of(back.last().body) {
            Some(id) => {
                assert((fresh_ids(front) + fresh_ids(back.drop_last())).push(id) =~= fresh_ids(front)
                    + fresh_ids(back.drop_last()).push(id));
            },
            None => {},
        }
    }
}

proof fn lemma_fresh_ids_numbered(messages: Seq<Envelope<BroadcastBodyView>>, first: int)
    requires
        forall|i: int|
            0 <= i < messages.len() ==> msg_id_of((#[trigger] messages[i]).body) == Some(
                MessageId((first + i) as u64),
            ),
    ensures
        fresh_ids(messages) == counting(first, messages.len()),
    decreases messages.len(),
{
    if messages.len() == 0 {
        assert(fresh_ids(messages) =~= counting(first, 0));
    } else {
        let shorter = messages.drop_last();
        assert forall|i: int| 0 <= i < shorter.len() implies msg_id_of(
            (#[trigger] shorter[i]).body,
        ) == Some(MessageId((first + i) as u64)) by {
            assert(shorter[i] == messages[i]);
        }
        lemma_fresh_ids_numbered(shorter, first);
        assert(msg_id_of(messages[messages.len() - 1].body) == Some(
            MessageId((first + messages.len() - 1) as u64),
        ));
        assert(fresh_ids(messages) =~= counting(first, messages.len()));
    }
}

/// Every message of a round of gossip goes from this node to one of the
/// neighbours served, carries a value that is pending for it, and is numbered
/// by its place in the round.
pub proof fn lemma_gossip_messages(state: BroadcastState, links: Seq<Seq<char>>)
    ensures
        forall|i: int|
            0 <= i < state.gossip(links).len() ==> {
                let sent = #[trigger] state.gossip(links)[i];
                &&& sent.src == state.node_id
                &&& links.contains(sent.dest)
                &&& sent.body is Broadcast
                &&& msg_id_of(sent.body) == Some(MessageId((state.next_id + i) as u64))
                &&& state.pending(sent.dest).contains(sent.body->Broadcast_message)
            },
    decreases links.len(),
{
    if links.len() > 0 {
        lemma_gossip_messages(state, links.drop_last());
        let earlier = state.gossip(links.drop_last());
        let batch = state.gossip_to(links.last(), state.next_id + earlier.len());
        assert forall|i: int| 0 <= i < state.gossip(links).len() implies {
            let sent = #[trigger] state.gossip(links)[i];
            &&& sent.src == state.node_id
            &&& links.contains(sent.dest)
            &&& sent.body is Broadcast
            &&& msg_id_of(sent.body) == Some(MessageId((state.next_id + i) as u64))
            &&& state.pending(sent.dest).contains(sent.body->Broadcast_message)
        } by {
            if i < earlier.len() {
                let sent = earlier[i];
                assert(state.gossip(links)[i] == sent);
                let k = choose|k: int|
                    0 <= k < links.drop_last().len() && links.drop_last()[k] == sent.dest;
                assert(links[k] == sent.dest);
            } else {
                let j = i - earlier.len();
                assert(state.gossip(links)[i] == batch[j]);
                assert(links[links.len() - 1] == links.last());
                assert(state.pending(links.last())[j] == batch[j].body->Broadcast_message);
            }
        }
    }
}

/// Gossip reaches every neighbour with every value that is pending for it.
pub proof fn lemma_gossip_covers_pending(
    state: BroadcastState,
    links: Seq<Seq<char>>,
    k: int,
    value: BroadcastMessage,
)
    requires
        0 <= k < links.len(),
        state.pending(links[k]).contains(value),
    ensures
        exists|i: int|
            0 <= i < state.gossip(links).len() && {
                let sent = #[trigger] state.gossip(links)[i];
                &&& sent.src == state.node_id
                &&& sent.dest == links[k]
                &&& sent.body is Broadcast
                &&& sent.body->Broadcast_message == value
            },
    decreases links.len(),
{
    let earlier = state.gossip(links.drop_last());
    let batch = state.gossip_to(links.last(), state.next_id + earlier.len());
    if k == links.len() - 1 {
        let values = state.pending(links.last());
        let j = choose|j: int| 0 <= j < values.len() && values[j] == value;
        let i = earlier.len() + j;
        assert(state.gossip(links)[i] == batch[j]);
    } else {
        assert(links.drop_last()[k] == links[k]);
        lemma_gossip_covers_pending(state, links.drop_last(), k, value);
        let i = choose|i: int|
            0 <= i < earlier.len() && {
                let sent = #[trigger] earlier[i];
                &&& sent.src == state.node_id
                &&& sent.dest == links[k]
                &&& sent.body is Broadcast
                &&& sent.body->Broadcast_message == value
            };
        assert(state.gossip(links)[i] == earlier[i]);
    }
}

/// The messages that one event makes a node originate are numbered upwards
/// from the node's counter, and the counter moves past them.
pub proof fn lemma_step_ids(state: BroadcastState, event: BroadcastEventView)
    ensures
        after(state, event).next_id >= state.next_id,
        fresh_ids(replies(state, event)) == counting(
            state.next_id as int,
            (after(state, event).next_id - state.next_id) as nat,
        ),
{
    let sent = replies(state, event);
    match state.step(event) {
        Err(_) => {
            assert(fresh_ids(sent) =~= counting(state.next_id as int, 0));
        },
        Ok((next, _)) => {
            match event {
                BroadcastEventView::Gossip => {
                    lemma_gossip_messages(state, state.links);
                    lemma_fresh_ids_numbered(sent, state.next_id as int);
                },
                BroadcastEventView::Message(request) => {
                    if sent.len() == 0 {
                        assert(fresh_ids(sent) =~= counting(state.next_id as int, 0));
                    } else {
                        assert(sent.len() == 1);
                        assert(sent.drop_last().len() == 0);
                        assert(fresh_ids(sent.drop_last()) =~= Seq::<MessageId>::empty());
                        assert(sent.last() == sent[0]);
                        match msg_id_of(sent[0].body) {
                            Some(id) => {
                                assert(fresh_ids(sent) =~= counting(state.next_id as int, 1));
                            },
                            None => {
                                assert(fresh_ids(sent) =~= counting(state.next_id as int, 0));
                            },
                        }
                    }
                },
            }
        },
    }
}

/// Message ids count up. The ids that a node gives to the messages it
/// originates, over any sequence of events and in the order in which the
/// messages are sent, are the node's counter at the start and its successors,
/// each once: for a fresh node 0, 1, 2 and so on.
pub proof fn lemma_ids_count_up(state: BroadcastState, events: Seq<BroadcastEventView>)
    ensures
        run(state, events).next_id >= state.next_id,
        fresh_ids(transcript(state, events)) == counting(
            state.next_id as int,
            (run(state, events).next_id - state.next_id) as nat,
        ),
        forall|i: int, j: int|
            0 <= i < j < fresh_ids(transcript(state, events)).len() ==> fresh_ids(
                transcript(state, events),
            )[i].0 < fresh_ids(transcript(state, events))[j].0,
    decreases events.len(),
{
    if events.len() == 0 {
        assert(fresh_ids(transcript(state, events)) =~= counting(state.next_id as int, 0));
    } else {
        let earlier = events.drop_last();
        let reached = run(state, earlier);
        lemma_ids_count_up(state, earlier);
        lemma_step_ids(reached, events.last());
        lemma_fresh_ids_concat(transcript(state, earlier), replies(reached, events.last()));
        let done = (reached.next_id - state.next_id) as nat;
        let more = (after(reached, events.last()).next_id - reached.next_id) as nat;
        assert(counting(state.next_id as int, done) + counting(reached.next_id as int, more)
            =~= counting(state.next_id as int, done + more));
    }
}

/// A topology without an entry for the receiving node is refused, whatever
/// else it holds; the node keeps the neighbours it had.
pub proof fn lemma_topology_required(
    state: BroadcastState,
    request: Envelope<BroadcastBodyView>,
)
    requires
        request.body is Topology,
        !request.body->topology.dom().contains(state.node_id),
    ensures
        state.step(BroadcastEventView::Message(request)) == Err::<
            (BroadcastState, Seq<Envelope<BroadcastBodyView>>),
            HandleError,
        >(HandleError::MissingTopologyEntry),
        after(state, BroadcastEventView::Message(request)) == state,
{
}

/// A body that is itself a reply is passed over: nothing is sent and nothing
/// changes.
pub proof fn lemma_replies_ignored(state: BroadcastState, request: Envelope<BroadcastBodyView>)
    requires
        request.body is InitOk || request.body is BroadcastOk || request.body is ReadOk
            || request.body is TopologyOk || request.body is Error,
    ensures
        state.step(BroadcastEventView::Message(request)) == Ok::<
            (BroadcastState, Seq<Envelope<BroadcastBodyView>>),
            HandleError,
        >((state, Seq::empty())),
{
}

/// What a node has learned after a `Broadcast` of `value` from `sender`:
/// what it had learned before, and `value`. The sender is noted to have it.
pub proof fn lemma_broadcast_learned(
    state: BroadcastState,
    request: Envelope<BroadcastBodyView>,
    value: BroadcastMessage,
)
    requires
        request.body is Broadcast,
        request.body->Broadcast_message == value,
        state.next_id < u64::MAX,
    ensures
        ({
            let next = after(state, BroadcastEventView::Message(request));
            &&& next.known() == with_value(state.known(), value)
            &&& next.known().contains(value)
            &&& next.values_of(request.src).contains(value)
            &&& next.node_id == state.node_id
            &&& next.links == state.links
            &&& forall|node: Seq<char>|
                node != request.src && node != state.node_id ==> next.values_of(node)
                    == state.values_of(node)
        }),
{
    let next = after(state, BroadcastEventView::Message(request));
    let noted = state.record(request.src, value);
    assert(next.seen == noted.record(state.node_id, value).seen);
    lemma_with_value_holds(state.values_of(request.src), value);
    lemma_with_value_holds(noted.values_of(state.node_id), value);
    lemma_with_value_holds(state.known(), value);
}

/// Broadcasting is idempotent. A value delivered a second time, by the same
/// sender or by another, leaves what the node has learned, and so what a
/// `Read` returns, as the first delivery left it.
pub proof fn lemma_broadcast_idempotent(
    state: BroadcastState,
    first: Envelope<BroadcastBodyView>,
    second: Envelope<BroadcastBodyView>,
)
    requires
        first.body is Broadcast,
        second.body is Broadcast,
        first.body->Broadcast_message == second.body->Broadcast_message,
        state.next_id + 2 <= u64::MAX,
    ensures
        ({
            let once = after(state, BroadcastEventView::Message(first));
            let twice = after(once, BroadcastEventView::Message(second));
            twice.known() == once.known()
        }),
{
    let value = first.body->Broadcast_message;
    let once = after(state, BroadcastEventView::Message(first));
    lemma_broadcast_learned(state, first, value);
    lemma_broadcast_learned(once, second, value);
    lemma_with_value_holds(state.known(), value);
}

/// A `Read` reflects all broadcasts. After any sequence of `Broadcast`
/// messages, in any order and with any repetitions, a node has learned
/// exactly what it had learned before and the values delivered; its node id
/// and its neighbours are as before.
pub proof fn lemma_read_reflects_broadcasts(
    state: BroadcastState,
    events: Seq<BroadcastEventView>,
)
    requires
        forall|i: int| 0 <= i < events.len() ==> is_broadcast(#[trigger] events[i]),
        state.next_id + events.len() <= u64::MAX,
    ensures
        run(state, events).known().to_set() == state.known().to_set().union(delivered(events)),
        run(state, events).node_id == state.node_id,
        run(state, events).links == state.links,
        run(state, events).next_id == state.next_id + events.len(),
        state.known().no_duplicates() ==> run(state, events).known().no_duplicates(),
    decreases events.len(),
{
    if events.len() == 0 {
        assert(delivered(events) =~= Set::<BroadcastMessage>::empty());
        assert(state.known().to_set().union(delivered(events)) =~= state.known().to_set());
    } else {
        let earlier = events.drop_last();
        let reached = run(state, earlier);
        assert forall|i: int| 0 <= i < earlier.len() implies is_broadcast(
            #[trigger] earlier[i],
        ) by {
            assert(earlier[i] == events[i]);
        }
        lemma_read_reflects_broadcasts(state, earlier);
        let last = events.last();
        assert(is_broadcast(events[events.len() - 1]));
        let request = last->Message_0;
        let value = request.body->Broadcast_message;
        lemma_broadcast_learned(reached, request, value);
        lemma_with_value_holds(reached.known(), value);
        lemma_delivered_grows(events);
        if reached.known().no_duplicates() {
            lemma_with_value_distinct(reached.known(), value);
        }
        assert(delivers(last, value));
        assert(run(state, events).known().to_set() =~= state.known().to_set().union(
            delivered(events),
        )) by {
            assert forall|v: BroadcastMessage|
                run(state, events).known().to_set().contains(v) <==> state.known().to_set().union(
                    delivered(events),
                ).contains(v) by {
                assert(reached.known().to_set().contains(v) <==> state.known().to_set().union(
                    delivered(earlier),
                ).contains(v));
                assert(delivered(events).contains(v) <==> (delivered(earlier).contains(v) || v
                    == value));
            }
        }
    }
}

/// One more event delivers what the events before it deliver, and what it
/// delivers itself.
proof fn lemma_delivered_grows(events: Seq<BroadcastEventView>)
    requires
        events.len() > 0,
    ensures
        forall|value: BroadcastMessage|
            delivered(events).contains(value) <==> (delivered(events.drop_last()).contains(value)
                || delivers(events.last(), value)),
{
    let earlier = events.drop_last();
    assert forall|value: BroadcastMessage|
        delivered(events).contains(value) <==> (delivered(earlier).contains(value) || delivers(
            events.last(),
            value,
        )) by {
        if delivered(events).contains(value) {
            let i = choose|i: int| 0 <= i < events.len() && delivers(#[trigger] events[i], value);
            if i < earlier.len() {
                assert(earlier[i] == events[i]);
            }
        }
        if delivered(earlier).contains(value) {
            let i = choose|i: int| 0 <= i < earlier.len() && delivers(#[trigger] earlier[i], value);
            assert(events[i] == earlier[i]);
        }
        if delivers(events.last(), value) {
            assert(events[events.len() - 1] == events.last());
        }
    }
}

/// One event adds to what a node holds of any node at most the value that
/// the event delivers.
proof fn lemma_step_adds_delivered(
    state: BroadcastState,
    event: BroadcastEventView,
    node: Seq<char>,
    value: BroadcastMessage,
)
    requires
        after(state, event).values_of(node).contains(value),
    ensures
        state.values_of(node).contains(value) || delivers(event, value),
{
    match state.step(event) {
        Err(_) => {},
        Ok((next, _)) => {
            match event {
                BroadcastEventView::Gossip => {},
                BroadcastEventView::Message(request) => {
                    match request.body {
                        BroadcastBodyView::Broadcast { msg_id, message } => {
                            let noted = state.record(request.src, message);
                            lemma_with_value_holds(state.values_of(request.src), message);
                            lemma_with_value_holds(noted.values_of(state.node_id), message);
                        },
                        _ => {},
                    }
                },
            }
        },
    }
}

/// Whatever a node holds of any node, itself included, after any sequence of
/// events, it held before or was delivered to it in a `Broadcast`.
pub proof fn lemma_seen_only_delivered(
    state: BroadcastState,
    events: Seq<BroadcastEventView>,
    node: Seq<char>,
    value: BroadcastMessage,
)
    requires
        run(state, events).values_of(node).contains(value),
    ensures
        state.values_of(node).contains(value) || delivered(events).contains(value),
    decreases events.len(),
{
    if events.len() > 0 {
        let earlier = events.drop_last();
        lemma_step_adds_delivered(run(state, earlier), events.last(), node, value);
        lemma_delivered_grows(events);
        if run(state, earlier).values_of(node).contains(value) {
            lemma_seen_only_delivered(state, earlier, node, value);
        }
    }
}

/// No cross-talk. When a node that started fresh answers a `Read` after any
/// sequence of events, every reply is a `ReadOk`, and every value it lists
/// was delivered to the node by one of those events.
pub proof fn lemma_no_cross_talk(
    events: Seq<BroadcastEventView>,
    request: Envelope<BroadcastBodyView>,
)
    requires
        request.body is Read,
    ensures
        ({
            let answers = replies(
                run(BroadcastState::initial(), events),
                BroadcastEventView::Message(request),
            );
            forall|i: int|
                0 <= i < answers.len() ==> {
                    &&& (#[trigger] answers[i]).body is ReadOk
                    &&& forall|value: BroadcastMessage|
                        answers[i].body->ReadOk_messages.contains(value) ==> delivered(
                            events,
                        ).contains(value)
                }
        }),
{
    let fresh = BroadcastState::initial();
    let reached = run(fresh, events);
    let answers = replies(reached, BroadcastEventView::Message(request));
    assert forall|i: int| 0 <= i < answers.len() implies {
        &&& (#[trigger] answers[i]).body is ReadOk
        &&& forall|value: BroadcastMessage|
            answers[i].body->ReadOk_messages.contains(value) ==> delivered(events).contains(value)
    } by {
        assert(answers[i].body->ReadOk_messages == reached.known());
        assert forall|value: BroadcastMessage|
            reached.known().contains(value) implies delivered(events).contains(value) by {
            lemma_seen_only_delivered(fresh, events, reached.node_id, value);
        }
    }
}

/// What is held of a node only grows: no event removes a value.
pub proof fn lemma_seen_only_grows(
    state: BroadcastState,
    events: Seq<BroadcastEventView>,
    node: Seq<char>,
    value: BroadcastMessage,
)
    requires
        state.values_of(node).contains(value),
    ensures
        run(state, events).values_of(node).contains(value),
    decreases events.len(),
{
    if events.len() > 0 {
        lemma_seen_only_grows(state, events.drop_last(), node, value);
        let reached = run(state, events.drop_last());
        match events.last() {
            BroadcastEventView::Message(request) => {
                match request.body {
                    BroadcastBodyView::Broadcast { msg_id, message } => {
                        let noted = reached.record(request.src, message);
                        lemma_with_value_holds(reached.values_of(request.src), message);
                        lemma_with_value_holds(noted.values_of(reached.node_id), message);
                    },
                    _ => {},
                }
            },
            BroadcastEventView::Gossip => {},
        }
    }
}

/// No value is held twice: if what a node holds of every node is free of
/// repetitions, it stays so over any sequence of events.
pub proof fn lemma_values_stay_distinct(
    state: BroadcastState,
    events: Seq<BroadcastEventView>,
    node: Seq<char>,
)
    requires
        forall|other: Seq<char>| (#[trigger] state.values_of(other)).no_duplicates(),
    ensures
        run(state, events).values_of(node).no_duplicates(),
    decreases events.len(),
{
    if events.len() > 0 {
        let reached = run(state, events.drop_last());
        lemma_values_stay_distinct(state, events.drop_last(), node);
        match events.last() {
            BroadcastEventView::Message(request) => {
                match request.body {
                    BroadcastBodyView::Broadcast { msg_id, message } => {
                        let noted = reached.record(request.src, message);
                        lemma_values_stay_distinct(state, events.drop_last(), request.src);
                        lemma_values_stay_distinct(state, events.drop_last(), reached.node_id);
                        lemma_with_value_distinct(reached.values_of(request.src), message);
                        lemma_with_value_distinct(noted.values_of(reached.node_id), message);
                    },
                    _ => {},
                }
            },
            BroadcastEventView::Gossip => {},
        }
    }
}

/// One hop of gossip. If a node has learned `value`, has `to` among its
/// neighbours and does not hold that `to` has the value, its next round of
/// gossip sends `to` a `Broadcast` of the value; and a node that handles such
/// a message has learned the value from then on.
pub proof fn lemma_gossip_hop(
    sender: BroadcastState,
    receiver: BroadcastState,
    to: Seq<char>,
    value: BroadcastMessage,
)
    requires
        sender.links.contains(to),
        sender.known().contains(value),
        !sender.values_of(to).contains(value),
        sender.next_id + sender.gossip(sender.links).len() <= u64::MAX,
        receiver.next_id < u64::MAX,
    ensures
        exists|i: int|
            0 <= i < replies(sender, BroadcastEventView::Gossip).len() && {
                let sent = #[trigger] replies(sender, BroadcastEventView::Gossip)[i];
                &&& sent.src == sender.node_id
                &&& sent.dest == to
                &&& sent.body is Broadcast
                &&& sent.body->Broadcast_message == value
                &&& after(receiver, BroadcastEventView::Message(sent)).known().contains(value)
            },
{
    let k = choose|k: int| 0 <= k < sender.links.len() && sender.links[k] == to;
    let keep = |v: BroadcastMessage| !sender.values_of(to).contains(v);
    assert(sender.pending(to).contains(value)) by {
        sender.known().lemma_filter_contains_rev(keep, value);
    }
    lemma_gossip_covers_pending(sender, sender.links, k, value);
    let round = sender.gossip(sender.links);
    let i = choose|i: int|
        0 <= i < round.len() && {
            let sent = #[trigger] round[i];
            &&& sent.src == sender.node_id
            &&& sent.dest == sender.links[k]
            &&& sent.body is Broadcast
            &&& sent.body->Broadcast_message == value
        };
    lemma_broadcast_learned(receiver, round[i], value);
    assert(replies(sender, BroadcastEventView::Gossip)[i] == round[i]);
}

} // verus!
