//! The shared vocabulary of every node: identifiers, envelopes, message
//! bodies, events and the handler interface.

use vstd::prelude::*;
use vstd::std_specs::convert::FromSpecImpl;
use crate::node_map::NodeMap;
use crate::value_set::ValueSet;

verus! {

/// A per-node sequence number: it numbers the messages a node originates and
/// ties a reply to its request.
#[derive(Clone, Copy, Debug, PartialEq, Eq, Hash, Structural)]
pub struct MessageId(pub u64);

/// An opaque value spread by the broadcast protocol; only its identity matters.
#[derive(Clone, Copy, Debug, PartialEq, Eq, Hash, Structural)]
pub struct BroadcastMessage(pub u64);

/// The unit of transport: a body travelling from `src` to `dest`.
#[derive(Clone, Debug)]
pub struct Message<B> {
    pub src: String,
    pub dest: String,
    pub body: B,
}

/// The mathematical content of a [`Message`].
pub struct Envelope<B> {
    pub src: Seq<char>,
    pub dest: Seq<char>,
    pub body: B,
}

impl<B: View> View for Message<B> {
    type V = Envelope<B::V>;

    open spec fn view(&self) -> Envelope<B::V> {
        Envelope { src: self.src@, dest: self.dest@, body: self.body@ }
    }
}

impl<B> Message<B> {
    /// Wraps `body` in an envelope from `src` to `dest`.
    pub fn new(src: String, dest: String, body: B) -> (message: Self)
        ensures
            message.src == src,
            message.dest == dest,
            message.body == body,
    {
        Self { src, dest, body }
    }
}

/// The reply to `request` that carries `body`: source and destination swap.
pub open spec fn reply_to<B>(request: Envelope<B>, body: B) -> Envelope<B> {
    Envelope { src: request.dest, dest: request.src, body }
}

/// The contents of a list of node identifiers.
pub open spec fn names(ids: Seq<String>) -> Seq<Seq<char>> {
    ids.map_values(|id: String| id@)
}

/// The contents of a list of messages.
pub open spec fn envelopes<B: View>(messages: Seq<Message<B>>) -> Seq<Envelope<B::V>> {
    messages.map_values(|message: Message<B>| message@)
}

/// The ids `first`, `first + 1`, ... up to `count` of them.
pub open spec fn counting(first: int, count: nat) -> Seq<MessageId> {
    Seq::new(count, |i: int| MessageId((first + i) as u64))
}

/// Why a handler refused an event. A refused event leaves the handler as it was.
#[derive(Clone, Copy, Debug, PartialEq, Eq, Structural)]
pub enum HandleError {
    /// A topology was received that has no entry for the receiving node.
    MissingTopologyEntry,
    /// The event needs more fresh message ids than the counter has left.
    MessageIdsExhausted,
}

impl HandleError {
    /// A sentence that says what went wrong.
    pub fn description(&self) -> (text: &'static str)
        ensures
            text@ == match *self {
                HandleError::MissingTopologyEntry => "Node id expected in network topology"@,
                HandleError::MessageIdsExhausted => "Message ids exhausted"@,
            },
    {
        match self {
            HandleError::MissingTopologyEntry => "Node id expected in network topology",
            HandleError::MessageIdsExhausted => "Message ids exhausted",
        }
    }
}

/// The bodies of the echo protocol.
#[derive(Clone, Debug)]
pub enum EchoBody {
    Init { msg_id: MessageId, node_id: String, node_ids: Vec<String> },
    InitOk { in_reply_to: MessageId },
    Echo { msg_id: MessageId, echo: String },
    EchoOk { msg_id: MessageId, in_reply_to: MessageId, echo: String },
    Error { in_reply_to: MessageId, code: u64, text: String },
}

/// The mathematical content of an [`EchoBody`].
pub enum EchoBodyView {
    Init { msg_id: MessageId, node_id: Seq<char>, node_ids: Seq<Seq<char>> },
    InitOk { in_reply_to: MessageId },
    Echo { msg_id: MessageId, echo: Seq<char> },
    EchoOk { msg_id: MessageId, in_reply_to: MessageId, echo: Seq<char> },
    Error { in_reply_to: MessageId, code: u64, text: Seq<char> },
}

impl View for EchoBody {
    type V = EchoBodyView;

    open spec fn view(&self) -> EchoBodyView {
        match *self {
            EchoBody::Init { msg_id, node_id, node_ids } => EchoBodyView::Init {
                msg_id,
                node_id: node_id@,
                node_ids: names(node_ids@),
            },
            EchoBody::InitOk { in_reply_to } => EchoBodyView::InitOk { in_reply_to },
            EchoBody::Echo { msg_id, echo } => EchoBodyView::Echo { msg_id, echo: echo@ },
            EchoBody::EchoOk { msg_id, in_reply_to, echo } => EchoBodyView::EchoOk {
                msg_id,
                in_reply_to,
                echo: echo@,
            },
            EchoBody::Error { in_reply_to, code, text } => EchoBodyView::Error {
                in_reply_to,
                code,
                text: text@,
            },
        }
    }
}

/// The bodies of the unique-id protocol.
#[derive(Clone, Debug)]
pub enum UniqueIdsBody {
    Init { msg_id: MessageId, node_id: String, node_ids: Vec<String> },
    InitOk { in_reply_to: MessageId },
    Generate { msg_id: MessageId },
    GenerateOk { msg_id: MessageId, in_reply_to: MessageId, id: String },
    Error { in_reply_to: MessageId, code: u64, text: String },
}

/// The mathematical content of a [`UniqueIdsBody`].
pub enum UniqueIdsBodyView {
    Init { msg_id: MessageId, node_id: Seq<char>, node_ids: Seq<Seq<char>> },
    InitOk { in_reply_to: MessageId },
    Generate { msg_id: MessageId },
    GenerateOk { msg_id: MessageId, in_reply_to: MessageId, id: Seq<char> },
    Error { in_reply_to: MessageId, code: u64, text: Seq<char> },
}

impl View for UniqueIdsBody {
    type V = UniqueIdsBodyView;

    open spec fn view(&self) -> UniqueIdsBodyView {
        match *self {
            UniqueIdsBody::Init { msg_id, node_id, node_ids } => UniqueIdsBodyView::Init {
                msg_id,
                node_id: node_id@,
                node_ids: names(node_ids@),
            },
            UniqueIdsBody::InitOk { in_reply_to } => UniqueIdsBodyView::InitOk { in_reply_to },
            UniqueIdsBody::Generate { msg_id } => UniqueIdsBodyView::Generate { msg_id },
            UniqueIdsBody::GenerateOk { msg_id, in_reply_to, id } => UniqueIdsBodyView::GenerateOk {
                msg_id,
                in_reply_to,
                id: id@,
            },
            UniqueIdsBody::Error { in_reply_to, code, text } => UniqueIdsBodyView::Error {
                in_reply_to,
                code,
                text: text@,
            },
        }
    }
}

/// The bodies of the broadcast protocol.
#[derive(Clone, Debug)]
pub enum BroadcastBody {
    Init { msg_id: MessageId, node_id: String, node_ids: Vec<String> },
    InitOk { in_reply_to: MessageId },
    Broadcast { msg_id: MessageId, message: BroadcastMessage },
    BroadcastOk { msg_id: MessageId, in_reply_to: MessageId },
    Read { msg_id: MessageId },
    ReadOk { msg_id: MessageId, in_reply_to: MessageId, messages: ValueSet },
    Topology { msg_id: MessageId, topology: NodeMap<Vec<String>> },
    TopologyOk { msg_id: MessageId, in_reply_to: MessageId },
    Error { in_reply_to: MessageId, code: u64, text: String },
}

/// The mathematical content of a [`BroadcastBody`]. The values of a `ReadOk`
/// are listed in the order in which the answering node learned them.
pub enum BroadcastBodyView {
    Init { msg_id: MessageId, node_id: Seq<char>, node_ids: Seq<Seq<char>> },
    InitOk { in_reply_to: MessageId },
    Broadcast { msg_id: MessageId, message: BroadcastMessage },
    BroadcastOk { msg_id: MessageId, in_reply_to: MessageId },
    Read { msg_id: MessageId },
    ReadOk { msg_id: MessageId, in_reply_to: MessageId, messages: Seq<BroadcastMessage> },
    Topology { msg_id: MessageId, topology: Map<Seq<char>, Seq<Seq<char>>> },
    TopologyOk { msg_id: MessageId, in_reply_to: MessageId },
    Error { in_reply_to: MessageId, code: u64, text: Seq<char> },
}

/// The contents of a topology: each node's neighbours, by name.
pub open spec fn neighbours(topology: Map<Seq<char>, Vec<String>>) -> Map<
    Seq<char>,
    Seq<Seq<char>>,
> {
    topology.map_values(|links: Vec<String>| names(links@))
}

impl View for BroadcastBody {
    type V = BroadcastBodyView;

    open spec fn view(&self) -> BroadcastBodyView {
        match *self {
            BroadcastBody::Init { msg_id, node_id, node_ids } => BroadcastBodyView::Init {
                msg_id,
                node_id: node_id@,
                node_ids: names(node_ids@),
            },
            BroadcastBody::InitOk { in_reply_to } => BroadcastBodyView::InitOk { in_reply_to },
            BroadcastBody::Broadcast { msg_id, message } => BroadcastBodyView::Broadcast {
                msg_id,
                message,
            },
            BroadcastBody::BroadcastOk { msg_id, in_reply_to } => BroadcastBodyView::BroadcastOk {
                msg_id,
                in_reply_to,
            },
            BroadcastBody::Read { msg_id } => BroadcastBodyView::Read { msg_id },
            BroadcastBody::ReadOk { msg_id, in_reply_to, messages } => BroadcastBodyView::ReadOk {
                msg_id,
                in_reply_to,
                messages: messages@,
            },
            BroadcastBody::Topology { msg_id, topology } => BroadcastBodyView::Topology {
                msg_id,
                topology: neighbours(topology@),
            },
            BroadcastBody::TopologyOk { msg_id, in_reply_to } => BroadcastBodyView::TopologyOk {
                msg_id,
                in_reply_to,
            },
            BroadcastBody::Error { in_reply_to, code, text } => BroadcastBodyView::Error {
                in_reply_to,
                code,
                text: text@,
            },
        }
    }
}

/// What an echo node reacts to.
#[derive(Clone, Debug)]
pub enum EchoEvent {
    Message(Message<EchoBody>),
}

/// The mathematical content of an [`EchoEvent`].
pub enum EchoEventView {
    Message(Envelope<EchoBodyView>),
}

impl View for EchoEvent {
    type V = EchoEventView;

    open spec fn view(&self) -> EchoEventView {
        match *self {
            EchoEvent::Message(message) => EchoEventView::Message(message@),
        }
    }
}

/// What a unique-id node reacts to.
#[derive(Clone, Debug)]
pub enum UniqueIdsEvent {
    Message(Message<UniqueIdsBody>),
}

/// The mathematical content of a [`UniqueIdsEvent`].
pub enum UniqueIdsEventView {
    Message(Envelope<UniqueIdsBodyView>),
}

impl View for UniqueIdsEvent {
    type V = UniqueIdsEventView;

    open spec fn view(&self) -> UniqueIdsEventView {
        match *self {
            UniqueIdsEvent::Message(message) => UniqueIdsEventView::Message(message@),
        }
    }
}

/// What a broadcast node reacts to: a message, or the tick of the gossip clock.
#[derive(Clone, Debug)]
pub enum BroadcastEvent {
    Message(Message<BroadcastBody>),
    Gossip,
}

/// The mathematical content of a [`BroadcastEvent`].
pub enum BroadcastEventView {
    Message(Envelope<BroadcastBodyView>),
    Gossip,
}

impl View for BroadcastEvent {
    type V = BroadcastEventView;

    open spec fn view(&self) -> BroadcastEventView {
        match *self {
            BroadcastEvent::Message(message) => BroadcastEventView::Message(message@),
            BroadcastEvent::Gossip => BroadcastEventView::Gossip,
        }
    }
}

impl From<Message<EchoBody>> for EchoEvent {
    fn from(value: Message<EchoBody>) -> (event: Self) {
        EchoEvent::Message(value)
    }
}

impl FromSpecImpl<Message<EchoBody>> for EchoEvent {
    open spec fn obeys_from_spec() -> bool {
        true
    }

    open spec fn from_spec(value: Message<EchoBody>) -> Self {
        EchoEvent::Message(value)
    }
}

impl From<Message<UniqueIdsBody>> for UniqueIdsEvent {
    fn from(value: Message<UniqueIdsBody>) -> (event: Self) {
        UniqueIdsEvent::Message(value)
    }
}

impl FromSpecImpl<Message<UniqueIdsBody>> for UniqueIdsEvent {
    open spec fn obeys_from_spec() -> bool {
        true
    }

    open spec fn from_spec(value: Message<UniqueIdsBody>) -> Self {
        UniqueIdsEvent::Message(value)
    }
}

impl From<Message<BroadcastBody>> for BroadcastEvent {
    fn from(value: Message<BroadcastBody>) -> (event: Self) {
        BroadcastEvent::Message(value)
    }
}

impl FromSpecImpl<Message<BroadcastBody>> for BroadcastEvent {
    open spec fn obeys_from_spec() -> bool {
        true
    }

    open spec fn from_spec(value: Message<BroadcastBody>) -> Self {
        BroadcastEvent::Message(value)
    }
}

/// A node's protocol logic: a state machine that is told one event at a time
/// and answers each with the messages to send.
pub trait MessageHandler<B: View, E: View>: View + Sized {
    /// The identity that a handler in `state` reports.
    spec fn identity(state: Self::V) -> Seq<char>;

    /// What handling `event` in `state` leads to: the state afterwards and the
    /// replies, or the reason why the event is refused.
    spec fn reaction(state: Self::V, event: E::V) -> Result<
        (Self::V, Seq<Envelope<B::V>>),
        HandleError,
    >;

    /// The node's identity; empty until the node has been told who it is.
    fn identifier(&self) -> (id: &str)
        ensures
            id@ == Self::identity(self@),
    ;

    /// Consumes one event and returns the replies to send. A refused event
    /// changes nothing.
    fn handle(&mut self, event: E) -> (outcome: Result<Vec<Message<B>>, HandleError>)
        ensures
            match Self::reaction(old(self)@, event@) {
                Ok((next, replies)) => {
                    &&& outcome is Ok
                    &&& envelopes(outcome->Ok_0@) == replies
                    &&& final(self)@ == next
                },
                Err(reason) => {
                    &&& outcome == Err::<Vec<Message<B>>, HandleError>(reason)
                    &&& final(self)@ == old(self)@
                },
            },
    ;
}

} // verus!
