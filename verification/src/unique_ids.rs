//! The unique-id node: every `Generate` request is answered with an id that no
//! other request, to this node or to another, is answered with.

use vstd::prelude::*;
use vstd::string::StringExecFns;
use crate::proto::{
    counting, envelopes, reply_to, Envelope, HandleError, Message, MessageHandler, MessageId,
    UniqueIdsBody, UniqueIdsBodyView, UniqueIdsEvent, UniqueIdsEventView,
};

verus! {

/// The character that stands for the digit `d`.
pub open spec fn digit(d: nat) -> char {
    if d == 0 {
        '0'
    } else if d == 1 {
        '1'
    } else if d == 2 {
        '2'
    } else if d == 3 {
        '3'
    } else if d == 4 {
        '4'
    } else if d == 5 {
        '5'
    } else if d == 6 {
        '6'
    } else if d == 7 {
        '7'
    } else if d == 8 {
        '8'
    } else {
        '9'
    }
}

/// The decimal numeral of `n`, without leading zeros.
pub open spec fn decimal(n: nat) -> Seq<char>
    decreases n,
{
    if n < 10 {
        seq![digit(n)]
    } else {
        decimal(n / 10).push(digit(n % 10))
    }
}

/// The id minted by the node `node_id` for its counter value `counter`.
pub open spec fn minted(node_id: Seq<char>, counter: u64) -> Seq<char> {
    node_id + seq!['-'] + decimal(counter as nat)
}

/// A decimal numeral is not empty and holds no hyphen.
pub proof fn lemma_decimal_shape(n: nat)
    ensures
        decimal(n).len() >= 1,
        n >= 10 ==> decimal(n).len() >= 2,
        forall|i: int| 0 <= i < decimal(n).len() ==> decimal(n)[i] != '-',
    decreases n,
{
    if n >= 10 {
        lemma_decimal_shape(n / 10);
    }
}

/// Different numbers have different numerals.
pub proof fn lemma_decimal_injective(m: nat, n: nat)
    requires
        decimal(m) == decimal(n),
    ensures
        m == n,
    decreases m,
{
    lemma_decimal_shape(m);
    lemma_decimal_shape(n);
    if m >= 10 {
        assert(n >= 10);
        assert(decimal(m).drop_last() =~= decimal(m / 10));
        assert(decimal(n).drop_last() =~= decimal(n / 10));
        assert(decimal(m).last() == digit(m % 10));
        assert(decimal(n).last() == digit(n % 10));
        lemma_decimal_injective(m / 10, n / 10);
    } else {
        assert(n < 10);
        assert(decimal(m)[0] == digit(m));
        assert(decimal(n)[0] == digit(n));
    }
}

/// Minted ids are unique. Two ids are the same only if the same node minted
/// them for the same counter value: no two requests to one node are answered
/// with the same id, and neither are two requests to nodes of different names.
pub proof fn lemma_minted_unique(node: Seq<char>, counter: u64, other: Seq<char>, count: u64)
    requires
        minted(node, counter) == minted(other, count),
    ensures
        node == other,
        counter == count,
{
    let numeral = decimal(counter as nat);
    let second = decimal(count as nat);
    let id = minted(node, counter);
    lemma_decimal_shape(counter as nat);
    lemma_decimal_shape(count as nat);
    assert(id.len() == node.len() + 1 + numeral.len());
    assert(id.len() == other.len() + 1 + second.len());
    if numeral.len() < second.len() {
        let at = node.len() as int;
        assert(minted(node, counter)[at] == '-');
        assert(minted(other, count)[at] == second[at - other.len() - 1]);
    }
    if second.len() < numeral.len() {
        let at = other.len() as int;
        assert(minted(other, count)[at] == '-');
        assert(minted(node, counter)[at] == numeral[at - node.len() - 1]);
    }
    assert(node =~= other) by {
        assert forall|i: int| 0 <= i < node.len() implies node[i] == other[i] by {
            assert(minted(node, counter)[i] == node[i]);
            assert(minted(other, count)[i] == other[i]);
        }
    }
    assert(numeral =~= second) by {
        assert forall|i: int| 0 <= i < numeral.len() implies numeral[i] == second[i] by {
            assert(minted(node, counter)[node.len() + 1 + i] == numeral[i]);
            assert(minted(other, count)[other.len() + 1 + i] == second[i]);
        }
    }
    lemma_decimal_injective(counter as nat, count as nat);
}

/// The digits `digits`, least significant first, written most significant first.
spec fn written(digits: Seq<u8>) -> Seq<char> {
    Seq::new(digits.len(), |i: int| digit(digits[digits.len() - 1 - i] as nat))
}

/// The one-character text for the digit `d`.
fn digit_text(d: u8) -> (text: &'static str)
    requires
        d < 10,
    ensures
        text@ == seq![digit(d as nat)],
{
    proof {
        reveal_strlit("0");
        reveal_strlit("1");
        reveal_strlit("2");
        reveal_strlit("3");
        reveal_strlit("4");
        reveal_strlit("5");
        reveal_strlit("6");
        reveal_strlit("7");
        reveal_strlit("8");
        reveal_strlit("9");
    }
    let text = if d == 0 {
        "0"
    } else if d == 1 {
        "1"
    } else if d == 2 {
        "2"
    } else if d == 3 {
        "3"
    } else if d == 4 {
        "4"
    } else if d == 5 {
        "5"
    } else if d == 6 {
        "6"
    } else if d == 7 {
        "7"
    } else if d == 8 {
        "8"
    } else {
        "9"
    };
    assert(text@ =~= seq![digit(d as nat)]);
    text
}

/// Appends the decimal numeral of `n` to `text`.
pub fn push_decimal(text: &mut String, n: u64)
    ensures
        final(text)@ == old(text)@ + decimal(n as nat),
{
    let mut digits: Vec<u8> = Vec::new();
    let mut rest: u64 = n;
    proof {
        assert(decimal(n as nat) =~= decimal(rest as nat) + written(digits@));
    }
    while rest >= 10
        invariant
            decimal(n as nat) == decimal(rest as nat) + written(digits@),
            forall|i: int| 0 <= i < digits@.len() ==> digits@[i] < 10,
        decreases rest,
    {
        let low: u8 = (rest % 10) as u8;
        proof {
            let grown = digits@.push(low);
            assert(written(grown) =~= seq![digit(low as nat)] + written(digits@));
            assert(decimal(rest as nat) == decimal((rest / 10) as nat).push(digit(low as nat)));
            assert(decimal((rest / 10) as nat).push(digit(low as nat)) + written(digits@)
                =~= decimal((rest / 10) as nat) + (seq![digit(low as nat)] + written(digits@)));
        }
        digits.push(low);
        rest = rest / 10;
    }
    text.append(digit_text(rest as u8));
    let mut left: usize = digits.len();
    proof {
        assert(written(digits@).take(0) =~= Seq::<char>::empty());
        assert(text@ =~= old(text)@ + decimal(rest as nat) + written(digits@).take(0));
    }
    while left > 0
        invariant
            left <= digits@.len(),
            forall|i: int| 0 <= i < digits@.len() ==> digits@[i] < 10,
            text@ == old(text)@ + decimal(rest as nat) + written(digits@).take(
                digits@.len() - left,
            ),
        decreases left,
    {
        left = left - 1;
        let ghost done = digits@.len() - left - 1;
        proof {
            assert(written(digits@).take(done + 1) =~= written(digits@).take(done).push(
                digit(digits@[left as int] as nat),
            ));
        }
        text.append(digit_text(digits[left]));
        proof {
            assert(text@ =~= old(text)@ + decimal(rest as nat) + written(digits@).take(done + 1));
        }
    }
    proof {
        assert(written(digits@).take(digits@.len() as int) =~= written(digits@));
        assert(text@ =~= old(text)@ + decimal(n as nat));
    }
}

/// What a unique-id node knows.
pub struct UniqueIdsState {
    /// The id that the next originated message will carry.
    pub next_id: u64,
    /// The node's own identity; empty until an `Init` arrives.
    pub node_id: Seq<char>,
}

impl UniqueIdsState {
    /// The state of a node that has not been told anything yet.
    pub open spec fn initial() -> Self {
        UniqueIdsState { next_id: 0, node_id: Seq::empty() }
    }

    /// What handling `event` leads to: the state afterwards and the replies, or
    /// the reason why the event is refused.
    pub open spec fn step(self, event: UniqueIdsEventView) -> Result<
        (Self, Seq<Envelope<UniqueIdsBodyView>>),
        HandleError,
    > {
        match event {
            UniqueIdsEventView::Message(request) => match request.body {
                UniqueIdsBodyView::Init { msg_id, node_id, node_ids } => Ok(
                    (
                        UniqueIdsState { node_id, ..self },
                        seq![reply_to(request, UniqueIdsBodyView::InitOk { in_reply_to: msg_id })],
                    ),
                ),
                UniqueIdsBodyView::Generate { msg_id } => if self.next_id == u64::MAX {
                    Err(HandleError::MessageIdsExhausted)
                } else {
                    Ok(
                        (
                            UniqueIdsState { next_id: (self.next_id + 1) as u64, ..self },
                            seq![
                                reply_to(
                                    request,
                                    UniqueIdsBodyView::GenerateOk {
                                        msg_id: MessageId(self.next_id),
                                        in_reply_to: msg_id,
                                        id: minted(self.node_id, self.next_id),
                                    },
                                ),
                            ],
                        ),
                    )
                },
                UniqueIdsBodyView::InitOk { .. }
                | UniqueIdsBodyView::GenerateOk { .. }
                | UniqueIdsBodyView::Error { .. } => Ok((self, Seq::empty())),
            },
        }
    }
}

/// The state after `event`; a refused event changes nothing.
pub open spec fn after(state: UniqueIdsState, event: UniqueIdsEventView) -> UniqueIdsState {
    match state.step(event) {
        Ok((next, _)) => next,
        Err(_) => state,
    }
}

/// The replies to `event`; a refused event has none.
pub open spec fn replies(state: UniqueIdsState, event: UniqueIdsEventView) -> Seq<Envelope<UniqueIdsBodyView>> {
    match state.step(event) {
        Ok((_, sent)) => sent,
        Err(_) => Seq::empty(),
    }
}

/// The state reached from `state` by handling `events` in order.
pub open spec fn run(state: UniqueIdsState, events: Seq<UniqueIdsEventView>) -> UniqueIdsState
    decreases events.len(),
{
    if events.len() == 0 {
        state
    } else {
        after(run(state, events.drop_last()), events.last())
    }
}

/// Everything a node sends while it handles `events` in order, starting in `state`.
pub open spec fn transcript(state: UniqueIdsState, events: Seq<UniqueIdsEventView>) -> Seq<
    Envelope<UniqueIdsBodyView>,
>
    decreases events.len(),
{
    if events.len() == 0 {
        Seq::empty()
    } else {
        transcript(state, events.drop_last()) + replies(
            run(state, events.drop_last()),
            events.last(),
        )
    }
}

/// The message id that `body` carries as its own, if it carries one.
pub open spec fn msg_id_of(body: UniqueIdsBodyView) -> Option<MessageId> {
    match body {
        UniqueIdsBodyView::Init { msg_id, .. } => Some(msg_id),
        UniqueIdsBodyView::Generate { msg_id, .. } => Some(msg_id),
        UniqueIdsBodyView::GenerateOk { msg_id, .. } => Some(msg_id),
        UniqueIdsBodyView::InitOk { .. } => None,
        UniqueIdsBodyView::Error { .. } => None,
    }
}

/// The message ids that `messages` carry as their own, in order.
pub open spec fn fresh_ids(messages: Seq<Envelope<UniqueIdsBodyView>>) -> Seq<MessageId>
    decreases messages.len(),
{
    if messages.len() == 0 {
        Seq::empty()
    } else {
        let earlier = fresh_ids(messages.drop_last());
        match msg_id_of(messages.last().body) {
            Some(id) => earlier.push(id),
            None => earlier,
        }
    }
}

/// An event is answered with at most one message; if that message carries an
/// id of its own, the id is the node's counter, and the counter moves on by one.
pub proof fn lemma_step_ids(state: UniqueIdsState, event: UniqueIdsEventView)
    ensures
        after(state, event).next_id >= state.next_id,
        fresh_ids(replies(state, event)) == counting(
            state.next_id as int,
            (after(state, event).next_id - state.next_id) as nat,
        ),
{
    let sent = replies(state, event);
    if sent.len() == 0 {
        assert(fresh_ids(sent) =~= counting(state.next_id as int, 0));
    } else {
        assert(sent.len() == 1);
        assert(sent.drop_last().len() == 0);
        assert(fresh_ids(sent.drop_last()) =~= Seq::<MessageId>::empty());
        assert(sent.last() == sent[0]);
        match msg_id_of(sent[0].body) {
            Some(id) => {
                assert(fresh_ids(sent) =~= counting(state.next_id as int, 1));
            },
            None => {
                assert(fresh_ids(sent) =~= counting(state.next_id as int, 0));
            },
        }
    }
}

/// Message ids count up. The ids that a node gives to the messages it
/// originates, over any sequence of events and in the order in which the
/// messages are sent, are the node's counter at the start and its successors,
/// each once: for a fresh node 0, 1, 2 and so on.
pub proof fn lemma_ids_count_up(state: UniqueIdsState, events: Seq<UniqueIdsEventView>)
    ensures
        run(state, events).next_id >= state.next_id,
        fresh_ids(transcript(state, events)) == counting(
            state.next_id as int,
            (run(state, events).next_id - state.next_id) as nat,
        ),
    decreases events.len(),
{
    if events.len() == 0 {
        assert(fresh_ids(transcript(state, events)) =~= counting(state.next_id as int, 0));
    } else {
        let earlier = events.drop_last();
        let reached = run(state, earlier);
        let before = transcript(state, earlier);
        let sent = replies(reached, events.last());
        lemma_ids_count_up(state, earlier);
        lemma_step_ids(reached, events.last());
        let done = (reached.next_id - state.next_id) as nat;
        if sent.len() == 0 {
            assert(before + sent =~= before);
        } else {
            assert(sent.len() == 1);
            assert((before + sent).drop_last() =~= before);
            assert((before + sent).last() == sent[0]);
            assert(sent.drop_last().len() == 0);
            assert(sent.last() == sent[0]);
            match msg_id_of(sent[0].body) {
                Some(id) => {
                    assert(fresh_ids(sent) =~= seq![id]);
                    assert(counting(reached.next_id as int, 1)[0] == id);
                    assert(fresh_ids(before + sent) =~= counting(state.next_id as int, done + 1));
                },
                None => {
                    assert(fresh_ids(sent) =~= Seq::<MessageId>::empty());
                },
            }
        }
    }
}

/// A node of the unique-id protocol.
#[derive(Debug)]
pub struct UniqueIdsNode {
    id: u64,
    node_id: String,
}

impl View for UniqueIdsNode {
    type V = UniqueIdsState;

    closed spec fn view(&self) -> UniqueIdsState {
        UniqueIdsState { next_id: self.id, node_id: self.node_id@ }
    }
}

impl UniqueIdsNode {
    /// A node that has not been told anything yet and whose message ids
    /// start at `first_id` instead of 0.
    pub fn starting_at(first_id: u64) -> (node: Self)
        ensures
            node@ == (UniqueIdsState { next_id: first_id, ..UniqueIdsState::initial() }),
    {
        UniqueIdsNode { id: first_id, node_id: String::new() }
    }
}

impl Default for UniqueIdsNode {
    /// A node that has not been told anything yet.
    fn default() -> (node: Self)
        ensures
            node@ == UniqueIdsState::initial(),
    {
        UniqueIdsNode { id: 0, node_id: String::new() }
    }
}

impl MessageHandler<UniqueIdsBody, UniqueIdsEvent> for UniqueIdsNode {
    open spec fn identity(state: UniqueIdsState) -> Seq<char> {
        state.node_id
    }

    open spec fn reaction(state: UniqueIdsState, event: UniqueIdsEventView) -> Result<
        (UniqueIdsState, Seq<Envelope<UniqueIdsBodyView>>),
        HandleError,
    > {
        state.step(event)
    }

    fn identifier(&self) -> (id: &str)
        ensures
            id@ == self@.node_id,
    {
        self.node_id.as_str()
    }

    /// Handles `event` as [`UniqueIdsState::step`] says: on `Ok` the node is in the
    /// state named there and the replies are those named there, in order; a
    /// refused event leaves the node as it was.
    fn handle(&mut self, event: UniqueIdsEvent) -> (outcome: Result<
        Vec<Message<UniqueIdsBody>>,
        HandleError,
    >)
        ensures
            match old(self)@.step(event@) {
                Ok((next, replies)) => {
                    &&& outcome is Ok
                    &&& envelopes(outcome->Ok_0@) == replies
                    &&& final(self)@ == next
                },
                Err(reason) => {
                    &&& outcome == Err::<Vec<Message<UniqueIdsBody>>, HandleError>(reason)
                    &&& final(self)@ == old(self)@
                },
            },
    {
        match event {
            UniqueIdsEvent::Message(request) => {
                let ghost asked = request@;
                let Message { src, dest, body } = request;
                let mut replies: Vec<Message<UniqueIdsBody>> = Vec::new();
                match body {
                    UniqueIdsBody::Init { msg_id, node_id, node_ids } => {
                        self.node_id = node_id;
                        replies.push(
                            Message::new(dest, src, UniqueIdsBody::InitOk { in_reply_to: msg_id }),
                        );
                        proof {
                            assert(envelopes(replies@) =~= seq![
                                reply_to(asked, UniqueIdsBodyView::InitOk { in_reply_to: msg_id }),
                            ]);
                        }
                    },
                    UniqueIdsBody::Generate { msg_id } => {
                        if self.id == u64::MAX {
                            return Err(HandleError::MessageIdsExhausted);
                        }
                        let mut id = self.node_id.clone();
                        id.append("-");
                        push_decimal(&mut id, self.id);
                        proof {
                            reveal_strlit("-");
                            assert("-"@ =~= seq!['-']);
                        }
                        replies.push(
                            Message::new(
                                dest,
                                src,
                                UniqueIdsBody::GenerateOk {
                                    msg_id: MessageId(self.id),
                                    in_reply_to: msg_id,
                                    id,
                                },
                            ),
                        );
                        self.id = self.id + 1;
                        proof {
                            assert(envelopes(replies@) =~= seq![
                                reply_to(
                                    asked,
                                    UniqueIdsBodyView::GenerateOk {
                                        msg_id: MessageId(old(self).id),
                                        in_reply_to: msg_id,
                                        id: minted(old(self)@.node_id, old(self).id),
                                    },
                                ),
                            ]);
                        }
                    },
                    UniqueIdsBody::InitOk { .. }
                    | UniqueIdsBody::GenerateOk { .. }
                    | UniqueIdsBody::Error { .. } => {
                        proof {
                            assert(envelopes(replies@) =~= Seq::<
                                Envelope<UniqueIdsBodyView>,
                            >::empty());
                        }
                    },
                }
                Ok(replies)
            },
        }
    }
}

} // verus!
