//! A set of broadcast values that remembers the order in which they arrived.

use vstd::prelude::*;
use crate::proto::BroadcastMessage;

verus! {

/// The values of `values`, with `value` appended unless it is already among them.
pub open spec fn with_value(values: Seq<BroadcastMessage>, value: BroadcastMessage) -> Seq<
    BroadcastMessage,
> {
    if values.contains(value) {
        values
    } else {
        values.push(value)
    }
}

/// The values of `values` that do not occur in `other`, in the order they have there.
pub open spec fn without(values: Seq<BroadcastMessage>, other: Seq<BroadcastMessage>) -> Seq<
    BroadcastMessage,
> {
    values.filter(|v: BroadcastMessage| !other.contains(v))
}

/// Adding a value to a sequence without repetitions leaves it without repetitions.
pub proof fn lemma_with_value_distinct(values: Seq<BroadcastMessage>, value: BroadcastMessage)
    requires
        values.no_duplicates(),
    ensures
        with_value(values, value).no_duplicates(),
        with_value(values, value).to_set() == values.to_set().insert(value),
{
    let grown = with_value(values, value);
    assert(grown.to_set() =~= values.to_set().insert(value)) by {
        assert forall|v: BroadcastMessage|
            grown.to_set().contains(v) <==> values.to_set().insert(value).contains(v) by {
            if grown.contains(v) {
                let i = choose|i: int| 0 <= i < grown.len() && grown[i] == v;
                if i < values.len() {
                    assert(values[i] == v);
                }
            }
            if values.contains(v) {
                let i = choose|i: int| 0 <= i < values.len() && values[i] == v;
                assert(grown[i] == v);
            }
            if v == value && !values.contains(value) {
                assert(grown[values.len() as int] == value);
            }
        }
    }
}

/// A sequence to which a value has been added holds that value and what it
/// held before, and nothing else; adding it again changes nothing.
pub proof fn lemma_with_value_holds(values: Seq<BroadcastMessage>, value: BroadcastMessage)
    ensures
        with_value(values, value).contains(value),
        forall|other: BroadcastMessage|
            with_value(values, value).contains(other) <==> (values.contains(other) || other
                == value),
        with_value(with_value(values, value), value) == with_value(values, value),
{
    let grown = with_value(values, value);
    if !values.contains(value) {
        assert(grown[values.len() as int] == value);
    }
    assert forall|other: BroadcastMessage|
        grown.contains(other) <==> (values.contains(other) || other == value) by {
        if grown.contains(other) {
            let i = choose|i: int| 0 <= i < grown.len() && grown[i] == other;
            if i < values.len() {
                assert(values[i] == other);
            }
        }
        if values.contains(other) {
            let i = choose|i: int| 0 <= i < values.len() && values[i] == other;
            assert(grown[i] == other);
        }
    }
}

/// A finite set of broadcast values. No value occurs twice; the values are kept
/// in the order in which they were first inserted.
#[derive(Debug)]
pub struct ValueSet {
    items: Vec<BroadcastMessage>,
}

impl View for ValueSet {
    type V = Seq<BroadcastMessage>;

    closed spec fn view(&self) -> Seq<BroadcastMessage> {
        self.items@
    }
}

impl ValueSet {
    #[verifier::type_invariant]
    spec fn distinct(&self) -> bool {
        self.items@.no_duplicates()
    }

    /// The empty set.
    pub fn new() -> (set: Self)
        ensures
            set@ == Seq::<BroadcastMessage>::empty(),
    {
        ValueSet { items: Vec::new() }
    }

    /// The number of values in the set.
    pub fn len(&self) -> (n: usize)
        ensures
            n == self@.len(),
            self@.no_duplicates(),
    {
        proof {
            use_type_invariant(self);
        }
        self.items.len()
    }

    /// Whether `value` is in the set.
    pub fn contains(&self, value: BroadcastMessage) -> (found: bool)
        ensures
            found == self@.contains(value),
    {
        let mut i: usize = 0;
        while i < self.items.len()
            invariant
                i <= self.items@.len(),
                forall|j: int| 0 <= j < i ==> self.items@[j] != value,
            decreases self.items@.len() - i,
        {
            if self.items[i] == value {
                return true;
            }
            i += 1;
        }
        false
    }

    /// Adds `value` to the set and says whether it was new. A value that is
    /// already present leaves the set as it was.
    pub fn insert(&mut self, value: BroadcastMessage) -> (fresh: bool)
        ensures
            fresh == !old(self)@.contains(value),
            final(self)@ == with_value(old(self)@, value),
            final(self)@.no_duplicates(),
    {
        proof {
            use_type_invariant(&*self);
            lemma_with_value_distinct(self@, value);
        }
        if self.contains(value) {
            false
        } else {
            let mut items: Vec<BroadcastMessage> = Vec::new();
            core::mem::swap(&mut self.items, &mut items);
            items.push(value);
            self.items = items;
            true
        }
    }

    /// The values of the set, in the order in which they were inserted.
    pub fn to_vec(&self) -> (values: Vec<BroadcastMessage>)
        ensures
            values@ == self@,
            values@.no_duplicates(),
    {
        proof {
            use_type_invariant(self);
        }
        let mut values: Vec<BroadcastMessage> = Vec::new();
        let mut i: usize = 0;
        while i < self.items.len()
            invariant
                i <= self.items@.len(),
                values@ == self.items@.take(i as int),
            decreases self.items@.len() - i,
        {
            values.push(self.items[i]);
            i += 1;
            assert(self.items@.take(i as int) == self.items@.take(i - 1).push(self.items@[i - 1]));
        }
        assert(self.items@.take(i as int) == self.items@);
        values
    }

    /// A copy of the set that later insertions here do not reach.
    pub fn snapshot(&self) -> (copy: Self)
        ensures
            copy@ == self@,
    {
        ValueSet { items: self.to_vec() }
    }

    /// The values of this set that `other` lacks, in this set's order.
    pub fn difference(&self, other: &ValueSet) -> (values: Vec<BroadcastMessage>)
        ensures
            values@ == without(self@, other@),
    {
        let mut values: Vec<BroadcastMessage> = Vec::new();
        let ghost keep = |v: BroadcastMessage| !other@.contains(v);
        let mut i: usize = 0;
        proof {
            reveal(Seq::filter);
            assert(self.items@.take(0) == Seq::<BroadcastMessage>::empty());
        }
        while i < self.items.len()
            invariant
                i <= self.items@.len(),
                keep == |v: BroadcastMessage| !other@.contains(v),
                values@ == self.items@.take(i as int).filter(keep),
            decreases self.items@.len() - i,
        {
            let value = self.items[i];
            proof {
                reveal(Seq::filter);
                let next = self.items@.take(i + 1);
                assert(next.drop_last() == self.items@.take(i as int));
                assert(next.last() == value);
            }
            if !other.contains(value) {
                values.push(value);
            }
            i += 1;
        }
        assert(self.items@.take(i as int) == self.items@);
        values
    }
}

impl Clone for ValueSet {
    fn clone(&self) -> (copy: Self)
        ensures
            copy@ == self@,
    {
        self.snapshot()
    }
}

} // verus!
