//! Finding the objects in a stream of concatenated JSON objects.
//!
//! Objects need not be separated by newlines or by anything else: where one
//! ends is read off its braces. Bytes between objects are passed over.

use vstd::prelude::*;

verus! {

/// The byte `{`.
pub const OPEN_BRACE: u8 = 0x7b;

/// The byte `}`.
pub const CLOSE_BRACE: u8 = 0x7d;

/// The byte `"`.
pub const QUOTE: u8 = 0x22;

/// The byte `\`.
pub const BACKSLASH: u8 = 0x5c;

/// Where a scan stands after some bytes of an object.
pub struct Scan {
    /// How many braces are open.
    pub depth: nat,
    /// Whether the scan is inside a string literal.
    pub in_string: bool,
    /// Whether the previous byte was a backslash that escapes the next one.
    pub escaped: bool,
}

/// The scan after `byte`, given the scan before it. Braces count only outside
/// string literals; inside one, a backslash hides the byte that follows it.
pub open spec fn scan_byte(before: Scan, byte: u8) -> Scan {
    if before.in_string {
        if before.escaped {
            Scan { escaped: false, ..before }
        } else if byte == BACKSLASH {
            Scan { escaped: true, ..before }
        } else if byte == QUOTE {
            Scan { in_string: false, ..before }
        } else {
            before
        }
    } else if byte == QUOTE {
        Scan { in_string: true, ..before }
    } else if byte == OPEN_BRACE {
        Scan { depth: before.depth + 1, ..before }
    } else if byte == CLOSE_BRACE && before.depth > 0 {
        Scan { depth: (before.depth - 1) as nat, ..before }
    } else {
        before
    }
}

/// The scan after all of `bytes`, starting outside any brace or string.
pub open spec fn scan(bytes: Seq<u8>) -> Scan
    decreases bytes.len(),
{
    if bytes.len() == 0 {
        Scan { depth: 0, in_string: false, escaped: false }
    } else {
        scan_byte(scan(bytes.drop_last()), bytes.last())
    }
}

/// `input[start..end]` is one object: it begins with an opening brace and
/// ends right after the brace that closes it.
pub open spec fn is_frame(input: Seq<u8>, start: int, end: int) -> bool {
    &&& 0 <= start < end <= input.len()
    &&& input[start] == OPEN_BRACE
    &&& scan(input.subrange(start, end)).depth == 0
    &&& forall|mid: int| start < mid < end ==> scan(#[trigger] input.subrange(start, mid)).depth > 0
}

/// `input[start..end]` is the first object of `input` that begins at `from`
/// or later.
pub open spec fn is_next_frame(input: Seq<u8>, from: int, start: int, end: int) -> bool {
    &&& 0 <= from <= start
    &&& forall|i: int| from <= i < start ==> #[trigger] input[i] != OPEN_BRACE
    &&& is_frame(input, start, end)
}

/// Where the search for the object number `k` of `frames` begins: at the
/// start of the input for the first, and at the end of the one before for
/// every other.
pub open spec fn resume_point(frames: Seq<(usize, usize)>, k: int) -> int {
    if k == 0 {
        0
    } else {
        frames[k - 1].1 as int
    }
}

/// `frames` lists, in order and without a gap, the objects that `input` holds
/// in full.
pub open spec fn is_framing(input: Seq<u8>, frames: Seq<(usize, usize)>) -> bool {
    &&& forall|k: int|
        0 <= k < frames.len() ==> is_next_frame(
            input,
            resume_point(frames, k),
            (#[trigger] frames[k]).0 as int,
            frames[k].1 as int,
        )
    &&& forall|start: int, end: int|
        !is_next_frame(input, resume_point(frames, frames.len() as int), start, end)
}

/// The first object of `input` that begins at `from` or later, as the
/// positions of its first byte and of the byte after its last; `None` if no
/// object begins there or the one that does is not closed yet.
pub fn next_frame(input: &[u8], from: usize) -> (frame: Option<(usize, usize)>)
    ensures
        match frame {
            Some((start, end)) => is_next_frame(input@, from as int, start as int, end as int),
            None => forall|start: int, end: int| !is_next_frame(input@, from as int, start, end),
        },
{
    let mut start: usize = from;
    while start < input.len() && input[start] != OPEN_BRACE
        invariant
            from <= start,
            forall|i: int| from <= i < start && i < input@.len() ==> input@[i] != OPEN_BRACE,
        decreases input@.len() - start,
    {
        start = start + 1;
    }
    if start >= input.len() {
        return None;
    }
    let mut depth: usize = 0;
    let mut in_string: bool = false;
    let mut escaped: bool = false;
    let mut at: usize = start;
    proof {
        assert(input@.subrange(start as int, at as int) =~= Seq::<u8>::empty());
    }
    while at < input.len()
        invariant
            from <= start <= at <= input@.len(),
            start < input@.len(),
            input@[start as int] == OPEN_BRACE,
            forall|i: int| from <= i < start ==> input@[i] != OPEN_BRACE,
            scan(input@.subrange(start as int, at as int)) == (Scan {
                depth: depth as nat,
                in_string,
                escaped,
            }),
            depth <= at - start,
            forall|mid: int|
                start < mid <= at ==> scan(#[trigger] input@.subrange(start as int, mid)).depth > 0,
        decreases input@.len() - at,
    {
        let byte = input[at];
        proof {
            let longer = input@.subrange(start as int, at + 1);
            assert(longer.drop_last() =~= input@.subrange(start as int, at as int));
            assert(longer.last() == byte);
        }
        if in_string {
            if escaped {
                escaped = false;
            } else if byte == BACKSLASH {
                escaped = true;
            } else if byte == QUOTE {
                in_string = false;
            }
        } else if byte == QUOTE {
            in_string = true;
        } else if byte == OPEN_BRACE {
            depth = depth + 1;
        } else if byte == CLOSE_BRACE && depth > 0 {
            depth = depth - 1;
        }
        at = at + 1;
        if depth == 0 {
            return Some((start, at));
        }
    }
    proof {
        assert forall|first: int, end: int| !is_next_frame(input@, from as int, first, end) by {
            if is_next_frame(input@, from as int, first, end) {
                assert(first == start);
                assert(scan(input@.subrange(start as int, end)).depth > 0);
            }
        }
    }
    None
}

/// The objects that `input` holds in full, in order. What follows the last of
/// them, or the whole input if there is none, holds no further whole object.
pub fn frames(input: &[u8]) -> (found: Vec<(usize, usize)>)
    ensures
        is_framing(input@, found@),
{
    let mut found: Vec<(usize, usize)> = Vec::new();
    let mut from: usize = 0;
    loop
        invariant
            from <= input@.len(),
            from == resume_point(found@, found@.len() as int),
            forall|k: int|
                0 <= k < found@.len() ==> is_next_frame(
                    input@,
                    resume_point(found@, k),
                    (#[trigger] found@[k]).0 as int,
                    found@[k].1 as int,
                ),
        ensures
            is_framing(input@, found@),
        decreases input@.len() - from,
    {
        match next_frame(input, from) {
            Some((start, end)) => {
                let ghost earlier = found@;
                found.push((start, end));
                proof {
                    assert forall|k: int| 0 <= k < found@.len() implies is_next_frame(
                        input@,
                        resume_point(found@, k),
                        (#[trigger] found@[k]).0 as int,
                        found@[k].1 as int,
                    ) by {
                        if k < earlier.len() {
                            assert(found@[k] == earlier[k]);
                            assert(resume_point(found@, k) == resume_point(earlier, k));
                        }
                    }
                }
                from = end;
            },
            None => {
                break ;
            },
        }
    }
    found
}

/// `objects` are the bytes of the objects that `input` holds in full, in
/// order, and `rest` is what follows the last of them.
pub open spec fn is_split(input: Seq<u8>, objects: Seq<Vec<u8>>, rest: Seq<u8>) -> bool {
    exists|found: Seq<(usize, usize)>|
        {
            &&& #[trigger] is_framing(input, found)
            &&& objects.len() == found.len()
            &&& forall|k: int|
                0 <= k < found.len() ==> (#[trigger] objects[k])@ == input.subrange(
                    found[k].0 as int,
                    found[k].1 as int,
                )
            &&& rest == input.skip(resume_point(found, found.len() as int))
        }
}

/// A copy of `input[start..end]`.
fn copy_range(input: &[u8], start: usize, end: usize) -> (bytes: Vec<u8>)
    requires
        start <= end <= input@.len(),
    ensures
        bytes@ == input@.subrange(start as int, end as int),
{
    let mut bytes: Vec<u8> = Vec::new();
    let mut at: usize = start;
    while at < end
        invariant
            start <= at <= end <= input@.len(),
            bytes@ == input@.subrange(start as int, at as int),
        decreases end - at,
    {
        bytes.push(input[at]);
        at = at + 1;
        assert(input@.subrange(start as int, at as int) =~= input@.subrange(
            start as int,
            at - 1,
        ).push(input@[at - 1]));
    }
    bytes
}

/// The receiving end of a byte stream of concatenated objects. Bytes arrive
/// in pieces of any size; an object is handed out once its last byte is in.
#[derive(Debug)]
pub struct ObjectStream {
    pending: Vec<u8>,
}

impl View for ObjectStream {
    type V = Seq<u8>;

    /// The bytes that have arrived and belong to no object handed out so far.
    closed spec fn view(&self) -> Seq<u8> {
        self.pending@
    }
}

impl ObjectStream {
    /// A stream that has received nothing yet.
    pub fn new() -> (stream: Self)
        ensures
            stream@ == Seq::<u8>::empty(),
    {
        ObjectStream { pending: Vec::new() }
    }

    /// Takes in the next piece of the stream and returns the objects that are
    /// now complete, in order. The bytes after the last of them are kept for
    /// the next call.
    pub fn feed(&mut self, chunk: &[u8]) -> (objects: Vec<Vec<u8>>)
        ensures
            is_split(old(self)@ + chunk@, objects@, final(self)@),
    {
        let mut at: usize = 0;
        while at < chunk.len()
            invariant
                at <= chunk@.len(),
                self.pending@ == old(self).pending@ + chunk@.take(at as int),
            decreases chunk@.len() - at,
        {
            self.pending.push(chunk[at]);
            at = at + 1;
            assert(chunk@.take(at as int) =~= chunk@.take(at - 1).push(chunk@[at - 1]));
        }
        assert(chunk@.take(at as int) =~= chunk@);
        let ghost input = self.pending@;
        let found = frames(self.pending.as_slice());
        let mut objects: Vec<Vec<u8>> = Vec::new();
        let mut k: usize = 0;
        while k < found.len()
            invariant
                k <= found@.len(),
                input == self.pending@,
                is_framing(input, found@),
                objects@.len() == k,
                forall|j: int|
                    0 <= j < k ==> (#[trigger] objects@[j])@ == input.subrange(
                        found@[j].0 as int,
                        found@[j].1 as int,
                    ),
            decreases found@.len() - k,
        {
            let (start, end) = found[k];
            assert(is_next_frame(input, resume_point(found@, k as int), start as int, end as int));
            objects.push(copy_range(self.pending.as_slice(), start, end));
            k = k + 1;
        }
        let resume: usize = if found.len() == 0 {
            0
        } else {
            let last = found[found.len() - 1];
            assert(is_next_frame(
                input,
                resume_point(found@, found@.len() - 1),
                last.0 as int,
                last.1 as int,
            ));
            last.1
        };
        let rest = copy_range(self.pending.as_slice(), resume, self.pending.len());
        assert(rest@ =~= input.skip(resume as int));
        self.pending = rest;
        objects
    }
}

/// An object begins and ends where its own bytes say, whatever stands before
/// and after it.
pub proof fn lemma_frame_in_context(before: Seq<u8>, object: Seq<u8>, after: Seq<u8>)
    requires
        is_frame(object, 0, object.len() as int),
    ensures
        is_frame(
            before + object + after,
            before.len() as int,
            (before.len() + object.len()) as int,
        ),
{
    let whole = before + object + after;
    let start = before.len() as int;
    assert forall|mid: int| start <= mid <= start + object.len() implies #[trigger] whole.subrange(
        start,
        mid,
    ) == object.subrange(0, mid - start) by {
        assert(whole.subrange(start, mid) =~= object.subrange(0, mid - start));
    }
    assert(whole[start] == object[0]);
    assert(whole.subrange(start, start + object.len()) == object.subrange(
        0,
        object.len() as int,
    ));
    assert forall|mid: int| start < mid < start + object.len() implies scan(
        #[trigger] whole.subrange(start, mid),
    ).depth > 0 by {
        assert(whole.subrange(start, mid) == object.subrange(0, mid - start));
    }
}

/// A search that resumes at the end of `before` finds the object that
/// follows, across a gap that holds no opening brace. Nothing is asked of
/// `before`: an object there that could not be decoded does not hide the next.
pub proof fn lemma_next_frame_found(
    before: Seq<u8>,
    gap: Seq<u8>,
    object: Seq<u8>,
    after: Seq<u8>,
)
    requires
        is_frame(object, 0, object.len() as int),
        forall|i: int| 0 <= i < gap.len() ==> gap[i] != OPEN_BRACE,
    ensures
        is_next_frame(
            before + gap + object + after,
            before.len() as int,
            (before.len() + gap.len()) as int,
            (before.len() + gap.len() + object.len()) as int,
        ),
{
    let whole = before + gap + object + after;
    lemma_frame_in_context(before + gap, object, after);
    assert forall|i: int| before.len() <= i < before.len() + gap.len() implies #[trigger] whole[i]
        != OPEN_BRACE by {
        assert(whole[i] == gap[i - before.len()]);
    }
}

/// At most one object is the next one.
pub proof fn lemma_next_frame_unique(
    input: Seq<u8>,
    from: int,
    start: int,
    end: int,
    other_start: int,
    other_end: int,
)
    requires
        is_next_frame(input, from, start, end),
        is_next_frame(input, from, other_start, other_end),
    ensures
        start == other_start,
        end == other_end,
{
    if start < other_start {
        assert(input[start] != OPEN_BRACE);
    }
    if other_start < start {
        assert(input[other_start] != OPEN_BRACE);
    }
    if end < other_end {
        assert(scan(input.subrange(other_start, end)).depth > 0);
    }
    if other_end < end {
        assert(scan(input.subrange(start, other_end)).depth > 0);
    }
}

/// Three objects written one after another are found one after another, each
/// in full, whatever the one in the middle holds.
pub proof fn lemma_objects_found_apart(first: Seq<u8>, middle: Seq<u8>, last: Seq<u8>)
    requires
        is_frame(first, 0, first.len() as int),
        is_frame(middle, 0, middle.len() as int),
        is_frame(last, 0, last.len() as int),
    ensures
        ({
            let input = first + middle + last;
            let a = first.len() as int;
            let b = (first.len() + middle.len()) as int;
            let c = (first.len() + middle.len() + last.len()) as int;
            &&& is_next_frame(input, 0, 0, a)
            &&& is_next_frame(input, a, a, b)
            &&& is_next_frame(input, b, b, c)
        }),
{
    let input = first + middle + last;
    let none = Seq::<u8>::empty();
    lemma_next_frame_found(none, none, first, middle + last);
    assert(none + none + first + (middle + last) =~= input);
    lemma_next_frame_found(first, none, middle, last);
    assert(first + none + middle + last =~= input);
    lemma_next_frame_found(first + middle, none, last, none);
    assert(first + middle + none + last + none =~= input);
}

} // verus!
