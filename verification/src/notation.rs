//! The grammar of notations: a name, then modifiers, separated by colons.

use crate::modifier::{zero_padded, Modifier, CAPACITY};
use vstd::prelude::*;
use vstd::slice::slice_subrange;
use vstd::string::StringSliceAdditionalSpecFns;

verus! {

/// The byte that separates the segments of a notation: a colon.
pub const SEPARATOR: u8 = 0x3a;

/// The number of segments after the name that a query reads.
pub const MAX_MODIFIERS: usize = 8;

/// The number of bytes in front of the first separator of `s`: all of them
/// where `s` holds none.
pub open spec fn head_len(s: Seq<u8>) -> nat
    decreases s.len(),
{
    if s.len() == 0 || s[0] == SEPARATOR {
        0
    } else {
        1 + head_len(s.drop_first())
    }
}

/// The pieces into which the separators cut `s`, in order. There is always
/// a first piece, and a piece may be empty.
pub open spec fn segments(s: Seq<u8>) -> Seq<Seq<u8>>
    decreases s.len(),
{
    let n = head_len(s) as int;
    if n >= s.len() {
        seq![s]
    } else {
        seq![s.take(n)] + segments(s.skip(n + 1))
    }
}

/// `s` without the separators at its front.
pub open spec fn trimmed_start(s: Seq<u8>) -> Seq<u8>
    decreases s.len(),
{
    if s.len() > 0 && s[0] == SEPARATOR {
        trimmed_start(s.drop_first())
    } else {
        s
    }
}

/// `s` without the separators at its back.
pub open spec fn trimmed_end(s: Seq<u8>) -> Seq<u8>
    decreases s.len(),
{
    if s.len() > 0 && s.last() == SEPARATOR {
        trimmed_end(s.drop_last())
    } else {
        s
    }
}

/// `s` without the separators at either end.
pub open spec fn trimmed(s: Seq<u8>) -> Seq<u8> {
    trimmed_end(trimmed_start(s))
}

/// Whether a segment is short enough to become a modifier.
pub open spec fn fits() -> spec_fn(Seq<u8>) -> bool {
    |segment: Seq<u8>| segment.len() <= CAPACITY
}

/// The bytes that a modifier made of a segment holds.
pub open spec fn padding() -> spec_fn(Seq<u8>) -> Seq<u8> {
    |segment: Seq<u8>| zero_padded(segment)
}

/// The modifiers that a run of segments gives: a segment that is too long
/// is left out, the others keep their order.
pub open spec fn tokens_of(run: Seq<Seq<u8>>) -> Seq<Seq<u8>> {
    run.filter(fits()).map_values(padding())
}

/// Whether a notation names anything: whether more than separators is in it.
pub open spec fn has_name(notation: Seq<u8>) -> bool {
    trimmed(notation).len() > 0
}

/// The name of a notation: the first segment of what trimming leaves.
pub open spec fn name_of(notation: Seq<u8>) -> Seq<u8> {
    segments(trimmed(notation))[0]
}

/// The segments of a notation that a query reads as modifiers: those after
/// the name, `MAX_MODIFIERS` at most.
pub open spec fn modifier_segments(notation: Seq<u8>) -> Seq<Seq<u8>> {
    let all = segments(trimmed(notation));
    if all.len() <= MAX_MODIFIERS + 1 {
        all.skip(1)
    } else {
        all.subrange(1, MAX_MODIFIERS + 1)
    }
}

/// The modifiers of a notation, as the bytes that each holds.
pub open spec fn modifiers_of(notation: Seq<u8>) -> Seq<Seq<u8>> {
    tokens_of(modifier_segments(notation))
}

/// `head_len(s)` is the one place that is either the end of `s` or a
/// separator and has no separator in front of it.
pub proof fn lemma_head_len_unique(s: Seq<u8>, k: int)
    requires
        0 <= k <= s.len(),
        forall|j: int| 0 <= j < k ==> s[j] != SEPARATOR,
        k == s.len() || s[k] == SEPARATOR,
    ensures
        head_len(s) == k,
    decreases k,
{
    if k > 0 {
        lemma_head_len_unique(s.drop_first(), k - 1);
    }
}

/// What `head_len(s)` points at.
pub proof fn lemma_head_len(s: Seq<u8>)
    ensures
        head_len(s) <= s.len(),
        forall|j: int| 0 <= j < head_len(s) ==> s[j] != SEPARATOR,
        head_len(s) == s.len() || s[head_len(s) as int] == SEPARATOR,
    decreases s.len(),
{
    if s.len() > 0 && s[0] != SEPARATOR {
        let rest = s.drop_first();
        lemma_head_len(rest);
        assert forall|j: int| 0 <= j < head_len(s) implies s[j] != SEPARATOR by {
            if j > 0 {
                assert(s[j] == rest[j - 1]);
            }
        }
    }
}

/// Whether `s` holds no separator.
pub open spec fn plain(s: Seq<u8>) -> bool {
    forall|i: int| 0 <= i < s.len() ==> s[i] != SEPARATOR
}

/// `head`, a separator, and `tail`.
pub open spec fn joined(head: Seq<u8>, tail: Seq<u8>) -> Seq<u8> {
    head + seq![SEPARATOR] + tail
}

/// A byte string without a separator is its own single segment.
pub proof fn lemma_segments_plain(s: Seq<u8>)
    requires
        plain(s),
    ensures
        segments(s) == seq![s],
{
    lemma_head_len_unique(s, s.len() as int);
}

/// In front of a separator, a byte string without one is the first
/// segment, and the segments of what follows the separator follow it.
pub proof fn lemma_segments_joined(head: Seq<u8>, tail: Seq<u8>)
    requires
        plain(head),
    ensures
        segments(joined(head, tail)) == seq![head] + segments(tail),
{
    let s = joined(head, tail);
    let n = head.len() as int;
    lemma_head_len_unique(s, n);
    assert(s.take(n) =~= head);
    assert(s.skip(n + 1) =~= tail);
}

/// The segments `pieces` with a separator between each two of them.
pub open spec fn rejoined(pieces: Seq<Seq<u8>>) -> Seq<u8>
    decreases pieces.len(),
{
    if pieces.len() == 0 {
        Seq::empty()
    } else if pieces.len() == 1 {
        pieces[0]
    } else {
        joined(pieces[0], rejoined(pieces.drop_first()))
    }
}

/// Cutting loses nothing and leaves no separator: the segments of a byte
/// string hold none, and with separators between them they are the byte
/// string again.
pub proof fn lemma_segments_rejoined(s: Seq<u8>)
    ensures
        segments(s).len() >= 1,
        forall|k: int| 0 <= k < segments(s).len() ==> plain(#[trigger] segments(s)[k]),
        rejoined(segments(s)) == s,
    decreases s.len(),
{
    lemma_head_len(s);
    let n = head_len(s) as int;
    if n < s.len() {
        let rest = s.skip(n + 1);
        lemma_segments_rejoined(rest);
        assert(segments(s).drop_first() =~= segments(rest));
        assert(joined(s.take(n), rest) =~= s);
        assert forall|k: int| 0 <= k < segments(s).len() implies plain(
            #[trigger] segments(s)[k],
        ) by {
            if k > 0 {
                assert(segments(s)[k] == segments(rest)[k - 1]);
            }
        }
    }
}

/// Trimming takes nothing from a byte string that neither starts nor ends
/// with a separator.
pub proof fn lemma_trimmed_keeps(s: Seq<u8>)
    requires
        s.len() == 0 || (s[0] != SEPARATOR && s.last() != SEPARATOR),
    ensures
        trimmed(s) == s,
{
}

/// What trimming leaves neither starts nor ends with a separator.
pub proof fn lemma_trimmed_ends(s: Seq<u8>)
    ensures
        trimmed(s).len() > 0 ==> trimmed(s)[0] != SEPARATOR && trimmed(s).last() != SEPARATOR,
    decreases s.len(),
{
    lemma_trimmed_start_ends(s);
    lemma_trimmed_end_ends(trimmed_start(s));
}

proof fn lemma_trimmed_start_ends(s: Seq<u8>)
    ensures
        trimmed_start(s).len() > 0 ==> trimmed_start(s)[0] != SEPARATOR,
    decreases s.len(),
{
    if s.len() > 0 && s[0] == SEPARATOR {
        lemma_trimmed_start_ends(s.drop_first());
    }
}

proof fn lemma_trimmed_end_ends(s: Seq<u8>)
    ensures
        trimmed_end(s).len() > 0 ==> trimmed_end(s).last() != SEPARATOR,
        trimmed_end(s).len() > 0 ==> trimmed_end(s)[0] == s[0],
        trimmed_end(s).len() <= s.len(),
    decreases s.len(),
{
    if s.len() > 0 && s.last() == SEPARATOR {
        lemma_trimmed_end_ends(s.drop_last());
    }
}

/// A separator at the back does not change what a trimmed front leaves,
/// but for the separator itself.
proof fn lemma_trimmed_start_push(s: Seq<u8>)
    ensures
        trimmed_start(s.push(SEPARATOR)) == if trimmed_start(s).len() == 0 {
            Seq::<u8>::empty()
        } else {
            trimmed_start(s).push(SEPARATOR)
        },
    decreases s.len(),
{
    if s.len() > 0 && s[0] == SEPARATOR {
        lemma_trimmed_start_push(s.drop_first());
        assert(s.push(SEPARATOR).drop_first() =~= s.drop_first().push(SEPARATOR));
    } else if s.len() == 0 {
        let rest = s.push(SEPARATOR).drop_first();
        assert(rest =~= Seq::<u8>::empty());
        assert(trimmed_start(rest) == rest);
    } else {
        assert(s.push(SEPARATOR)[0] == s[0]);
    }
}

/// A separator in front and one behind are trimmed away: the notation
/// inside them is read as if they were not there.
pub proof fn lemma_trimmed_wrapped(s: Seq<u8>)
    ensures
        trimmed(seq![SEPARATOR] + s + seq![SEPARATOR]) == trimmed(s),
{
    let wrapped = seq![SEPARATOR] + s + seq![SEPARATOR];
    assert(wrapped.drop_first() =~= s.push(SEPARATOR));
    lemma_trimmed_start_push(s);
    let front = trimmed_start(s);
    if front.len() > 0 {
        assert(front.push(SEPARATOR).drop_last() =~= front);
    }
}

/// Trimming twice is trimming once.
pub proof fn lemma_trimmed_twice(s: Seq<u8>)
    ensures
        trimmed(trimmed(s)) == trimmed(s),
{
    lemma_trimmed_ends(s);
    lemma_trimmed_keeps(trimmed(s));
}

/// Finds the end of the segment that starts at `from`.
pub fn find_separator(bytes: &[u8], from: usize) -> (end: usize)
    requires
        from <= bytes@.len(),
    ensures
        from <= end <= bytes@.len(),
        end == from + head_len(bytes@.skip(from as int)),
{
    let mut end: usize = from;
    while end < bytes.len() && bytes[end] != SEPARATOR
        invariant
            from <= end <= bytes@.len(),
            forall|j: int| from <= j < end ==> bytes@[j] != SEPARATOR,
        decreases bytes@.len() - end,
    {
        end += 1;
    }
    proof {
        lemma_head_len_unique(bytes@.skip(from as int), end - from);
    }
    end
}

/// Cuts the separators off both ends.
pub fn trim(bytes: &[u8]) -> (body: &[u8])
    ensures
        body@ == trimmed(bytes@),
{
    let mut lo: usize = 0;
    assert(bytes@.skip(0) =~= bytes@);
    while lo < bytes.len() && bytes[lo] == SEPARATOR
        invariant
            lo <= bytes@.len(),
            trimmed_start(bytes@) == trimmed_start(bytes@.skip(lo as int)),
        decreases bytes@.len() - lo,
    {
        proof {
            assert(bytes@.skip(lo as int).drop_first() =~= bytes@.skip(lo + 1));
        }
        lo += 1;
    }
    let ghost rest = bytes@.skip(lo as int);
    let mut hi: usize = bytes.len();
    assert(rest.take(hi - lo) =~= rest);
    while hi > lo && bytes[hi - 1] == SEPARATOR
        invariant
            lo <= hi <= bytes@.len(),
            rest == bytes@.skip(lo as int),
            trimmed_end(rest) == trimmed_end(rest.take(hi - lo)),
        decreases hi,
    {
        proof {
            assert(rest.take(hi - lo).drop_last() =~= rest.take(hi - lo - 1));
        }
        hi -= 1;
    }
    assert(rest.take(hi - lo) =~= bytes@.subrange(lo as int, hi as int));
    slice_subrange(bytes, lo, hi)
}

/// A walk over the segments of a byte string, from the first to the last.
#[derive(Clone, Copy, Debug)]
pub struct Split<'a> {
    bytes: &'a [u8],
    start: usize,
    done: bool,
}

impl<'a> Split<'a> {
    #[verifier::type_invariant]
    spec fn well_formed(self) -> bool {
        self.start <= self.bytes@.len()
    }

    /// The segments that the walk has not handed out yet.
    pub closed spec fn remaining(self) -> Seq<Seq<u8>> {
        if self.done {
            Seq::empty()
        } else {
            segments(self.bytes@.skip(self.start as int))
        }
    }

    /// Starts a walk in front of the first segment of `bytes`.
    pub fn new(bytes: &'a [u8]) -> (parts: Split<'a>)
        ensures
            parts.remaining() == segments(bytes@),
    {
        assert(bytes@.skip(0) =~= bytes@);
        Split { bytes, start: 0, done: false }
    }

    /// Hands out the next segment, if one is left.
    pub fn next(&mut self) -> (segment: Option<&'a [u8]>)
        ensures
            old(self).remaining().len() == 0 ==> segment is None && final(self).remaining().len()
                == 0,
            old(self).remaining().len() > 0 ==> {
                &&& segment matches Some(bytes)
                &&& bytes@ == old(self).remaining()[0]
                &&& final(self).remaining() == old(self).remaining().drop_first()
            },
    {
        proof {
            use_type_invariant(&*self);
        }
        if self.done {
            return None;
        }
        let bytes = self.bytes;
        let start = self.start;
        let end = find_separator(bytes, start);
        let segment = slice_subrange(bytes, start, end);
        proof {
            let rest = bytes@.skip(start as int);
            let n = head_len(rest) as int;
            assert(rest.take(n) =~= segment@);
            if end < bytes@.len() {
                assert(rest.skip(n + 1) =~= bytes@.skip(end + 1));
                assert(segments(rest).drop_first() =~= segments(rest.skip(n + 1)));
            } else {
                assert(segments(rest).drop_first() =~= Seq::<Seq<u8>>::empty());
            }
        }
        if end < bytes.len() {
            self.start = end + 1;
        } else {
            self.done = true;
        }
        Some(segment)
    }
}

/// Cuts off the first segment of `bytes`, the name of a notation, and
/// starts a walk over the segments behind it.
pub fn split_name(bytes: &[u8]) -> (cut: (&[u8], Split<'_>))
    ensures
        cut.0@ == segments(bytes@)[0],
        cut.1.remaining() == segments(bytes@).skip(1),
{
    let end = find_separator(bytes, 0);
    let name = slice_subrange(bytes, 0, end);
    proof {
        let n = head_len(bytes@) as int;
        assert(bytes@.skip(0) =~= bytes@);
        assert(bytes@.take(n) =~= name@);
        if end < bytes@.len() {
            assert(segments(bytes@).skip(1) =~= segments(bytes@.skip(end + 1)));
        } else {
            assert(segments(bytes@).skip(1) =~= Seq::<Seq<u8>>::empty());
        }
    }
    let rest = if end < bytes.len() {
        Split { bytes, start: end + 1, done: false }
    } else {
        Split { bytes, start: end, done: true }
    };
    (name, rest)
}

/// What a notation asks for: a name, and the modifiers wanted with it.
#[derive(Clone, Copy, Debug)]
pub struct Query<'a> {
    name: &'a [u8],
    slots: [Modifier; MAX_MODIFIERS],
    count: usize,
}

impl<'a> Query<'a> {
    #[verifier::type_invariant]
    spec fn well_formed(self) -> bool {
        self.count <= MAX_MODIFIERS
    }

    /// The bytes of the name.
    pub closed spec fn name_bytes(self) -> Seq<u8> {
        self.name@
    }

    /// The modifiers in the order in which the notation gave them, each as
    /// the bytes that it holds.
    pub closed spec fn tokens(self) -> Seq<Seq<u8>> {
        Seq::new(self.count as nat, |i: int| self.slots@[i]@)
    }

    /// The name.
    pub fn name(&self) -> (name: &'a [u8])
        ensures
            name@ == self.name_bytes(),
    {
        self.name
    }

    /// The modifiers.
    pub fn modifiers(&self) -> (list: &[Modifier])
        ensures
            list.deep_view() == self.tokens(),
    {
        proof {
            use_type_invariant(self);
        }
        let list = slice_subrange(self.slots.as_slice(), 0, self.count);
        assert(list.deep_view() =~= self.tokens());
        list
    }
}

/// Reads a notation. A notation of separators alone, or of nothing, holds
/// no name and gives no query. A segment of more than `CAPACITY` bytes gives
/// no modifier and the reading goes on behind it.
pub fn decode(notation: &str) -> (query: Option<Query<'_>>)
    ensures
        query is Some <==> has_name(notation.spec_bytes()),
        query matches Some(q) ==> {
            &&& q.name_bytes() == name_of(notation.spec_bytes())
            &&& q.tokens() == modifiers_of(notation.spec_bytes())
        },
{
    let body = trim(notation.as_bytes());
    if body.len() == 0 {
        return None;
    }
    let ghost all = segments(body@);
    let (name, mut parts) = split_name(body);
    let mut slots = [Modifier::empty();MAX_MODIFIERS];
    let mut count: usize = 0;
    let mut taken: usize = 0;
    proof {
        assert(tokens_of(all.subrange(1, 1)) =~= Seq::<Seq<u8>>::empty()) by {
            reveal(Seq::filter);
        }
    }
    while taken < MAX_MODIFIERS
        invariant
            count <= taken <= MAX_MODIFIERS,
            taken + 1 <= all.len(),
            parts.remaining() == all.skip(taken + 1),
            Seq::new(count as nat, |i: int| slots@[i]@) =~= tokens_of(all.subrange(1, taken + 1)),
        ensures
            taken == MAX_MODIFIERS || all.len() == taken + 1,
        decreases MAX_MODIFIERS - taken,
    {
        let segment = match parts.next() {
            Some(segment) => segment,
            None => { break; },
        };
        proof {
            let run = all.subrange(1, taken + 2);
            let prev = run.drop_last();
            assert(prev =~= all.subrange(1, taken + 1));
            assert(run.last() == segment@);
            assert(all.skip(taken + 1).drop_first() =~= all.skip(taken + 2));
            assert(run.filter(fits()) == if segment@.len() <= CAPACITY {
                prev.filter(fits()).push(segment@)
            } else {
                prev.filter(fits())
            }) by {
                reveal(Seq::filter);
            }
            assert(tokens_of(run) =~= if segment@.len() <= CAPACITY {
                tokens_of(prev).push(zero_padded(segment@))
            } else {
                tokens_of(prev)
            });
        }
        if segment.len() <= CAPACITY {
            slots[count] = Modifier::from_bytes(segment);
            count += 1;
        }
        taken += 1;
    }
    proof {
        assert(all.skip(1) =~= all.subrange(1, all.len() as int));
    }
    Some(Query { name, slots, count })
}

} // verus!
