//! Tables of notations and symbols, sorted by name.

use crate::modifier::CAPACITY;
use crate::notation::{segments, split_name};
use vstd::prelude::*;
use vstd::string::StringSliceAdditionalSpecFns;

verus! {

/// The name of a table entry: the first segment of its notation.
pub open spec fn entry_name(notation: Seq<u8>) -> Seq<u8> {
    segments(notation)[0]
}

/// The modifiers of a table entry, as written: the segments of its notation
/// after the name.
pub open spec fn entry_modifiers(notation: Seq<u8>) -> Seq<Seq<u8>> {
    segments(notation).skip(1)
}

/// Whether `a` comes before `b`, or is `b`, in the order of dictionaries,
/// byte by byte.
pub open spec fn precedes(a: Seq<u8>, b: Seq<u8>) -> bool
    decreases a.len(),
{
    a.len() == 0 || (b.len() > 0 && (a[0] < b[0] || (a[0] == b[0] && precedes(
        a.drop_first(),
        b.drop_first(),
    ))))
}

/// Every byte string comes before itself.
pub proof fn lemma_precedes_reflexive(a: Seq<u8>)
    ensures
        precedes(a, a),
    decreases a.len(),
{
    if a.len() > 0 {
        lemma_precedes_reflexive(a.drop_first());
    }
}

/// Of two byte strings, one comes before the other.
pub proof fn lemma_precedes_total(a: Seq<u8>, b: Seq<u8>)
    ensures
        precedes(a, b) || precedes(b, a),
    decreases a.len(),
{
    if a.len() > 0 && b.len() > 0 {
        lemma_precedes_total(a.drop_first(), b.drop_first());
    }
}

/// Two byte strings that come before each other are one.
pub proof fn lemma_precedes_antisymmetric(a: Seq<u8>, b: Seq<u8>)
    requires
        precedes(a, b),
        precedes(b, a),
    ensures
        a == b,
    decreases a.len(),
{
    if a.len() > 0 && b.len() > 0 {
        lemma_precedes_antisymmetric(a.drop_first(), b.drop_first());
        assert(a =~= seq![a[0]] + a.drop_first());
        assert(b =~= seq![b[0]] + b.drop_first());
    } else {
        assert(a =~= b);
    }
}

/// What comes before a byte string comes before all that follow it.
pub proof fn lemma_precedes_transitive(a: Seq<u8>, b: Seq<u8>, c: Seq<u8>)
    requires
        precedes(a, b),
        precedes(b, c),
    ensures
        precedes(a, c),
    decreases a.len(),
{
    if a.len() > 0 && b.len() > 0 && c.len() > 0 {
        if a[0] == b[0] && b[0] == c[0] {
            lemma_precedes_transitive(a.drop_first(), b.drop_first(), c.drop_first());
        }
    }
}

/// Whether the names of the entries never go down. Entries of one name
/// then stand side by side.
pub open spec fn sorted_by_name(pairs: Seq<(Seq<u8>, char)>) -> bool {
    forall|i: int, j: int|
        0 <= i <= j < pairs.len() ==> precedes(
            entry_name(#[trigger] pairs[i].0),
            entry_name(#[trigger] pairs[j].0),
        )
}

/// In a table sorted by name the entries of one name stand side by side:
/// what stands between two of them carries their name too.
pub proof fn lemma_same_name_side_by_side(pairs: Seq<(Seq<u8>, char)>, i: int, j: int, k: int)
    requires
        sorted_by_name(pairs),
        0 <= i <= j <= k < pairs.len(),
        entry_name(pairs[i].0) == entry_name(pairs[k].0),
    ensures
        entry_name(pairs[j].0) == entry_name(pairs[i].0),
{
    lemma_precedes_antisymmetric(entry_name(pairs[i].0), entry_name(pairs[j].0));
}

/// Whether every modifier of an entry can be held by a `Modifier`.
pub open spec fn modifiers_fit(notation: Seq<u8>) -> bool {
    forall|k: int|
        0 <= k < entry_modifiers(notation).len() ==> (#[trigger] entry_modifiers(
            notation,
        )[k]).len() <= CAPACITY
}

/// What a table has to meet: names in order, and no modifier too long.
pub open spec fn well_formed(pairs: Seq<(Seq<u8>, char)>) -> bool {
    &&& sorted_by_name(pairs)
    &&& forall|i: int| 0 <= i < pairs.len() ==> modifiers_fit(#[trigger] pairs[i].0)
}

/// The entries of a list as plain values: the bytes of each notation, and
/// its symbol.
pub open spec fn pairs_of(list: Seq<(&str, char)>) -> Seq<(Seq<u8>, char)> {
    Seq::new(list.len(), |i: int| (list[i].0.spec_bytes(), list[i].1))
}

/// Tells whether `a` comes before `b`, or is `b`.
pub fn comes_before(a: &[u8], b: &[u8]) -> (yes: bool)
    ensures
        yes == precedes(a@, b@),
{
    let mut i: usize = 0;
    assert(a@.skip(0) =~= a@ && b@.skip(0) =~= b@);
    while i < a.len()
        invariant
            i <= a@.len(),
            i <= b@.len(),
            precedes(a@, b@) == precedes(a@.skip(i as int), b@.skip(i as int)),
        decreases a@.len() - i,
    {
        if i >= b.len() {
            return false;
        }
        if a[i] != b[i] {
            return a[i] < b[i];
        }
        proof {
            assert(a@.skip(i as int).drop_first() =~= a@.skip(i + 1));
            assert(b@.skip(i as int).drop_first() =~= b@.skip(i + 1));
        }
        i += 1;
    }
    true
}

/// Tells whether two byte strings are one.
pub fn same_bytes(a: &[u8], b: &[u8]) -> (yes: bool)
    ensures
        yes == (a@ == b@),
{
    if a.len() != b.len() {
        return false;
    }
    let mut i: usize = 0;
    while i < a.len()
        invariant
            i <= a@.len(),
            a@.len() == b@.len(),
            forall|j: int| 0 <= j < i ==> a@[j] == b@[j],
        decreases a@.len() - i,
    {
        if a[i] != b[i] {
            return false;
        }
        i += 1;
    }
    assert(a@ =~= b@);
    true
}

/// Hands out the name of an entry.
pub fn name_of_entry(notation: &[u8]) -> (name: &[u8])
    ensures
        name@ == entry_name(notation@),
{
    split_name(notation).0
}

/// Tells whether an entry's modifiers all fit, and hands out its name.
fn check_entry(notation: &[u8]) -> (found: (&[u8], bool))
    ensures
        found.0@ == entry_name(notation@),
        found.1 == modifiers_fit(notation@),
{
    let (name, mut parts) = split_name(notation);
    let ghost mut k: int = 0;
    loop
        invariant
            name@ == entry_name(notation@),
            0 <= k <= entry_modifiers(notation@).len(),
            parts.remaining() == entry_modifiers(notation@).skip(k),
            forall|j: int| 0 <= j < k ==> (#[trigger] entry_modifiers(notation@)[j]).len() <= CAPACITY,
        decreases entry_modifiers(notation@).len() - k,
    {
        let segment = match parts.next() {
            Some(segment) => segment,
            None => { return (name, true); },
        };
        if segment.len() > CAPACITY {
            return (name, false);
        }
        proof {
            assert(entry_modifiers(notation@).skip(k).drop_first() =~= entry_modifiers(
                notation@,
            ).skip(k + 1));
            k = k + 1;
        }
    }
}

/// A list of notations and symbols whose names are in order and whose
/// modifiers all fit a `Modifier`.
#[derive(Clone, Copy, Debug)]
pub struct Table<'a> {
    entries: &'a [(&'a str, char)],
}

impl<'a> View for Table<'a> {
    type V = Seq<(Seq<u8>, char)>;

    /// The entries in their order: the bytes of each notation, and its
    /// symbol.
    closed spec fn view(&self) -> Seq<(Seq<u8>, char)> {
        pairs_of(self.entries@)
    }
}

impl<'a> Table<'a> {
    /// What every table meets: `well_formed`, of its entries.
    #[verifier::type_invariant]
    pub closed spec fn holds(self) -> bool {
        well_formed(self@)
    }

    /// Takes a list as a table if its names are in order and its modifiers
    /// fit, and refuses it if not.
    pub fn new(list: &'a [(&'a str, char)]) -> (table: Option<Table<'a>>)
        ensures
            table is Some <==> well_formed(pairs_of(list@)),
            table matches Some(t) ==> t@ == pairs_of(list@),
    {
        let ghost pairs = pairs_of(list@);
        let mut last: Option<&[u8]> = None;
        let mut i: usize = 0;
        while i < list.len()
            invariant
                i <= list@.len(),
                pairs == pairs_of(list@),
                sorted_by_name(pairs.take(i as int)),
                forall|j: int| 0 <= j < i ==> modifiers_fit(#[trigger] pairs[j].0),
                i == 0 ==> last is None,
                i > 0 ==> (last matches Some(name) && name@ == entry_name(pairs[i - 1].0)),
            decreases list@.len() - i,
        {
            let (name, fit) = check_entry(list[i].0.as_bytes());
            if !fit {
                assert(!modifiers_fit(pairs[i as int].0));
                return None;
            }
            if let Some(last) = last {
                if !comes_before(last, name) {
                    assert(!precedes(entry_name(pairs[i - 1].0), entry_name(pairs[i as int].0)));
                    return None;
                }
            }
            proof {
                let old_run = pairs.take(i as int);
                let run = pairs.take(i + 1);
                assert forall|a: int, b: int| 0 <= a <= b < run.len() implies precedes(
                    entry_name(#[trigger] run[a].0),
                    entry_name(#[trigger] run[b].0),
                ) by {
                    if b < i {
                        assert(run[a] == old_run[a] && run[b] == old_run[b]);
                    } else if a == b {
                        lemma_precedes_reflexive(entry_name(run[a].0));
                    } else {
                        assert(run[a] == old_run[a] && run[i - 1] == old_run[i - 1]);
                        lemma_precedes_transitive(
                            entry_name(run[a].0),
                            entry_name(run[i - 1].0),
                            entry_name(run[b].0),
                        );
                    }
                }
            }
            last = Some(name);
            i += 1;
        }
        assert(pairs.take(i as int) =~= pairs);
        Some(Table { entries: list })
    }

    /// Finds, by halving, the first entry whose name does not come before
    /// `name`. The entries that carry `name` start there, if there are any.
    pub fn first_candidate(&self, name: &[u8]) -> (start: usize)
        ensures
            start <= self@.len(),
            forall|i: int| 0 <= i < start ==> !precedes(name@, entry_name(#[trigger] self@[i].0)),
            forall|i: int|
                start <= i < self@.len() ==> precedes(name@, entry_name(#[trigger] self@[i].0)),
    {
        proof {
            use_type_invariant(self);
        }
        let list = self.entries;
        let ghost pairs = self@;
        let mut lo: usize = 0;
        let mut hi: usize = list.len();
        while lo < hi
            invariant
                lo <= hi <= list@.len(),
                pairs == pairs_of(list@),
                sorted_by_name(pairs),
                forall|i: int| 0 <= i < lo ==> !precedes(name@, entry_name(#[trigger] pairs[i].0)),
                forall|i: int|
                    hi <= i < pairs.len() ==> precedes(name@, entry_name(#[trigger] pairs[i].0)),
            decreases hi - lo,
        {
            let mid = lo + (hi - lo) / 2;
            let key = name_of_entry(list[mid].0.as_bytes());
            assert(key@ == entry_name(pairs[mid as int].0));
            if comes_before(name, key) {
                assert forall|i: int| mid <= i < pairs.len() implies precedes(
                    name@,
                    entry_name(#[trigger] pairs[i].0),
                ) by {
                    lemma_precedes_transitive(name@, key@, entry_name(pairs[i].0));
                }
                hi = mid;
            } else {
                assert forall|i: int| 0 <= i <= mid implies !precedes(
                    name@,
                    entry_name(#[trigger] pairs[i].0),
                ) by {
                    if precedes(name@, entry_name(pairs[i].0)) {
                        lemma_precedes_transitive(name@, entry_name(pairs[i].0), key@);
                    }
                }
                lo = mid + 1;
            }
        }
        lo
    }

    /// The list that the table was made of.
    pub fn entries(&self) -> (list: &'a [(&'a str, char)])
        ensures
            pairs_of(list@) == self@,
            well_formed(self@),
    {
        proof {
            use_type_invariant(self);
        }
        self.entries
    }
}

} // verus!
