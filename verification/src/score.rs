//! How well a table entry answers a query.

use crate::modifier::{zero_padded, Modifier};
use crate::notation::{head_len, segments, split_name};
use crate::table::{entry_modifiers, entry_name, modifiers_fit, same_bytes};
use vstd::prelude::*;

verus! {

/// The three counts by which entries of one name are told apart.
pub struct Rank {
    /// How many of the entry's modifiers the query asks for.
    pub matching: nat,
    /// How many modifiers the entry has.
    pub total: nat,
    /// How many of the entry's modifiers are default modifiers.
    pub defaults: nat,
}

impl Rank {
    /// Whether `self` is the better answer: more modifiers that the query
    /// asks for; if as many, fewer modifiers in all; if as many again, more
    /// default modifiers.
    pub open spec fn outranks(self, other: Rank) -> bool {
        ||| self.matching > other.matching
        ||| self.matching == other.matching && self.total < other.total
        ||| self.matching == other.matching && self.total == other.total && self.defaults
            > other.defaults
    }
}

/// Outranking is a strict order, and of two ranks that differ one
/// outranks the other.
pub proof fn lemma_outranks_orders(a: Rank, b: Rank, c: Rank)
    ensures
        !a.outranks(a),
        a.outranks(b) ==> !b.outranks(a),
        a.outranks(b) && b.outranks(c) ==> a.outranks(c),
        a == b || a.outranks(b) || b.outranks(a),
{
}

/// Whether the modifier made of a segment is among `list`.
pub open spec fn listed(list: Seq<Seq<u8>>) -> spec_fn(Seq<u8>) -> bool {
    |segment: Seq<u8>| list.contains(zero_padded(segment))
}

/// The rank of an entry, for a query that asks for `wanted`.
pub open spec fn rank_of(notation: Seq<u8>, wanted: Seq<Seq<u8>>, defaults: Seq<Seq<u8>>) -> Rank {
    let written = entry_modifiers(notation);
    Rank {
        matching: written.filter(listed(wanted)).len(),
        total: written.len(),
        defaults: written.filter(listed(defaults)).len(),
    }
}

/// A byte string has one segment more than it has separators, so never
/// more than one more than it has bytes.
pub proof fn lemma_segments_len(s: Seq<u8>)
    ensures
        1 <= segments(s).len() <= s.len() + 1,
    decreases s.len(),
{
    let n = head_len(s) as int;
    if n < s.len() {
        lemma_segments_len(s.skip(n + 1));
    }
}

/// The rank of an entry in machine integers.
#[derive(Clone, Copy, Debug, PartialEq, Eq)]
pub struct Score {
    /// How many of the entry's modifiers the query asks for.
    pub matching: usize,
    /// How many modifiers the entry has.
    pub total: usize,
    /// How many of the entry's modifiers are default modifiers.
    pub defaults: usize,
}

impl View for Score {
    type V = Rank;

    open spec fn view(&self) -> Rank {
        Rank {
            matching: self.matching as nat,
            total: self.total as nat,
            defaults: self.defaults as nat,
        }
    }
}

impl Score {
    /// Tells whether `self` is the better answer.
    pub fn outranks(&self, other: &Score) -> (yes: bool)
        ensures
            yes == self@.outranks(other@),
    {
        if self.matching != other.matching {
            self.matching > other.matching
        } else if self.total != other.total {
            self.total < other.total
        } else {
            self.defaults > other.defaults
        }
    }
}

/// Tells whether `modifier` is among `list`.
pub fn contains(list: &[Modifier], modifier: Modifier) -> (yes: bool)
    ensures
        yes == list.deep_view().contains(modifier@),
{
    let mut i: usize = 0;
    while i < list.len()
        invariant
            i <= list@.len(),
            forall|j: int| 0 <= j < i ==> list.deep_view()[j] != modifier@,
        decreases list@.len() - i,
    {
        proof {
            list@[i as int].lemma_equal_iff_same_bytes(modifier);
        }
        if list[i] == modifier {
            assert(list.deep_view()[i as int] == modifier@);
            return true;
        }
        i += 1;
    }
    false
}

/// Rates an entry for a query: nothing if the entry has another name, else
/// its counts.
pub fn rate(notation: &[u8], name: &[u8], wanted: &[Modifier], defaults: &[Modifier]) -> (score:
    Option<Score>)
    requires
        modifiers_fit(notation@),
    ensures
        score is Some <==> entry_name(notation@) == name@,
        score matches Some(s) ==> s@ == rank_of(
            notation@,
            wanted.deep_view(),
            defaults.deep_view(),
        ),
{
    let ghost written = entry_modifiers(notation@);
    let ghost asked = listed(wanted.deep_view());
    let ghost usual = listed(defaults.deep_view());
    let (first, mut parts) = split_name(notation);
    if !same_bytes(first, name) {
        return None;
    }
    let mut score = Score { matching: 0, total: 0, defaults: 0 };
    proof {
        lemma_segments_len(notation@);
        assert(written.take(0).filter(asked).len() == 0 && written.take(0).filter(usual).len()
            == 0) by {
            reveal(Seq::filter);
        }
    }
    loop
        invariant
            written == entry_modifiers(notation@),
            asked == listed(wanted.deep_view()),
            usual == listed(defaults.deep_view()),
            modifiers_fit(notation@),
            entry_name(notation@) == name@,
            written.len() <= notation@.len(),
            score.matching <= score.total,
            score.defaults <= score.total,
            score.total <= written.len(),
            parts.remaining() == written.skip(score.total as int),
            score.matching == written.take(score.total as int).filter(asked).len(),
            score.defaults == written.take(score.total as int).filter(usual).len(),
        decreases written.len() - score.total,
    {
        let segment = match parts.next() {
            Some(segment) => segment,
            None => {
                assert(written.take(score.total as int) =~= written);
                return Some(score);
            },
        };
        let ghost k = score.total as int;
        proof {
            let run = written.take(k + 1);
            assert(run.drop_last() =~= written.take(k));
            assert(run.last() == segment@);
            assert(segment@ == written[k]);
            assert(written.skip(k).drop_first() =~= written.skip(k + 1));
            assert(k < written.len() <= notation.len() <= usize::MAX);
            reveal(Seq::filter);
        }
        let modifier = Modifier::from_bytes(segment);
        if contains(wanted, modifier) {
            score.matching += 1;
        }
        if contains(defaults, modifier) {
            score.defaults += 1;
        }
        score.total += 1;
    }
}

} // verus!
