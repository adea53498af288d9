//! The choice among the entries of one name.

use crate::modifier::Modifier;
use crate::score::{rank_of, rate, Score};
use crate::table::{
    entry_name, lemma_precedes_antisymmetric, lemma_precedes_reflexive, modifiers_fit, pairs_of,
    precedes, well_formed, Table,
};
use vstd::prelude::*;

verus! {

/// Whether the entry at `i` carries `name`.
pub open spec fn is_candidate(pairs: Seq<(Seq<u8>, char)>, name: Seq<u8>, i: int) -> bool {
    0 <= i < pairs.len() && entry_name(pairs[i].0) == name
}

/// Whether the entry at `i` is the answer: it carries `name`, it outranks
/// every entry of that name in front of it, and no entry of that name
/// behind it outranks it.
pub open spec fn is_best(
    pairs: Seq<(Seq<u8>, char)>,
    name: Seq<u8>,
    wanted: Seq<Seq<u8>>,
    defaults: Seq<Seq<u8>>,
    i: int,
) -> bool {
    &&& is_candidate(pairs, name, i)
    &&& forall|j: int| #[trigger]
        is_candidate(pairs, name, j) ==> {
            let mine = rank_of(pairs[i].0, wanted, defaults);
            let theirs = rank_of(pairs[j].0, wanted, defaults);
            if j < i {
                mine.outranks(theirs)
            } else {
                !theirs.outranks(mine)
            }
        }
}

/// The symbol of the answer, if any entry carries `name`.
pub open spec fn best_of(
    pairs: Seq<(Seq<u8>, char)>,
    name: Seq<u8>,
    wanted: Seq<Seq<u8>>,
    defaults: Seq<Seq<u8>>,
) -> Option<char> {
    if exists|i: int| is_best(pairs, name, wanted, defaults, i) {
        Some(pairs[choose|i: int| is_best(pairs, name, wanted, defaults, i)].1)
    } else {
        None
    }
}

/// No two entries are both the answer.
pub proof fn lemma_best_unique(
    pairs: Seq<(Seq<u8>, char)>,
    name: Seq<u8>,
    wanted: Seq<Seq<u8>>,
    defaults: Seq<Seq<u8>>,
    i: int,
    j: int,
)
    requires
        is_best(pairs, name, wanted, defaults, i),
        is_best(pairs, name, wanted, defaults, j),
    ensures
        i == j,
{
}

/// The entry that is the answer gives the symbol.
pub proof fn lemma_best_of(
    pairs: Seq<(Seq<u8>, char)>,
    name: Seq<u8>,
    wanted: Seq<Seq<u8>>,
    defaults: Seq<Seq<u8>>,
    i: int,
)
    requires
        is_best(pairs, name, wanted, defaults, i),
    ensures
        best_of(pairs, name, wanted, defaults) == Some(pairs[i].1),
{
    let chosen = choose|k: int| is_best(pairs, name, wanted, defaults, k);
    lemma_best_unique(pairs, name, wanted, defaults, i, chosen);
}

/// Among the first `n` entries, some entry that carries `name` is ahead of
/// all the others that do, in the sense of `is_best`.
proof fn lemma_best_among(
    pairs: Seq<(Seq<u8>, char)>,
    name: Seq<u8>,
    wanted: Seq<Seq<u8>>,
    defaults: Seq<Seq<u8>>,
    n: int,
) -> (i: int)
    requires
        0 <= n <= pairs.len(),
        exists|j: int| j < n && is_candidate(pairs, name, j),
    ensures
        i < n,
        is_candidate(pairs, name, i),
        forall|j: int|
            j < n && #[trigger] is_candidate(pairs, name, j) ==> {
                let mine = rank_of(pairs[i].0, wanted, defaults);
                let theirs = rank_of(pairs[j].0, wanted, defaults);
                if j < i {
                    mine.outranks(theirs)
                } else {
                    !theirs.outranks(mine)
                }
            },
    decreases n,
{
    let last = n - 1;
    if exists|j: int| j < last && is_candidate(pairs, name, j) {
        let before = lemma_best_among(pairs, name, wanted, defaults, last);
        if is_candidate(pairs, name, last) && rank_of(pairs[last].0, wanted, defaults).outranks(
            rank_of(pairs[before].0, wanted, defaults),
        ) {
            last
        } else {
            before
        }
    } else {
        let witness = choose|j: int| j < n && is_candidate(pairs, name, j);
        assert(witness == last);
        last
    }
}

/// A name that an entry carries gives a symbol, and only such a name does.
pub proof fn lemma_found_iff_candidate(
    pairs: Seq<(Seq<u8>, char)>,
    name: Seq<u8>,
    wanted: Seq<Seq<u8>>,
    defaults: Seq<Seq<u8>>,
)
    ensures
        best_of(pairs, name, wanted, defaults) is Some <==> exists|i: int|
            is_candidate(pairs, name, i),
{
    if exists|i: int| is_candidate(pairs, name, i) {
        let witness = choose|i: int| is_candidate(pairs, name, i);
        assert(witness < pairs.len() && is_candidate(pairs, name, witness));
        let i = lemma_best_among(pairs, name, wanted, defaults, pairs.len() as int);
        assert(is_best(pairs, name, wanted, defaults, i));
    }
}

/// Picks the symbol of the entry that answers a query best: of the entries
/// that carry `name`, the one of highest rank, and of several such the
/// first.
pub fn best_match(name: &[u8], modifiers: &[Modifier], table: &Table, defaults: &[Modifier]) -> (symbol:
    Option<char>)
    ensures
        symbol == best_of(table@, name@, modifiers.deep_view(), defaults.deep_view()),
        symbol is Some <==> exists|i: int| is_candidate(table@, name@, i),
{
    let list = table.entries();
    let start = table.first_candidate(name);
    let ghost pairs = table@;
    let ghost wanted = modifiers.deep_view();
    let ghost usual = defaults.deep_view();
    let mut best: Option<(char, Score)> = None;
    let ghost mut at: int = 0;
    let mut i: usize = start;
    proof {
        assert forall|j: int| #[trigger] is_candidate(pairs, name@, j) implies start <= j by {
            lemma_precedes_reflexive(name@);
        }
    }
    while i < list.len()
        invariant
            start <= i <= list@.len(),
            pairs == table@,
            pairs == pairs_of(list@),
            well_formed(pairs),
            wanted == modifiers.deep_view(),
            usual == defaults.deep_view(),
            forall|j: int| #[trigger] is_candidate(pairs, name@, j) ==> start <= j,
            forall|j: int| start <= j < i ==> #[trigger] is_candidate(pairs, name@, j),
            forall|j: int| start <= j < pairs.len() ==> precedes(name@, entry_name(#[trigger] pairs[j].0)),
            best is None <==> i == start,
            best matches Some(found) ==> {
                &&& start <= at < i
                &&& found.0 == pairs[at].1
                &&& found.1@ == rank_of(pairs[at].0, wanted, usual)
                &&& forall|j: int|
                    start <= j < at ==> found.1@.outranks(#[trigger] rank_of(pairs[j].0, wanted, usual))
                &&& forall|j: int|
                    at < j < i ==> !(#[trigger] rank_of(pairs[j].0, wanted, usual)).outranks(found.1@)
            },
        ensures
            forall|j: int| #[trigger] is_candidate(pairs, name@, j) ==> start <= j < i,
        decreases list@.len() - i,
    {
        assert(modifiers_fit(pairs[i as int].0));
        let score = match rate(list[i].0.as_bytes(), name, modifiers, defaults) {
            Some(score) => score,
            None => {
                proof {
                    assert forall|j: int| #[trigger] is_candidate(pairs, name@, j) implies j
                        < i by {
                        if j > i {
                            assert(precedes(entry_name(pairs[i as int].0), entry_name(pairs[j].0)));
                            lemma_precedes_antisymmetric(name@, entry_name(pairs[i as int].0));
                        }
                    }
                }
                break;
            },
        };
        let better = match best {
            Some(found) => score.outranks(&found.1),
            None => true,
        };
        if better {
            best = Some((list[i].1, score));
            proof {
                at = i as int;
            }
        }
        i += 1;
    }
    match best {
        Some(found) => {
            proof {
                assert(is_candidate(pairs, name@, at));
                assert(is_best(pairs, name@, wanted, usual, at));
                lemma_best_of(pairs, name@, wanted, usual, at);
            }
            Some(found.0)
        },
        None => None,
    }
}

} // verus!
