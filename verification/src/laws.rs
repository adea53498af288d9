//! What holds of every lookup.

use crate::matcher::{best_of, is_best, is_candidate, lemma_best_of};
use crate::modifier::{zero_padded, Modifier, CAPACITY};
use crate::notation::{
    fits, has_name, joined, lemma_segments_joined, lemma_segments_plain, lemma_trimmed_keeps,
    lemma_trimmed_wrapped, modifier_segments, modifiers_of, name_of, plain, segments, tokens_of,
    SEPARATOR,
};
use crate::score::{listed, rank_of, Rank};
use crate::symbol_for;
use crate::table::{entry_modifiers, entry_name, Table};
use vstd::prelude::*;
use vstd::string::StringSliceAdditionalSpecFns;

verus! {

/// How many of one or two written modifiers are among `list`.
proof fn lemma_listed_count(a: Seq<u8>, b: Seq<u8>, list: Seq<Seq<u8>>)
    ensures
        Seq::<Seq<u8>>::empty().filter(listed(list)).len() == 0,
        seq![a].filter(listed(list)).len() == if list.contains(zero_padded(a)) {
            1nat
        } else {
            0nat
        },
        seq![a, b].filter(listed(list)).len() == (if list.contains(zero_padded(a)) {
            1nat
        } else {
            0nat
        }) + (if list.contains(zero_padded(b)) {
            1nat
        } else {
            0nat
        }),
{
    reveal(Seq::filter);
    let none = Seq::<Seq<u8>>::empty();
    assert(none.filter(listed(list)) =~= none);
    assert(seq![a].drop_last() =~= none);
    assert(seq![a].filter(listed(list)).len() == if list.contains(zero_padded(a)) {
        1nat
    } else {
        0nat
    });
    assert(seq![a, b].drop_last() =~= seq![a]);
}

/// The modifiers that no segment, and that one segment gives.
proof fn lemma_tokens_of_few(a: Seq<u8>)
    ensures
        tokens_of(Seq::empty()) == Seq::<Seq<u8>>::empty(),
        tokens_of(seq![a]) == if a.len() <= CAPACITY {
            seq![zero_padded(a)]
        } else {
            Seq::<Seq<u8>>::empty()
        },
{
    reveal(Seq::filter);
    let none = Seq::<Seq<u8>>::empty();
    assert(none.filter(fits()) =~= none);
    assert(seq![a].drop_last() =~= none);
    assert(tokens_of(none) =~= none);
    assert(tokens_of(seq![a]) =~= if a.len() <= CAPACITY {
        seq![zero_padded(a)]
    } else {
        none
    });
}

/// A name alone is read as that name, with no modifier.
pub proof fn lemma_reads_name(name: Seq<u8>)
    requires
        plain(name),
        name.len() > 0,
    ensures
        has_name(name),
        name_of(name) == name,
        modifiers_of(name) == Seq::<Seq<u8>>::empty(),
{
    lemma_trimmed_keeps(name);
    lemma_segments_plain(name);
    assert(modifier_segments(name) =~= Seq::<Seq<u8>>::empty());
    lemma_tokens_of_few(name);
}

/// A name and one modifier are read as that name and, where the modifier
/// fits, that modifier.
pub proof fn lemma_reads_name_and_modifier(name: Seq<u8>, a: Seq<u8>)
    requires
        plain(name),
        name.len() > 0,
        plain(a),
        a.len() > 0,
    ensures
        has_name(joined(name, a)),
        name_of(joined(name, a)) == name,
        modifiers_of(joined(name, a)) == if a.len() <= CAPACITY {
            seq![zero_padded(a)]
        } else {
            Seq::<Seq<u8>>::empty()
        },
{
    let notation = joined(name, a);
    assert(notation[0] == name[0]);
    assert(notation.last() == a.last());
    lemma_trimmed_keeps(notation);
    lemma_segments_joined(name, a);
    lemma_segments_plain(a);
    assert(modifier_segments(notation) =~= seq![a]);
    lemma_tokens_of_few(a);
}

/// An entry written as a name alone has that name and no modifier.
pub proof fn lemma_entry_of_name(name: Seq<u8>)
    requires
        plain(name),
    ensures
        entry_name(name) == name,
        entry_modifiers(name) == Seq::<Seq<u8>>::empty(),
{
    lemma_segments_plain(name);
    assert(entry_modifiers(name) =~= Seq::<Seq<u8>>::empty());
}

/// An entry written as a name, a separator and more has that name, and
/// the segments of what follows as its modifiers.
pub proof fn lemma_entry_of_joined(name: Seq<u8>, rest: Seq<u8>)
    requires
        plain(name),
    ensures
        entry_name(joined(name, rest)) == name,
        entry_modifiers(joined(name, rest)) == segments(rest),
{
    lemma_segments_joined(name, rest);
    assert(entry_modifiers(joined(name, rest)) =~= segments(rest));
}

/// The same table, the same defaults and the same notation give the same
/// symbol: a lookup reads nothing but what its arguments hold.
pub proof fn lemma_lookup_deterministic(
    table: Table,
    again_table: Table,
    defaults: &[Modifier],
    again_defaults: &[Modifier],
    notation: &str,
    again_notation: &str,
)
    requires
        table@ == again_table@,
        defaults.deep_view() == again_defaults.deep_view(),
        notation@ == again_notation@,
    ensures
        symbol_for(table@, defaults.deep_view(), notation.spec_bytes()) == symbol_for(
            again_table@,
            again_defaults.deep_view(),
            again_notation.spec_bytes(),
        ),
{
}

/// Of the defaults, and of the modifiers asked for, a lookup reads only
/// which modifiers are among them: their order and repeats change nothing.
pub proof fn lemma_lists_count_as_sets(
    pairs: Seq<(Seq<u8>, char)>,
    name: Seq<u8>,
    wanted: Seq<Seq<u8>>,
    defaults: Seq<Seq<u8>>,
    other_wanted: Seq<Seq<u8>>,
    other_defaults: Seq<Seq<u8>>,
)
    requires
        forall|token: Seq<u8>| wanted.contains(token) <==> other_wanted.contains(token),
        forall|token: Seq<u8>| defaults.contains(token) <==> other_defaults.contains(token),
    ensures
        best_of(pairs, name, wanted, defaults) == best_of(pairs, name, other_wanted, other_defaults),
{
    assert(listed(wanted) =~= listed(other_wanted));
    assert(listed(defaults) =~= listed(other_defaults));
    assert forall|i: int|
        is_best(pairs, name, wanted, defaults, i) == is_best(
            pairs,
            name,
            other_wanted,
            other_defaults,
            i,
        ) by {}
}

/// Where one entry alone carries the name, the lookup gives its symbol,
/// whatever modifiers it has and whichever are asked for.
pub proof fn lemma_sole_candidate_wins(
    pairs: Seq<(Seq<u8>, char)>,
    defaults: Seq<Seq<u8>>,
    notation: Seq<u8>,
    i: int,
)
    requires
        has_name(notation),
        is_candidate(pairs, name_of(notation), i),
        forall|j: int| is_candidate(pairs, name_of(notation), j) ==> j == i,
    ensures
        symbol_for(pairs, defaults, notation) == Some(pairs[i].1),
{
    lemma_best_of(pairs, name_of(notation), modifiers_of(notation), defaults, i);
}

/// A table of the one entry `name:a` gives its symbol to the query `name`.
pub proof fn lemma_sole_entry_is_found(
    name: Seq<u8>,
    a: Seq<u8>,
    x: char,
    defaults: Seq<Seq<u8>>,
)
    requires
        plain(name),
        name.len() > 0,
    ensures
        symbol_for(seq![(joined(name, a), x)], defaults, name) == Some(x),
{
    let pairs = seq![(joined(name, a), x)];
    lemma_reads_name(name);
    lemma_entry_of_joined(name, a);
    assert(is_candidate(pairs, name, 0));
    lemma_sole_candidate_wins(pairs, defaults, name, 0);
}

/// With the entries `name` and `name:a`, in this order, the query `name:a`
/// gives the symbol of `name:a`: the modifier that is asked for and found
/// counts for more than anything else.
pub proof fn lemma_matching_modifier_wins(
    name: Seq<u8>,
    a: Seq<u8>,
    x: char,
    y: char,
    defaults: Seq<Seq<u8>>,
)
    requires
        plain(name),
        name.len() > 0,
        plain(a),
        0 < a.len() <= CAPACITY,
    ensures
        symbol_for(seq![(name, x), (joined(name, a), y)], defaults, joined(name, a)) == Some(y),
{
    let pairs = seq![(name, x), (joined(name, a), y)];
    let wanted = seq![zero_padded(a)];
    lemma_reads_name_and_modifier(name, a);
    lemma_entry_of_name(name);
    lemma_entry_of_joined(name, a);
    lemma_segments_plain(a);
    lemma_listed_count(a, a, wanted);
    assert(wanted[0] == zero_padded(a));
    assert(rank_of(pairs[0].0, wanted, defaults).matching == 0);
    assert(rank_of(pairs[1].0, wanted, defaults).matching == 1);
    lemma_best_of(pairs, name, wanted, defaults, 1);
}

/// With the entries `name:a:b` and `name:a`, in this order, the query
/// `name:a` gives the symbol of `name:a`: where as many modifiers match,
/// the entry with fewer modifiers wins. This holds where `b` is another
/// modifier than `a`.
pub proof fn lemma_fewer_modifiers_win(
    name: Seq<u8>,
    a: Seq<u8>,
    b: Seq<u8>,
    x: char,
    y: char,
    defaults: Seq<Seq<u8>>,
)
    requires
        plain(name),
        name.len() > 0,
        plain(a),
        0 < a.len() <= CAPACITY,
        plain(b),
        zero_padded(b) != zero_padded(a),
    ensures
        symbol_for(
            seq![(joined(name, joined(a, b)), x), (joined(name, a), y)],
            defaults,
            joined(name, a),
        ) == Some(y),
{
    let pairs = seq![(joined(name, joined(a, b)), x), (joined(name, a), y)];
    let wanted = seq![zero_padded(a)];
    lemma_reads_name_and_modifier(name, a);
    lemma_entry_of_joined(name, joined(a, b));
    lemma_entry_of_joined(name, a);
    lemma_segments_joined(a, b);
    lemma_segments_plain(b);
    lemma_segments_plain(a);
    assert(segments(joined(a, b)) =~= seq![a, b]);
    lemma_listed_count(a, b, wanted);
    assert(wanted[0] == zero_padded(a));
    let long_rank = rank_of(pairs[0].0, wanted, defaults);
    let short_rank = rank_of(pairs[1].0, wanted, defaults);
    assert(long_rank.matching == 1 && long_rank.total == 2);
    assert(short_rank.matching == 1 && short_rank.total == 1);
    lemma_best_of(pairs, name, wanted, defaults, 1);
}

/// With the entries `name:a` and `name:b`, in this order, and `a` the one
/// default modifier, the query `name` gives the symbol of `name:a`.
pub proof fn lemma_default_modifier_wins(
    name: Seq<u8>,
    a: Seq<u8>,
    b: Seq<u8>,
    x: char,
    y: char,
)
    requires
        plain(name),
        name.len() > 0,
        plain(a),
        plain(b),
    ensures
        symbol_for(
            seq![(joined(name, a), x), (joined(name, b), y)],
            seq![zero_padded(a)],
            name,
        ) == Some(x),
{
    let pairs = seq![(joined(name, a), x), (joined(name, b), y)];
    let defaults = seq![zero_padded(a)];
    let wanted = Seq::<Seq<u8>>::empty();
    lemma_reads_name(name);
    lemma_entry_of_joined(name, a);
    lemma_entry_of_joined(name, b);
    lemma_segments_plain(a);
    lemma_segments_plain(b);
    lemma_listed_count(a, a, wanted);
    lemma_listed_count(b, b, wanted);
    lemma_listed_count(a, a, defaults);
    lemma_listed_count(b, b, defaults);
    assert(defaults[0] == zero_padded(a));
    let first_rank = rank_of(pairs[0].0, wanted, defaults);
    let second_rank = rank_of(pairs[1].0, wanted, defaults);
    assert(first_rank == Rank { matching: 0, total: 1, defaults: 1 });
    assert(second_rank.matching == 0 && second_rank.total == 1 && second_rank.defaults <= 1);
    lemma_best_of(pairs, name, wanted, defaults, 0);
}

/// No entry of the name outranks the answer.
pub proof fn lemma_answer_is_not_outranked(
    pairs: Seq<(Seq<u8>, char)>,
    name: Seq<u8>,
    wanted: Seq<Seq<u8>>,
    defaults: Seq<Seq<u8>>,
    i: int,
    j: int,
)
    requires
        is_best(pairs, name, wanted, defaults, i),
        is_candidate(pairs, name, j),
    ensures
        !rank_of(pairs[j].0, wanted, defaults).outranks(rank_of(pairs[i].0, wanted, defaults)),
{
}

/// An entry of the name that outranks all the others of the name is the
/// answer.
pub proof fn lemma_top_rank_wins(
    pairs: Seq<(Seq<u8>, char)>,
    name: Seq<u8>,
    wanted: Seq<Seq<u8>>,
    defaults: Seq<Seq<u8>>,
    i: int,
)
    requires
        is_candidate(pairs, name, i),
        forall|j: int|
            j != i && #[trigger] is_candidate(pairs, name, j) ==> rank_of(
                pairs[i].0,
                wanted,
                defaults,
            ).outranks(rank_of(pairs[j].0, wanted, defaults)),
    ensures
        best_of(pairs, name, wanted, defaults) == Some(pairs[i].1),
{
    lemma_best_of(pairs, name, wanted, defaults, i);
}

/// Of two entries of one name and one rank the first is found: what stands
/// first in the table wins a tie.
pub proof fn lemma_first_of_equals_wins(
    pairs: Seq<(Seq<u8>, char)>,
    name: Seq<u8>,
    wanted: Seq<Seq<u8>>,
    defaults: Seq<Seq<u8>>,
    i: int,
    j: int,
)
    requires
        is_best(pairs, name, wanted, defaults, i),
        is_candidate(pairs, name, j),
        rank_of(pairs[j].0, wanted, defaults) == rank_of(pairs[i].0, wanted, defaults),
    ensures
        i <= j,
{
}

/// A modifier made of a name that does not end in a zero byte holds that
/// name: its token is the text of the name.
pub proof fn lemma_modifier_keeps_name(name: &str, modifier: Modifier)
    requires
        name.spec_bytes().len() <= CAPACITY,
        name.spec_bytes().len() == 0 || name.spec_bytes().last() != 0,
        modifier@ == zero_padded(name.spec_bytes()),
    ensures
        modifier.token() == name.spec_bytes(),
        vstd::utf8::valid_utf8(modifier.token()),
{
    crate::modifier::lemma_unpadded_padded(name.spec_bytes());
    vstd::utf8::encode_utf8_valid_utf8(name@);
}

/// A name that no entry carries gives no symbol.
pub proof fn lemma_unknown_name_is_absent(
    pairs: Seq<(Seq<u8>, char)>,
    defaults: Seq<Seq<u8>>,
    notation: Seq<u8>,
)
    requires
        forall|i: int| !is_candidate(pairs, name_of(notation), i),
    ensures
        symbol_for(pairs, defaults, notation) is None,
{
}

/// A notation between two separators is read as the notation alone: it
/// has the same name and the same modifiers, and gives the same symbol.
pub proof fn lemma_outer_separators_ignored(
    pairs: Seq<(Seq<u8>, char)>,
    defaults: Seq<Seq<u8>>,
    notation: Seq<u8>,
)
    ensures
        ({
            let wrapped = seq![SEPARATOR] + notation + seq![SEPARATOR];
            &&& has_name(wrapped) == has_name(notation)
            &&& name_of(wrapped) == name_of(notation)
            &&& modifiers_of(wrapped) == modifiers_of(notation)
            &&& symbol_for(pairs, defaults, wrapped) == symbol_for(pairs, defaults, notation)
        }),
{
    lemma_trimmed_wrapped(notation);
}

/// A modifier of exactly `CAPACITY` bytes is read, whole; one of a byte
/// more is left out, and the name before it is read all the same.
pub proof fn lemma_capacity_boundary(name: Seq<u8>, token: Seq<u8>)
    requires
        plain(name),
        name.len() > 0,
        plain(token),
    ensures
        token.len() == CAPACITY ==> modifiers_of(joined(name, token)) == seq![token],
        token.len() > CAPACITY ==> modifiers_of(joined(name, token)) == Seq::<Seq<u8>>::empty(),
        token.len() >= CAPACITY ==> has_name(joined(name, token)) && name_of(joined(name, token))
            == name,
{
    if token.len() >= CAPACITY {
        lemma_reads_name_and_modifier(name, token);
        if token.len() == CAPACITY {
            assert(zero_padded(token) =~= token);
        }
    }
}

} // verus!
