//! Friendly symbol notation.
//!
//! A notation is a name followed by colon-separated modifiers, such as
//! `arrow:l:filled`. A table pairs notations with symbols; a lookup picks,
//! among the entries that carry the queried name, the one whose modifiers
//! fit the query best.
//!
//! ```
//! use symmie::modifier::Modifier;
//! use symmie::table::Table;
//!
//! let table = Table::new(&[("arrow:r", '→'), ("arrow:l", '←'), ("pi", 'π')]).unwrap();
//! let defaults = [Modifier::new("r")];
//! assert_eq!(symmie::get("arrow:l", &table, &defaults), Some('←'));
//! assert_eq!(symmie::get("arrow", &table, &defaults), Some('→'));
//! assert_eq!(symmie::get("tau", &table, &defaults), None);
//! assert_eq!(symmie::list(&table).len(), 3);
//! ```

pub mod laws;
pub mod matcher;
pub mod modifier;
pub mod notation;
pub mod score;
pub mod table;

use crate::matcher::{best_match, best_of, is_candidate};
use crate::modifier::Modifier;
use crate::notation::{decode, has_name, modifiers_of, name_of};
use crate::table::{pairs_of, Table};
use vstd::prelude::*;
use vstd::string::StringSliceAdditionalSpecFns;

verus! {

/// The symbol that a notation stands for in a table: that of the best entry
/// for its name and modifiers, and none where the notation holds no name or
/// the table has no entry of that name.
pub open spec fn symbol_for(
    pairs: Seq<(Seq<u8>, char)>,
    defaults: Seq<Seq<u8>>,
    notation: Seq<u8>,
) -> Option<char> {
    if has_name(notation) {
        best_of(pairs, name_of(notation), modifiers_of(notation), defaults)
    } else {
        None
    }
}

/// List all pairs of notation and symbol.
pub fn list<'a>(table: &Table<'a>) -> (pairs: &'a [(&'a str, char)])
    ensures
        pairs_of(pairs@) == table@,
{
    table.entries()
}

/// Get a symbol by its notation.
///
/// Separators at the ends of the notation do not count. Of the segments
/// after the name the first eight are read, and one of more than eight
/// bytes is passed over. Among the entries of the notation's name, the one
/// wins that has the most of the modifiers asked for; then the one with the
/// fewest modifiers; then the one with the most modifiers from `defaults`;
/// then the first. A notation without a name, and a name that no entry
/// carries, give nothing.
pub fn get(notation: &str, table: &Table, defaults: &[Modifier]) -> (symbol: Option<char>)
    ensures
        symbol == symbol_for(table@, defaults.deep_view(), notation.spec_bytes()),
        symbol is Some <==> has_name(notation.spec_bytes()) && exists|i: int|
            is_candidate(table@, name_of(notation.spec_bytes()), i),
{
    match decode(notation) {
        Some(query) => best_match(query.name(), query.modifiers(), table, defaults),
        None => None,
    }
}

} // verus!
