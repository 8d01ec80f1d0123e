//! The code table: an immutable `phf` map from words to their codes.

use vstd::prelude::*;
use crate::wubima::Wubima;

verus! {

#[verifier::external_type_specification]
#[verifier::external_body]
#[verifier::reject_recursive_types(K)]
#[verifier::reject_recursive_types(V)]
pub struct ExPhfMap<K: 'static, V: 'static>(phf::Map<K, V>);

/// The words that `phf::Map::get` finds in a code table, each with the codes it finds.
pub uninterp spec fn table_codes(t: phf::Map<&'static str, Wubima>) -> Map<Seq<char>, Seq<Seq<u8>>>;

/// Whether a code table has the shape that `phf`'s generator gives it: its
/// displacement list is empty when it has no entries, and both lists are
/// short enough for the 32-bit index arithmetic of `phf_shared::get_index`.
/// On such a table `get` cannot divide by zero.
pub uninterp spec fn table_well_shaped(t: phf::Map<&'static str, Wubima>) -> bool;

/// Lays words and their codes out as a `phf` code table.
///
/// Leaks each word to get the `'static` keys, asks
/// `phf_generator::generate_hash` for a perfect hash of the words, and puts
/// the entries in the order of the hash's `map`, as phf's code generator
/// does. The contract claims that the table finds exactly the given words,
/// each with its codes, and has the generator's shape. Left unsaid:
/// `generate_hash` searches hash keys from a fixed seed until one separates
/// all words; two distinct words with equal 96-bit hashes under every key
/// would make that search endless.
#[verifier::external_body]
pub(crate) fn build_table(entries: Vec<(String, Wubima)>) -> (built: phf::Map<&'static str, Wubima>)
    requires
        entries@.len() <= u32::MAX,
        forall|i: int, j: int|
            0 <= i < entries@.len() && 0 <= j < entries@.len() && entries@[i].0@ == entries@[j].0@
                ==> i == j,
    ensures
        table_well_shaped(built),
        table_codes(built).dom() == entries@.map_values(|e: (String, Wubima)| e.0@).to_set(),
        forall|i: int|
            0 <= i < entries@.len() ==> table_codes(built)[(#[trigger] entries@[i]).0@]
                == entries@[i].1@,
{
    let keyed: Vec<(&'static str, Wubima)> =
        entries.into_iter().map(|(w, c)| (&*Box::leak(w.into_boxed_str()), c)).collect();
    let keys: Vec<&'static str> = keyed.iter().map(|e| e.0).collect();
    let state = phf_generator::generate_hash(&keys);
    let ordered: Vec<(&'static str, Wubima)> = state.map.iter().map(|&i| keyed[i]).collect();
    let disps: &'static [(u32, u32)] = Box::leak(state.disps.into_boxed_slice());
    phf::Map { key: state.key, disps, entries: Box::leak(ordered.into_boxed_slice()) }
}

/// Looks a word up in the code table.
///
/// Calls `phf::Map::get`, which hashes the word, compares it with the one
/// entry that the hash selects and hands back that entry's codes on a match.
/// The contract claims that the codes found are those that the table holds
/// for the word, and that nothing is found for a word it does not hold. The
/// table must have the generator's shape, under which `get` does not panic.
#[verifier::external_body]
pub(crate) fn table_get<'a>(table: &'a phf::Map<&'static str, Wubima>, word: &str) -> (r: Option<&'a Wubima>)
    requires
        table_well_shaped(*table),
    ensures
        match r {
            Some(w) => table_codes(*table).contains_key(word@) && w@ == table_codes(*table)[word@],
            None => !table_codes(*table).contains_key(word@),
        },
{
    table.get(word)
}

/// Whether the code table holds a word.
///
/// Calls `phf::Map::contains_key`, which is `get(word).is_some()` in the
/// crate's source; the table must have the generator's shape, as for `table_get`.
#[verifier::external_body]
pub(crate) fn table_contains(table: &phf::Map<&'static str, Wubima>, word: &str) -> (r: bool)
    requires
        table_well_shaped(*table),
    ensures
        r == table_codes(*table).contains_key(word@),
{
    table.contains_key(word)
}

} // verus!
