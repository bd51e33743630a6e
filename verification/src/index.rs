//! Names in the order in which they were first seen, kept in the collections of `indexmap`.

use crate::stability::Stability;
use indexmap::{IndexMap, IndexSet};
use std::collections::hash_map::RandomState;
use vstd::prelude::*;

verus! {

/// `indexmap::IndexSet`.
#[verifier::external_type_specification]
#[verifier::external_body]
#[verifier::reject_recursive_types(T)]
#[verifier::reject_recursive_types(S)]
pub struct ExIndexSet<T, S>(IndexSet<T, S>);

/// `indexmap::IndexMap`.
#[verifier::external_type_specification]
#[verifier::external_body]
#[verifier::reject_recursive_types(K)]
#[verifier::reject_recursive_types(V)]
#[verifier::reject_recursive_types(S)]
pub struct ExIndexMap<K, V, S>(IndexMap<K, V, S>);

/// The names in a set, by their index.
pub uninterp spec fn set_names(set: IndexSet<String, RandomState>) -> Seq<Seq<char>>;

/// The names in a table with the values beside them, by their index.
pub uninterp spec fn table_entries(
    table: IndexMap<String, (u64, Stability), RandomState>,
) -> Seq<(Seq<char>, (u64, Stability))>;

/// The names of table entries.
pub open spec fn entry_names(entries: Seq<(Seq<char>, (u64, Stability))>) -> Seq<Seq<char>> {
    entries.map_values(|e: (Seq<char>, (u64, Stability))| e.0)
}

/// `IndexSet::new`: claims that the set is empty.
#[verifier::external_body]
pub(crate) fn new_set() -> (r: IndexSet<String>)
    ensures
        set_names(r) == Seq::<Seq<char>>::empty(),
{
    IndexSet::new()
}

/// `IndexSet::contains`: claims that it tells whether the name is in the set.
#[verifier::external_body]
pub(crate) fn set_contains(set: &IndexSet<String>, name: &str) -> (r: bool)
    ensures
        r == set_names(*set).contains(name@),
{
    set.contains(name)
}

/// `IndexSet::get_index_of`: claims that it gives a place of the name, where there is one.
#[verifier::external_body]
pub(crate) fn set_index_of(set: &IndexSet<String>, name: &str) -> (r: Option<usize>)
    ensures
        r is Some <==> set_names(*set).contains(name@),
        r is Some ==> r->0 < set_names(*set).len() && set_names(*set)[r->0 as int] == name@,
{
    set.get_index_of(name)
}

/// `IndexSet::insert_full`: claims that a name that is there stays where it is and that a new
/// one is put last, and that the place of the name is given back.
#[verifier::external_body]
pub(crate) fn set_insert_full(set: &mut IndexSet<String>, name: String) -> (r: (usize, bool))
    ensures
        r.1 <==> !set_names(*old(set)).contains(name@),
        set_names(*final(set)) == (if r.1 {
            set_names(*old(set)).push(name@)
        } else {
            set_names(*old(set))
        }),
        r.0 < set_names(*final(set)).len(),
        set_names(*final(set))[r.0 as int] == name@,
        r.1 ==> r.0 == set_names(*old(set)).len(),
{
    set.insert_full(name)
}

/// `IndexSet::get_index`: claims that it gives the name at a valid index.
#[verifier::external_body]
pub(crate) fn set_get_index(set: &IndexSet<String>, index: usize) -> (r: Option<&String>)
    ensures
        r is Some <==> index < set_names(*set).len(),
        r is Some ==> r->0@ == set_names(*set)[index as int],
{
    set.get_index(index)
}

/// `IndexSet::len`: claims that it gives the number of names.
#[verifier::external_body]
pub(crate) fn set_len(set: &IndexSet<String>) -> (r: usize)
    ensures
        r == set_names(*set).len(),
{
    set.len()
}

/// `IndexMap::new`: claims that the table is empty.
#[verifier::external_body]
pub(crate) fn new_table() -> (r: IndexMap<String, (u64, Stability)>)
    ensures
        table_entries(r) == Seq::<(Seq<char>, (u64, Stability))>::empty(),
{
    IndexMap::new()
}

/// `IndexMap::get_index_of`: claims that it gives a place of the name, where there is one.
#[verifier::external_body]
pub(crate) fn table_index_of(
    table: &IndexMap<String, (u64, Stability)>,
    name: &str,
) -> (r: Option<usize>)
    ensures
        r is Some <==> entry_names(table_entries(*table)).contains(name@),
        r is Some ==> r->0 < table_entries(*table).len() && table_entries(*table)[r->0 as int].0
            == name@,
{
    table.get_index_of(name)
}

/// `IndexMap::get_index`: claims that it gives the name and the value at a valid index.
#[verifier::external_body]
pub(crate) fn table_get_index(
    table: &IndexMap<String, (u64, Stability)>,
    index: usize,
) -> (r: Option<(&String, &(u64, Stability))>)
    ensures
        r is Some <==> index < table_entries(*table).len(),
        r matches Some((name, value)) ==> (name@, *value) == table_entries(*table)[index as int],
{
    table.get_index(index)
}

/// `IndexMap::insert_full`: claims that the value of a name that is there is replaced in its
/// place, that a new name is put last, and that the place is given back.
#[verifier::external_body]
pub(crate) fn table_insert_full(
    table: &mut IndexMap<String, (u64, Stability)>,
    name: String,
    value: (u64, Stability),
) -> (r: (usize, Option<(u64, Stability)>))
    ensures
        r.1 is Some <==> entry_names(table_entries(*old(table))).contains(name@),
        r.0 < table_entries(*final(table)).len(),
        r.1 is Some ==> r.0 < table_entries(*old(table)).len() && table_entries(
            *old(table),
        )[r.0 as int] == (name@, r.1->0) && table_entries(*final(table)) == table_entries(
            *old(table),
        ).update(r.0 as int, (name@, value)),
        r.1 is None ==> r.0 == table_entries(*old(table)).len() && table_entries(*final(table))
            == table_entries(*old(table)).push((name@, value)),
{
    table.insert_full(name, value)
}

} // verus!
