//! The interning table: a bijection between numeric identifiers and name
//! strings, held in a `bimap::BiMap`.
//!
//! Verus sees the bimap as an opaque type whose contents are named by
//! [`table_contents`]; the few methods the library calls are wrapped below
//! with contracts taken from the crate's documented behaviour.

use vstd::prelude::*;

verus! {

#[verifier::external_type_specification]
#[verifier::external_body]
#[verifier::reject_recursive_types(L)]
#[verifier::reject_recursive_types(R)]
#[verifier::reject_recursive_types(LS)]
#[verifier::reject_recursive_types(RS)]
pub struct ExBiHashMap<L, R, LS, RS>(bimap::BiHashMap<L, R, LS, RS>);

/// The interning table held by every ontology instance.
pub type Table = bimap::BiMap<usize, String>;

/// The pairs a table holds, as a map from identifier to name.
pub uninterp spec fn table_contents(m: Table) -> Map<usize, Seq<char>>;

/// Relies on `bimap::BiHashMap::new`: it returns an empty bimap.
#[verifier::external_body]
pub fn table_new() -> (m: Table)
    ensures
        forall|id: usize| !table_contents(m).contains_key(id),
{
    bimap::BiMap::new()
}

/// Relies on `bimap::BiHashMap::contains_left`: it tells whether a left
/// value (an identifier) is present in the bimap.
#[verifier::external_body]
pub fn table_contains_id(m: &Table, id: usize) -> (r: bool)
    ensures
        r == table_contents(*m).contains_key(id),
{
    m.contains_left(&id)
}

/// Relies on `bimap::BiHashMap::contains_right`: it tells whether a right
/// value (a name) is present in the bimap.
#[verifier::external_body]
pub fn table_contains_name(m: &Table, name: &String) -> (r: bool)
    ensures
        r == table_contents(*m).contains_value(name@),
{
    m.contains_right(name)
}

/// Relies on `bimap::BiHashMap::get_by_right`: it returns the left value
/// paired with the given right value, or `None` when the right value is
/// absent.
#[verifier::external_body]
pub fn table_id_of_name(m: &Table, name: &String) -> (r: Option<usize>)
    ensures
        match r {
            Some(id) => table_contents(*m).contains_pair(id, name@),
            None => !table_contents(*m).contains_value(name@),
        },
{
    m.get_by_right(name).copied()
}

/// Relies on `bimap::BiHashMap::get_by_left`: it returns the right value
/// paired with the given left value, or `None` when the left value is
/// absent.
#[verifier::external_body]
pub fn table_name_of_id<'a>(m: &'a Table, id: usize) -> (r: Option<&'a String>)
    ensures
        match r {
            Some(name) => table_contents(*m).contains_pair(id, name@),
            None => !table_contents(*m).contains_key(id),
        },
{
    m.get_by_left(&id)
}

/// Relies on `bimap::BiHashMap::insert`: when neither side of the pair is
/// present it inserts the pair and overwrites nothing (`Overwritten::Neither`).
#[verifier::external_body]
pub fn table_insert(m: &mut Table, id: usize, name: String)
    requires
        !table_contents(*old(m)).contains_key(id),
        !table_contents(*old(m)).contains_value(name@),
    ensures
        table_contents(*final(m)) == table_contents(*old(m)).insert(id, name@),
{
    m.insert(id, name);
}

} // verus!
