use rustc_hash::{FxBuildHasher, FxHashMap};
use vstd::prelude::*;

verus! {

/// The hasher of `FxHashMap`, declared so that the map's type can stand in
/// signatures and fields; nothing is assumed of its contents.
#[verifier::external_type_specification]
#[verifier::external_body]
pub struct ExFxBuildHasher(FxBuildHasher);

/// A node's alias table: each alias to the index of the child it names.
pub type Alias = FxHashMap<String, usize>;

/// What an alias table holds: each alias, as characters, to a child index.
pub uninterp spec fn alias_entries(m: FxHashMap<String, usize>) -> Map<Seq<char>, usize>;

/// Relies on `FxHashMap::default`: a map with no entries.
#[verifier::external_body]
pub(crate) fn new_aliases() -> (r: Alias)
    ensures
        alias_entries(r).is_empty(),
{
    FxHashMap::default()
}

/// Relies on `HashMap::insert`: the key now maps to the value, and the value
/// that it mapped to before, if any, is handed back.
#[verifier::external_body]
pub(crate) fn insert_alias(m: &mut Alias, k: String, v: usize) -> (r: Option<usize>)
    ensures
        alias_entries(*final(m)) == alias_entries(*old(m)).insert(k@, v),
        r == (if alias_entries(*old(m)).contains_key(k@) {
            Some(alias_entries(*old(m))[k@])
        } else {
            None
        }),
{
    m.insert(k, v)
}

/// Relies on `HashMap::get`: the value that the key maps to, if any.
#[verifier::external_body]
pub(crate) fn lookup_alias(m: &Alias, k: &String) -> (r: Option<usize>)
    ensures
        r == (if alias_entries(*m).contains_key(k@) {
            Some(alias_entries(*m)[k@])
        } else {
            None
        }),
{
    m.get(k).copied()
}

} // verus!
