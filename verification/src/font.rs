//! Font management: the fonts that are at hand, and how families are found
//! among them.

use vstd::prelude::*;

verus! {

/// A collection of fonts. Nothing is known of what it holds.
#[verifier::external_type_specification]
#[verifier::external_body]
pub struct ExCollection(fontique::Collection);

/// A cache of font data. Nothing is known of what it holds.
#[verifier::external_type_specification]
#[verifier::external_body]
pub struct ExSourceCache(fontique::SourceCache);

/// A kind of font family, such as serif or monospace.
#[verifier::external_type_specification]
#[verifier::external_body]
pub struct ExGenericFamily(fontique::GenericFamily);

/// A font database and cache.
pub struct FontContext {
    pub collection: fontique::Collection,
    pub source_cache: fontique::SourceCache,
}

/// Looks a family up by its name with `fontique::Collection::family_id` and
/// gives the integer under its identifier. Which families there are depends
/// on the fonts of the system and on those that were registered, so nothing
/// is said of the result. A collection that is shared among threads is
/// brought up to date first, under a lock; the call panics if a thread has
/// panicked while it held that lock.
#[verifier::external_body]
pub(crate) fn family_id(collection: &mut fontique::Collection, name: &str) -> (r: Option<u64>) {
    collection.family_id(name).map(|id| id.to_u64())
}

/// Lists the families of a generic family with
/// `fontique::Collection::generic_families` and gives the integers under
/// their identifiers, in the order of the collection. Which families there
/// are depends on the fonts of the system and on those that were registered,
/// so nothing is said of the result. As to a collection that is shared
/// among threads, see `family_id`.
#[verifier::external_body]
pub(crate) fn generic_families(
    collection: &mut fontique::Collection,
    family: &fontique::GenericFamily,
) -> (r: Vec<u64>) {
    collection.generic_families(*family).map(|id| id.to_u64()).collect()
}

} // verus!
