//! What searches of a line found, by rule.

use crate::regex::Region;
use crate::state::RegionV;
use crate::syntax::RuleId;
use crate::views;
use std::collections::HashMap;
use std::hash::BuildHasherDefault;
use vstd::prelude::*;

verus! {

/// The hasher of the `fnv` crate.
#[verifier::external_type_specification]
#[verifier::external_body]
pub struct ExFnvHasher(fnv::FnvHasher);

/// The standard builder of hashers that have a default.
#[verifier::external_type_specification]
#[verifier::external_body]
#[verifier::reject_recursive_types(H)]
pub struct ExBuildHasherDefault<H>(std::hash::BuildHasherDefault<H>);

/// A rule as three numbers: its syntax, its context and its index there.
pub type RuleKey = (usize, usize, usize);

/// For each rule searched for: the match found, or `None` if there is none.
pub type SearchCache = HashMap<
    (usize, usize, usize),
    Option<Region>,
    BuildHasherDefault<fnv::FnvHasher>,
>;

/// The model of a [`SearchCache`].
pub type CacheV = Map<RuleKey, Option<RegionV>>;

/// The key of a rule.
pub open spec fn key_of(rule: RuleId) -> RuleKey {
    (rule.0.syntax_index, rule.0.context_index, rule.1)
}

/// See [`CacheV`].
pub open spec fn contents(cache: SearchCache) -> CacheV {
    cache@.map_values(|v: Option<Region>| views::opt(v))
}

/// `HashMap::get` with the hasher of `fnv`, which gives equal keys equal hashes.
/// Claimed: what the key maps to, if it maps to something.
#[verifier::external_body]
fn get(cache: &SearchCache, key: (usize, usize, usize)) -> (r: Option<&Option<Region>>)
    ensures
        match r {
            Some(v) => cache@.contains_key(key) && cache@[key] == *v,
            None => !cache@.contains_key(key),
        },
{
    cache.get(&key)
}

/// `HashMap::insert` with the hasher of `fnv`. Claimed: the key maps to the value
/// from now on, and no other key is touched.
#[verifier::external_body]
fn insert(cache: &mut SearchCache, key: (usize, usize, usize), value: Option<Region>)
    ensures
        final(cache)@ == old(cache)@.insert(key, value),
{
    cache.insert(key, value);
}

/// An empty cache.
pub(crate) fn empty() -> (r: SearchCache)
    ensures
        contents(r) == CacheV::empty(),
{
    let r: SearchCache = HashMap::default();
    assert(contents(r) =~= CacheV::empty());
    r
}

/// Forgets everything.
pub(crate) fn clear(cache: &mut SearchCache)
    ensures
        contents(*final(cache)) == CacheV::empty(),
{
    cache.clear();
    assert(contents(*cache) =~= CacheV::empty());
}

/// What is remembered of a rule, if anything is.
pub(crate) fn look_up(cache: &SearchCache, rule: RuleId) -> (r: Option<Option<Region>>)
    ensures
        match r {
            Some(v) => contents(*cache).contains_key(key_of(rule)) && contents(*cache)[key_of(rule)]
                == views::opt(v),
            None => !contents(*cache).contains_key(key_of(rule)),
        },
{
    match get(cache, (rule.0.syntax_index, rule.0.context_index, rule.1)) {
        Some(Some(region)) => Some(Some(region.clone())),
        Some(None) => Some(None),
        None => None,
    }
}

/// Remembers what a search for a rule found.
pub(crate) fn remember(cache: &mut SearchCache, rule: RuleId, found: Option<Region>)
    ensures
        contents(*final(cache)) == contents(*old(cache)).insert(key_of(rule), views::opt(found)),
{
    let ghost before = contents(*cache);
    insert(cache, (rule.0.syntax_index, rule.0.context_index, rule.1), found);
    assert(contents(*cache) =~= before.insert(key_of(rule), views::opt(found)));
}

} // verus!
