//! Tables keyed by symbol: what this crate relies on from `fxhash::FxHashMap`.
//!
//! An `FxHashMap` is the standard `HashMap` with the hasher of fxhash, and its
//! view is the `Map` that vstd gives every `HashMap`. vstd specifies the
//! methods of a `HashMap` only for key types and hashers that it knows to be
//! deterministic, which it does not know of `char` and `FxHasher`. The three
//! functions below state it of them: a `char` hashes by its code point, and
//! `FxHasher` has no state but the words written to it. Nothing in this file
//! is proved.
use fxhash::FxHashMap;
use vstd::prelude::*;

verus! {

/// `fxhash::FxHasher`, the hasher of the tables; nothing is said of it.
#[verifier::external_type_specification]
#[verifier::external_body]
pub struct ExFxHasher(fxhash::FxHasher);

/// `std::hash::BuildHasherDefault`, through which `FxHashMap` names its
/// hasher; nothing is said of it.
#[verifier::external_type_specification]
#[verifier::external_body]
#[verifier::reject_recursive_types(H)]
pub struct ExBuildHasherDefault<H>(std::hash::BuildHasherDefault<H>);

/// `HashMap::get` on a table keyed by `char`: the entry stored under `c`, if
/// there is one.
#[verifier::external_body]
pub(crate) fn table_get<'a, V>(m: &'a FxHashMap<char, V>, c: char) -> (r: Option<&'a V>)
    ensures
        r == (if m@.contains_key(c) {
            Some(&m@[c])
        } else {
            None
        }),
{
    m.get(&c)
}

/// `HashMap::insert` on a table keyed by `char`: afterwards `c` maps to `v`,
/// and every other key to what it mapped to before.
#[verifier::external_body]
pub(crate) fn table_insert<V>(m: &mut FxHashMap<char, V>, c: char, v: V)
    ensures
        final(m)@ == old(m)@.insert(c, v),
{
    m.insert(c, v);
}

/// `HashMap::keys` on a table keyed by `char`, collected: every key once, in
/// the order in which the table happens to hand them out.
#[verifier::external_body]
pub(crate) fn table_keys<V>(m: &FxHashMap<char, V>) -> (keys: Vec<char>)
    ensures
        keys@.no_duplicates(),
        keys@.to_set() == m@.dom(),
{
    m.keys().copied().collect()
}

} // verus!
