//! The table of observers: for each observer the chunks it watches, kept in
//! a slab, which also hands out the observers' identities.

use vstd::prelude::*;
use slab::Slab;
use std::collections::HashSet;

verus! {

/// `slab::Slab`, a store that gives each value a key of its own and gives
/// the keys of removed values out again.
#[verifier::external_type_specification]
#[verifier::external_body]
#[verifier::reject_recursive_types(T)]
pub struct SlabStore<T>(Slab<T>);

/// What a table holds: for each key that is in use, the set stored under it.
pub uninterp spec fn table_entries(table: Slab<HashSet<u128>>) -> Map<usize, Set<u128>>;

/// `Slab::new`: a table that holds nothing.
#[verifier::external_body]
pub(crate) fn table_new() -> (table: Slab<HashSet<u128>>)
    ensures
        table_entries(table) == (Map::<usize, Set<u128>>::empty()),
{
    Slab::new()
}

/// `Slab::insert`: stores `interest` under a key that was not in use and
/// returns that key. Every other entry stays as it was. (As with `Vec::push`,
/// the call fails only where the allocation itself does.)
#[verifier::external_body]
pub(crate) fn table_insert(table: &mut Slab<HashSet<u128>>, interest: HashSet<u128>) -> (key: usize)
    ensures
        !table_entries(*old(table)).contains_key(key),
        table_entries(*final(table)) == table_entries(*old(table)).insert(key, interest@),
{
    table.insert(interest)
}

/// `Slab::try_remove`: takes out and returns what is stored under `key`;
/// where nothing is, it returns `None` and leaves the table as it was.
#[verifier::external_body]
pub(crate) fn table_try_remove(table: &mut Slab<HashSet<u128>>, key: usize) -> (taken: Option<
    HashSet<u128>,
>)
    ensures
        match taken {
            Some(interest) => table_entries(*old(table)).contains_key(key) && interest@
                == table_entries(*old(table))[key] && table_entries(*final(table))
                == table_entries(*old(table)).remove(key),
            None => !table_entries(*old(table)).contains_key(key) && table_entries(*final(table))
                == table_entries(*old(table)),
        },
{
    table.try_remove(key)
}

/// `Slab::get_mut`: a mutable borrow of what is stored under `key`, or
/// `None` where nothing is. What the borrow holds when it ends is what the
/// table then holds under `key`; every other entry stays as it was.
#[verifier::external_body]
pub(crate) fn table_get_mut(table: &mut Slab<HashSet<u128>>, key: usize) -> (slot: Option<
    &mut HashSet<u128>,
>)
    ensures
        match slot {
            Some(interest) => table_entries(*old(table)).contains_key(key) && interest@
                == table_entries(*old(table))[key] && table_entries(*final(table))
                == table_entries(*old(table)).insert(key, final(interest)@),
            None => !table_entries(*old(table)).contains_key(key) && table_entries(*final(table))
                == table_entries(*old(table)),
        },
{
    table.get_mut(key)
}

/// `Slab::contains`: whether a value is stored under `key`.
#[verifier::external_body]
pub(crate) fn table_contains(table: &Slab<HashSet<u128>>, key: usize) -> (used: bool)
    ensures
        used == table_entries(*table).contains_key(key),
{
    table.contains(key)
}

} // verus!
