//! The executable side of the store: tables of named values, and arenas whose
//! entries are sequences.

use crate::machine::{find, find_from, put};
use crate::value::Value;
use vstd::prelude::*;

verus! {

/// The contents of an arena of sequences.
pub open spec fn rows<T>(arena: &Vec<Vec<T>>) -> Seq<Seq<T>> {
    Seq::new(arena@.len(), |i: int| arena@[i]@)
}

/// Adds `row` to `arena` and returns its handle.
pub fn push_row<T>(arena: &mut Vec<Vec<T>>, row: Vec<T>) -> (handle: usize)
    ensures
        rows(final(arena)) == rows(old(arena)).push(row@),
        final(arena)@.len() == old(arena)@.len() + 1,
        handle == old(arena)@.len(),
{
    let handle = arena.len();
    arena.push(row);
    assert(rows(arena) =~= rows(old(arena)).push(row@));
    handle
}

/// Writes `x` at position `i` of row `handle`.
pub fn set_cell<T>(arena: &mut Vec<Vec<T>>, handle: usize, i: usize, x: T)
    requires
        handle < old(arena)@.len(),
        i < old(arena)@[handle as int]@.len(),
    ensures
        rows(final(arena)) == rows(old(arena)).update(
            handle as int,
            rows(old(arena))[handle as int].update(i as int, x),
        ),
        final(arena)@.len() == old(arena)@.len(),
{
    let row = &mut arena[handle];
    row[i] = x;
    assert(rows(arena) =~= rows(old(arena)).update(
        handle as int,
        rows(old(arena))[handle as int].update(i as int, x),
    ));
}

/// The position at which `table` holds `key`.
pub fn find_key(table: &Vec<(&String, Value)>, key: &String) -> (res: Option<usize>)
    ensures
        res matches Some(i) ==> find(table@, key@) == Some(i as int) && i < table@.len(),
        res is None ==> find(table@, key@) is None,
{
    let mut i: usize = 0;
    while i < table.len()
        invariant
            i <= table@.len(),
            find(table@, key@) == find_from(table@, key@, i as int),
        decreases table@.len() - i,
    {
        if *table[i].0 == *key {
            return Some(i);
        }
        i += 1;
    }
    None
}

/// Sets `key` to `v` in `table`.
pub fn put_key<'a>(table: &mut Vec<(&'a String, Value)>, key: &'a String, v: Value)
    ensures
        final(table)@ == put(old(table)@, key, v),
{
    let ghost before = table@;
    match find_key(table, key) {
        Some(i) => {
            let name = table[i].0;
            table[i] = (name, v);
            assert(table@ =~= before.update(i as int, (before[i as int].0, v)));
        },
        None => {
            table.push((key, v));
            assert(table@ =~= before.push((key, v)));
        },
    }
}

/// Sets `key` to `v` in the table `handle` of `arena`.
pub fn put_in<'a>(
    arena: &mut Vec<Vec<(&'a String, Value)>>,
    handle: usize,
    key: &'a String,
    v: Value,
)
    requires
        handle < old(arena)@.len(),
    ensures
        rows(final(arena)) == rows(old(arena)).update(
            handle as int,
            put(rows(old(arena))[handle as int], key, v),
        ),
        final(arena)@.len() == old(arena)@.len(),
{
    put_key(&mut arena[handle], key, v);
    assert(rows(arena) =~= rows(old(arena)).update(
        handle as int,
        put(rows(old(arena))[handle as int], key, v),
    ));
}

} // verus!
