//! The table that binds outside identifiers to variable slots.

use vstd::prelude::*;
use crate::bits::has_var;

verus! {

/// The table that binds outside identifiers to slots, as plain values.
pub struct Table {
    /// The name of each slot's variable; empty for a free slot.
    pub names: Seq<Seq<char>>,
    /// The outside identifier that each slot was last bound to.
    pub mapping: Seq<usize>,
    /// The slot of each bound outside identifier.
    pub reverse: Map<usize, u32>,
    /// Which slots are unused.
    pub free: Seq<bool>,
}

/// The lowest free slot, if any slot is free.
pub open spec fn lowest_free(free: Seq<bool>) -> Option<int>
    decreases free.len(),
{
    if free.len() == 0 {
        None
    } else {
        match lowest_free(free.drop_last()) {
            Some(i) => Some(i),
            None => if free.last() {
                Some(free.len() - 1)
            } else {
                None
            },
        }
    }
}

/// `lowest_free` finds a free slot below which none is free, or none at all
/// where none is free.
pub proof fn lemma_lowest_free(free: Seq<bool>)
    ensures
        match lowest_free(free) {
            Some(i) => 0 <= i < free.len() && free[i] && forall|j: int| 0 <= j < i ==> !free[j],
            None => forall|j: int| 0 <= j < free.len() ==> !free[j],
        },
    decreases free.len(),
{
    if free.len() > 0 {
        lemma_lowest_free(free.drop_last());
        assert forall|j: int| 0 <= j < free.len() - 1 implies free[j] == free.drop_last()[j] by {}
    }
}

/// The table after `slot` has been given up: it is free and has no name, and
/// the identifier bound to it, if any, is bound no more.
pub open spec fn release(t: Table, slot: int) -> Table {
    let ext = t.mapping[slot];
    Table {
        names: t.names.update(slot, Seq::empty()),
        mapping: t.mapping,
        reverse: if t.reverse.contains_key(ext) && t.reverse[ext] == slot {
            t.reverse.remove(ext)
        } else {
            t.reverse
        },
        free: t.free.update(slot, true),
    }
}

/// The table after `slot` has been bound to the identifier `ext` under `name`.
pub open spec fn bind(t: Table, slot: int, ext: usize, name: Seq<char>) -> Table {
    Table {
        names: t.names.update(slot, name),
        mapping: t.mapping.update(slot, ext),
        reverse: t.reverse.insert(ext, slot as u32),
        free: t.free.update(slot, false),
    }
}

/// The table is sound: a bound identifier leads to a slot in use that leads
/// back to it, and a free slot has no name.
pub open spec fn table_ok(t: Table) -> bool {
    &&& t.names.len() == 128
    &&& t.mapping.len() == 128
    &&& t.free.len() == 128
    &&& forall|e: usize| #[trigger]
        t.reverse.contains_key(e) ==> t.reverse[e] < 128 && !t.free[t.reverse[e] as int]
            && t.mapping[t.reverse[e] as int] == e
    &&& forall|i: int| 0 <= i < 128 && #[trigger] t.free[i] ==> t.names[i] == Seq::<char>::empty()
}

/// Every slot in use is the slot of the identifier it is bound to.
pub open spec fn bijective(t: Table) -> bool {
    forall|i: int|
        0 <= i < 128 && !(#[trigger] t.free[i]) ==> t.reverse.contains_key(t.mapping[i])
            && t.reverse[t.mapping[i]] == i
}

/// Giving up a slot keeps the table sound and one to one.
pub proof fn lemma_release(t: Table, slot: int)
    requires
        table_ok(t),
        0 <= slot < 128,
    ensures
        table_ok(release(t, slot)),
        bijective(t) ==> bijective(release(t, slot)),
{
    let r = release(t, slot);
    assert forall|e: usize| #[trigger] r.reverse.contains_key(e)
        implies r.reverse[e] < 128 && !r.free[r.reverse[e] as int] && r.mapping[r.reverse[e] as int]
        == e by {
        assert(t.reverse.contains_key(e));
    }
    if bijective(t) {
        assert forall|i: int| 0 <= i < 128 && !(#[trigger] r.free[i])
            implies r.reverse.contains_key(r.mapping[i]) && r.reverse[r.mapping[i]] == i by {
            assert(!t.free[i]);
        }
    }
}

/// Binding a free slot keeps the table sound, and one to one where the
/// identifier was not bound.
pub proof fn lemma_bind(t: Table, slot: int, ext: usize, name: Seq<char>)
    requires
        table_ok(t),
        0 <= slot < 128,
        t.free[slot],
    ensures
        table_ok(bind(t, slot, ext, name)),
        bijective(t) && !t.reverse.contains_key(ext) ==> bijective(bind(t, slot, ext, name)),
{
    let r = bind(t, slot, ext, name);
    assert forall|e: usize| #[trigger] r.reverse.contains_key(e)
        implies r.reverse[e] < 128 && !r.free[r.reverse[e] as int] && r.mapping[r.reverse[e] as int]
        == e by {
        if e != ext {
            assert(t.reverse.contains_key(e));
        }
    }
    assert forall|i: int| 0 <= i < 128 && #[trigger] r.free[i]
        implies r.names[i] == Seq::<char>::empty() by {
        assert(t.free[i]);
    }
    if bijective(t) && !t.reverse.contains_key(ext) {
        assert forall|i: int| 0 <= i < 128 && !(#[trigger] r.free[i])
            implies r.reverse.contains_key(r.mapping[i]) && r.reverse[r.mapping[i]] == i by {
            if i != slot {
                assert(!t.free[i]);
            }
        }
    }
}

/// The table after the identifier `ext` has been looked up: if it was not
/// bound and a slot is free, the lowest free slot is bound to it under `name`.
pub open spec fn resolved(t: Table, ext: usize, name: Seq<char>) -> Table {
    if t.reverse.contains_key(ext) {
        t
    } else {
        match lowest_free(t.free) {
            Some(slot) => bind(t, slot, ext, name),
            None => t,
        }
    }
}

/// The slot that a lookup of `ext` arrives at, if there is one.
pub open spec fn slot_of(t: Table, ext: usize) -> Option<int> {
    if t.reverse.contains_key(ext) {
        Some(t.reverse[ext] as int)
    } else {
        lowest_free(t.free)
    }
}

/// Looking an identifier up keeps the table sound and one to one, leaves its
/// slot in use, and frees no slot.
pub proof fn lemma_resolved(t: Table, ext: usize, name: Seq<char>)
    requires
        table_ok(t),
    ensures
        table_ok(resolved(t, ext, name)),
        bijective(t) ==> bijective(resolved(t, ext, name)),
        slot_of(t, ext) matches Some(slot) ==> 0 <= slot < 128 && !resolved(t, ext, name).free[slot]
            && resolved(t, ext, name).reverse.contains_key(ext),
        forall|i: int| 0 <= i < 128 && #[trigger] resolved(t, ext, name).free[i] ==> t.free[i],
{
    lemma_lowest_free(t.free);
    if !t.reverse.contains_key(ext) {
        match lowest_free(t.free) {
            Some(slot) => {
                lemma_bind(t, slot, ext, name);
            },
            None => {},
        }
    }
}

/// The table in which no slot has a name or a binding, and a slot is free
/// when no term of `p` holds its variable.
pub open spec fn fresh_table(p: Map<u128, int>) -> Table {
    Table {
        names: Seq::new(128, |i: int| Seq::<char>::empty()),
        mapping: Seq::new(128, |i: int| 0usize),
        reverse: Map::empty(),
        free: Seq::new(128, |i: int| forall|k: u128| p.contains_key(k) ==> !has_var(k, i as u32)),
    }
}

/// The table after the slot of `out` has been given up and the identifier
/// `in1` has been looked up.
pub open spec fn table_after_one(t: Table, out: usize, in1: usize, name1: Seq<char>) -> Table {
    resolved(release(t, t.reverse[out] as int), in1, name1)
}

/// The table after the slot of `out` has been given up and the identifiers
/// `in1` and `in2` have been looked up, in this order.
pub open spec fn table_after_two(
    t: Table,
    out: usize,
    in1: usize,
    name1: Seq<char>,
    in2: usize,
    name2: Seq<char>,
) -> Table {
    resolved(table_after_one(t, out, in1, name1), in2, name2)
}

/// The slot of the first input of a gate that replaces `out`, if there is one.
pub open spec fn first_input(t: Table, out: usize, in1: usize) -> Option<int> {
    slot_of(release(t, t.reverse[out] as int), in1)
}

/// The slot of the second input of a gate that replaces `out`, if there is one.
pub open spec fn second_input(t: Table, out: usize, in1: usize, in2: usize) -> Option<int> {
    slot_of(table_after_one(t, out, in1, Seq::empty()), in2)
}

/// The slot of the second input does not depend on the name of the first.
pub proof fn lemma_second_input(t: Table, out: usize, in1: usize, name1: Seq<char>, in2: usize)
    ensures
        slot_of(table_after_one(t, out, in1, name1), in2) == second_input(t, out, in1, in2),
{
    let a = table_after_one(t, out, in1, name1);
    let b = table_after_one(t, out, in1, Seq::empty());
    assert(a.free =~= b.free);
    assert(a.reverse =~= b.reverse);
}

/// The slot of `out`, the variable that a rewrite replaces.
pub open spec fn output(t: Table, out: usize) -> u32 {
    t.reverse[out]
}

/// The slot of the first input of a gate that replaces `out`.
pub open spec fn input_one(t: Table, out: usize, in1: usize) -> u32 {
    first_input(t, out, in1)->0 as u32
}

/// The slot of the second input of a gate that replaces `out`.
pub open spec fn input_two(t: Table, out: usize, in1: usize, in2: usize) -> u32 {
    second_input(t, out, in1, in2)->0 as u32
}

/// What the table gives a rewrite with one input: the slots are valid and
/// in use afterwards, and a slot that is free afterwards was free before or
/// is the one given up.
pub proof fn lemma_one_input(t: Table, out: usize, in1: usize, name1: Seq<char>)
    requires
        table_ok(t),
        t.reverse.contains_key(out),
        first_input(t, out, in1) is Some,
    ensures
        output(t, out) < 128,
        input_one(t, out, in1) < 128,
        first_input(t, out, in1) == Some(input_one(t, out, in1) as int),
        table_ok(table_after_one(t, out, in1, name1)),
        bijective(t) ==> bijective(table_after_one(t, out, in1, name1)),
        !table_after_one(t, out, in1, name1).free[input_one(t, out, in1) as int],
        forall|i: int|
            0 <= i < 128 && #[trigger] table_after_one(t, out, in1, name1).free[i]
                ==> t.free[i] || i
                == output(t, out),
{
    let slot = output(t, out) as int;
    lemma_release(t, slot);
    lemma_resolved(release(t, slot), in1, name1);
}

/// What the table gives a rewrite with two inputs.
pub proof fn lemma_two_inputs(
    t: Table,
    out: usize,
    in1: usize,
    name1: Seq<char>,
    in2: usize,
    name2: Seq<char>,
)
    requires
        table_ok(t),
        t.reverse.contains_key(out),
        first_input(t, out, in1) is Some,
        second_input(t, out, in1, in2) is Some,
    ensures
        input_two(t, out, in1, in2) < 128,
        second_input(t, out, in1, in2) == Some(input_two(t, out, in1, in2) as int),
        table_ok(table_after_two(t, out, in1, name1, in2, name2)),
        bijective(t) ==> bijective(table_after_two(t, out, in1, name1, in2, name2)),
        !table_after_two(t, out, in1, name1, in2, name2).free[input_one(t, out, in1) as int],
        !table_after_two(t, out, in1, name1, in2, name2).free[input_two(t, out, in1, in2) as int],
        forall|i: int|
            0 <= i < 128 && #[trigger] table_after_two(t, out, in1, name1, in2, name2).free[i]
                ==> t.free[i] || i == output(t, out),
{
    lemma_one_input(t, out, in1, name1);
    lemma_second_input(t, out, in1, name1, in2);
    let mid = table_after_one(t, out, in1, name1);
    lemma_resolved(mid, in2, name2);
    let last = table_after_two(t, out, in1, name1, in2, name2);
    assert forall|i: int| 0 <= i < 128 && #[trigger] last.free[i]
        implies t.free[i] || i == output(t, out) by {
        assert(mid.free[i]);
    }
    if last.free[input_one(t, out, in1) as int] {
        assert(mid.free[input_one(t, out, in1) as int]);
    }
}

/// The table after the first `n` identifiers of `ids` have each been given
/// the lowest slot that was free at its turn; one that finds no free slot is
/// passed over.
pub open spec fn allotted(t: Table, ids: Seq<usize>, names: Seq<Seq<char>>, n: int) -> Table
    decreases n,
{
    if n <= 0 {
        t
    } else {
        let before = allotted(t, ids, names, n - 1);
        match lowest_free(before.free) {
            Some(slot) => bind(before, slot, ids[n - 1], names[n - 1]),
            None => before,
        }
    }
}

/// The identifiers are new to the table and differ from one another.
pub open spec fn fresh(t: Table, ids: Seq<usize>) -> bool {
    &&& ids.no_duplicates()
    &&& forall|j: int| 0 <= j < ids.len() ==> !t.reverse.contains_key(#[trigger] ids[j])
}

} // verus!
