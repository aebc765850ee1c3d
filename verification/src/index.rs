//! The occurrence index: for each slot, the terms that hold its variable.

use vstd::prelude::*;
use vstd::std_specs::hash::*;
use vstd::std_specs::iter::IteratorSpec;
use std::collections::HashSet;
use crate::bits::{has_var, lemma_union, lemma_empty_product};
use crate::monom::{Monom, lemma_term};
use crate::polynom::{BPolynom, lists, products};

verus! {

broadcast use vstd::std_specs::hash::group_hash_axioms;

/// For each slot the variable products listed under it.
pub open spec fn index_of(occ: [HashSet<u128>; 128]) -> Seq<Set<u128>> {
    Seq::new(128, |i: int| occ[i]@)
}

/// A product is listed only under slots whose variable it holds.
pub open spec fn sound(index: Seq<Set<u128>>) -> bool {
    &&& index.len() == 128
    &&& forall|i: int, k: u128| 0 <= i < 128 && #[trigger] index[i].contains(k)
        ==> has_var(k, i as u32)
}

/// Under each slot of its variables, the product `k` is listed exactly when
/// `p` has a term for it.
pub open spec fn synced(index: Seq<Set<u128>>, p: Map<u128, int>, k: u128) -> bool {
    forall|i: int|
        0 <= i < 128 && has_var(k, i as u32)
            ==> (#[trigger] index[i].contains(k)) == p.contains_key(k)
}

/// The index lists under each slot exactly the terms of `p` that hold its variable.
pub open spec fn indexed(index: Seq<Set<u128>>, p: Map<u128, int>) -> bool {
    &&& sound(index)
    &&& forall|k: u128| synced(index, p, k)
}

/// Brings the entries of `key` in line with whether `p` has a term for it.
pub(crate) fn sync(occ: &mut [HashSet<u128>; 128], p: &BPolynom, key: u128)
    requires
        p.wf(),
        sound(index_of(*old(occ))),
    ensures
        sound(index_of(*final(occ))),
        synced(index_of(*final(occ)), p@, key),
        forall|i: int, k: u128|
            0 <= i < 128 && k != key
                ==> (#[trigger] final(occ)[i]@.contains(k)) == old(occ)[i]@.contains(k),
{
    let present = p.get(key).is_some();
    let used = Monom::new(key, 1).all_used_vars();
    proof {
        lemma_term(key, 1);
    }
    let mut n: usize = 0;
    while n < used.len()
        invariant
            n <= used.len(),
            present == p@.contains_key(key),
            forall|j: int| 0 <= j < used.len() ==> used[j] < 128 && has_var(key, used[j] as u32),
            forall|j: u32| has_var(key, j) ==> used@.contains(j as usize),
            forall|a: int, b: int| 0 <= a < b < used.len() ==> used[a] > used[b],
            sound(index_of(*occ)),
            forall|i: int, k: u128|
                0 <= i < 128 && k != key
                    ==> (#[trigger] occ[i]@.contains(k)) == old(occ)[i]@.contains(k),
            forall|j: int| 0 <= j < n ==> occ[used[j] as int]@.contains(key) == present,
        decreases used.len() - n,
    {
        let slot = used[n];
        let ghost before = *occ;
        if present {
            occ[slot].insert(key);
        } else {
            occ[slot].remove(&key);
        }
        proof {
            assert forall|i: int, k: u128| 0 <= i < 128 && #[trigger] index_of(*occ)[i].contains(k)
                implies has_var(k, i as u32) by {
                if i != slot as int || k != key {
                    assert(index_of(before)[i].contains(k));
                }
            }
            assert forall|j: int| 0 <= j < n + 1
                implies occ[used[j] as int]@.contains(key) == present by {
                if j < n {
                    assert(used[j] > used[n as int]);
                    assert(occ[used[j] as int] == before[used[j] as int]);
                }
            }
        }
        n += 1;
    }
    proof {
        assert forall|i: int| 0 <= i < 128 && has_var(key, i as u32)
            implies (#[trigger] index_of(*occ)[i].contains(key)) == p@.contains_key(key) by {
            assert(used@.contains((i as u32) as usize));
            let j = choose|j: int| 0 <= j < used.len() && used[j] == (i as u32) as usize;
            assert(occ[used[j] as int]@.contains(key) == present);
        }
    }
}

/// Lists every term of `p` under the slots of its variables.
pub(crate) fn build_index(occ: &mut [HashSet<u128>; 128], p: &BPolynom)
    requires
        p.wf(),
        forall|i: int, k: u128| 0 <= i < 128 ==> !(#[trigger] old(occ)[i]@.contains(k)),
    ensures
        indexed(index_of(*final(occ)), p@),
{
    let terms = p.terms();
    let ghost keys = products(terms@);
    let mut n: usize = 0;
    while n < terms.len()
        invariant
            n <= terms.len(),
            p.wf(),
            keys == products(terms@),
            lists(terms@, p@),
            sound(index_of(*occ)),
            forall|i: int, k: u128| 0 <= i < 128 && #[trigger] occ[i]@.contains(k)
                ==> p@.contains_key(k),
            forall|j: int| 0 <= j < n ==> synced(index_of(*occ), p@, #[trigger] keys[j]),
        decreases terms.len() - n,
    {
        let key = terms[n].var_product();
        let ghost before = *occ;
        proof {
            assert(keys[n as int] == key);
            assert(keys.to_set().contains(key));
        }
        sync(occ, p, key);
        proof {
            assert forall|i: int, k: u128| 0 <= i < 128 && #[trigger] occ[i]@.contains(k)
                implies p@.contains_key(k) by {
                if k == key {
                } else {
                    assert(before[i]@.contains(k));
                }
            }
            assert forall|j: int| 0 <= j < n + 1
                implies synced(index_of(*occ), p@, #[trigger] keys[j]) by {
                if keys[j] != key {
                    assert(synced(index_of(before), p@, keys[j]));
                    assert forall|i: int| 0 <= i < 128 && has_var(keys[j], i as u32)
                        implies (#[trigger] index_of(*occ)[i].contains(keys[j]))
                        == p@.contains_key(keys[j]) by {
                        assert(index_of(before)[i].contains(keys[j]) == p@.contains_key(keys[j]));
                    }
                }
            }
        }
        n += 1;
    }
    proof {
        assert forall|k: u128| synced(index_of(*occ), p@, k) by {
            if p@.contains_key(k) {
                assert(keys.to_set().contains(k));
                let j = choose|j: int| 0 <= j < keys.len() && keys[j] == k;
                assert(synced(index_of(*occ), p@, keys[j]));
            } else {
                assert forall|i: int| 0 <= i < 128 && has_var(k, i as u32)
                    implies (#[trigger] index_of(*occ)[i].contains(k)) == p@.contains_key(k) by {
                    if occ[i]@.contains(k) {
                    }
                }
            }
        }
    }
}

/// The union of the variable products of the terms of `p`.
pub(crate) fn all_vars(p: &BPolynom) -> (vars: u128)
    requires
        p.wf(),
    ensures
        forall|i: u32| has_var(vars, i) == exists|k: u128| p@.contains_key(k) && has_var(k, i),
{
    let terms = p.terms();
    let ghost keys = products(terms@);
    let mut vars: u128 = 0;
    let mut n: usize = 0;
    proof {
        assert forall|i: u32| !has_var(0, i) by {
            lemma_empty_product(i);
        }
    }
    while n < terms.len()
        invariant
            n <= terms.len(),
            keys == products(terms@),
            lists(terms@, p@),
            forall|i: u32| has_var(vars, i)
                ==> exists|j: int| 0 <= j < n && #[trigger] has_var(keys[j], i),
            forall|i: u32, j: int| 0 <= j < n && #[trigger] has_var(keys[j], i)
                ==> has_var(vars, i),
        decreases terms.len() - n,
    {
        let key = terms[n].var_product();
        let ghost before = vars;
        vars = vars | key;
        proof {
            assert(keys[n as int] == key);
            assert forall|i: u32| has_var(vars, i)
                implies exists|j: int| 0 <= j < n + 1 && #[trigger] has_var(keys[j], i) by {
                lemma_union(before, key, i);
                if has_var(before, i) {
                    let j = choose|j: int| 0 <= j < n && #[trigger] has_var(keys[j], i);
                    assert(has_var(keys[j], i));
                } else {
                    assert(has_var(keys[n as int], i));
                }
            }
            assert forall|i: u32, j: int| 0 <= j < n + 1 && #[trigger] has_var(keys[j], i)
                implies has_var(vars, i) by {
                lemma_union(before, key, i);
            }
        }
        n += 1;
    }
    proof {
        assert forall|i: u32| has_var(vars, i)
            == exists|k: u128| p@.contains_key(k) && has_var(k, i) by {
            if has_var(vars, i) {
                let j = choose|j: int| 0 <= j < n && #[trigger] has_var(keys[j], i);
                assert(keys.to_set().contains(keys[j]));
                assert(p@.contains_key(keys[j]) && has_var(keys[j], i));
            }
            if exists|k: u128| p@.contains_key(k) && has_var(k, i) {
                let k = choose|k: u128| p@.contains_key(k) && has_var(k, i);
                assert(keys.to_set().contains(k));
                let j = choose|j: int| 0 <= j < keys.len() && keys[j] == k;
                assert(has_var(keys[j], i));
            }
        }
    }
    vars
}

/// The members of `set`, each once, in no particular order.
pub(crate) fn members(set: &HashSet<u128>) -> (list: Vec<u128>)
    ensures
        list@.no_duplicates(),
        list@.to_set() == set@,
{
    let mut list: Vec<u128> = Vec::new();
    for k in it: set.iter()
        invariant
            list@.len() == it.index(),
            forall|j: int| 0 <= j < list@.len() ==> list@[j] == *it.seq()[j],
    {
        list.push(*k);
    }
    assert(list@ =~= set.iter().remaining().unref());
    list
}

/// Some term of `cof` from position `from` on lands on the product `k` when
/// multiplied by `w`.
pub open spec fn pending(cof: Seq<Monom>, w: u128, from: int, k: u128) -> bool {
    exists|j: int| from <= j < cof.len() && (#[trigger] cof[j]).vars() | w == k
}

/// Brings the index in line with `p` on every product that a term of `cof`
/// lands on when multiplied by `w`.
pub(crate) fn reindex(occ: &mut [HashSet<u128>; 128], p: &BPolynom, cof: &Vec<Monom>, w: u128)
    requires
        p.wf(),
        sound(index_of(*old(occ))),
        forall|k: u128| synced(index_of(*old(occ)), p@, k) || pending(cof@, w, 0, k),
    ensures
        indexed(index_of(*final(occ)), p@),
{
    let mut n: usize = 0;
    while n < cof.len()
        invariant
            n <= cof.len(),
            p.wf(),
            sound(index_of(*occ)),
            forall|k: u128| synced(index_of(*occ), p@, k) || pending(cof@, w, n as int, k),
        decreases cof.len() - n,
    {
        let key = cof[n].var_product() | w;
        let ghost before = *occ;
        sync(occ, p, key);
        proof {
            assert forall|k: u128| synced(index_of(*occ), p@, k) || pending(cof@, w, n + 1, k) by {
                if k != key {
                    if pending(cof@, w, n as int, k) {
                        let j = choose|j: int| n <= j < cof.len() && (#[trigger] cof@[j]).vars() | w
                            == k;
                        assert(j != n);
                        assert(n + 1 <= j < cof.len() && cof@[j].vars() | w == k);
                    } else {
                        assert(synced(index_of(before), p@, k));
                        assert forall|i: int| 0 <= i < 128 && has_var(k, i as u32)
                            implies (#[trigger] index_of(*occ)[i].contains(k))
                            == p@.contains_key(k) by {
                            assert(index_of(before)[i].contains(k) == p@.contains_key(k));
                        }
                    }
                }
            }
        }
        n += 1;
    }
    proof {
        assert forall|k: u128| synced(index_of(*occ), p@, k) by {
            if pending(cof@, w, cof.len() as int, k) {
            }
        }
    }
}

} // verus!
