//! The rewriting engine: a working polynomial, the table that binds outside
//! identifiers to variable slots, and the index of the terms that hold each
//! slot's variable.

use vstd::prelude::*;
use vstd::std_specs::hash::*;
use vstd::arithmetic::power2::{
    pow2, lemma_pow2_pos, lemma_pow2_unfold, lemma_pow2_strictly_increases, lemma2_to64,
    lemma2_to64_rest,
};
use std::collections::HashMap;
use std::collections::HashSet;
use crate::algebra::{
    coeff, reduced, bounded, add_term, lemma_add_term, poly_mul_term, product_fits, seen,
    lemma_seen, lemma_seen_ends, lemma_poly_add, lemma_mul_term_support,
};
use crate::bits::{
    has_var, single, without, lemma_union, lemma_empty_product, lemma_without, lemma_single,
    lemma_without_injective, lemma_without_with, lemma_with_without, lemma_with,
};
use crate::gates::{
    rest, cofactor, substitute, substitute_upto, replacement_fits, one_gate, zero_gate, not_gate,
    and_gate, or_gate, xor_gate, lemma_substitute_support,
};
use crate::index::{
    index_of, sound, synced, indexed, pending, sync, build_index, reindex, members, all_vars,
};
use crate::monom::{Monom, term, fits, lemma_term};
use crate::polynom::{BPolynom, lists, products};
use crate::table::{
    Table, lowest_free, lemma_lowest_free, release, bind, table_ok, bijective, lemma_release,
    lemma_bind, resolved, slot_of, lemma_resolved, fresh_table, table_after_one, table_after_two,
    first_input, second_input, lemma_second_input, output, input_one, input_two, lemma_one_input,
    lemma_two_inputs, allotted, fresh,
};
use crate::text::texts;

verus! {

broadcast use vstd::std_specs::hash::group_hash_axioms;

/// The engine's state.
#[derive(Debug, Clone)]
pub struct PolyEngine {
    /// The working polynomial.
    pub p: BPolynom,
    /// The name of each slot's variable; empty for a free slot.
    pub var_names: [String; 128],
    /// The outside identifier that each slot was last bound to.
    pub var_mapping: [usize; 128],
    /// The slot of each bound outside identifier.
    pub reverse_mapping: HashMap<usize, u32>,
    /// For each slot, the variable products of the terms that hold its variable.
    pub var_occurences: [HashSet<u128>; 128],
    /// Which slots are unused.
    pub free_var_slots: [bool; 128],
}

/// `array_init::array_init` fills an array by calling `initializer` once for
/// each index, so every element is a result of that call on its own index.
pub assume_specification<F, T, const N: usize>[ array_init::array_init::<F, T, N> ](
    initializer: F,
) -> (filled: [T; N]) where F: FnMut(usize) -> T
    requires
        forall|i: usize| i < N ==> call_requires(initializer, (i,)),
    ensures
        forall|i: int| 0 <= i < N
            ==> call_ensures(initializer, (i as usize,), #[trigger] filled[i]),
;

/// The name of a slot that has none.
fn no_name(_slot: usize) -> (name: String)
    ensures
        name@ == Seq::<char>::empty(),
{
    String::new()
}

/// The occurrences of a slot that has none.
fn no_terms(_slot: usize) -> (listed: HashSet<u128>)
    ensures
        listed@ == Set::<u128>::empty(),
{
    HashSet::new()
}

/// The coefficient and variable product of each term of a gate.
spec fn pairs(gate: Seq<Monom>) -> Seq<(u128, int)> {
    Seq::new(gate.len(), |j: int| (gate[j].vars(), gate[j].coefficient()))
}

/// The gates of two inputs.
#[derive(Clone, Copy)]
enum Binary {
    /// `y ∧ z`
    And,
    /// `y ∨ z`
    Or,
    /// `y ⊕ z`
    Xor,
}

/// The polynomial of a gate of kind `kind` on the variables in the slots `y`
/// and `z`.
spec fn binary_gate(kind: Binary, y: u32, z: u32) -> Seq<(u128, int)> {
    match kind {
        Binary::And => and_gate(y, z),
        Binary::Or => or_gate(y, z),
        Binary::Xor => xor_gate(y, z),
    }
}

/// The weight of bit `i` in a word of `len` bits: `2^i`, but `−2^i` for the
/// highest bit of a word in two's complement.
pub open spec fn weight(i: int, len: int, signed: bool) -> int {
    if signed && i == len - 1 {
        -(pow2(i as nat) as int)
    } else {
        pow2(i as nat) as int
    }
}

/// The value of the first `n` bits of the word: the sum of `weight · x` over
/// the bits that were given a slot.
pub open spec fn word(t: Table, ids: Seq<usize>, names: Seq<Seq<char>>, signed: bool, n: int) -> Map<
    u128,
    int,
>
    decreases n,
{
    if n <= 0 {
        Map::empty()
    } else {
        let before = allotted(t, ids, names, n - 1);
        let sum = word(t, ids, names, signed, n - 1);
        match lowest_free(before.free) {
            Some(slot) => add_term(sum, single(slot as u32), weight(n - 1, ids.len() as int, signed)),
            None => sum,
        }
    }
}

impl PolyEngine {
    /// The symbol table.
    pub open spec fn table(&self) -> Table {
        Table {
            names: Seq::new(128, |i: int| self.var_names[i]@),
            mapping: self.var_mapping@,
            reverse: self.reverse_mapping@,
            free: self.free_var_slots@,
        }
    }

    /// The occurrence index.
    pub open spec fn index(&self) -> Seq<Set<u128>> {
        index_of(self.var_occurences)
    }

    /// No term holds the variable of a free slot.
    pub open spec fn clean(&self) -> bool {
        forall|i: int, k: u128|
            #![trigger self.free_var_slots[i], self.p@.contains_key(k)]
            0 <= i < 128 && self.free_var_slots[i] && self.p@.contains_key(k)
                ==> !has_var(k, i as u32)
    }

    /// The polynomial is reduced, the index lists its terms, the table is
    /// sound, and free slots are unused.
    pub open spec fn wf(&self) -> bool {
        &&& self.p.wf()
        &&& indexed(self.index(), self.p@)
        &&& table_ok(self.table())
        &&& self.clean()
    }

    /// An engine on the polynomial `p`, with no variable named or bound. The
    /// slots of the variables of `p` are in use, all others are free.
    pub fn new(p: BPolynom) -> (en: PolyEngine)
        requires
            p.wf(),
        ensures
            en.p@ == p@,
            en.table() == fresh_table(p@),
            en.wf(),
            (forall|k: u128, i: u32| p@.contains_key(k) ==> !has_var(k, i))
                ==> bijective(en.table()),
    {
        let names: [String; 128] = array_init::array_init(no_name);
        let mut occurences: [HashSet<u128>; 128] = array_init::array_init(no_terms);
        build_index(&mut occurences, &p);
        let vars = all_vars(&p);
        proof {
            lemma_term(vars, 1);
        }
        let free = Monom::new(vars, 1).all_free_vars();
        let en = PolyEngine {
            p,
            var_names: names,
            var_mapping: [0; 128],
            reverse_mapping: HashMap::new(),
            var_occurences: occurences,
            free_var_slots: free,
        };
        proof {
            assert(en.table().names =~= fresh_table(p@).names);
            assert(en.table().mapping =~= fresh_table(p@).mapping);
            assert forall|i: int| 0 <= i < 128
                implies en.table().free[i] == fresh_table(p@).free[i] by {
                assert(free[(i as u32) as int] == !has_var(vars, i as u32));
            }
            assert(en.table().free =~= fresh_table(p@).free);
            assert(en.table().reverse =~= fresh_table(p@).reverse);
        }
        en
    }

    /// The lowest free slot, if any slot is free.
    pub fn next_free_var(&self) -> (slot: Option<usize>)
        ensures
            match slot {
                Some(i) => i < 128 && self.free_var_slots[i as int] && forall|j: int|
                    0 <= j < i ==> !self.free_var_slots[j],
                None => forall|j: int| 0 <= j < 128 ==> !self.free_var_slots[j],
            },
            slot == match lowest_free(self.free_var_slots@) {
                Some(i) => Some(i as usize),
                None => None,
            },
    {
        proof {
            lemma_lowest_free(self.free_var_slots@);
            assert(self.free_var_slots@.len() == 128);
        }
        let mut i: usize = 0;
        while i < 128
            invariant
                i <= 128,
                forall|j: int| 0 <= j < i ==> !self.free_var_slots@[j],
            decreases 128 - i,
        {
            if self.free_var_slots[i] {
                proof {
                    lemma_lowest_free(self.free_var_slots@);
                    assert(self.free_var_slots@[i as int]);
                }
                return Some(i);
            }
            i += 1;
        }
        None
    }

    /// Gives up the slot `var`: it is marked free, loses its name and its
    /// binding, and the list of its occurrences is emptied and handed out.
    ///
    /// The binding of an identifier is removed only where it leads to this
    /// slot. Terms that hold the slot's variable stay in the polynomial: the
    /// engine is in order afterwards only where there were none.
    pub fn free_var(&mut self, var: usize) -> (listed: HashSet<u128>)
        requires
            var < 128,
        ensures
            final(self).table() == release(old(self).table(), var as int),
            listed@ == old(self).var_occurences[var as int]@,
            final(self).var_occurences[var as int]@ == Set::<u128>::empty(),
            forall|i: int|
                0 <= i < 128 && i != var
                    ==> final(self).var_occurences[i] == old(self).var_occurences[i],
            final(self).p == old(self).p,
            old(self).wf() && old(self).var_occurences[var as int]@ == Set::<u128>::empty()
                ==> final(self).wf(),
            table_ok(old(self).table()) ==> table_ok(final(self).table()) && (bijective(
                old(self).table(),
            ) ==> bijective(final(self).table())),
    {
        let mapped = self.var_mapping[var];
        let bound_here = match self.reverse_mapping.get(&mapped) {
            Some(slot) => *slot as usize == var,
            None => false,
        };
        if bound_here {
            self.reverse_mapping.remove(&mapped);
        }
        self.var_names[var] = String::new();
        self.free_var_slots[var] = true;
        let mut listed: HashSet<u128> = HashSet::new();
        core::mem::swap(&mut self.var_occurences[var], &mut listed);
        proof {
            let t = release(old(self).table(), var as int);
            assert(self.table().names =~= t.names);
            assert(self.table().free =~= t.free);
            assert(self.table().reverse =~= t.reverse);
            assert(self.table().mapping =~= t.mapping);
            if table_ok(old(self).table()) {
                lemma_release(old(self).table(), var as int);
            }
            if old(self).wf() && old(self).var_occurences[var as int]@ == Set::<u128>::empty() {
                assert forall|i: int, k: u128| 0 <= i < 128
                    implies (#[trigger] self.index()[i].contains(k))
                    == old(self).index()[i].contains(k) by {}
                assert forall|k: u128| synced(self.index(), self.p@, k) by {
                    assert(synced(old(self).index(), self.p@, k));
                }
                assert forall|i: int, k: u128|
                    #![trigger self.free_var_slots[i], self.p@.contains_key(k)]
                    0 <= i < 128 && self.free_var_slots[i] && self.p@.contains_key(k)
                        implies !has_var(k, i as u32) by {
                    if i == var as int {
                        assert(synced(old(self).index(), self.p@, k));
                        if has_var(k, i as u32) {
                            assert(old(self).index()[i].contains(k));
                        }
                    } else {
                        assert(old(self).free_var_slots[i]);
                    }
                }
            }
        }
        listed
    }

    /// Makes `poly` the working polynomial and lists its terms anew. The
    /// table is left as it is: the engine is in order afterwards where no
    /// term of `poly` holds the variable of a free slot.
    pub fn add_from_generates(&mut self, poly: BPolynom)
        requires
            poly.wf(),
        ensures
            final(self).p@ == poly@,
            final(self).p.wf(),
            final(self).table() == old(self).table(),
            indexed(final(self).index(), poly@),
            table_ok(old(self).table()) && (forall|i: int, k: u128|
                0 <= i < 128 && old(self).free_var_slots[i] && #[trigger] has_var(k, i as u32)
                    ==> !poly@.contains_key(k))
                ==> final(self).wf(),
    {
        self.p = poly;
        let mut i: usize = 0;
        while i < 128
            invariant
                i <= 128,
                self.p == poly,
                self.table() == old(self).table(),
                forall|j: int, k: u128| 0 <= j < i
                    ==> !(#[trigger] self.var_occurences[j]@.contains(k)),
            decreases 128 - i,
        {
            self.var_occurences[i].clear();
            i += 1;
        }
        build_index(&mut self.var_occurences, &self.p);
    }

    /// The slot of the identifier `ext`; where it has none yet, the lowest
    /// free slot is bound to it under `name`.
    fn slot_for(&mut self, ext: usize, name: String) -> (slot: u32)
        requires
            table_ok(old(self).table()),
            slot_of(old(self).table(), ext) is Some,
        ensures
            final(self).table() == resolved(old(self).table(), ext, name@),
            Some(slot as int) == slot_of(old(self).table(), ext),
            slot < 128,
            final(self).p == old(self).p,
            final(self).var_occurences == old(self).var_occurences,
    {
        proof {
            lemma_lowest_free(self.free_var_slots@);
        }
        match self.reverse_mapping.get(&ext) {
            Some(slot) => *slot,
            None => {
                let fresh = self.next_free_var();
                let slot = fresh.unwrap();
                self.free_var_slots[slot] = false;
                self.var_names[slot] = name;
                self.var_mapping[slot] = ext;
                self.reverse_mapping.insert(ext, slot as u32);
                proof {
                    let t = resolved(old(self).table(), ext, name@);
                    assert(self.table().names =~= t.names);
                    assert(self.table().free =~= t.free);
                    assert(self.table().reverse =~= t.reverse);
                    assert(self.table().mapping =~= t.mapping);
                }
                slot as u32
            },
        }
    }

    /// Takes every term that holds the variable in `slot` out of the
    /// polynomial, and hands them back with that variable taken out.
    fn extract(&mut self, slot: u32) -> (cof: Vec<Monom>)
        requires
            old(self).p.wf(),
            indexed(old(self).index(), old(self).p@),
            slot < 128,
        ensures
            final(self).p.wf(),
            final(self).p@ == rest(old(self).p@, slot),
            indexed(final(self).index(), final(self).p@),
            lists(cof@, cofactor(old(self).p@, slot)),
            forall|j: int| 0 <= j < cof.len() ==> (#[trigger] cof[j]).wf(),
            final(self).table() == old(self).table(),
    {
        let ghost p0 = self.p@;
        let keys = members(&self.var_occurences[slot as usize]);
        let mut cof: Vec<Monom> = Vec::new();
        let mut n: usize = 0;
        proof {
            lemma_seen_ends(keys@);
            assert(keys@.to_set() == self.index()[slot as int]);
            assert forall|k: u128| #[trigger] keys@.to_set().contains(k)
                == (p0.contains_key(k) && has_var(k, slot)) by {
                assert(synced(self.index(), p0, k));
                if p0.contains_key(k) && has_var(k, slot) {
                    assert(self.index()[slot as int].contains(k));
                }
            }
        }
        while n < keys.len()
            invariant
                n <= keys.len(),
                slot < 128,
                p0 == old(self).p@,
                reduced(p0),
                bounded(p0),
                self.p.wf(),
                self.table() == old(self).table(),
                keys@.no_duplicates(),
                forall|k: u128| #[trigger] keys@.to_set().contains(k)
                    == (p0.contains_key(k) && has_var(k, slot)),
                indexed(self.index(), self.p@),
                forall|k: u128| #[trigger]
                    self.p@.contains_key(k)
                        == (p0.contains_key(k) && !seen(keys@, n as int).contains(k)),
                forall|k: u128| #[trigger] self.p@.contains_key(k) ==> self.p@[k] == p0[k],
                cof@.len() == n,
                forall|j: int| 0 <= j < n
                    ==> (#[trigger] cof@[j]) == term(without(keys@[j], slot), p0[keys@[j]])
                    && cof@[j].wf(),
            decreases keys.len() - n,
        {
            let key = keys[n];
            proof {
                lemma_seen(keys@, n as int);
                assert(keys@.to_set().contains(key));
                assert(self.p@.contains_key(key));
            }
            let found = self.p.get(key);
            let m = found.unwrap();
            let ghost before_p = self.p@;
            let ghost before_index = self.index();
            self.p.remove(key);
            sync(&mut self.var_occurences, &self.p, key);
            proof {
                assert(fits(coeff(before_p, key)));
                lemma_term(key, before_p[key]);
                assert forall|k: u128| synced(self.index(), self.p@, k) by {
                    if k != key {
                        assert(synced(before_index, before_p, k));
                        assert forall|i: int| 0 <= i < 128 && has_var(k, i as u32)
                            implies (#[trigger] self.index()[i].contains(k))
                            == self.p@.contains_key(k) by {
                            assert(before_index[i].contains(k) == before_p.contains_key(k));
                        }
                    }
                }
            }
            cof.push(Monom::new(key & !(1u128 << (slot as u128)), m.factor()));
            n += 1;
        }
        proof {
            assert(self.p@ =~= rest(p0, slot));
            let c = cofactor(p0, slot);
            let ks = products(cof@);
            assert forall|j: int| 0 <= j < cof@.len()
                implies (#[trigger] cof@[j]).vars() == without(keys@[j], slot)
                && cof@[j].coefficient() == p0[keys@[j]] && p0.contains_key(keys@[j])
                && has_var(keys@[j], slot) by {
                assert(cof@[j] == term(without(keys@[j], slot), p0[keys@[j]]));
                assert(keys@.to_set().contains(keys@[j]));
                assert(fits(coeff(p0, keys@[j])));
                lemma_term(without(keys@[j], slot), p0[keys@[j]]);
            }
            assert forall|a: int, b: int| 0 <= a < ks.len() && 0 <= b < ks.len() && a != b
                implies ks[a] != ks[b] by {
                assert(cof@[a] == term(without(keys@[a], slot), p0[keys@[a]]));
                assert(cof@[b] == term(without(keys@[b], slot), p0[keys@[b]]));
                assert(keys@.to_set().contains(keys@[a]));
                assert(keys@.to_set().contains(keys@[b]));
                if ks[a] == ks[b] {
                    lemma_without_injective(keys@[a], keys@[b], slot);
                }
            }
            assert forall|v: u128| ks.to_set().contains(v) == c.dom().contains(v) by {
                if ks.to_set().contains(v) {
                    let j = choose|j: int| 0 <= j < ks.len() && ks[j] == v;
                    assert(cof@[j] == term(without(keys@[j], slot), p0[keys@[j]]));
                    assert(keys@.to_set().contains(keys@[j]));
                    lemma_without(keys@[j], slot, slot);
                    lemma_without_with(keys@[j], slot);
                }
                if c.dom().contains(v) {
                    let u = v | single(slot);
                    lemma_with(v, slot, slot);
                    lemma_with_without(v, slot);
                    assert(keys@.to_set().contains(u));
                    let j = choose|j: int| 0 <= j < keys@.len() && keys@[j] == u;
                    assert(cof@[j] == term(without(keys@[j], slot), p0[keys@[j]]));
                    assert(ks[j] == v);
                }
            }
            assert(ks.to_set() =~= c.dom());
            assert forall|j: int| 0 <= j < cof@.len()
                implies (#[trigger] cof@[j]).coefficient() == coeff(c, cof@[j].vars()) by {
                assert(cof@[j] == term(without(keys@[j], slot), p0[keys@[j]]));
                assert(keys@.to_set().contains(keys@[j]));
                lemma_without(keys@[j], slot, slot);
                lemma_without_with(keys@[j], slot);
            }
        }
        cof
    }

    /// Adds `cof · g` to the polynomial for every term `g` of `gate`, where
    /// `cof` lists what the replaced variable was multiplied by.
    fn apply_gate(&mut self, cof: &Vec<Monom>, Ghost(p0): Ghost<Map<u128, int>>, slot: u32, gate: &Vec<Monom>)
        requires
            old(self).p.wf(),
            indexed(old(self).index(), old(self).p@),
            slot < 128,
            reduced(p0),
            p0.dom().finite(),
            old(self).p@ == rest(p0, slot),
            lists(cof@, cofactor(p0, slot)),
            forall|j: int| 0 <= j < cof.len() ==> (#[trigger] cof[j]).wf(),
            forall|j: int| 0 <= j < gate.len() ==> (#[trigger] gate[j]).wf(),
            replacement_fits(p0, slot, pairs(gate@)),
        ensures
            final(self).p.wf(),
            indexed(final(self).index(), final(self).p@),
            final(self).p@ == substitute(p0, slot, pairs(gate@)),
            final(self).table() == old(self).table(),
    {
        let ghost c = cofactor(p0, slot);
        let ghost terms = pairs(gate@);
        let mut n: usize = 0;
        proof {
            vstd::seq_lib::seq_to_set_is_finite(products(cof@));
        }
        while n < gate.len()
            invariant
                n <= gate.len(),
                slot < 128,
                reduced(p0),
                p0.dom().finite(),
                c == cofactor(p0, slot),
                c.dom().finite(),
                terms == pairs(gate@),
                self.p.wf(),
                indexed(self.index(), self.p@),
                lists(cof@, c),
                forall|j: int| 0 <= j < cof.len() ==> (#[trigger] cof[j]).wf(),
                forall|j: int| 0 <= j < gate.len() ==> (#[trigger] gate[j]).wf(),
                replacement_fits(p0, slot, terms),
                self.p@ == substitute_upto(p0, slot, terms, n as int),
                self.table() == old(self).table(),
            decreases gate.len() - n,
        {
            let g = gate[n];
            let ghost w = g.vars();
            let ghost before = self.p@;
            let ghost before_index = self.index();
            proof {
                assert(terms[n as int] == (g.vars(), g.coefficient()));
                assert(product_fits(self.p@, c, w, g.coefficient()));
            }
            self.p.add_product(cof, Ghost(c), g.var_product(), g.factor());
            proof {
                let added = poly_mul_term(c, w, g.coefficient());
                lemma_poly_add(before, added);
                assert forall|k: u128| synced(before_index, self.p@, k) || pending(cof@, w, 0, k) by {
                    if coeff(added, k) != 0 {
                        lemma_mul_term_support(c, w, g.coefficient(), k);
                        let u = choose|u: u128| c.contains_key(u) && (u | w) == k;
                        assert(products(cof@).to_set().contains(u));
                        let j = choose|j: int| 0 <= j < products(cof@).len() && products(cof@)[j]
                            == u;
                        assert(cof@[j].vars() | w == k);
                    } else {
                        assert(coeff(self.p@, k) == coeff(before, k));
                        assert(self.p@.contains_key(k) == before.contains_key(k));
                        assert(synced(before_index, before, k));
                        assert forall|i: int| 0 <= i < 128 && has_var(k, i as u32)
                            implies (#[trigger] before_index[i].contains(k))
                            == self.p@.contains_key(k) by {
                            assert(before_index[i].contains(k) == before.contains_key(k));
                        }
                    }
                }
            }
            reindex(&mut self.var_occurences, &self.p, cof, g.var_product());
            n += 1;
        }
    }

    /// Starts the replacement of `out`: the terms that hold its variable leave
    /// the polynomial and are handed back with the variable taken out, and
    /// its slot is given up. All of them leave before any term comes back, so
    /// that a term that comes back with a new variable in the same slot is
    /// never taken for one that has yet to leave.
    fn begin(&mut self, out: usize) -> (start: (u32, Vec<Monom>))
        requires
            old(self).wf(),
            old(self).reverse_mapping@.contains_key(out),
        ensures
            start.0 == old(self).reverse_mapping@[out],
            start.0 < 128,
            final(self).table() == release(old(self).table(), start.0 as int),
            final(self).p.wf(),
            final(self).p@ == rest(old(self).p@, start.0),
            indexed(final(self).index(), final(self).p@),
            lists(start.1@, cofactor(old(self).p@, start.0)),
            forall|j: int| 0 <= j < start.1.len() ==> (#[trigger] start.1[j]).wf(),
    {
        let found = self.reverse_mapping.get(&out);
        let slot: u32 = *found.unwrap();
        proof {
            assert(self.table().reverse.contains_key(out));
        }
        let cof = self.extract(slot);
        let ghost mid = self.index();
        let _listed = self.free_var(slot as usize);
        proof {
            assert forall|i: int, k: u128| 0 <= i < 128
                implies (#[trigger] self.index()[i].contains(k)) == mid[i].contains(k) by {
                if i == slot as int {
                    assert(synced(mid, self.p@, k));
                }
            }
            assert forall|k: u128| synced(self.index(), self.p@, k) by {
                assert(synced(mid, self.p@, k));
            }
        }
        (slot, cof)
    }

    /// Ends a replacement: the terms in `cof` come back multiplied by each
    /// term of `gate`.
    fn finish(
        &mut self,
        cof: &Vec<Monom>,
        Ghost(p0): Ghost<Map<u128, int>>,
        Ghost(free0): Ghost<Seq<bool>>,
        slot: u32,
        gate: &Vec<Monom>,
    )
        requires
            old(self).p.wf(),
            indexed(old(self).index(), old(self).p@),
            table_ok(old(self).table()),
            slot < 128,
            reduced(p0),
            p0.dom().finite(),
            old(self).p@ == rest(p0, slot),
            lists(cof@, cofactor(p0, slot)),
            forall|j: int| 0 <= j < cof.len() ==> (#[trigger] cof[j]).wf(),
            forall|j: int| 0 <= j < gate.len() ==> (#[trigger] gate[j]).wf(),
            replacement_fits(p0, slot, pairs(gate@)),
            free0.len() == 128,
            forall|i: int| 0 <= i < 128 && #[trigger] old(self).free_var_slots[i]
                ==> free0[i] || i == slot,
            forall|i: int, k: u128|
                #![trigger free0[i], p0.contains_key(k)]
                0 <= i < 128 && free0[i] && p0.contains_key(k) ==> !has_var(k, i as u32),
            forall|j: int, i: u32|
                0 <= j < gate.len() && #[trigger] has_var(gate[j].vars(), i)
                    ==> !old(self).free_var_slots[i as int],
        ensures
            final(self).wf(),
            final(self).p@ == substitute(p0, slot, pairs(gate@)),
            final(self).table() == old(self).table(),
    {
        self.apply_gate(cof, Ghost(p0), slot, gate);
        proof {
            vstd::seq_lib::seq_to_set_is_finite(products(cof@));
            let terms = pairs(gate@);
            assert forall|i: int, k: u128|
                #![trigger self.free_var_slots[i], self.p@.contains_key(k)]
                0 <= i < 128 && self.free_var_slots[i] && self.p@.contains_key(k)
                    implies !has_var(k, i as u32) by {
                if has_var(k, i as u32) {
                    assert(old(self).free_var_slots[i]);
                    lemma_substitute_support(p0, slot, terms, terms.len() as int, k, i as u32);
                    if exists|j: int| 0 <= j < terms.len()
                        && has_var(#[trigger] terms[j].0, i as u32) {
                        let j = choose|j: int| 0 <= j < terms.len()
                            && has_var(#[trigger] terms[j].0, i as u32);
                        assert(has_var(gate[j].vars(), i as u32));
                    } else {
                        let u = choose|u: u128| p0.contains_key(u) && has_var(u, i as u32);
                        assert(free0[i]);
                        assert(p0.contains_key(u));
                    }
                }
            }
        }
    }

    /// Replaces the variable of `out` by a gate of kind `kind` on the variables of
    /// `in1` and `in2`.
    fn replace_binary(
        &mut self,
        kind: Binary,
        out: usize,
        in1: usize,
        in_name1: String,
        in2: usize,
        in_name2: String,
    )
        requires
            old(self).wf(),
            old(self).reverse_mapping@.contains_key(out),
            first_input(old(self).table(), out, in1) is Some,
            second_input(old(self).table(), out, in1, in2) is Some,
            replacement_fits(
                old(self).p@,
                output(old(self).table(), out),
                binary_gate(
                    kind,
                    input_one(old(self).table(), out, in1),
                    input_two(old(self).table(), out, in1, in2),
                ),
            ),
        ensures
            final(self).wf(),
            final(self).table() == table_after_two(
                old(self).table(),
                out,
                in1,
                in_name1@,
                in2,
                in_name2@,
            ),
            final(self).p@ == substitute(
                old(self).p@,
                output(old(self).table(), out),
                binary_gate(
                    kind,
                    input_one(old(self).table(), out, in1),
                    input_two(old(self).table(), out, in1, in2),
                ),
            ),
            bijective(old(self).table()) ==> bijective(final(self).table()),
    {
        let ghost p0 = self.p@;
        let ghost t0 = self.table();
        proof {
            lemma_two_inputs(t0, out, in1, in_name1@, in2, in_name2@);
            lemma_second_input(t0, out, in1, in_name1@, in2);
        }
        let (slot, cof) = self.begin(out);
        proof {
            lemma_release(t0, slot as int);
        }
        let y = self.slot_for(in1, in_name1);
        proof {
            lemma_resolved(release(t0, slot as int), in1, in_name1@);
        }
        let z = self.slot_for(in2, in_name2);
        let first = 1u128 << (y as u128);
        let second = 1u128 << (z as u128);
        let mut gate: Vec<Monom> = Vec::new();
        match kind {
            Binary::And => {
                gate.push(Monom::new(first | second, 1));
            },
            Binary::Or => {
                gate.push(Monom::new(first, 1));
                gate.push(Monom::new(second, 1));
                gate.push(Monom::new(first | second, -1));
            },
            Binary::Xor => {
                gate.push(Monom::new(first, 1));
                gate.push(Monom::new(second, 1));
                gate.push(Monom::new(first | second, -2));
            },
        }
        proof {
            broadcast use lemma_term;
            assert(pairs(gate@) =~= binary_gate(kind, y, z));
            assert forall|j: int, i: u32| 0 <= j < gate.len()
                && #[trigger] has_var(gate[j].vars(), i) implies !self.free_var_slots[i as int] by {
                lemma_single(y, i);
                lemma_single(z, i);
                lemma_union(single(y), single(z), i);
            }
        }
        self.finish(&cof, Ghost(p0), Ghost(t0.free), slot, &gate);
    }

    /// Replaces the variable of `out` by `in1 ⊕ in2`: every term `c · x · μ`
    /// becomes `c·μ·y + c·μ·z − 2·c·μ·y·z`.
    ///
    /// The slot of `out` is given up first, so that an input not seen before
    /// may take it; such an input is bound to the lowest free slot under the
    /// name given for it. `out` must be bound, each new input must find a
    /// free slot, and every sum that can arise on the way must fit, in
    /// whatever order the terms are visited (`laws::law_small_replacement`
    /// shows it from the sum of the magnitudes).
    pub fn xor_replace(&mut self, out: usize, in1: usize, in_name1: String, in2: usize, in_name2: String)
        requires
            old(self).wf(),
            old(self).reverse_mapping@.contains_key(out),
            first_input(old(self).table(), out, in1) is Some,
            second_input(old(self).table(), out, in1, in2) is Some,
            replacement_fits(
                old(self).p@,
                output(old(self).table(), out),
                xor_gate(
                    input_one(old(self).table(), out, in1),
                    input_two(old(self).table(), out, in1, in2),
                ),
            ),
        ensures
            final(self).wf(),
            final(self).table() == table_after_two(
                old(self).table(),
                out,
                in1,
                in_name1@,
                in2,
                in_name2@,
            ),
            final(self).p@ == substitute(
                old(self).p@,
                output(old(self).table(), out),
                xor_gate(
                    input_one(old(self).table(), out, in1),
                    input_two(old(self).table(), out, in1, in2),
                ),
            ),
            bijective(old(self).table()) ==> bijective(final(self).table()),
    {
        self.replace_binary(Binary::Xor, out, in1, in_name1, in2, in_name2);
    }

    /// Replaces the variable of `out` by `in1 ∨ in2`: every term `c · x · μ`
    /// becomes `c·μ·y + c·μ·z − c·μ·y·z`. Slots and sizes are treated as in
    /// `xor_replace`.
    pub fn or_replace(&mut self, out: usize, in1: usize, in_name1: String, in2: usize, in_name2: String)
        requires
            old(self).wf(),
            old(self).reverse_mapping@.contains_key(out),
            first_input(old(self).table(), out, in1) is Some,
            second_input(old(self).table(), out, in1, in2) is Some,
            replacement_fits(
                old(self).p@,
                output(old(self).table(), out),
                or_gate(
                    input_one(old(self).table(), out, in1),
                    input_two(old(self).table(), out, in1, in2),
                ),
            ),
        ensures
            final(self).wf(),
            final(self).table() == table_after_two(
                old(self).table(),
                out,
                in1,
                in_name1@,
                in2,
                in_name2@,
            ),
            final(self).p@ == substitute(
                old(self).p@,
                output(old(self).table(), out),
                or_gate(
                    input_one(old(self).table(), out, in1),
                    input_two(old(self).table(), out, in1, in2),
                ),
            ),
            bijective(old(self).table()) ==> bijective(final(self).table()),
    {
        self.replace_binary(Binary::Or, out, in1, in_name1, in2, in_name2);
    }

    /// Replaces the variable of `out` by `in1 ∧ in2`: every term `c · x · μ`
    /// becomes `c·μ·y·z`. Slots and sizes are treated as in `xor_replace`.
    pub fn and_replace(&mut self, out: usize, in1: usize, in_name1: String, in2: usize, in_name2: String)
        requires
            old(self).wf(),
            old(self).reverse_mapping@.contains_key(out),
            first_input(old(self).table(), out, in1) is Some,
            second_input(old(self).table(), out, in1, in2) is Some,
            replacement_fits(
                old(self).p@,
                output(old(self).table(), out),
                and_gate(
                    input_one(old(self).table(), out, in1),
                    input_two(old(self).table(), out, in1, in2),
                ),
            ),
        ensures
            final(self).wf(),
            final(self).table() == table_after_two(
                old(self).table(),
                out,
                in1,
                in_name1@,
                in2,
                in_name2@,
            ),
            final(self).p@ == substitute(
                old(self).p@,
                output(old(self).table(), out),
                and_gate(
                    input_one(old(self).table(), out, in1),
                    input_two(old(self).table(), out, in1, in2),
                ),
            ),
            bijective(old(self).table()) ==> bijective(final(self).table()),
    {
        self.replace_binary(Binary::And, out, in1, in_name1, in2, in_name2);
    }

    /// Replaces the variable of `out` by `¬in1`: every term `c · x · μ`
    /// becomes `c·μ − c·μ·y`. Slots and sizes are treated as in `xor_replace`.
    pub fn not_replace(&mut self, out: usize, in1: usize, in_name: String)
        requires
            old(self).wf(),
            old(self).reverse_mapping@.contains_key(out),
            first_input(old(self).table(), out, in1) is Some,
            replacement_fits(
                old(self).p@,
                output(old(self).table(), out),
                not_gate(input_one(old(self).table(), out, in1)),
            ),
        ensures
            final(self).wf(),
            final(self).table() == table_after_one(old(self).table(), out, in1, in_name@),
            final(self).p@ == substitute(
                old(self).p@,
                output(old(self).table(), out),
                not_gate(input_one(old(self).table(), out, in1)),
            ),
            bijective(old(self).table()) ==> bijective(final(self).table()),
    {
        let ghost p0 = self.p@;
        let ghost t0 = self.table();
        proof {
            lemma_one_input(t0, out, in1, in_name@);
        }
        let (slot, cof) = self.begin(out);
        proof {
            lemma_release(t0, slot as int);
        }
        let y = self.slot_for(in1, in_name);
        let mut gate: Vec<Monom> = Vec::new();
        gate.push(Monom::new(0, 1));
        gate.push(Monom::new(1u128 << (y as u128), -1));
        proof {
            broadcast use lemma_term;
            assert(pairs(gate@) =~= not_gate(y));
            assert forall|j: int, i: u32| 0 <= j < gate.len()
                && #[trigger] has_var(gate[j].vars(), i) implies !self.free_var_slots[i as int] by {
                lemma_single(y, i);
                lemma_empty_product(i);
            }
        }
        self.finish(&cof, Ghost(p0), Ghost(t0.free), slot, &gate);
    }

    /// Replaces the variable of `out` by the constant 1: every term
    /// `c · x · μ` becomes `c · μ`, and the slot of `out` is given up. Sizes
    /// are treated as in `xor_replace`.
    pub fn const_1_replace(&mut self, out: usize)
        requires
            old(self).wf(),
            old(self).reverse_mapping@.contains_key(out),
            replacement_fits(old(self).p@, output(old(self).table(), out), one_gate()),
        ensures
            final(self).wf(),
            final(self).table()
                == release(old(self).table(), output(old(self).table(), out) as int),
            final(self).p@ == substitute(old(self).p@, output(old(self).table(), out), one_gate()),
            bijective(old(self).table()) ==> bijective(final(self).table()),
    {
        let ghost p0 = self.p@;
        let ghost t0 = self.table();
        let (slot, cof) = self.begin(out);
        proof {
            lemma_release(t0, slot as int);
        }
        let mut gate: Vec<Monom> = Vec::new();
        gate.push(Monom::new(0, 1));
        proof {
            broadcast use lemma_term;
            assert(pairs(gate@) =~= one_gate());
            assert forall|j: int, i: u32| 0 <= j < gate.len()
                && #[trigger] has_var(gate[j].vars(), i) implies !self.free_var_slots[i as int] by {
                lemma_empty_product(i);
            }
        }
        self.finish(&cof, Ghost(p0), Ghost(t0.free), slot, &gate);
    }

    /// Replaces the variable of `out` by the constant 0: every term that
    /// holds it leaves, from the polynomial and from the list of every slot,
    /// and the slot of `out` is given up.
    pub fn const_0_replace(&mut self, out: usize)
        requires
            old(self).wf(),
            old(self).reverse_mapping@.contains_key(out),
        ensures
            final(self).wf(),
            final(self).table()
                == release(old(self).table(), output(old(self).table(), out) as int),
            final(self).p@ == substitute(old(self).p@, output(old(self).table(), out), zero_gate()),
            bijective(old(self).table()) ==> bijective(final(self).table()),
    {
        let ghost p0 = self.p@;
        let ghost t0 = self.table();
        let (slot, cof) = self.begin(out);
        proof {
            lemma_release(t0, slot as int);
        }
        let gate: Vec<Monom> = Vec::new();
        proof {
            assert(pairs(gate@) =~= zero_gate());
        }
        self.finish(&cof, Ghost(p0), Ghost(t0.free), slot, &gate);
    }

    /// Gives each identifier a slot and returns the value of the word that
    /// the new variables spell, lowest bit first.
    fn allot(&mut self, vars: &Vec<usize>, names: &Vec<String>, signed: bool) -> (poly: BPolynom)
        requires
            table_ok(old(self).table()),
            vars.len() <= names.len(),
            vars.len() <= 63,
        ensures
            final(self).table()
                == allotted(old(self).table(), vars@, texts(names@), vars.len() as int),
            poly@ == word(old(self).table(), vars@, texts(names@), signed, vars.len() as int),
            poly.wf(),
            final(self).p == old(self).p,
            final(self).var_occurences == old(self).var_occurences,
            table_ok(final(self).table()),
            old(self).wf() ==> final(self).wf(),
            bijective(old(self).table()) && fresh(old(self).table(), vars@) ==> bijective(
                final(self).table(),
            ),
    {
        let ghost t0 = self.table();
        let ghost ids = vars@;
        let ghost labels = texts(names@);
        let ghost tidy = bijective(t0) && fresh(t0, ids);
        let mut poly = BPolynom::empty();
        let mut factor: i64 = 1;
        let mut i: usize = 0;
        proof {
            lemma2_to64();
        }
        while i < vars.len()
            invariant
                i <= vars.len() <= 63,
                vars.len() <= names.len(),
                ids == vars@,
                labels == texts(names@),
                t0 == old(self).table(),
                tidy == (bijective(t0) && fresh(t0, ids)),
                i < vars.len() ==> factor == pow2(i as nat),
                poly.wf(),
                table_ok(self.table()),
                self.table() == allotted(t0, ids, labels, i as int),
                poly@ == word(t0, ids, labels, signed, i as int),
                self.p == old(self).p,
                self.var_occurences == old(self).var_occurences,
                forall|k: u128, s: u32| #[trigger] poly@.contains_key(k) && #[trigger] has_var(k, s)
                    ==> !self.free_var_slots[s as int],
                forall|s: int| 0 <= s < 128 && #[trigger] self.free_var_slots[s]
                    ==> old(self).free_var_slots[s],
                tidy ==> bijective(self.table()),
                tidy ==> forall|e: usize| #[trigger]
                    self.table().reverse.contains_key(e)
                        ==> t0.reverse.contains_key(e) || exists|j: int|
                        0 <= j < i && ids[j] == e,
            decreases vars.len() - i,
        {
            let ghost before = self.table();
            let ghost sum = poly@;
            proof {
                lemma_pow2_strictly_increases(i as nat, 63);
                lemma_pow2_pos(i as nat);
                lemma2_to64_rest();
                lemma_lowest_free(self.free_var_slots@);
            }
            let bit_weight: i64 = if signed && i == vars.len() - 1 {
                -factor
            } else {
                factor
            };
            match self.next_free_var() {
                Some(pos) => {
                    self.free_var_slots[pos] = false;
                    self.var_names[pos] = names[i].clone();
                    self.var_mapping[pos] = vars[i];
                    self.reverse_mapping.insert(vars[i], pos as u32);
                    let m = Monom::new(1u128 << (pos as u128), bit_weight);
                    proof {
                        let key = single(pos as u32);
                        lemma_term(key, bit_weight as int);
                        lemma_single(pos as u32, pos as u32);
                        let t = bind(before, pos as int, ids[i as int], labels[i as int]);
                        assert(self.table().names =~= t.names);
                        assert(self.table().free =~= t.free);
                        assert(self.table().reverse =~= t.reverse);
                        assert(self.table().mapping =~= t.mapping);
                        lemma_bind(before, pos as int, ids[i as int], labels[i as int]);
                        if sum.contains_key(key) {
                            assert(has_var(key, pos as u32));
                        }
                        assert(coeff(sum, key) == 0);
                        if tidy {
                            if before.reverse.contains_key(ids[i as int]) {
                                if !t0.reverse.contains_key(ids[i as int]) {
                                    let j = choose|j: int| 0 <= j < i && ids[j] == ids[i as int];
                                    assert(ids[j] == ids[i as int]);
                                }
                            }
                            assert forall|e: usize| #[trigger] self.table().reverse.contains_key(e)
                                implies t0.reverse.contains_key(e) || exists|j: int| 0 <= j < i + 1
                                && ids[j] == e by {
                                if e == ids[i as int] {
                                    assert(ids[i as int] == e);
                                } else {
                                    assert(before.reverse.contains_key(e));
                                    if !t0.reverse.contains_key(e) {
                                        let j = choose|j: int| 0 <= j < i && ids[j] == e;
                                        assert(0 <= j < i + 1 && ids[j] == e);
                                    }
                                }
                            }
                        }
                    }
                    poly.add_assign(&m);
                    proof {
                        let key = single(pos as u32);
                        lemma_add_term(sum, key, bit_weight as int);
                        assert forall|k: u128, s: u32| #[trigger] poly@.contains_key(k)
                            && #[trigger] has_var(k, s) implies !self.free_var_slots[s as int] by {
                            if k == key {
                                lemma_single(pos as u32, s);
                            } else {
                                assert(coeff(poly@, k) == coeff(sum, k));
                                assert(sum.contains_key(k));
                            }
                        }
                    }
                },
                None => {
                    proof {
                        if tidy {
                            assert forall|e: usize| #[trigger] self.table().reverse.contains_key(e)
                                implies t0.reverse.contains_key(e) || exists|j: int| 0 <= j < i + 1
                                && ids[j] == e by {
                                if !t0.reverse.contains_key(e) {
                                    let j = choose|j: int| 0 <= j < i && ids[j] == e;
                                    assert(0 <= j < i + 1 && ids[j] == e);
                                }
                            }
                        }
                    }
                },
            }
            if i + 1 < vars.len() {
                proof {
                    lemma_pow2_unfold((i + 1) as nat);
                    lemma_pow2_strictly_increases((i + 1) as nat, 63);
                }
                factor = factor * 2;
            }
            i += 1;
        }
        proof {
            if old(self).wf() {
                assert forall|s: int, k: u128|
                    #![trigger self.free_var_slots[s], self.p@.contains_key(k)]
                    0 <= s < 128 && self.free_var_slots[s] && self.p@.contains_key(k)
                        implies !has_var(k, s as u32) by {
                    assert(old(self).free_var_slots[s]);
                }
            }
        }
        poly
    }

    /// Gives each identifier the lowest slot that is free at its turn, under
    /// the name at the same place in `names`, and returns `Σ 2^i · x_i`, the
    /// value of the word that the new variables spell, lowest bit first.
    ///
    /// An identifier that finds no free slot is passed over, and its bit is
    /// missing from the sum. At most 63 bits have weights that can be stored.
    /// The table stays one to one where the identifiers are new to it and
    /// differ from one another.
    pub fn get_unsigned_poly(&mut self, vars: Vec<usize>, names: Vec<String>) -> (poly: BPolynom)
        requires
            table_ok(old(self).table()),
            vars.len() <= names.len(),
            vars.len() <= 63,
        ensures
            final(self).table()
                == allotted(old(self).table(), vars@, texts(names@), vars.len() as int),
            poly@ == word(old(self).table(), vars@, texts(names@), false, vars.len() as int),
            poly.wf(),
            final(self).p == old(self).p,
            final(self).var_occurences == old(self).var_occurences,
            old(self).wf() ==> final(self).wf(),
            bijective(old(self).table()) && fresh(old(self).table(), vars@) ==> bijective(
                final(self).table(),
            ),
    {
        self.allot(&vars, &names, false)
    }

    /// Like `get_unsigned_poly`, but the last of the `n` bits counts
    /// `−2^(n−1)`: the value of the word in two's complement.
    pub fn get_2_compl_poly(&mut self, vars: Vec<usize>, names: Vec<String>) -> (poly: BPolynom)
        requires
            table_ok(old(self).table()),
            vars.len() <= names.len(),
            vars.len() <= 63,
        ensures
            final(self).table()
                == allotted(old(self).table(), vars@, texts(names@), vars.len() as int),
            poly@ == word(old(self).table(), vars@, texts(names@), true, vars.len() as int),
            poly.wf(),
            final(self).p == old(self).p,
            final(self).var_occurences == old(self).var_occurences,
            old(self).wf() ==> final(self).wf(),
            bijective(old(self).table()) && fresh(old(self).table(), vars@) ==> bijective(
                final(self).table(),
            ),
    {
        self.allot(&vars, &names, true)
    }
}

} // verus!
