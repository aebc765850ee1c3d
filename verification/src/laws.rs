//! What holds of every monomial, every polynomial and every state of the
//! engine.

use vstd::prelude::*;
use vstd::std_specs::ops::{AddSpec, SubSpec, MulSpec};
use crate::algebra::{
    reduced, coeff, bounded, poly_add, poly_mul_term, poly_mul, product_part, factor_part,
    product_fits, factors_fit, magnitudes, magnitude, lemma_poly_add, lemma_reduced_equal,
    lemma_sum_remove, lemma_sum_zero, lemma_sum_nonnegative, lemma_restrict, lemma_mul_term_bound,
    lemma_magnitudes, lemma_magnitudes_suffice, lemma_magnitudes_suffice_for_factors,
};
use crate::bits::{has_var, single, product_of, lemma_with, lemma_empty_product};
use crate::engine::PolyEngine;
use crate::gates::{
    rest, cofactor, substitute, substitute_upto, replacement_fits, gate_magnitudes, one_gate,
    zero_gate, not_gate, and_gate, or_gate, xor_gate, lemma_split_finite, lemma_split_magnitudes,
    lemma_magnitudes_suffice_for_replacement,
};
use crate::index::synced;
use crate::monom::{Monom, fits, term, lemma_term, lemma_same_monom, lemma_coefficient_fits};
use crate::polynom::{BPolynom, lists, products};
use crate::table::bijective;
use crate::values::{
    eval, within, all_on, mass, assigned, gate_value, gate_value_upto, lemma_eval_add,
    lemma_eval_mul, lemma_eval_mul_term, lemma_eval_substitute, lemma_eval_replaced,
    lemma_within_single, lemma_within_pair, lemma_coeff_below_sum, lemma_mass_parts,
    lemma_gate_weight, lemma_nonnegative_replacement,
};

verus! {

/// A monomial built from a list of slots holds exactly the variables that
/// the list names, however often it names them.
pub proof fn law_product_of(slots: Seq<u32>, j: u32)
    requires
        forall|i: int| 0 <= i < slots.len() ==> slots[i] < 128,
    ensures
        has_var(product_of(slots), j) == (j < 128 && slots.contains(j)),
    decreases slots.len(),
{
    if slots.len() == 0 {
        lemma_empty_product(j);
    } else {
        let front = slots.drop_last();
        law_product_of(front, j);
        lemma_with(product_of(front), slots.last(), j);
        if slots.contains(j) {
            let i = choose|i: int| 0 <= i < slots.len() && slots[i] == j;
            if i < slots.len() - 1 {
                assert(front[i] == j);
            }
        }
        if front.contains(j) {
            let i = choose|i: int| 0 <= i < front.len() && front[i] == j;
            assert(slots[i] == j);
        }
    }
}

/// Adding a number to a term and taking it away again gives the term back,
/// where the sum in between is a term, that is, not zero.
pub proof fn law_add_then_sub(m: Monom, k: i64)
    requires
        m.wf(),
        fits(m.coefficient() + k),
        m.coefficient() + k != 0,
    ensures
        m.add_spec(k) is Some,
        m.add_spec(k)->0.sub_spec(k) == Some(m),
{
    lemma_coefficient_fits(m);
    lemma_term(m.vars(), m.coefficient() + k);
    lemma_term(m.vars(), m.coefficient());
    lemma_same_monom(term(m.vars(), m.coefficient()), m);
}

/// Multiplying by a product of variables a second time changes nothing:
/// `m · x · x = m · x`.
pub proof fn law_variables_idempotent(m: Monom, x: Monom)
    requires
        x.coefficient() == 1,
    ensures
        m.mul_spec(x).mul_spec(x) == m.mul_spec(x),
{
    let a = m.vars();
    let b = x.vars();
    assert((a | b) | b == a | b) by (bit_vector);
    lemma_coefficient_fits(m);
    lemma_term(a | b, m.coefficient() * 1);
}

/// The product of two terms is a term: its coefficient is not zero.
pub proof fn law_product_is_a_term(m: Monom, n: Monom)
    requires
        m.wf(),
        n.wf(),
        fits(m.coefficient() * n.coefficient()),
    ensures
        m.mul_spec(n).wf(),
{
    lemma_term(m.vars() | n.vars(), m.coefficient() * n.coefficient());
    assert(m.coefficient() * n.coefficient() != 0) by (nonlinear_arith)
        requires
            m.coefficient() != 0,
            n.coefficient() != 0,
    ;
}

/// The sum of polynomials does not depend on the order of the two.
pub proof fn law_sum_commutes(p: Map<u128, int>, q: Map<u128, int>)
    ensures
        poly_add(p, q) == poly_add(q, p),
{
    lemma_poly_add(p, q);
    lemma_poly_add(q, p);
    lemma_reduced_equal(poly_add(p, q), poly_add(q, p));
}

/// The sum of three polynomials does not depend on which two are added first.
pub proof fn law_sum_associates(p: Map<u128, int>, q: Map<u128, int>, r: Map<u128, int>)
    ensures
        poly_add(poly_add(p, q), r) == poly_add(p, poly_add(q, r)),
{
    lemma_poly_add(p, q);
    lemma_poly_add(q, r);
    lemma_poly_add(poly_add(p, q), r);
    lemma_poly_add(p, poly_add(q, r));
    lemma_reduced_equal(poly_add(poly_add(p, q), r), poly_add(p, poly_add(q, r)));
}

/// No term of a polynomial has coefficient zero.
pub proof fn law_no_zero_term(p: BPolynom, k: u128)
    requires
        p.wf(),
        p@.contains_key(k),
    ensures
        p@[k] != 0,
{
}

/// No two terms of a polynomial have the same variable product.
pub proof fn law_one_term_per_product(p: BPolynom, ts: Seq<Monom>, i: int, j: int)
    requires
        lists(ts, p@),
        0 <= i < ts.len(),
        0 <= j < ts.len(),
        i != j,
    ensures
        ts[i].vars() != ts[j].vars(),
{
    assert(products(ts)[i] == ts[i].vars());
    assert(products(ts)[j] == ts[j].vars());
}

/// A variable product with at least one variable has a term in the engine's
/// polynomial exactly when it is listed under the slot of each of its
/// variables.
pub proof fn law_index_consistent(en: PolyEngine, k: u128)
    requires
        en.wf(),
        exists|i: u32| has_var(k, i),
    ensures
        en.p@.contains_key(k) <==> forall|i: u32|
            has_var(k, i) ==> en.var_occurences[i as int]@.contains(k),
{
    assert(synced(en.index(), en.p@, k));
    if en.p@.contains_key(k) {
        assert forall|i: u32| has_var(k, i) implies en.var_occurences[i as int]@.contains(k) by {
            assert(en.index()[i as int].contains(k));
        }
    }
    if forall|i: u32| has_var(k, i) ==> en.var_occurences[i as int]@.contains(k) {
        let i = choose|i: u32| has_var(k, i);
        assert(en.index()[i as int].contains(k));
    }
}

/// What is listed under a slot is a term of the polynomial that holds the
/// slot's variable.
pub proof fn law_index_sound(en: PolyEngine, k: u128, i: u32)
    requires
        en.wf(),
        i < 128,
        en.var_occurences[i as int]@.contains(k),
    ensures
        en.p@.contains_key(k),
        has_var(k, i),
{
    assert(en.index()[i as int].contains(k));
    assert(synced(en.index(), en.p@, k));
}

/// A free slot has no occurrences and no name.
pub proof fn law_free_slots_clean(en: PolyEngine, i: int)
    requires
        en.wf(),
        0 <= i < 128,
        en.free_var_slots[i],
    ensures
        en.var_occurences[i]@ == Set::<u128>::empty(),
        en.var_names[i]@ == Seq::<char>::empty(),
{
    assert forall|k: u128| !en.var_occurences[i]@.contains(k) by {
        if en.var_occurences[i]@.contains(k) {
            law_index_sound(en, k, i as u32);
        }
    }
    assert(en.var_occurences[i]@ =~= Set::<u128>::empty());
    assert(en.table().free[i]);
    assert(en.table().names[i] == en.var_names[i]@);
}

/// Slots in use and bound identifiers correspond one to one: an identifier
/// is bound to a slot exactly when the slot is in use and bound to it.
pub proof fn law_slots_and_identifiers(en: PolyEngine, e: usize, i: u32)
    requires
        en.wf(),
        bijective(en.table()),
        i < 128,
    ensures
        (en.reverse_mapping@.contains_key(e) && en.reverse_mapping@[e] == i) <==> (
        en.var_mapping[i as int] == e && !en.free_var_slots[i as int]),
{
    let t = en.table();
    if t.reverse.contains_key(e) && t.reverse[e] == i {
    }
    if t.mapping[i as int] == e && !t.free[i as int] {
    }
}

/// Replacing a variable by the constant 1 adds to each term without it the
/// term that differs from it by that variable alone, and leaves no term that
/// holds the variable: this is `p` with 1 put in for the variable.
pub proof fn law_const_1(p: Map<u128, int>, slot: u32, v: u128)
    requires
        p.dom().finite(),
        slot < 128,
    ensures
        coeff(substitute(p, slot, one_gate()), v) == if has_var(v, slot) {
            0
        } else {
            coeff(p, v) + coeff(p, v | single(slot))
        },
{
    let cof = cofactor(p, slot);
    let f = product_part(cof, 0, 1, v);
    lemma_split_finite(p, slot);
    assert(substitute(p, slot, one_gate()) == poly_add(
        substitute_upto(p, slot, one_gate(), 0),
        poly_mul_term(cof, 0, 1),
    ));
    lemma_poly_add(rest(p, slot), poly_mul_term(cof, 0, 1));
    assert forall|u: u128| (u | 0) == u by {
        assert((u | 0u128) == u) by (bit_vector);
    }
    if cof.contains_key(v) {
        lemma_sum_remove(cof.dom(), f, v);
        lemma_sum_zero(cof.dom().remove(v), f);
    } else {
        lemma_sum_zero(cof.dom(), f);
    }
    if has_var(v, slot) {
    } else {
        lemma_with(v, slot, slot);
    }
}

/// Replacing a variable by the constant 0 leaves exactly the terms without it.
pub proof fn law_const_0(p: Map<u128, int>, slot: u32)
    ensures
        substitute(p, slot, zero_gate()) == rest(p, slot),
{
}

/// After `x` has been replaced by 1, the polynomial has on every assignment
/// the value that it had with `x` at 1.
pub proof fn law_const_1_value(p: Map<u128, int>, slot: u32, on: u128)
    requires
        reduced(p),
        p.dom().finite(),
        slot < 128,
    ensures
        eval(substitute(p, slot, one_gate()), on) == eval(p, assigned(on, slot, true)),
{
    let gate = one_gate();
    lemma_within_single(slot, on);
    assert(gate_value_upto(gate, on, 0) == 0);
    assert(gate_value(gate, on) == 1);
    lemma_eval_replaced(p, slot, gate, on);
}

/// After `x` has been replaced by 0, the polynomial has on every assignment
/// the value that it had with `x` at 0.
pub proof fn law_const_0_value(p: Map<u128, int>, slot: u32, on: u128)
    requires
        reduced(p),
        p.dom().finite(),
        slot < 128,
    ensures
        eval(substitute(p, slot, zero_gate()), on) == eval(p, assigned(on, slot, false)),
{
    lemma_eval_replaced(p, slot, zero_gate(), on);
}

/// After `x` has been replaced by `¬y`, the polynomial has on every
/// assignment the value that it had with `x` at the negation of `y`.
pub proof fn law_not_value(p: Map<u128, int>, slot: u32, y: u32, on: u128)
    requires
        reduced(p),
        p.dom().finite(),
        slot < 128,
        y < 128,
    ensures
        eval(substitute(p, slot, not_gate(y)), on) == eval(p, assigned(on, slot, !has_var(on, y))),
{
    let gate = not_gate(y);
    lemma_within_single(y, on);
    assert(gate_value_upto(gate, on, 0) == 0);
    assert(gate_value_upto(gate, on, 1) == 1);
    assert(gate_value(gate, on) == if has_var(on, y) {
        0int
    } else {
        1int
    });
    lemma_eval_replaced(p, slot, gate, on);
}

/// After `x` has been replaced by `y ∧ z`, the polynomial has on every
/// assignment the value that it had with `x` at the conjunction of `y` and `z`.
pub proof fn law_and_value(p: Map<u128, int>, slot: u32, y: u32, z: u32, on: u128)
    requires
        reduced(p),
        p.dom().finite(),
        slot < 128,
        y < 128,
        z < 128,
    ensures
        eval(substitute(p, slot, and_gate(y, z)), on) == eval(
            p,
            assigned(on, slot, has_var(on, y) && has_var(on, z)),
        ),
{
    let gate = and_gate(y, z);
    lemma_within_pair(y, z, on);
    assert(gate_value_upto(gate, on, 0) == 0);
    assert(gate_value(gate, on) == if has_var(on, y) && has_var(on, z) {
        1int
    } else {
        0int
    });
    lemma_eval_replaced(p, slot, gate, on);
}

/// After `x` has been replaced by `y ∨ z`, the polynomial has on every
/// assignment the value that it had with `x` at the disjunction of `y` and `z`.
pub proof fn law_or_value(p: Map<u128, int>, slot: u32, y: u32, z: u32, on: u128)
    requires
        reduced(p),
        p.dom().finite(),
        slot < 128,
        y < 128,
        z < 128,
    ensures
        eval(substitute(p, slot, or_gate(y, z)), on) == eval(
            p,
            assigned(on, slot, has_var(on, y) || has_var(on, z)),
        ),
{
    let gate = or_gate(y, z);
    lemma_within_single(y, on);
    lemma_within_single(z, on);
    lemma_within_pair(y, z, on);
    assert(gate_value_upto(gate, on, 0) == 0);
    assert(gate_value_upto(gate, on, 1) == if has_var(on, y) {
        1int
    } else {
        0int
    });
    assert(gate_value_upto(gate, on, 2) == gate_value_upto(gate, on, 1) + if has_var(on, z) {
        1int
    } else {
        0int
    });
    assert(gate_value(gate, on) == if has_var(on, y) || has_var(on, z) {
        1int
    } else {
        0int
    });
    lemma_eval_replaced(p, slot, gate, on);
}

/// After `x` has been replaced by `y ⊕ z`, the polynomial has on every
/// assignment the value that it had with `x` at 1 where exactly one of `y`
/// and `z` is 1, and at 0 elsewhere.
pub proof fn law_xor_value(p: Map<u128, int>, slot: u32, y: u32, z: u32, on: u128)
    requires
        reduced(p),
        p.dom().finite(),
        slot < 128,
        y < 128,
        z < 128,
    ensures
        eval(substitute(p, slot, xor_gate(y, z)), on) == eval(
            p,
            assigned(on, slot, has_var(on, y) != has_var(on, z)),
        ),
{
    let gate = xor_gate(y, z);
    lemma_within_single(y, on);
    lemma_within_single(z, on);
    lemma_within_pair(y, z, on);
    assert(gate_value_upto(gate, on, 0) == 0);
    assert(gate_value_upto(gate, on, 1) == if has_var(on, y) {
        1int
    } else {
        0int
    });
    assert(gate_value_upto(gate, on, 2) == gate_value_upto(gate, on, 1) + if has_var(on, z) {
        1int
    } else {
        0int
    });
    assert(gate_value(gate, on) == if has_var(on, y) != has_var(on, z) {
        1int
    } else {
        0int
    });
    lemma_eval_replaced(p, slot, gate, on);
}

/// The value of a sum of polynomials is the sum of their values.
pub proof fn law_sum_value(p: Map<u128, int>, q: Map<u128, int>, on: u128)
    requires
        p.dom().finite(),
        q.dom().finite(),
    ensures
        eval(poly_add(p, q), on) == eval(p, on) + eval(q, on),
{
    lemma_eval_add(p, q, on);
}

/// The value of a product of polynomials is the product of their values.
pub proof fn law_product_value(p: Map<u128, int>, q: Map<u128, int>, on: u128)
    requires
        p.dom().finite(),
        q.dom().finite(),
    ensures
        eval(poly_mul(p, q), on) == eval(p, on) * eval(q, on),
{
    lemma_eval_mul(p, q, on);
}

/// A product with a monomial can be built in whatever order where the sum
/// of the magnitudes of the polynomial's coefficients, times the magnitude of
/// the monomial's coefficient, can be stored.
pub proof fn law_small_product(p: Map<u128, int>, w: u128, c: int)
    requires
        p.dom().finite(),
        mass(p) * magnitude(c) <= i64::MAX,
    ensures
        bounded(poly_mul_term(magnitudes(p), w, magnitude(c))),
        product_fits(Map::empty(), p, w, c),
{
    let big = magnitudes(p);
    let product = poly_mul_term(big, w, magnitude(c));
    lemma_magnitudes(p);
    lemma_eval_mul_term(big, w, magnitude(c), all_on());
    assert(within(w, all_on())) by {
        assert(w & !u128::MAX == 0) by (bit_vector);
    }
    assert(magnitude(c) * mass(p) == mass(p) * magnitude(c)) by (nonlinear_arith);
    assert forall|x: u128| i64::MIN <= #[trigger] coeff(product, x) <= i64::MAX by {
        assert forall|u: u128| 0 <= #[trigger] coeff(product, u) by {
            lemma_restrict(p, p.dom());
            lemma_mul_term_bound(p, p.dom(), w, c, u);
        }
        lemma_coeff_below_sum(product, x);
    }
    lemma_magnitudes_suffice(Map::empty(), p, w, c);
}

/// A product of polynomials can be built in whatever order where the product
/// of the sums of the magnitudes of their coefficients can be stored.
pub proof fn law_small_factors(p: Map<u128, int>, q: Map<u128, int>)
    requires
        p.dom().finite(),
        q.dom().finite(),
        mass(p) * mass(q) <= i64::MAX,
    ensures
        bounded(poly_mul(magnitudes(p), magnitudes(q))),
        factors_fit(p, q),
{
    let a = magnitudes(p);
    let b = magnitudes(q);
    let product = poly_mul(a, b);
    lemma_magnitudes(p);
    lemma_magnitudes(q);
    lemma_eval_mul(a, b, all_on());
    assert forall|x: u128| i64::MIN <= #[trigger] coeff(product, x) <= i64::MAX by {
        assert forall|u: u128| 0 <= #[trigger] coeff(product, u) by {
            let f = factor_part(a, b, u);
            assert forall|w: u128| b.dom().contains(w) implies 0 <= f(w) by {
                lemma_restrict(p, p.dom());
                lemma_mul_term_bound(p, p.dom(), w, q[w], u);
            }
            lemma_sum_nonnegative(b.dom(), f);
        }
        lemma_coeff_below_sum(product, x);
    }
    lemma_magnitudes_suffice_for_factors(p, q);
}

/// A replacement can be built in whatever order where the sum of the
/// magnitudes of the polynomial's coefficients can be stored, and so can
/// its product with the sum of the magnitudes of the coefficients of what
/// comes in place of the variable.
pub proof fn law_small_replacement(p: Map<u128, int>, slot: u32, gate: Seq<(u128, int)>)
    requires
        reduced(p),
        p.dom().finite(),
        slot < 128,
        mass(p) <= i64::MAX,
        mass(p) * gate_value(gate_magnitudes(gate), all_on()) <= i64::MAX,
    ensures
        bounded(substitute(magnitudes(p), slot, gate_magnitudes(gate))),
        replacement_fits(p, slot, gate),
{
    let big = magnitudes(p);
    let terms = gate_magnitudes(gate);
    let after = substitute(big, slot, terms);
    let weight = gate_value(terms, all_on());
    lemma_magnitudes(p);
    lemma_split_magnitudes(p, slot);
    lemma_split_finite(big, slot);
    lemma_eval_substitute(big, slot, terms, terms.len() as int, all_on());
    // the mass of the two parts is the mass of the whole
    assert forall|u: u128| within(u, all_on()) by {
        assert(u & !u128::MAX == 0) by (bit_vector);
    }
    lemma_magnitudes(rest(p, slot));
    lemma_magnitudes(cofactor(p, slot));
    lemma_coeff_below_sum(rest(big, slot), 0);
    lemma_coeff_below_sum(cofactor(big, slot), 0);
    lemma_mass_parts(big, slot);
    lemma_gate_weight(terms, terms.len() as int);
    let r = eval(rest(big, slot), all_on());
    let c = eval(cofactor(big, slot), all_on());
    assert(r + c * weight <= i64::MAX) by (nonlinear_arith)
        requires
            0 <= r,
            0 <= c,
            0 <= weight,
            r + c <= i64::MAX,
            (r + c) * weight <= i64::MAX,
    ;
    assert forall|x: u128| i64::MIN <= #[trigger] coeff(after, x) <= i64::MAX by {
        assert forall|u: u128| 0 <= #[trigger] coeff(after, u) by {
            lemma_nonnegative_replacement(p, slot, gate, gate.len() as int, u);
        }
        lemma_coeff_below_sum(after, x);
    }
    lemma_magnitudes_suffice_for_replacement(p, slot, gate);
}

} // verus!
