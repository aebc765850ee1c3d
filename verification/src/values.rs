//! The value of a polynomial when its variables are given Boolean values.

use vstd::prelude::*;
use crate::algebra::{
    coeff, reduced, add_term, poly_add, poly_mul_term, poly_mul, product_part, sum_over,
    magnitudes, lemma_poly_add, lemma_add_term, lemma_reduced_equal, lemma_sum_remove,
    lemma_sum_insert, lemma_sum_same, lemma_sum_zero, lemma_sum_nonnegative, lemma_restrict,
    lemma_mul_term_step, lemma_mul_term_empty, lemma_mul_term_bound, lemma_mul_step,
    lemma_mul_empty, lemma_magnitudes,
};
use crate::bits::{has_var, single, without, lemma_with, lemma_without_with, lemma_with_without};
use crate::gates::{
    rest, cofactor, substitute, substitute_upto, gate_magnitudes, lemma_split_finite,
    lemma_split_magnitudes,
};

verus! {

/// Every variable of the product `u` is among those in `on`.
pub open spec fn within(u: u128, on: u128) -> bool {
    u & !on == 0
}

/// What a term with product `u` adds to the value of `p`, where the
/// variables in `on` are 1 and the others 0.
pub open spec fn share(p: Map<u128, int>, on: u128) -> spec_fn(u128) -> int {
    |u: u128|
        if within(u, on) {
            coeff(p, u)
        } else {
            0
        }
}

/// The value of `p` where the variables in `on` are 1 and all others are 0:
/// the sum of the coefficients of the terms whose variables are all 1.
pub open spec fn eval(p: Map<u128, int>, on: u128) -> int {
    sum_over(p.dom(), share(p, on))
}

/// Summands that are zero do not count.
pub proof fn lemma_sum_superset(s: Set<u128>, t: Set<u128>, f: spec_fn(u128) -> int)
    requires
        t.finite(),
        s.subset_of(t),
        forall|u: u128| t.contains(u) && !s.contains(u) ==> f(u) == 0,
    ensures
        sum_over(s, f) == sum_over(t, f),
    decreases t.len(),
{
    vstd::set_lib::lemma_len_subset(s, t);
    if s =~= t {
    } else {
        let u = choose|u: u128| t.contains(u) && !s.contains(u);
        lemma_sum_remove(t, f, u);
        lemma_sum_superset(s, t.remove(u), f);
    }
}

/// The sum of sums is the sum of the summands' sums.
pub proof fn lemma_sum_add(
    s: Set<u128>,
    f: spec_fn(u128) -> int,
    g: spec_fn(u128) -> int,
    h: spec_fn(u128) -> int,
)
    requires
        s.finite(),
        forall|u: u128| s.contains(u) ==> h(u) == f(u) + g(u),
    ensures
        sum_over(s, h) == sum_over(s, f) + sum_over(s, g),
    decreases s.len(),
{
    if !s.is_empty() {
        let u = s.choose();
        lemma_sum_add(s.remove(u), f, g, h);
        lemma_sum_remove(s, f, u);
        lemma_sum_remove(s, g, u);
    }
}

/// The value of a polynomial can be summed over any finite set that holds
/// the products of its terms.
pub proof fn lemma_eval_over(p: Map<u128, int>, on: u128, wide: Set<u128>)
    requires
        wide.finite(),
        p.dom().subset_of(wide),
    ensures
        eval(p, on) == sum_over(wide, share(p, on)),
{
    lemma_sum_superset(p.dom(), wide, share(p, on));
}

/// The value of a sum is the sum of the values.
pub proof fn lemma_eval_add(p: Map<u128, int>, q: Map<u128, int>, on: u128)
    requires
        p.dom().finite(),
        q.dom().finite(),
    ensures
        eval(poly_add(p, q), on) == eval(p, on) + eval(q, on),
        poly_add(p, q).dom().finite(),
{
    let wide = p.dom().union(q.dom());
    let sum = poly_add(p, q);
    lemma_poly_add(p, q);
    assert forall|u: u128| sum.dom().contains(u) implies wide.contains(u) by {
        assert(coeff(sum, u) == coeff(p, u) + coeff(q, u));
    }
    vstd::set_lib::lemma_len_subset(sum.dom(), wide);
    lemma_eval_over(p, on, wide);
    lemma_eval_over(q, on, wide);
    lemma_eval_over(sum, on, wide);
    lemma_sum_add(wide, share(p, on), share(q, on), share(sum, on));
}

/// A term adds its coefficient to the value where all its variables are 1.
pub proof fn lemma_eval_add_term(p: Map<u128, int>, k: u128, c: int, on: u128)
    requires
        p.dom().finite(),
    ensures
        eval(add_term(p, k, c), on) == eval(p, on) + if within(k, on) {
            c
        } else {
            0
        },
        add_term(p, k, c).dom().finite(),
{
    let wide = p.dom().insert(k);
    let sum = add_term(p, k, c);
    lemma_add_term(p, k, c);
    assert forall|u: u128| sum.dom().contains(u) implies wide.contains(u) by {
        if u != k {
            assert(coeff(sum, u) == coeff(p, u));
        }
    }
    vstd::set_lib::lemma_len_subset(sum.dom(), wide);
    lemma_eval_over(p, on, wide);
    lemma_eval_over(sum, on, wide);
    let extra = |u: u128|
        if u == k && within(k, on) {
            c
        } else {
            0
        };
    lemma_sum_add(wide, share(p, on), extra, share(sum, on));
    lemma_sum_remove(wide, extra, k);
    lemma_sum_zero(wide.remove(k), extra);
}

/// The value of `q · (c · w)` is `c` times the value of `q` where all
/// variables of `w` are 1, and 0 elsewhere.
pub proof fn lemma_eval_mul_term(q: Map<u128, int>, w: u128, c: int, on: u128)
    requires
        q.dom().finite(),
    ensures
        eval(poly_mul_term(q, w, c), on) == if within(w, on) {
            c * eval(q, on)
        } else {
            0
        },
        poly_mul_term(q, w, c).dom().finite(),
{
    lemma_eval_mul_part(q, q.dom(), w, c, on);
    lemma_restrict(q, q.dom());
}

/// `lemma_eval_mul_term` for the terms of `q` with products in `done`.
pub proof fn lemma_eval_mul_part(q: Map<u128, int>, done: Set<u128>, w: u128, c: int, on: u128)
    requires
        done.finite(),
        done.subset_of(q.dom()),
    ensures
        eval(poly_mul_term(q.restrict(done), w, c), on) == if within(w, on) {
            c * eval(q.restrict(done), on)
        } else {
            0
        },
        poly_mul_term(q.restrict(done), w, c).dom().finite(),
    decreases done.len(),
{
    lemma_restrict(q, done);
    if done.is_empty() {
        lemma_mul_term_empty(q.restrict(done), w, c);
        assert(done =~= Set::<u128>::empty());
    } else {
        let u = done.choose();
        let fewer = done.remove(u);
        assert(fewer.insert(u) =~= done);
        lemma_eval_mul_part(q, fewer, w, c, on);
        lemma_restrict(q, fewer);
        lemma_mul_term_step(q, fewer, u, w, c);
        lemma_eval_add_term(poly_mul_term(q.restrict(fewer), w, c), u | w, q[u] * c, on);
        // the value of the part itself
        lemma_sum_insert(fewer, share(q.restrict(done), on), u);
        lemma_sum_same(fewer, share(q.restrict(done), on), share(q.restrict(fewer), on));
        assert(within(u | w, on) == (within(u, on) && within(w, on))) by (bit_vector);
        let a = eval(q.restrict(fewer), on);
        assert(c * (a + q[u]) == c * a + q[u] * c) by (nonlinear_arith);
    }
}

/// A polynomial is the terms without a variable plus that variable times
/// what it is multiplied by: `p = rest + x · cofactor`.
pub proof fn lemma_split(p: Map<u128, int>, slot: u32)
    requires
        reduced(p),
        p.dom().finite(),
        slot < 128,
    ensures
        p == poly_add(rest(p, slot), poly_mul_term(cofactor(p, slot), single(slot), 1)),
{
    let cof = cofactor(p, slot);
    let times = poly_mul_term(cof, single(slot), 1);
    lemma_split_finite(p, slot);
    lemma_poly_add(rest(p, slot), times);
    assert forall|x: u128| coeff(p, x) == coeff(poly_add(rest(p, slot), times), x) by {
        let f = product_part(cof, single(slot), 1, x);
        let v = without(x, slot);
        if has_var(x, slot) {
            lemma_without_with(x, slot);
            crate::bits::lemma_without(x, slot, slot);
            assert forall|u: u128| cof.dom().contains(u) && u != v implies f(u) == 0 by {
                if (u | single(slot)) == x {
                    lemma_with_without(u, slot);
                }
            }
            if cof.dom().contains(v) {
                lemma_sum_remove(cof.dom(), f, v);
                lemma_sum_zero(cof.dom().remove(v), f);
            } else {
                lemma_sum_zero(cof.dom(), f);
            }
        } else {
            assert forall|u: u128| cof.dom().contains(u) implies f(u) == 0 by {
                lemma_with(u, slot, slot);
            }
            lemma_sum_zero(cof.dom(), f);
        }
    }
    lemma_reduced_equal(p, poly_add(rest(p, slot), times));
}

/// The value of a polynomial does not depend on a variable that none of its
/// terms holds.
pub proof fn lemma_eval_ignores(q: Map<u128, int>, slot: u32, on: u128, other: u128)
    requires
        q.dom().finite(),
        slot < 128,
        forall|u: u128| q.contains_key(u) ==> !has_var(u, slot),
        without(on, slot) == without(other, slot),
    ensures
        eval(q, on) == eval(q, other),
{
    assert forall|u: u128| q.dom().contains(u) implies share(q, on)(u) == share(q, other)(u) by {
        let s = slot as u128;
        assert(q.contains_key(u));
        assert(!has_var(u, slot));
        assert(s < 128 && (u >> s) & 1 != 1 && (on & !(1u128 << s)) == (other & !(1u128 << s))
            ==> ((u
            & !on == 0) == (u & !other == 0))) by (bit_vector);
        assert(within(u, on) == within(u, other));
    }
    lemma_sum_same(q.dom(), share(q, on), share(q, other));
}

/// The assignment `on` with the variable in `slot` set to `value`.
pub open spec fn assigned(on: u128, slot: u32, value: bool) -> u128 {
    if value {
        on | single(slot)
    } else {
        without(on, slot)
    }
}

/// The value of the sum of the first `n` terms of `gate`.
pub open spec fn gate_value_upto(gate: Seq<(u128, int)>, on: u128, n: int) -> int
    decreases n,
{
    if n <= 0 {
        0
    } else {
        gate_value_upto(gate, on, n - 1) + if within(gate[n - 1].0, on) {
            gate[n - 1].1
        } else {
            0
        }
    }
}

/// The value of the polynomial whose terms `gate` lists.
pub open spec fn gate_value(gate: Seq<(u128, int)>, on: u128) -> int {
    gate_value_upto(gate, on, gate.len() as int)
}

/// The value after a replacement: the terms without the variable count as
/// before, and what the variable was multiplied by counts as often as the
/// value of what has come in its place.
pub proof fn lemma_eval_substitute(
    p: Map<u128, int>,
    slot: u32,
    gate: Seq<(u128, int)>,
    n: int,
    on: u128,
)
    requires
        p.dom().finite(),
        slot < 128,
        0 <= n <= gate.len(),
    ensures
        eval(substitute_upto(p, slot, gate, n), on) == eval(rest(p, slot), on) + eval(
            cofactor(p, slot),
            on,
        ) * gate_value_upto(gate, on, n),
        substitute_upto(p, slot, gate, n).dom().finite(),
    decreases n,
{
    let cof = cofactor(p, slot);
    lemma_split_finite(p, slot);
    if n > 0 {
        lemma_eval_substitute(p, slot, gate, n - 1, on);
        lemma_eval_mul_term(cof, gate[n - 1].0, gate[n - 1].1, on);
        lemma_eval_add(
            substitute_upto(p, slot, gate, n - 1),
            poly_mul_term(cof, gate[n - 1].0, gate[n - 1].1),
            on,
        );
        let e = eval(cof, on);
        let v = gate_value_upto(gate, on, n - 1);
        let g = gate[n - 1].1;
        assert(e * (v + g) == e * v + g * e) by (nonlinear_arith);
    }
}

/// Where what comes in place of a variable has the value 1, the polynomial
/// after the replacement has the value of the one before with the variable
/// at 1; where it has the value 0, with the variable at 0.
pub proof fn lemma_eval_replaced(p: Map<u128, int>, slot: u32, gate: Seq<(u128, int)>, on: u128)
    requires
        reduced(p),
        p.dom().finite(),
        slot < 128,
    ensures
        gate_value(gate, on) == 1 ==> eval(substitute(p, slot, gate), on) == eval(
            p,
            on | single(slot),
        ),
        gate_value(gate, on) == 0 ==> eval(substitute(p, slot, gate), on) == eval(
            p,
            without(on, slot),
        ),
{
    let cof = cofactor(p, slot);
    let s = slot as u128;
    lemma_split_finite(p, slot);
    lemma_eval_substitute(p, slot, gate, gate.len() as int, on);
    lemma_split(p, slot);
    assert forall|u: u128| cof.contains_key(u) implies !has_var(u, slot) by {}
    assert forall|u: u128| rest(p, slot).contains_key(u) implies !has_var(u, slot) by {}
    if gate_value(gate, on) == 1 {
        let up = on | single(slot);
        assert(s < 128 ==> ((on | (1u128 << s)) & !(1u128 << s)) == (on & !(1u128 << s)) && ((1u128
            << s) & !(on | (1u128 << s)) == 0)) by (bit_vector);
        lemma_eval_ignores(rest(p, slot), slot, on, up);
        lemma_eval_ignores(cof, slot, on, up);
        lemma_eval_mul_term(cof, single(slot), 1, up);
        lemma_eval_add(rest(p, slot), poly_mul_term(cof, single(slot), 1), up);
    }
    if gate_value(gate, on) == 0 {
        let down = without(on, slot);
        assert(s < 128 ==> ((on & !(1u128 << s)) & !(1u128 << s)) == (on & !(1u128 << s)) && ((1u128
            << s) & !(on & !(1u128 << s)) != 0)) by (bit_vector);
        lemma_eval_ignores(rest(p, slot), slot, on, down);
        lemma_eval_mul_term(cof, single(slot), 1, down);
        lemma_eval_add(rest(p, slot), poly_mul_term(cof, single(slot), 1), down);
    }
}

/// A single variable is within an assignment exactly when it is 1 there.
pub proof fn lemma_within_single(y: u32, on: u128)
    requires
        y < 128,
    ensures
        within(single(y), on) == has_var(on, y),
        within(0, on),
{
    let s = y as u128;
    assert(s < 128 ==> (((1u128 << s) & !on == 0) == ((on >> s) & 1 == 1))) by (bit_vector);
    assert(0u128 & !on == 0) by (bit_vector);
}

/// Two variables are within an assignment exactly when both are 1 there.
pub proof fn lemma_within_pair(y: u32, z: u32, on: u128)
    requires
        y < 128,
        z < 128,
    ensures
        within(single(y) | single(z), on) == (has_var(on, y) && has_var(on, z)),
{
    let a = single(y);
    let b = single(z);
    assert(((a | b) & !on == 0) == ((a & !on == 0) && (b & !on == 0))) by (bit_vector);
    lemma_within_single(y, on);
    lemma_within_single(z, on);
}

/// The value of a product is the product of the values: on Boolean values,
/// `x · x = x`.
pub proof fn lemma_eval_mul(p: Map<u128, int>, q: Map<u128, int>, on: u128)
    requires
        p.dom().finite(),
        q.dom().finite(),
    ensures
        eval(poly_mul(p, q), on) == eval(p, on) * eval(q, on),
        poly_mul(p, q).dom().finite(),
{
    lemma_eval_mul_upto(p, q, q.dom(), on);
    lemma_restrict(q, q.dom());
}

/// `lemma_eval_mul` for the terms of `q` with products in `done`.
pub proof fn lemma_eval_mul_upto(p: Map<u128, int>, q: Map<u128, int>, done: Set<u128>, on: u128)
    requires
        p.dom().finite(),
        done.finite(),
        done.subset_of(q.dom()),
    ensures
        eval(poly_mul(p, q.restrict(done)), on) == eval(p, on) * eval(q.restrict(done), on),
        poly_mul(p, q.restrict(done)).dom().finite(),
    decreases done.len(),
{
    lemma_restrict(q, done);
    if done.is_empty() {
        lemma_mul_empty(p, q.restrict(done));
        assert(done =~= Set::<u128>::empty());
    } else {
        let w = done.choose();
        let fewer = done.remove(w);
        assert(fewer.insert(w) =~= done);
        lemma_eval_mul_upto(p, q, fewer, on);
        lemma_restrict(q, fewer);
        lemma_mul_step(p, q, fewer, w);
        lemma_eval_mul_term(p, w, q[w], on);
        lemma_eval_add(poly_mul(p, q.restrict(fewer)), poly_mul_term(p, w, q[w]), on);
        lemma_sum_insert(fewer, share(q.restrict(done), on), w);
        lemma_sum_same(fewer, share(q.restrict(done), on), share(q.restrict(fewer), on));
        let a = eval(p, on);
        let b = eval(q.restrict(fewer), on);
        assert(a * (b + q[w]) == a * b + q[w] * a) by (nonlinear_arith);
    }
}

/// The assignment in which every variable is 1.
pub open spec fn all_on() -> u128 {
    u128::MAX
}

/// The sum of the magnitudes of the coefficients of `p`.
pub open spec fn mass(p: Map<u128, int>) -> int {
    eval(magnitudes(p), all_on())
}

/// No coefficient of a polynomial without negative coefficients exceeds the
/// sum of them all.
pub proof fn lemma_coeff_below_sum(p: Map<u128, int>, x: u128)
    requires
        p.dom().finite(),
        forall|u: u128| 0 <= #[trigger] coeff(p, u),
    ensures
        0 <= coeff(p, x) <= eval(p, all_on()),
{
    let f = share(p, all_on());
    assert forall|u: u128| within(u, all_on()) by {
        assert(u & !u128::MAX == 0) by (bit_vector);
    }
    assert forall|u: u128| p.dom().contains(u) implies 0 <= f(u) by {
        assert(0 <= coeff(p, u));
    }
    if p.contains_key(x) {
        lemma_sum_remove(p.dom(), f, x);
        lemma_sum_nonnegative(p.dom().remove(x), f);
    } else {
        lemma_sum_nonnegative(p.dom(), f);
    }
}

/// The value of a polynomial where every variable is 1 is that of its two
/// parts together.
pub proof fn lemma_mass_parts(p: Map<u128, int>, slot: u32)
    requires
        reduced(p),
        p.dom().finite(),
        slot < 128,
    ensures
        eval(p, all_on()) == eval(rest(p, slot), all_on()) + eval(cofactor(p, slot), all_on()),
{
    let on = all_on();
    let cof = cofactor(p, slot);
    lemma_split_finite(p, slot);
    lemma_split(p, slot);
    assert(within(single(slot), on)) by {
        let s = single(slot);
        assert(s & !u128::MAX == 0) by (bit_vector);
    }
    lemma_eval_mul_term(cof, single(slot), 1, on);
    lemma_eval_add(rest(p, slot), poly_mul_term(cof, single(slot), 1), on);
}

/// Every coefficient that a replacement on magnitudes gives is at least 0.
pub proof fn lemma_nonnegative_replacement(
    p: Map<u128, int>,
    slot: u32,
    gate: Seq<(u128, int)>,
    n: int,
    x: u128,
)
    requires
        p.dom().finite(),
        slot < 128,
        0 <= n <= gate.len(),
    ensures
        0 <= coeff(substitute_upto(magnitudes(p), slot, gate_magnitudes(gate), n), x),
    decreases n,
{
    let cof = cofactor(p, slot);
    let terms = gate_magnitudes(gate);
    lemma_split_magnitudes(p, slot);
    lemma_split_finite(p, slot);
    lemma_magnitudes(rest(p, slot));
    if n > 0 {
        lemma_nonnegative_replacement(p, slot, gate, n - 1, x);
        lemma_restrict(cof, cof.dom());
        lemma_mul_term_bound(cof, cof.dom(), gate[n - 1].0, gate[n - 1].1, x);
        lemma_poly_add(
            substitute_upto(magnitudes(p), slot, terms, n - 1),
            poly_mul_term(magnitudes(cof), terms[n - 1].0, terms[n - 1].1),
        );
    }
}

/// The value of magnitudes is at least 0.
pub proof fn lemma_gate_weight(terms: Seq<(u128, int)>, n: int)
    requires
        0 <= n <= terms.len(),
        forall|j: int| 0 <= j < terms.len() ==> 0 <= (#[trigger] terms[j]).1,
    ensures
        0 <= gate_value_upto(terms, all_on(), n),
    decreases n,
{
    if n > 0 {
        lemma_gate_weight(terms, n - 1);
    }
}

} // verus!
