//! Replacing one variable of a polynomial by the polynomial of a Boolean gate.

use vstd::prelude::*;
use crate::algebra::{
    coeff, reduced, bounded, poly_add, poly_mul_term, product_fits, magnitudes, magnitude,
    lemma_poly_add, lemma_mul_term_bound, lemma_mul_term_support, lemma_restrict, lemma_magnitudes,
    lemma_magnitudes_suffice,
};
use crate::bits::{has_var, single, without, lemma_with, lemma_union, lemma_with_without};

verus! {

/// The terms of `p` that do not hold the variable in `slot`.
pub open spec fn rest(p: Map<u128, int>, slot: u32) -> Map<u128, int> {
    Map::new(|v: u128| p.contains_key(v) && !has_var(v, slot), |v: u128| p[v])
}

/// What the variable in `slot` is multiplied by in `p`: the terms that hold
/// it, each with that variable taken out. So `p = rest + x_slot · cofactor`.
pub open spec fn cofactor(p: Map<u128, int>, slot: u32) -> Map<u128, int> {
    Map::new(
        |v: u128| !has_var(v, slot) && p.contains_key(v | single(slot)),
        |v: u128| p[v | single(slot)],
    )
}

/// `p` with the variable in `slot` replaced by the sum of the first `n` terms
/// `c · w` of `gate`: `rest + cofactor · (c_0 · w_0) + … `, like terms combined.
pub open spec fn substitute_upto(p: Map<u128, int>, slot: u32, gate: Seq<(u128, int)>, n: int) -> Map<
    u128,
    int,
>
    decreases n,
{
    if n <= 0 {
        rest(p, slot)
    } else {
        poly_add(
            substitute_upto(p, slot, gate, n - 1),
            poly_mul_term(cofactor(p, slot), gate[n - 1].0, gate[n - 1].1),
        )
    }
}

/// `p` with the variable in `slot` replaced by the polynomial whose terms
/// `gate` lists.
pub open spec fn substitute(p: Map<u128, int>, slot: u32, gate: Seq<(u128, int)>) -> Map<u128, int> {
    substitute_upto(p, slot, gate, gate.len() as int)
}

/// The replacement can be built term by term in whatever order the terms of
/// `p` are visited: for each term of `gate` in turn, the product of what the
/// variable was multiplied by with that term can be added to what has been
/// built so far.
pub open spec fn replacement_fits(p: Map<u128, int>, slot: u32, gate: Seq<(u128, int)>) -> bool {
    forall|j: int|
        0 <= j < gate.len() ==> product_fits(
            substitute_upto(p, slot, gate, j),
            cofactor(p, slot),
            (#[trigger] gate[j]).0,
            gate[j].1,
        )
}

/// The terms of `gate` with their coefficients replaced by absolute values.
pub open spec fn gate_magnitudes(gate: Seq<(u128, int)>) -> Seq<(u128, int)> {
    Seq::new(gate.len(), |j: int| (gate[j].0, magnitude(gate[j].1)))
}

/// The constant `1`.
pub open spec fn one_gate() -> Seq<(u128, int)> {
    seq![(0u128, 1int)]
}

/// The constant `0`.
pub open spec fn zero_gate() -> Seq<(u128, int)> {
    Seq::empty()
}

/// `¬y = 1 − y`.
pub open spec fn not_gate(y: u32) -> Seq<(u128, int)> {
    seq![(0u128, 1int), (single(y), -1int)]
}

/// `y ∧ z = y · z`.
pub open spec fn and_gate(y: u32, z: u32) -> Seq<(u128, int)> {
    seq![(single(y) | single(z), 1int)]
}

/// `y ∨ z = y + z − y · z`.
pub open spec fn or_gate(y: u32, z: u32) -> Seq<(u128, int)> {
    seq![(single(y), 1int), (single(z), 1int), (single(y) | single(z), -1int)]
}

/// `y ⊕ z = y + z − 2 · y · z`.
pub open spec fn xor_gate(y: u32, z: u32) -> Seq<(u128, int)> {
    seq![(single(y), 1int), (single(z), 1int), (single(y) | single(z), -2int)]
}

/// The two parts of the magnitudes are the magnitudes of the two parts.
pub proof fn lemma_split_magnitudes(p: Map<u128, int>, slot: u32)
    ensures
        rest(magnitudes(p), slot) == magnitudes(rest(p, slot)),
        cofactor(magnitudes(p), slot) == magnitudes(cofactor(p, slot)),
        reduced(p) ==> reduced(rest(p, slot)) && reduced(cofactor(p, slot)),
{
    assert(rest(magnitudes(p), slot) =~= magnitudes(rest(p, slot)));
    assert(cofactor(magnitudes(p), slot) =~= magnitudes(cofactor(p, slot)));
}

/// Both parts of a polynomial with finitely many terms have finitely many.
pub proof fn lemma_split_finite(p: Map<u128, int>, slot: u32)
    requires
        p.dom().finite(),
        slot < 128,
    ensures
        rest(p, slot).dom().finite(),
        cofactor(p, slot).dom().finite(),
{
    let strip = |u: u128| without(u, slot);
    let image = p.dom().map(strip);
    p.dom().lemma_map_finite(strip);
    assert forall|v: u128| cofactor(p, slot).dom().contains(v) implies image.contains(v) by {
        lemma_with_without(v, slot);
        assert(p.dom().contains(v | single(slot)) && strip(v | single(slot)) == v);
    }
    vstd::set_lib::lemma_len_subset(cofactor(p, slot).dom(), image);
    vstd::set_lib::lemma_len_subset(rest(p, slot).dom(), p.dom());
}

/// On magnitudes, every further gate term only adds: what the first
/// `n` terms give stays below what all of them give.
pub proof fn lemma_substitute_grows(
    p: Map<u128, int>,
    slot: u32,
    gate: Seq<(u128, int)>,
    n: int,
    x: u128,
)
    requires
        p.dom().finite(),
        slot < 128,
        0 <= n <= gate.len(),
    ensures
        coeff(substitute_upto(magnitudes(p), slot, gate_magnitudes(gate), n), x) <= coeff(
            substitute(magnitudes(p), slot, gate_magnitudes(gate)),
            x,
        ),
    decreases gate.len() - n,
{
    let cof = cofactor(p, slot);
    let big = gate_magnitudes(gate);
    lemma_split_finite(p, slot);
    lemma_split_magnitudes(p, slot);
    if n < gate.len() {
        lemma_substitute_grows(p, slot, gate, n + 1, x);
        lemma_restrict(cof, cof.dom());
        lemma_mul_term_bound(cof, cof.dom(), gate[n].0, gate[n].1, x);
        lemma_poly_add(
            substitute_upto(magnitudes(p), slot, big, n),
            poly_mul_term(magnitudes(cof), big[n].0, big[n].1),
        );
    }
}

/// However many gate terms have been put in, no coefficient exceeds the one
/// that the same replacement gives on the magnitudes.
pub proof fn lemma_substitute_size(
    p: Map<u128, int>,
    slot: u32,
    gate: Seq<(u128, int)>,
    n: int,
    x: u128,
)
    requires
        p.dom().finite(),
        slot < 128,
        0 <= n <= gate.len(),
    ensures
        magnitude(coeff(substitute_upto(p, slot, gate, n), x)) <= coeff(
            substitute_upto(magnitudes(p), slot, gate_magnitudes(gate), n),
            x,
        ),
    decreases n,
{
    let cof = cofactor(p, slot);
    let big = gate_magnitudes(gate);
    lemma_split_finite(p, slot);
    lemma_split_magnitudes(p, slot);
    lemma_magnitudes(rest(p, slot));
    if n > 0 {
        lemma_substitute_size(p, slot, gate, n - 1, x);
        lemma_restrict(cof, cof.dom());
        lemma_mul_term_bound(cof, cof.dom(), gate[n - 1].0, gate[n - 1].1, x);
        lemma_poly_add(
            substitute_upto(p, slot, gate, n - 1),
            poly_mul_term(cof, gate[n - 1].0, gate[n - 1].1),
        );
        lemma_poly_add(
            substitute_upto(magnitudes(p), slot, big, n - 1),
            poly_mul_term(magnitudes(cof), big[n - 1].0, big[n - 1].1),
        );
    }
}

/// A variable of a term of the result comes from a term of `p`, where it is
/// not the replaced one, or from a gate term.
pub proof fn lemma_substitute_support(
    p: Map<u128, int>,
    slot: u32,
    gate: Seq<(u128, int)>,
    n: int,
    k: u128,
    i: u32,
)
    requires
        p.dom().finite(),
        slot < 128,
        0 <= n <= gate.len(),
        substitute_upto(p, slot, gate, n).contains_key(k),
        has_var(k, i),
    ensures
        (i != slot && exists|u: u128| p.contains_key(u) && has_var(u, i)) || (exists|j: int|
            0 <= j < n && has_var(#[trigger] gate[j].0, i)),
    decreases n,
{
    let cof = cofactor(p, slot);
    lemma_split_finite(p, slot);
    if n > 0 {
        let before = substitute_upto(p, slot, gate, n - 1);
        let added = poly_mul_term(cof, gate[n - 1].0, gate[n - 1].1);
        lemma_poly_add(before, added);
        assert(coeff(poly_add(before, added), k) != 0);
        if coeff(before, k) != 0 {
            lemma_substitute_support(p, slot, gate, n - 1, k, i);
            if exists|j: int| 0 <= j < n - 1 && has_var(#[trigger] gate[j].0, i) {
                let j = choose|j: int| 0 <= j < n - 1 && has_var(#[trigger] gate[j].0, i);
                assert(has_var(gate[j].0, i));
            }
        } else {
            lemma_mul_term_support(cof, gate[n - 1].0, gate[n - 1].1, k);
            let u = choose|u: u128| cof.contains_key(u) && (u | gate[n - 1].0) == k;
            lemma_union(u, gate[n - 1].0, i);
            if has_var(u, i) {
                lemma_with(u, slot, i);
                assert(p.contains_key(u | single(slot)) && has_var(u | single(slot), i));
            } else {
                assert(has_var(gate[n - 1].0, i));
            }
        }
    } else {
        assert(p.contains_key(k) && has_var(k, i));
    }
}

/// A replacement can be built in whatever order where it fits on the
/// magnitudes.
pub proof fn lemma_magnitudes_suffice_for_replacement(p: Map<u128, int>, slot: u32, gate: Seq<(u128, int)>)
    requires
        p.dom().finite(),
        slot < 128,
        bounded(substitute(magnitudes(p), slot, gate_magnitudes(gate))),
    ensures
        replacement_fits(p, slot, gate),
{
    let cof = cofactor(p, slot);
    let big = gate_magnitudes(gate);
    lemma_split_finite(p, slot);
    lemma_split_magnitudes(p, slot);
    assert forall|j: int| 0 <= j < gate.len() implies product_fits(
        substitute_upto(p, slot, gate, j),
        cof,
        (#[trigger] gate[j]).0,
        gate[j].1,
    ) by {
        let base = substitute_upto(p, slot, gate, j);
        assert forall|x: u128|
            magnitude(coeff(base, x)) + #[trigger] coeff(
                poly_mul_term(magnitudes(cof), gate[j].0, magnitude(gate[j].1)),
                x,
            ) <= i64::MAX by {
            lemma_substitute_size(p, slot, gate, j, x);
            lemma_substitute_grows(p, slot, gate, j + 1, x);
            lemma_poly_add(
                substitute_upto(magnitudes(p), slot, big, j),
                poly_mul_term(magnitudes(cof), big[j].0, big[j].1),
            );
            assert(coeff(substitute(magnitudes(p), slot, big), x) <= i64::MAX);
        }
        lemma_magnitudes_suffice(base, cof, gate[j].0, gate[j].1);
    }
}

} // verus!
