//! Polynomials as mathematical objects: a map from variable products to
//! integer coefficients, with the sums that their arithmetic is made of.

use vstd::prelude::*;

verus! {

/// The coefficient that `p` gives to the product `v`; zero where it has no term.
pub open spec fn coeff(p: Map<u128, int>, v: u128) -> int {
    if p.contains_key(v) {
        p[v]
    } else {
        0
    }
}

/// No term of `p` has coefficient zero.
pub open spec fn reduced(p: Map<u128, int>) -> bool {
    forall|v: u128| p.contains_key(v) ==> p[v] != 0
}

/// The polynomial whose coefficients are given by `f`: it has a term exactly
/// where `f` is not zero.
pub open spec fn poly_of(f: spec_fn(u128) -> int) -> Map<u128, int> {
    Map::new(|v: u128| f(v) != 0, |v: u128| f(v))
}

/// `p + c·v`: like terms combine, and a term that reaches zero leaves.
pub open spec fn add_term(p: Map<u128, int>, v: u128, c: int) -> Map<u128, int> {
    poly_of(
        |x: u128|
            coeff(p, x) + if x == v {
                c
            } else {
                0
            },
    )
}

/// `p + q`, term by term.
pub open spec fn poly_add(p: Map<u128, int>, q: Map<u128, int>) -> Map<u128, int> {
    poly_of(|x: u128| coeff(p, x) + coeff(q, x))
}

/// `p · k` for a number `k`.
pub open spec fn poly_scale(p: Map<u128, int>, k: int) -> Map<u128, int> {
    poly_of(|x: u128| coeff(p, x) * k)
}

/// The absolute value of `c`.
pub open spec fn magnitude(c: int) -> int {
    if c < 0 {
        -c
    } else {
        c
    }
}

/// `p` with every coefficient replaced by its absolute value.
pub open spec fn magnitudes(p: Map<u128, int>) -> Map<u128, int> {
    Map::new(|v: u128| p.contains_key(v), |v: u128| magnitude(p[v]))
}

/// Every coefficient of `p` can be stored.
pub open spec fn bounded(p: Map<u128, int>) -> bool {
    forall|v: u128| i64::MIN <= #[trigger] coeff(p, v) <= i64::MAX
}

/// The sum of `f` over the finite set `s`.
pub open spec fn sum_over(s: Set<u128>, f: spec_fn(u128) -> int) -> int
    decreases s.len(),
    when s.finite()
{
    if s.is_empty() {
        0
    } else {
        let u = s.choose();
        f(u) + sum_over(s.remove(u), f)
    }
}

/// What the term `c_u · u` of `p` adds to the coefficient of `x` when `p` is
/// multiplied by `c · w`.
pub open spec fn product_part(p: Map<u128, int>, w: u128, c: int, x: u128) -> spec_fn(u128) -> int {
    |u: u128|
        if (u | w) == x {
            coeff(p, u) * c
        } else {
            0
        }
}

/// `p · (c · w)`: each term is multiplied by the monomial, and terms that
/// fall on the same product combine.
pub open spec fn poly_mul_term(p: Map<u128, int>, w: u128, c: int) -> Map<u128, int> {
    poly_of(|x: u128| sum_over(p.dom(), product_part(p, w, c, x)))
}

/// What the term of `q` with product `w` adds to the coefficient of `x` in `p · q`.
pub open spec fn factor_part(p: Map<u128, int>, q: Map<u128, int>, x: u128) -> spec_fn(u128) -> int {
    |w: u128| coeff(poly_mul_term(p, w, coeff(q, w)), x)
}

/// `p · q`: the sum of `p · m` over the terms `m` of `q`.
pub open spec fn poly_mul(p: Map<u128, int>, q: Map<u128, int>) -> Map<u128, int> {
    poly_of(|x: u128| sum_over(q.dom(), factor_part(p, q, x)))
}

/// `base + q · (c · w)` can be built term by term in whatever order: the
/// product of each term of `q` with `c · w` can be stored, and so can every
/// coefficient once any part of the terms of `q` has been added.
pub open spec fn product_fits(base: Map<u128, int>, q: Map<u128, int>, w: u128, c: int) -> bool {
    &&& forall|u: u128| #[trigger] q.contains_key(u) ==> i64::MIN <= q[u] * c <= i64::MAX
    &&& forall|done: Set<u128>|
        done.subset_of(q.dom()) ==> bounded(
            poly_add(base, poly_mul_term(#[trigger] q.restrict(done), w, c)),
        )
}

/// `p · q` can be built term by term of `q` in whatever order: after any part
/// of the terms of `q`, the product of `p` with any further one can be added.
pub open spec fn factors_fit(p: Map<u128, int>, q: Map<u128, int>) -> bool {
    forall|done: Set<u128>, w: u128|
        done.subset_of(q.dom()) && q.contains_key(w) && !done.contains(w)
            ==> #[trigger] product_fits(
            poly_mul(p, q.restrict(done)),
            p,
            w,
            q[w],
        )
}

/// A polynomial without zero terms is determined by its coefficients.
pub proof fn lemma_reduced_equal(p: Map<u128, int>, q: Map<u128, int>)
    requires
        reduced(p),
        reduced(q),
        forall|v: u128| coeff(p, v) == coeff(q, v),
    ensures
        p == q,
{
    assert forall|v: u128| p.contains_key(v) == q.contains_key(v) by {
        assert(coeff(p, v) == coeff(q, v));
    }
    assert forall|v: u128| p.contains_key(v) implies p[v] == q[v] by {
        assert(coeff(p, v) == coeff(q, v));
    }
    assert(p =~= q);
}

/// The coefficients of `p + c·v`: that of `v` grows by `c`, the others stay.
pub proof fn lemma_add_term(p: Map<u128, int>, v: u128, c: int)
    ensures
        reduced(add_term(p, v, c)),
        coeff(add_term(p, v, c), v) == coeff(p, v) + c,
        forall|x: u128| x != v ==> #[trigger] coeff(add_term(p, v, c), x) == coeff(p, x),
{
}

/// The coefficients of a sum are the sums of the coefficients.
pub proof fn lemma_poly_add(p: Map<u128, int>, q: Map<u128, int>)
    ensures
        reduced(poly_add(p, q)),
        forall|x: u128| #[trigger] coeff(poly_add(p, q), x) == coeff(p, x) + coeff(q, x),
{
}

/// The coefficients of `p · k` are those of `p`, each times `k`.
pub proof fn lemma_poly_scale(p: Map<u128, int>, k: int)
    ensures
        reduced(poly_scale(p, k)),
        forall|x: u128| #[trigger] coeff(poly_scale(p, k), x) == coeff(p, x) * k,
{
}

/// The magnitudes of a polynomial have its terms, each with its coefficient's
/// absolute value.
pub proof fn lemma_magnitudes(p: Map<u128, int>)
    ensures
        magnitudes(p).dom() == p.dom(),
        forall|x: u128| #[trigger] coeff(magnitudes(p), x) == magnitude(coeff(p, x)),
        reduced(p) ==> reduced(magnitudes(p)),
{
    assert(magnitudes(p).dom() =~= p.dom());
}

/// Any member of the set can be taken out of the sum first.
pub proof fn lemma_sum_remove(s: Set<u128>, f: spec_fn(u128) -> int, y: u128)
    requires
        s.finite(),
        s.contains(y),
    ensures
        sum_over(s, f) == f(y) + sum_over(s.remove(y), f),
    decreases s.len(),
{
    let u = s.choose();
    if u != y {
        lemma_sum_remove(s.remove(u), f, y);
        lemma_sum_remove(s.remove(y), f, u);
        assert(s.remove(u).remove(y) =~= s.remove(y).remove(u));
    }
}

/// A new member adds its summand to the sum.
pub proof fn lemma_sum_insert(s: Set<u128>, f: spec_fn(u128) -> int, y: u128)
    requires
        s.finite(),
        !s.contains(y),
    ensures
        sum_over(s.insert(y), f) == sum_over(s, f) + f(y),
{
    lemma_sum_remove(s.insert(y), f, y);
    assert(s.insert(y).remove(y) =~= s);
}

/// A sum grows with its summands.
pub proof fn lemma_sum_le(s: Set<u128>, f: spec_fn(u128) -> int, g: spec_fn(u128) -> int)
    requires
        s.finite(),
        forall|u: u128| s.contains(u) ==> f(u) <= g(u),
    ensures
        sum_over(s, f) <= sum_over(s, g),
    decreases s.len(),
{
    if !s.is_empty() {
        let u = s.choose();
        lemma_sum_le(s.remove(u), f, g);
        lemma_sum_remove(s, g, u);
    }
}

/// Sums of equal summands are equal.
pub proof fn lemma_sum_same(s: Set<u128>, f: spec_fn(u128) -> int, g: spec_fn(u128) -> int)
    requires
        s.finite(),
        forall|u: u128| s.contains(u) ==> f(u) == g(u),
    ensures
        sum_over(s, f) == sum_over(s, g),
{
    lemma_sum_le(s, f, g);
    lemma_sum_le(s, g, f);
}

/// A sum of numbers that are not negative grows with the set it ranges over.
pub proof fn lemma_sum_subset(s: Set<u128>, t: Set<u128>, f: spec_fn(u128) -> int)
    requires
        t.finite(),
        s.subset_of(t),
        forall|u: u128| t.contains(u) ==> 0 <= f(u),
    ensures
        sum_over(s, f) <= sum_over(t, f),
    decreases t.len(),
{
    vstd::set_lib::lemma_len_subset(s, t);
    if s =~= t {
    } else {
        let u = choose|u: u128| t.contains(u) && !s.contains(u);
        lemma_sum_remove(t, f, u);
        lemma_sum_subset(s, t.remove(u), f);
    }
}

/// A sum stays within the sum of the bounds of its summands.
pub proof fn lemma_sum_bound(s: Set<u128>, f: spec_fn(u128) -> int, g: spec_fn(u128) -> int)
    requires
        s.finite(),
        forall|u: u128| s.contains(u) ==> -g(u) <= f(u) <= g(u),
    ensures
        -sum_over(s, g) <= sum_over(s, f) <= sum_over(s, g),
    decreases s.len(),
{
    if !s.is_empty() {
        let u = s.choose();
        lemma_sum_bound(s.remove(u), f, g);
        lemma_sum_remove(s, g, u);
    }
}

/// A sum of numbers that are not negative is not negative.
pub proof fn lemma_sum_nonnegative(s: Set<u128>, f: spec_fn(u128) -> int)
    requires
        s.finite(),
        forall|u: u128| s.contains(u) ==> 0 <= f(u),
    ensures
        0 <= sum_over(s, f),
{
    lemma_sum_subset(Set::empty(), s, f);
}

/// The magnitude of a product is the product of the magnitudes.
pub proof fn lemma_magnitude_product(a: int, c: int)
    ensures
        magnitude(a * c) == magnitude(a) * magnitude(c),
        0 <= magnitude(a) * magnitude(c),
{
    assert(magnitude(a * c) == magnitude(a) * magnitude(c) && 0 <= magnitude(a) * magnitude(c))
        by (nonlinear_arith)
        requires
            magnitude(a) == a || magnitude(a) == -a,
            magnitude(c) == c || magnitude(c) == -c,
            magnitude(a * c) == a * c || magnitude(a * c) == -(a * c),
            0 <= magnitude(a),
            0 <= magnitude(c),
            0 <= magnitude(a * c),
    ;
}

/// The first `k` entries of a list, as a set.
pub open spec fn seen(ks: Seq<u128>, k: int) -> Set<u128> {
    ks.take(k).to_set()
}

/// One entry further, a list without repetitions has seen one product more.
pub proof fn lemma_seen(ks: Seq<u128>, k: int)
    requires
        ks.no_duplicates(),
        0 <= k < ks.len(),
    ensures
        seen(ks, k + 1) == seen(ks, k).insert(ks[k]),
        !seen(ks, k).contains(ks[k]),
        seen(ks, k).finite(),
        seen(ks, k).subset_of(ks.to_set()),
        ks.to_set().contains(ks[k]),
{
    let a = ks.take(k);
    let b = ks.take(k + 1);
    vstd::seq_lib::seq_to_set_is_finite(a);
    assert forall|v: u128| b.to_set().contains(v) == a.to_set().insert(ks[k]).contains(v) by {
        if b.to_set().contains(v) {
            let i = choose|i: int| 0 <= i < b.len() && b[i] == v;
            if i < k {
                assert(a[i] == v);
            }
        }
        if a.to_set().contains(v) {
            let i = choose|i: int| 0 <= i < a.len() && a[i] == v;
            assert(b[i] == v);
        }
        if v == ks[k] {
            assert(b[k] == v);
        }
    }
    assert(b.to_set() =~= a.to_set().insert(ks[k]));
    if a.to_set().contains(ks[k]) {
        let i = choose|i: int| 0 <= i < a.len() && a[i] == ks[k];
        assert(ks[i] == ks[k]);
    }
    assert forall|v: u128| a.to_set().contains(v) implies ks.to_set().contains(v) by {
        let i = choose|i: int| 0 <= i < a.len() && a[i] == v;
        assert(ks[i] == v);
    }
}

/// Before the first entry nothing has been seen, after the last everything.
pub proof fn lemma_seen_ends(ks: Seq<u128>)
    ensures
        seen(ks, 0) == Set::<u128>::empty(),
        seen(ks, ks.len() as int) == ks.to_set(),
{
    assert(ks.take(0).to_set() =~= Set::<u128>::empty());
    assert(ks.take(ks.len() as int) =~= ks);
}

/// A polynomial cut down to some of its terms has exactly those, unchanged.
pub proof fn lemma_restrict(q: Map<u128, int>, done: Set<u128>)
    requires
        done.subset_of(q.dom()),
    ensures
        q.restrict(done).dom() == done,
        forall|u: u128| done.contains(u) ==> #[trigger] coeff(q.restrict(done), u) == coeff(q, u),
        reduced(q) ==> reduced(q.restrict(done)),
        q.restrict(q.dom()) == q,
        magnitudes(q).restrict(done) == magnitudes(q.restrict(done)),
{
    assert(q.restrict(done).dom() =~= done);
    assert(q.restrict(q.dom()) =~= q);
    assert(magnitudes(q).restrict(done) =~= magnitudes(q.restrict(done)));
}

/// The product with nothing is nothing.
pub proof fn lemma_mul_term_empty(q: Map<u128, int>, w: u128, c: int)
    requires
        q.dom() == Set::<u128>::empty(),
    ensures
        poly_mul_term(q, w, c) == Map::<u128, int>::empty(),
{
    assert(poly_mul_term(q, w, c) =~= Map::<u128, int>::empty());
}

/// One more term of `q` adds its product with `c · w` to `q · (c · w)`.
pub proof fn lemma_mul_term_step(q: Map<u128, int>, done: Set<u128>, u: u128, w: u128, c: int)
    requires
        done.finite(),
        done.subset_of(q.dom()),
        q.contains_key(u),
        !done.contains(u),
    ensures
        poly_mul_term(q.restrict(done.insert(u)), w, c) == add_term(
            poly_mul_term(q.restrict(done), w, c),
            u | w,
            q[u] * c,
        ),
{
    let small = q.restrict(done);
    let large = q.restrict(done.insert(u));
    lemma_restrict(q, done);
    lemma_restrict(q, done.insert(u));
    let target = add_term(poly_mul_term(small, w, c), u | w, q[u] * c);
    lemma_add_term(poly_mul_term(small, w, c), u | w, q[u] * c);
    assert forall|x: u128| coeff(poly_mul_term(large, w, c), x) == coeff(target, x) by {
        let f = product_part(large, w, c, x);
        let g = product_part(small, w, c, x);
        lemma_sum_insert(done, f, u);
        lemma_sum_same(done, f, g);
    }
    lemma_reduced_equal(poly_mul_term(large, w, c), target);
}

/// However many terms of `q` have been multiplied by `c · w`, no coefficient
/// of the product exceeds the one that the magnitudes of all of them give.
pub proof fn lemma_mul_term_bound(q: Map<u128, int>, done: Set<u128>, w: u128, c: int, x: u128)
    requires
        q.dom().finite(),
        done.subset_of(q.dom()),
    ensures
        magnitude(coeff(poly_mul_term(q.restrict(done), w, c), x)) <= coeff(
            poly_mul_term(magnitudes(q), w, magnitude(c)),
            x,
        ),
        0 <= coeff(poly_mul_term(magnitudes(q), w, magnitude(c)), x),
{
    let f = product_part(q.restrict(done), w, c, x);
    let g = product_part(magnitudes(q), w, magnitude(c), x);
    lemma_restrict(q, done);
    lemma_magnitudes(q);
    vstd::set_lib::lemma_len_subset(done, q.dom());
    assert forall|u: u128| q.dom().contains(u) implies 0 <= g(u) by {
        lemma_magnitude_product(coeff(q, u), c);
    }
    assert forall|u: u128| done.contains(u) implies -g(u) <= f(u) <= g(u) by {
        lemma_magnitude_product(coeff(q, u), c);
    }
    lemma_sum_bound(done, f, g);
    lemma_sum_subset(done, q.dom(), g);
    lemma_sum_nonnegative(q.dom(), g);
}

/// One more term of `q` adds its coefficient at its own product.
pub proof fn lemma_restrict_step(q: Map<u128, int>, done: Set<u128>, u: u128)
    requires
        done.subset_of(q.dom()),
        q.contains_key(u),
        !done.contains(u),
    ensures
        coeff(q.restrict(done), u) == 0,
        forall|x: u128|
            #[trigger] coeff(q.restrict(done.insert(u)), x) == coeff(q.restrict(done), x) + if x
                == u {
                q[u]
            } else {
                0
            },
{
    lemma_restrict(q, done);
    lemma_restrict(q, done.insert(u));
}

/// One more term `c · w` of `q` adds `p · (c · w)` to `p · q`.
pub proof fn lemma_mul_step(p: Map<u128, int>, q: Map<u128, int>, done: Set<u128>, w: u128)
    requires
        done.finite(),
        done.subset_of(q.dom()),
        q.contains_key(w),
        !done.contains(w),
    ensures
        poly_mul(p, q.restrict(done.insert(w))) == poly_add(
            poly_mul(p, q.restrict(done)),
            poly_mul_term(p, w, q[w]),
        ),
{
    let small = q.restrict(done);
    let large = q.restrict(done.insert(w));
    lemma_restrict(q, done);
    lemma_restrict(q, done.insert(w));
    let target = poly_add(poly_mul(p, small), poly_mul_term(p, w, q[w]));
    assert forall|x: u128| coeff(poly_mul(p, large), x) == coeff(target, x) by {
        let f = factor_part(p, large, x);
        let g = factor_part(p, small, x);
        lemma_sum_insert(done, f, w);
        lemma_sum_same(done, f, g);
    }
    lemma_reduced_equal(poly_mul(p, large), target);
}

/// The product with the zero polynomial is the zero polynomial.
pub proof fn lemma_mul_empty(p: Map<u128, int>, q: Map<u128, int>)
    requires
        q.dom() == Set::<u128>::empty(),
    ensures
        poly_mul(p, q) == Map::<u128, int>::empty(),
{
    assert(poly_mul(p, q) =~= Map::<u128, int>::empty());
}

/// With the terms in `done` of `q` multiplied into `p · q` and the term at
/// `w` about to follow, no coefficient exceeds the one that the magnitudes of
/// all terms give.
pub proof fn lemma_mul_bound(p: Map<u128, int>, q: Map<u128, int>, done: Set<u128>, w: u128, x: u128)
    requires
        p.dom().finite(),
        q.dom().finite(),
        done.subset_of(q.dom()),
        q.contains_key(w),
        !done.contains(w),
    ensures
        magnitude(coeff(poly_mul(p, q.restrict(done)), x)) + coeff(
            poly_mul_term(magnitudes(p), w, magnitude(q[w])),
            x,
        ) <= coeff(poly_mul(magnitudes(p), magnitudes(q)), x),
{
    let f = factor_part(p, q.restrict(done), x);
    let g = factor_part(magnitudes(p), magnitudes(q), x);
    lemma_restrict(q, done);
    lemma_restrict(p, p.dom());
    lemma_magnitudes(q);
    vstd::set_lib::lemma_len_subset(done, q.dom());
    assert forall|v: u128| q.dom().contains(v) implies 0 <= g(v) by {
        lemma_mul_term_bound(p, p.dom(), v, q[v], x);
    }
    assert forall|v: u128| done.contains(v) implies -g(v) <= f(v) <= g(v) by {
        lemma_mul_term_bound(p, p.dom(), v, q[v], x);
    }
    lemma_sum_bound(done, f, g);
    lemma_sum_insert(done, g, w);
    lemma_sum_subset(done.insert(w), q.dom(), g);
}

/// A sum of zeros is zero.
pub proof fn lemma_sum_zero(s: Set<u128>, f: spec_fn(u128) -> int)
    requires
        s.finite(),
        forall|u: u128| s.contains(u) ==> f(u) == 0,
    ensures
        sum_over(s, f) == 0,
    decreases s.len(),
{
    if !s.is_empty() {
        lemma_sum_zero(s.remove(s.choose()), f);
    }
}

/// A product `q · (c · w)` has terms only where a term of `q` lands.
pub proof fn lemma_mul_term_support(q: Map<u128, int>, w: u128, c: int, x: u128)
    requires
        q.dom().finite(),
        coeff(poly_mul_term(q, w, c), x) != 0,
    ensures
        exists|u: u128| q.contains_key(u) && (u | w) == x,
{
    if forall|u: u128| q.contains_key(u) ==> (u | w) != x {
        lemma_sum_zero(q.dom(), product_part(q, w, c, x));
    }
}

/// A product can be built in whatever order where it fits on the magnitudes.
pub proof fn lemma_magnitudes_suffice(base: Map<u128, int>, q: Map<u128, int>, w: u128, c: int)
    requires
        q.dom().finite(),
        forall|x: u128|
            magnitude(coeff(base, x)) + #[trigger] coeff(
                poly_mul_term(magnitudes(q), w, magnitude(c)),
                x,
            ) <= i64::MAX,
    ensures
        product_fits(base, q, w, c),
{
    let nothing = Set::<u128>::empty();
    assert forall|u: u128| #[trigger] q.contains_key(u)
        implies i64::MIN <= q[u] * c <= i64::MAX by {
        let x = u | w;
        lemma_restrict(q, nothing);
        lemma_mul_term_empty(q.restrict(nothing), w, c);
        lemma_mul_term_step(q, nothing, u, w, c);
        lemma_add_term(Map::<u128, int>::empty(), x, q[u] * c);
        lemma_mul_term_bound(q, nothing.insert(u), w, c, x);
        assert(magnitude(coeff(base, x)) + coeff(poly_mul_term(magnitudes(q), w, magnitude(c)), x)
            <= i64::MAX);
    }
    assert forall|done: Set<u128>| done.subset_of(q.dom()) implies bounded(
        poly_add(base, poly_mul_term(#[trigger] q.restrict(done), w, c)),
    ) by {
        let part = poly_mul_term(q.restrict(done), w, c);
        lemma_poly_add(base, part);
        assert forall|x: u128| i64::MIN <= #[trigger] coeff(poly_add(base, part), x) <= i64::MAX by {
            lemma_mul_term_bound(q, done, w, c, x);
            assert(magnitude(coeff(base, x)) + coeff(
                poly_mul_term(magnitudes(q), w, magnitude(c)),
                x,
            ) <= i64::MAX);
        }
    }
}

/// A product of polynomials can be built in whatever order where it fits on
/// the magnitudes.
pub proof fn lemma_magnitudes_suffice_for_factors(p: Map<u128, int>, q: Map<u128, int>)
    requires
        p.dom().finite(),
        q.dom().finite(),
        bounded(poly_mul(magnitudes(p), magnitudes(q))),
    ensures
        factors_fit(p, q),
{
    assert forall|done: Set<u128>, w: u128|
        done.subset_of(q.dom()) && q.contains_key(w) && !done.contains(w)
            implies #[trigger] product_fits(
        poly_mul(p, q.restrict(done)),
        p,
        w,
        q[w],
    ) by {
        let base = poly_mul(p, q.restrict(done));
        assert forall|x: u128|
            magnitude(coeff(base, x)) + #[trigger] coeff(
                poly_mul_term(magnitudes(p), w, magnitude(q[w])),
                x,
            ) <= i64::MAX by {
            lemma_mul_bound(p, q, done, w, x);
            assert(coeff(poly_mul(magnitudes(p), magnitudes(q)), x) <= i64::MAX);
        }
        lemma_magnitudes_suffice(base, p, w, q[w]);
    }
}

} // verus!
