//! Polynomials: sets of monomials in which like terms are combined.

use vstd::prelude::*;
use vstd::std_specs::hash::*;
use vstd::std_specs::iter::IteratorSpec;
use std::collections::HashMap;
use crate::algebra::{
    coeff, reduced, bounded, add_term, poly_add, poly_scale, poly_mul_term, poly_mul, product_fits,
    factors_fit, seen, lemma_reduced_equal, lemma_add_term, lemma_poly_add, lemma_poly_scale,
    lemma_seen, lemma_seen_ends, lemma_restrict, lemma_restrict_step, lemma_mul_term_empty,
    lemma_mul_term_step, lemma_mul_step, lemma_mul_empty,
};
use crate::bits::product_of;
use crate::monom::{Monom, fits, term, lemma_term};

verus! {

broadcast use vstd::std_specs::hash::group_hash_axioms;

/// A sum of monomials, no two with the same variable product and none with
/// coefficient zero.
#[derive(Debug)]
pub struct BPolynom {
    poly: HashMap<u128, i64>,
}

impl View for BPolynom {
    type V = Map<u128, int>;

    /// The coefficient of each variable product that has a term.
    closed spec fn view(&self) -> Map<u128, int> {
        Map::new(|v: u128| self.poly@.contains_key(v), |v: u128| self.poly@[v] as int)
    }
}

/// The sum of the terms `c · x_a · x_b · …` that `list` gives by coefficient
/// and slots.
pub open spec fn sum_of(list: Seq<(i64, Vec<u32>)>) -> Map<u128, int>
    decreases list.len(),
{
    if list.len() == 0 {
        Map::empty()
    } else {
        add_term(sum_of(list.drop_last()), product_of(list.last().1@), list.last().0 as int)
    }
}

/// The variable products of a list of monomials, in the list's order.
pub open spec fn products(ts: Seq<Monom>) -> Seq<u128> {
    Seq::new(ts.len(), |i: int| ts[i].vars())
}

/// `ts` lists the terms of `p`, each once.
pub open spec fn lists(ts: Seq<Monom>, p: Map<u128, int>) -> bool {
    &&& products(ts).no_duplicates()
    &&& products(ts).to_set() == p.dom()
    &&& forall|i: int| 0 <= i < ts.len()
        ==> (#[trigger] ts[i]).coefficient() == coeff(p, ts[i].vars())
}

impl BPolynom {
    /// No term has coefficient zero, there are finitely many terms, and every
    /// coefficient can be stored.
    pub open spec fn wf(&self) -> bool {
        &&& reduced(self@)
        &&& self@.dom().finite()
        &&& bounded(self@)
    }

    /// The view has the keys of the table and its values.
    proof fn lemma_view(&self)
        ensures
            self@.dom() == self.poly@.dom(),
            self@.dom().finite(),
            bounded(self@),
            forall|v: u128| self.poly@.contains_key(v) ==> self@[v] == self.poly@[v],
    {
        assert(self@.dom() =~= self.poly@.dom());
    }

    /// The zero polynomial.
    pub fn empty() -> (p: BPolynom)
        ensures
            p@ == Map::<u128, int>::empty(),
            p.wf(),
    {
        let p = BPolynom { poly: HashMap::new() };
        proof {
            p.lemma_view();
            assert(p@ =~= Map::<u128, int>::empty());
        }
        p
    }

    /// The sum of the listed terms, built one by one from the first.
    pub fn from(container: Vec<(i64, Vec<u32>)>) -> (p: BPolynom)
        requires
            forall|i: int| 0 <= i < container.len() ==> (#[trigger] container[i]).0 != 0,
            forall|i: int, j: int|
                0 <= i < container.len() && 0 <= j < container[i].1.len()
                    ==> container[i].1[j] < 128,
            forall|n: int| 0 <= n <= container.len()
                ==> bounded(#[trigger] sum_of(container@.take(n))),
        ensures
            p@ == sum_of(container@),
            p.wf(),
    {
        let mut p = BPolynom::empty();
        let mut i: usize = 0;
        while i < container.len()
            invariant
                i <= container.len(),
                p.wf(),
                forall|k: int| 0 <= k < container.len() ==> (#[trigger] container[k]).0 != 0,
                forall|k: int, j: int|
                    0 <= k < container.len() && 0 <= j < container[k].1.len()
                        ==> container[k].1[j] < 128,
                forall|n: int| 0 <= n <= container.len()
                    ==> bounded(#[trigger] sum_of(container@.take(n))),
                p@ == sum_of(container@.take(i as int)),
            decreases container.len() - i,
        {
            let m = Monom::from_slots(container[i].0, &container[i].1);
            proof {
                let next = container@.take(i + 1);
                assert(next.drop_last() == container@.take(i as int));
                assert(next.last() == container[i as int]);
                lemma_term(product_of(container[i as int].1@), container[i as int].0 as int);
                lemma_add_term(p@, m.vars(), m.coefficient());
                assert(bounded(sum_of(next)));
                assert(coeff(sum_of(next), m.vars()) == coeff(p@, m.vars()) + m.coefficient());
            }
            p.add_assign(&m);
            i += 1;
        }
        proof {
            assert(container@.take(container.len() as int) == container@);
        }
        p
    }

    /// The number of terms.
    pub fn len(&self) -> (n: usize)
        ensures
            n == self@.dom().len(),
    {
        proof {
            self.lemma_view();
        }
        self.poly.len()
    }

    /// The term with the variable product `vars`, if there is one.
    pub fn get(&self, vars: u128) -> (m: Option<Monom>)
        requires
            self.wf(),
        ensures
            m is Some == self@.contains_key(vars),
            m matches Some(t) ==> t.vars() == vars && t.coefficient() == self@[vars],
    {
        proof {
            self.lemma_view();
        }
        match self.poly.get(&vars) {
            Some(c) => {
                assert(self@[vars] == *c);
                Some(Monom::new(vars, *c))
            },
            None => None,
        }
    }

    /// Takes the term with the variable product `vars` out, if there is one.
    pub(crate) fn remove(&mut self, vars: u128)
        requires
            old(self).wf(),
        ensures
            final(self)@ == old(self)@.remove(vars),
            final(self).wf(),
    {
        proof {
            self.lemma_view();
        }
        self.poly.remove(&vars);
        proof {
            self.lemma_view();
            assert(self@ =~= old(self)@.remove(vars));
        }
    }

    /// `self += m`: the term joins the polynomial; it combines with a term of
    /// the same variable product, and the two leave when they cancel.
    pub fn add_assign(&mut self, rhs: &Monom)
        requires
            old(self).wf(),
            rhs.wf(),
            fits(coeff(old(self)@, rhs.vars()) + rhs.coefficient()),
        ensures
            final(self)@ == add_term(old(self)@, rhs.vars(), rhs.coefficient()),
            final(self).wf(),
    {
        let key = rhs.var_product();
        let c = rhs.factor();
        proof {
            self.lemma_view();
        }
        match self.poly.get(&key) {
            Some(present) => {
                let sum: i64 = *present + c;
                if sum == 0 {
                    self.poly.remove(&key);
                } else {
                    self.poly.insert(key, sum);
                }
            },
            None => {
                self.poly.insert(key, c);
            },
        }
        proof {
            self.lemma_view();
            lemma_add_term(old(self)@, key, c as int);
            assert forall|v: u128| self@.contains_key(v) implies self@[v] != 0 by {
                if v != key {
                    assert(old(self).poly@.contains_key(v));
                    assert(old(self)@.contains_key(v));
                    assert(self@[v] == old(self)@[v]);
                } else {
                    assert(self.poly@.contains_key(key));
                }
            }
            assert forall|v: u128| coeff(self@, v)
                == coeff(add_term(old(self)@, key, c as int), v) by {
                if v == key {
                } else {
                    assert(self.poly@.contains_key(v) == old(self).poly@.contains_key(v));
                }
            }
            lemma_reduced_equal(self@, add_term(old(self)@, key, c as int));
        }
    }

    /// The terms, each once, in no particular order.
    pub fn terms(&self) -> (ts: Vec<Monom>)
        requires
            self.wf(),
        ensures
            lists(ts@, self@),
            forall|i: int| 0 <= i < ts.len() ==> (#[trigger] ts[i]).wf(),
    {
        let mut out: Vec<Monom> = Vec::new();
        proof {
            self.lemma_view();
        }
        for kv in it: self.poly.iter()
            invariant
                self.wf(),
                out@.len() == it.index(),
                forall|j: int| 0 <= j < out@.len()
                    ==> (#[trigger] out@[j]) == term(*it.seq()[j].0, *it.seq()[j].1 as int),
                forall|j: int| 0 <= j < it.seq().len()
                    ==> self.poly@.contains_key(*it.seq()[j].0) && self.poly@[*it.seq()[j].0]
                    == *it.seq()[j].1,
        {
            let key = *kv.0;
            let c = *kv.1;
            assert(self.poly@.contains_key(key));
            assert(self@[key] == c);
            out.push(Monom::new(key, c));
        }
        proof {
            broadcast use lemma_term;
            let all = self.poly.iter().remaining();
            assert(out@.len() == all.len());
            assert(all.unref().to_set() == self.poly@.kv_pairs());
            let ks = products(out@);
            assert forall|i: int, j: int| 0 <= i < ks.len() && 0 <= j < ks.len() && i != j
                implies ks[i] != ks[j] by {
                assert(out@[i] == term(*all[i].0, *all[i].1 as int));
                assert(out@[j] == term(*all[j].0, *all[j].1 as int));
                if ks[i] == ks[j] {
                    assert(all[i] == all[j]);
                }
            }
            assert forall|v: u128| ks.to_set().contains(v) == self@.dom().contains(v) by {
                if ks.to_set().contains(v) {
                    let i = choose|i: int| 0 <= i < ks.len() && ks[i] == v;
                    assert(out@[i] == term(*all[i].0, *all[i].1 as int));
                }
                if self@.dom().contains(v) {
                    assert(self.poly@.kv_pairs().contains((v, self.poly@[v])));
                    assert(all.unref().contains((v, self.poly@[v])));
                    let i = choose|i: int| 0 <= i < all.unref().len() && all.unref()[i]
                        == (v, self.poly@[v]);
                    assert(out@[i] == term(*all[i].0, *all[i].1 as int));
                    assert(ks[i] == v);
                }
            }
            assert(ks.to_set() =~= self@.dom());
            assert forall|i: int| 0 <= i < out@.len()
                implies (#[trigger] out@[i]).coefficient() == coeff(self@, out@[i].vars())
                && out@[i].wf() by {
                assert(out@[i] == term(*all[i].0, *all[i].1 as int));
            }
        }
        out
    }
}

impl BPolynom {
    /// `self += q · (c · w)`, where `terms` lists the terms of `q`.
    pub(crate) fn add_product(
        &mut self,
        terms: &Vec<Monom>,
        Ghost(q): Ghost<Map<u128, int>>,
        w: u128,
        c: i64,
    )
        requires
            old(self).wf(),
            lists(terms@, q),
            forall|i: int| 0 <= i < terms.len() ==> (#[trigger] terms[i]).wf(),
            c != 0,
            product_fits(old(self)@, q, w, c as int),
        ensures
            final(self).wf(),
            final(self)@ == poly_add(old(self)@, poly_mul_term(q, w, c as int)),
    {
        let ghost base = self@;
        let ghost keys = products(terms@);
        proof {
            lemma_seen_ends(keys);
            lemma_restrict(q, Set::<u128>::empty());
            lemma_mul_term_empty(q.restrict(Set::<u128>::empty()), w, c as int);
            lemma_poly_add(base, Map::<u128, int>::empty());
            lemma_reduced_equal(self@, poly_add(base, Map::<u128, int>::empty()));
        }
        let mut i: usize = 0;
        while i < terms.len()
            invariant
                i <= terms.len(),
                self.wf(),
                base == old(self)@,
                keys == products(terms@),
                lists(terms@, q),
                forall|k: int| 0 <= k < terms.len() ==> (#[trigger] terms[k]).wf(),
                c != 0,
                product_fits(base, q, w, c as int),
                self@
                    == poly_add(base, poly_mul_term(q.restrict(seen(keys, i as int)), w, c as int)),
            decreases terms.len() - i,
        {
            let t = terms[i];
            let ghost u = t.vars();
            let ghost done = seen(keys, i as int);
            let ghost before = poly_mul_term(q.restrict(done), w, c as int);
            let ghost after = poly_mul_term(q.restrict(done.insert(u)), w, c as int);
            let ghost x = u | w;
            proof {
                assert(keys[i as int] == u);
                lemma_seen(keys, i as int);
                assert(q.contains_key(u));
                assert(t.coefficient() == q[u]);
                lemma_mul_term_step(q, done, u, w, c as int);
                lemma_add_term(before, x, q[u] * c);
                lemma_poly_add(base, before);
                lemma_poly_add(base, after);
                assert(bounded(poly_add(base, poly_mul_term(q.restrict(done.insert(u)), w, c as int))));
                assert(q[u] * c != 0) by (nonlinear_arith)
                    requires
                        q[u] != 0,
                        c != 0,
                ;
                assert(coeff(self@, x) + q[u] * c == coeff(poly_add(base, after), x));
            }
            let product: i64 = t.factor() * c;
            let m = Monom::new(t.var_product() | w, product);
            self.add_assign(&m);
            proof {
                lemma_add_term(poly_add(base, before), x, q[u] * c);
                assert forall|y: u128| coeff(self@, y) == coeff(poly_add(base, after), y) by {}
                lemma_reduced_equal(self@, poly_add(base, after));
            }
            i += 1;
        }
        proof {
            lemma_restrict(q, q.dom());
        }
    }
}

impl Clone for BPolynom {
    /// A polynomial with the same terms.
    fn clone(&self) -> (p: BPolynom)
        ensures
            p@ == self@,
    {
        let p = BPolynom { poly: self.poly.clone() };
        proof {
            assert(p@ =~= self@);
        }
        p
    }
}

impl std::ops::Add<Monom> for BPolynom {
    type Output = BPolynom;

    /// `p + m`.
    fn add(self, rhs: Monom) -> (r: BPolynom)
        ensures
            r@ == add_term(self@, rhs.vars(), rhs.coefficient()),
            r.wf(),
    {
        let mut r = self;
        r.add_assign(&rhs);
        r
    }
}

/// What `p + m` asks of its operands. The sum itself is stated on the views,
/// in the contract of `add`: two polynomials with the same terms need not be
/// the same value in memory, so no value can be named as the result.
impl vstd::std_specs::ops::AddSpecImpl<Monom> for BPolynom {
    open spec fn obeys_add_spec() -> bool {
        false
    }

    open spec fn add_req(self, rhs: Monom) -> bool {
        &&& self.wf()
        &&& rhs.wf()
        &&& fits(coeff(self@, rhs.vars()) + rhs.coefficient())
    }

    open spec fn add_spec(self, rhs: Monom) -> BPolynom {
        self
    }
}

impl<'a> std::ops::Add<&'a BPolynom> for BPolynom {
    type Output = BPolynom;

    /// `p + q`: every term of `q` joins `p`.
    fn add(self, rhs: &'a BPolynom) -> (r: BPolynom)
        ensures
            r@ == poly_add(self@, rhs@),
            r.wf(),
    {
        let mut r = self;
        let ghost base = self@;
        let ghost q = rhs@;
        let terms = rhs.terms();
        let ghost keys = products(terms@);
        proof {
            lemma_seen_ends(keys);
            lemma_restrict(q, Set::<u128>::empty());
            lemma_poly_add(base, q.restrict(Set::<u128>::empty()));
            lemma_reduced_equal(r@, poly_add(base, q.restrict(Set::<u128>::empty())));
        }
        let mut i: usize = 0;
        while i < terms.len()
            invariant
                i <= terms.len(),
                r.wf(),
                keys == products(terms@),
                lists(terms@, q),
                forall|k: int| 0 <= k < terms.len() ==> (#[trigger] terms[k]).wf(),
                bounded(poly_add(base, q)),
                r@ == poly_add(base, q.restrict(seen(keys, i as int))),
            decreases terms.len() - i,
        {
            let t = terms[i];
            let ghost u = t.vars();
            let ghost done = seen(keys, i as int);
            proof {
                assert(keys[i as int] == u);
                lemma_seen(keys, i as int);
                lemma_restrict_step(q, done, u);
                lemma_poly_add(base, q.restrict(done));
                lemma_poly_add(base, q.restrict(done.insert(u)));
                lemma_poly_add(base, q);
                assert(coeff(r@, u) + t.coefficient() == coeff(poly_add(base, q), u));
            }
            r.add_assign(&t);
            proof {
                lemma_add_term(poly_add(base, q.restrict(done)), u, q[u]);
                assert forall|y: u128| coeff(r@, y)
                    == coeff(poly_add(base, q.restrict(done.insert(u))), y) by {}
                lemma_reduced_equal(r@, poly_add(base, q.restrict(done.insert(u))));
            }
            i += 1;
        }
        proof {
            lemma_restrict(q, q.dom());
        }
        r
    }
}

/// What `p + q` asks of its operands: every coefficient of the sum can be
/// stored. The sum itself is stated in the contract of `add`.
impl<'a> vstd::std_specs::ops::AddSpecImpl<&'a BPolynom> for BPolynom {
    open spec fn obeys_add_spec() -> bool {
        false
    }

    open spec fn add_req(self, rhs: &'a BPolynom) -> bool {
        &&& self.wf()
        &&& rhs.wf()
        &&& bounded(poly_add(self@, rhs@))
    }

    open spec fn add_spec(self, rhs: &'a BPolynom) -> BPolynom {
        self
    }
}

impl std::ops::Mul<i64> for BPolynom {
    type Output = BPolynom;

    /// `p · k`: every coefficient is multiplied by `k`.
    fn mul(self, rhs: i64) -> (r: BPolynom)
        ensures
            r@ == poly_scale(self@, rhs as int),
            r.wf(),
    {
        let mut r = BPolynom::empty();
        let ghost q = self@;
        let ghost k = rhs as int;
        let terms = self.terms();
        let ghost keys = products(terms@);
        proof {
            lemma_seen_ends(keys);
            lemma_restrict(q, Set::<u128>::empty());
            lemma_poly_scale(q.restrict(Set::<u128>::empty()), k);
            lemma_reduced_equal(r@, poly_scale(q.restrict(Set::<u128>::empty()), k));
        }
        let mut i: usize = 0;
        while i < terms.len()
            invariant
                i <= terms.len(),
                r.wf(),
                k == rhs,
                keys == products(terms@),
                lists(terms@, q),
                forall|j: int| 0 <= j < terms.len() ==> (#[trigger] terms[j]).wf(),
                bounded(poly_scale(q, k)),
                r@ == poly_scale(q.restrict(seen(keys, i as int)), k),
            decreases terms.len() - i,
        {
            let t = terms[i];
            let ghost u = t.vars();
            let ghost done = seen(keys, i as int);
            proof {
                assert(keys[i as int] == u);
                lemma_seen(keys, i as int);
                lemma_restrict_step(q, done, u);
                lemma_poly_scale(q.restrict(done), k);
                lemma_poly_scale(q.restrict(done.insert(u)), k);
                lemma_poly_scale(q, k);
                assert(coeff(poly_scale(q, k), u) == q[u] * k);
                assert(coeff(r@, u) == 0);
            }
            let scaled = t * rhs;
            match scaled {
                Some(m) => {
                    proof {
                        lemma_term(u, q[u] * k);
                    }
                    r.add_assign(&m);
                    proof {
                        lemma_add_term(poly_scale(q.restrict(done), k), u, q[u] * k);
                    }
                },
                None => {},
            }
            proof {
                assert forall|y: u128| coeff(r@, y)
                    == coeff(poly_scale(q.restrict(done.insert(u)), k), y) by {}
                lemma_reduced_equal(r@, poly_scale(q.restrict(done.insert(u)), k));
            }
            i += 1;
        }
        proof {
            lemma_restrict(q, q.dom());
        }
        r
    }
}

/// What `p · k` asks of its operands: every coefficient of the product can
/// be stored. The product itself is stated in the contract of `mul`.
impl vstd::std_specs::ops::MulSpecImpl<i64> for BPolynom {
    open spec fn obeys_mul_spec() -> bool {
        false
    }

    open spec fn mul_req(self, rhs: i64) -> bool {
        &&& self.wf()
        &&& bounded(poly_scale(self@, rhs as int))
    }

    open spec fn mul_spec(self, rhs: i64) -> BPolynom {
        self
    }
}

impl std::ops::Mul<Monom> for BPolynom {
    type Output = BPolynom;

    /// `p · m`: every term is multiplied by `m`, and products that fall on the
    /// same variable product combine.
    fn mul(self, rhs: Monom) -> (r: BPolynom)
        ensures
            r@ == poly_mul_term(self@, rhs.vars(), rhs.coefficient()),
            r.wf(),
    {
        let terms = self.terms();
        let mut r = BPolynom::empty();
        r.add_product(&terms, Ghost(self@), rhs.var_product(), rhs.factor());
        proof {
            let product = poly_mul_term(self@, rhs.vars(), rhs.coefficient());
            lemma_poly_add(Map::<u128, int>::empty(), product);
            lemma_reduced_equal(r@, product);
        }
        r
    }
}

/// What `p · m` asks of its operands: the terms are visited in no particular
/// order, so every sum that can arise on the way must fit
/// (`laws::law_small_product` shows it from the sum of the magnitudes). The
/// product itself is stated in the contract of `mul`.
impl vstd::std_specs::ops::MulSpecImpl<Monom> for BPolynom {
    open spec fn obeys_mul_spec() -> bool {
        false
    }

    open spec fn mul_req(self, rhs: Monom) -> bool {
        &&& self.wf()
        &&& rhs.wf()
        &&& product_fits(Map::empty(), self@, rhs.vars(), rhs.coefficient())
    }

    open spec fn mul_spec(self, rhs: Monom) -> BPolynom {
        self
    }
}

impl<'a, 'b> std::ops::Mul<&'b BPolynom> for &'a BPolynom {
    type Output = BPolynom;

    /// `p · q`: the sum of `p · m` over the terms `m` of `q`.
    fn mul(self, rhs: &'b BPolynom) -> (r: BPolynom)
        ensures
            r@ == poly_mul(self@, rhs@),
            r.wf(),
    {
        let ghost p = self@;
        let ghost q = rhs@;
        let left = self.terms();
        let right = rhs.terms();
        let ghost keys = products(right@);
        let mut r = BPolynom::empty();
        proof {
            lemma_seen_ends(keys);
            lemma_restrict(q, Set::<u128>::empty());
            lemma_mul_empty(p, q.restrict(Set::<u128>::empty()));
        }
        let mut i: usize = 0;
        while i < right.len()
            invariant
                i <= right.len(),
                r.wf(),
                p == self@,
                self.wf(),
                keys == products(right@),
                lists(left@, p),
                lists(right@, q),
                q.dom().finite(),
                forall|j: int| 0 <= j < left.len() ==> (#[trigger] left[j]).wf(),
                forall|j: int| 0 <= j < right.len() ==> (#[trigger] right[j]).wf(),
                factors_fit(p, q),
                r@ == poly_mul(p, q.restrict(seen(keys, i as int))),
            decreases right.len() - i,
        {
            let t = right[i];
            let ghost w = t.vars();
            let ghost done = seen(keys, i as int);
            proof {
                assert(keys[i as int] == w);
                lemma_seen(keys, i as int);
                lemma_mul_step(p, q, done, w);
                assert(q.contains_key(w));
                assert(product_fits(poly_mul(p, q.restrict(done)), p, w, q[w]));
            }
            r.add_product(&left, Ghost(p), t.var_product(), t.factor());
            i += 1;
        }
        proof {
            lemma_restrict(q, q.dom());
        }
        r
    }
}

/// What `p · q` asks of its operands: the terms are visited in no particular
/// order, so every sum that can arise on the way must fit
/// (`laws::law_small_factors` shows it from the sums of the magnitudes). The
/// product itself is stated in the contract of `mul`.
impl<'a, 'b> vstd::std_specs::ops::MulSpecImpl<&'b BPolynom> for &'a BPolynom {
    open spec fn obeys_mul_spec() -> bool {
        false
    }

    open spec fn mul_req(self, rhs: &'b BPolynom) -> bool {
        &&& self.wf()
        &&& rhs.wf()
        &&& factors_fit(self@, rhs@)
    }

    open spec fn mul_spec(self, rhs: &'b BPolynom) -> BPolynom {
        *self
    }
}

} // verus!
