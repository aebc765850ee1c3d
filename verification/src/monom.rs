//! One term of a polynomial: a nonzero coefficient and a product of variables.

use vstd::prelude::*;
use crate::algebra::magnitude;
use crate::bits::{has_var, single, without, product_of};
use std::cmp::Ordering;

verus! {

/// A term `c · x_a · x_b · …` with `c != 0`. Every variable has exponent one,
/// so the product is the set of slots whose variable occurs.
#[derive(Clone, Copy, Debug)]
pub struct Monom {
    var_product: u128,
    factor: i64,
}

/// Whether `c` can be stored as a coefficient.
pub open spec fn fits(c: int) -> bool {
    i64::MIN <= c <= i64::MAX
}

/// The monomial `c · vars`, for a coefficient that fits.
pub closed spec fn term(vars: u128, c: int) -> Monom {
    Monom { var_product: vars, factor: c as i64 }
}

/// `term` gives the monomial with these variables and this coefficient.
pub broadcast proof fn lemma_term(vars: u128, c: int)
    requires
        fits(c),
    ensures
        (#[trigger] term(vars, c)).vars() == vars,
        term(vars, c).coefficient() == c,
{
}

/// The coefficient of a monomial can be stored.
pub proof fn lemma_coefficient_fits(m: Monom)
    ensures
        fits(m.coefficient()),
{
}

/// A monomial is its variable product and its coefficient, nothing more.
pub proof fn lemma_same_monom(a: Monom, b: Monom)
    requires
        a.vars() == b.vars(),
        a.coefficient() == b.coefficient(),
    ensures
        a == b,
{
}

impl Monom {
    /// The set of slots whose variable occurs in the term.
    pub closed spec fn vars(self) -> u128 {
        self.var_product
    }

    /// The number that the variables are multiplied by.
    pub closed spec fn coefficient(self) -> int {
        self.factor as int
    }

    /// Monomials with coefficient zero do not exist.
    pub open spec fn wf(self) -> bool {
        self.coefficient() != 0
    }

    /// Builds `c · x_a · x_b · …` from the coefficient and the list of slots.
    pub fn from(contents: (i64, Vec<u32>)) -> (m: Monom)
        requires
            contents.0 != 0,
            forall|i: int| 0 <= i < contents.1.len() ==> contents.1[i] < 128,
        ensures
            m.vars() == product_of(contents.1@),
            m.coefficient() == contents.0,
    {
        Monom::from_slots(contents.0, &contents.1)
    }

    /// `factor · x_a · x_b · …` for the slots listed.
    pub(crate) fn from_slots(factor: i64, slots: &Vec<u32>) -> (m: Monom)
        requires
            factor != 0,
            forall|i: int| 0 <= i < slots.len() ==> slots[i] < 128,
        ensures
            m.vars() == product_of(slots@),
            m.coefficient() == factor,
    {
        let mut bitset: u128 = 0;
        let mut i: usize = 0;
        while i < slots.len()
            invariant
                i <= slots.len(),
                forall|k: int| 0 <= k < slots.len() ==> slots[k] < 128,
                bitset == product_of(slots@.take(i as int)),
            decreases slots.len() - i,
        {
            let slot = slots[i];
            assert(slots@.take(i + 1).drop_last() == slots@.take(i as int));
            bitset = bitset | (1u128 << (slot as u128));
            i += 1;
        }
        assert(slots@.take(slots.len() as int) == slots@);
        Monom { var_product: bitset, factor }
    }

    /// `factor · vars`.
    pub(crate) fn new(vars: u128, factor: i64) -> (m: Monom)
        requires
            factor != 0,
        ensures
            m.vars() == vars,
            m.coefficient() == factor,
            m == term(vars, factor as int),
    {
        Monom { var_product: vars, factor }
    }

    /// The term's variable product.
    pub fn var_product(&self) -> (v: u128)
        ensures
            v == self.vars(),
    {
        self.var_product
    }

    /// The term's coefficient.
    pub fn factor(&self) -> (c: i64)
        ensures
            c == self.coefficient(),
    {
        self.factor
    }

    /// The slots of the term's variables, highest first.
    pub fn all_used_vars(&self) -> (used: Vec<usize>)
        ensures
            forall|k: int| 0 <= k < used.len()
                ==> used[k] < 128 && has_var(self.vars(), used[k] as u32),
            forall|j: u32| has_var(self.vars(), j) ==> used@.contains(j as usize),
            forall|a: int, b: int| 0 <= a < b < used.len() ==> used[a] > used[b],
    {
        let mut used: Vec<usize> = Vec::new();
        let mut index: usize = 128;
        while index > 0
            invariant
                index <= 128,
                forall|k: int| 0 <= k < used.len()
                    ==> index <= used[k] < 128 && has_var(self.vars(), used[k] as u32),
                forall|j: u32| index <= j && has_var(self.vars(), j) ==> used@.contains(j as usize),
                forall|a: int, b: int| 0 <= a < b < used.len() ==> used[a] > used[b],
            decreases index,
        {
            index -= 1;
            let ghost before = used@;
            if (self.var_product >> (index as u128)) & 1 == 1 {
                used.push(index);
                assert(used@[used.len() - 1] == index);
            }
            assert forall|j: u32| index <= j && has_var(self.vars(), j)
                implies used@.contains(j as usize) by {
                if j > index {
                    let k = choose|k: int| 0 <= k < before.len() && before[k] == j as usize;
                    assert(used@[k] == j as usize);
                }
            }
        }
        used
    }

    /// For each slot, whether its variable is absent from the term.
    pub fn all_free_vars(&self) -> (free: [bool; 128])
        ensures
            forall|j: u32| j < 128 ==> free[j as int] == !has_var(self.vars(), j),
    {
        let mut free: [bool; 128] = [false; 128];
        let mut index: usize = 0;
        while index < 128
            invariant
                index <= 128,
                forall|j: u32| j < index ==> free[j as int] == !has_var(self.vars(), j),
            decreases 128 - index,
        {
            let absent = (self.var_product >> (index as u128)) & 1 != 1;
            free[index] = absent;
            index += 1;
        }
        free
    }

    /// Orders two terms by their variable products, read as numbers.
    pub fn cmp_vars(&self, other: &Self) -> (o: Ordering)
        ensures
            match o {
                Ordering::Less => self.vars() < other.vars(),
                Ordering::Equal => self.vars() == other.vars(),
                Ordering::Greater => self.vars() > other.vars(),
            },
    {
        if self.var_product < other.var_product {
            Ordering::Less
        } else if self.var_product == other.var_product {
            Ordering::Equal
        } else {
            Ordering::Greater
        }
    }

    /// Takes the variable in slot `var` out of the term.
    pub fn delete_var(&mut self, var: u32)
        requires
            var < 128,
        ensures
            final(self).vars() == without(old(self).vars(), var),
            final(self).coefficient() == old(self).coefficient(),
    {
        self.var_product = self.var_product & !(1u128 << (var as u128));
    }

    /// Multiplies the term by the variable in slot `var`.
    pub fn set_var(&mut self, var: u32)
        requires
            var < 128,
        ensures
            final(self).vars() == old(self).vars() | single(var),
            final(self).coefficient() == old(self).coefficient(),
    {
        self.var_product = self.var_product | (1u128 << (var as u128));
    }
}

impl std::ops::Add<i64> for Monom {
    type Output = Option<Monom>;

    /// `m + k`: the coefficient grows by `k`; no term is left when it reaches zero.
    fn add(self, rhs: i64) -> (r: Option<Monom>)
        ensures
            r is Some <==> self.coefficient() + rhs != 0,
            r matches Some(sum)
                ==> sum.vars() == self.vars() && sum.coefficient() == self.coefficient() + rhs,
    {
        let new_factor = self.factor + rhs;
        if new_factor != 0 {
            Some(Monom { var_product: self.var_product, factor: new_factor })
        } else {
            None
        }
    }
}

impl vstd::std_specs::ops::AddSpecImpl<i64> for Monom {
    open spec fn obeys_add_spec() -> bool {
        true
    }

    open spec fn add_req(self, rhs: i64) -> bool {
        fits(self.coefficient() + rhs)
    }

    open spec fn add_spec(self, rhs: i64) -> Option<Monom> {
        if self.coefficient() + rhs == 0 {
            None
        } else {
            Some(term(self.vars(), self.coefficient() + rhs))
        }
    }
}

impl std::ops::Sub<i64> for Monom {
    type Output = Option<Monom>;

    /// `m − k`: the coefficient shrinks by `k`; no term is left when it reaches zero.
    fn sub(self, rhs: i64) -> (r: Option<Monom>)
        ensures
            r is Some <==> self.coefficient() - rhs != 0,
            r matches Some(difference)
                ==> difference.vars() == self.vars() && difference.coefficient()
                == self.coefficient() - rhs,
    {
        let new_factor = self.factor - rhs;
        if new_factor != 0 {
            Some(Monom { var_product: self.var_product, factor: new_factor })
        } else {
            None
        }
    }
}

impl vstd::std_specs::ops::SubSpecImpl<i64> for Monom {
    open spec fn obeys_sub_spec() -> bool {
        true
    }

    open spec fn sub_req(self, rhs: i64) -> bool {
        fits(self.coefficient() - rhs)
    }

    open spec fn sub_spec(self, rhs: i64) -> Option<Monom> {
        if self.coefficient() - rhs == 0 {
            None
        } else {
            Some(term(self.vars(), self.coefficient() - rhs))
        }
    }
}

impl std::ops::Mul<i64> for Monom {
    type Output = Option<Monom>;

    /// `m · k`: the coefficient is multiplied by `k`; no term is left when the
    /// product is zero.
    fn mul(self, rhs: i64) -> (r: Option<Monom>)
        ensures
            r is Some <==> self.coefficient() * rhs != 0,
            r matches Some(product) ==> product.vars() == self.vars() && product.coefficient()
                == self.coefficient() * rhs,
    {
        let new_factor = self.factor * rhs;
        if new_factor != 0 {
            Some(Monom { var_product: self.var_product, factor: new_factor })
        } else {
            None
        }
    }
}

impl vstd::std_specs::ops::MulSpecImpl<i64> for Monom {
    open spec fn obeys_mul_spec() -> bool {
        true
    }

    open spec fn mul_req(self, rhs: i64) -> bool {
        fits(self.coefficient() * rhs)
    }

    open spec fn mul_spec(self, rhs: i64) -> Option<Monom> {
        if self.coefficient() * rhs == 0 {
            None
        } else {
            Some(term(self.vars(), self.coefficient() * rhs))
        }
    }
}

impl std::ops::Mul<Monom> for Monom {
    type Output = Monom;

    /// `m · n`: coefficients multiply and the variable products unite, since
    /// `x · x = x` for a Boolean variable.
    fn mul(self, rhs: Monom) -> (r: Monom)
        ensures
            r.vars() == self.vars() | rhs.vars(),
            r.coefficient() == self.coefficient() * rhs.coefficient(),
    {
        Monom {
            var_product: self.var_product | rhs.var_product,
            factor: self.factor * rhs.factor,
        }
    }
}

impl vstd::std_specs::ops::MulSpecImpl<Monom> for Monom {
    open spec fn obeys_mul_spec() -> bool {
        true
    }

    open spec fn mul_req(self, rhs: Monom) -> bool {
        fits(self.coefficient() * rhs.coefficient())
    }

    open spec fn mul_spec(self, rhs: Monom) -> Monom {
        term(self.vars() | rhs.vars(), self.coefficient() * rhs.coefficient())
    }
}

/// Whether the magnitude of `a` is at least that of `b`.
pub(crate) fn outweighs(a: i64, b: i64) -> (r: bool)
    ensures
        r == (magnitude(a as int) >= magnitude(b as int)),
{
    let x: i128 = if a < 0 {
        -(a as i128)
    } else {
        a as i128
    };
    let y: i128 = if b < 0 {
        -(b as i128)
    } else {
        b as i128
    };
    x >= y
}

impl PartialEq for Monom {
    /// Two monomials are the same term when they have the same variables,
    /// whatever their coefficients.
    fn eq(&self, other: &Self) -> (r: bool) {
        self.var_product == other.var_product
    }
}

impl Eq for Monom {

}

impl vstd::std_specs::cmp::PartialEqSpecImpl for Monom {
    open spec fn obeys_eq_spec() -> bool {
        true
    }

    open spec fn eq_spec(&self, other: &Self) -> bool {
        self.vars() == other.vars()
    }
}

impl PartialOrd for Monom {
    /// Monomials are ordered by the magnitude of their coefficients.
    fn partial_cmp(&self, other: &Self) -> (r: Option<Ordering>) {
        let heavier = outweighs(self.factor, other.factor);
        let lighter = outweighs(other.factor, self.factor);
        if heavier && lighter {
            Some(Ordering::Equal)
        } else if heavier {
            Some(Ordering::Greater)
        } else {
            Some(Ordering::Less)
        }
    }
}

impl vstd::std_specs::cmp::PartialOrdSpecImpl for Monom {
    open spec fn obeys_partial_cmp_spec() -> bool {
        true
    }

    open spec fn partial_cmp_spec(&self, other: &Self) -> Option<Ordering> {
        if magnitude(self.coefficient()) < magnitude(other.coefficient()) {
            Some(Ordering::Less)
        } else if magnitude(self.coefficient()) == magnitude(other.coefficient()) {
            Some(Ordering::Equal)
        } else {
            Some(Ordering::Greater)
        }
    }
}

} // verus!
