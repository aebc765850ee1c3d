//! Variable products as 128-bit sets of slots.

use vstd::prelude::*;

verus! {

/// Number of variable slots a product can name.
pub const SLOTS: usize = 128;

/// The product that holds exactly the variable in `slot`.
pub open spec fn single(slot: u32) -> u128 {
    1u128 << (slot as u128)
}

/// Whether the variable in `slot` occurs in the product `vars`.
pub open spec fn has_var(vars: u128, slot: u32) -> bool {
    slot < 128 && (vars >> (slot as u128)) & 1 == 1
}

/// The product `vars` with the variable in `slot` taken out.
pub open spec fn without(vars: u128, slot: u32) -> u128 {
    vars & !single(slot)
}

/// The product of the variables listed in `slots`; a repeated slot counts once.
pub open spec fn product_of(slots: Seq<u32>) -> u128
    decreases slots.len(),
{
    if slots.len() == 0 {
        0
    } else {
        product_of(slots.drop_last()) | single(slots.last())
    }
}

/// The product of one variable holds that variable and no other.
pub proof fn lemma_single(slot: u32, j: u32)
    requires
        slot < 128,
    ensures
        has_var(single(slot), j) == (j == slot),
{
    let s = slot as u128;
    let t = j as u128;
    assert(s < 128 && t < 128 ==> ((((1u128 << s) >> t) & 1 == 1) == (t == s))) by (bit_vector);
}

/// The empty product holds no variable.
pub proof fn lemma_empty_product(j: u32)
    ensures
        !has_var(0, j),
{
    let t = j as u128;
    assert((0u128 >> t) & 1 == 0) by (bit_vector);
}

/// A product of two products holds the variables of both.
pub proof fn lemma_union(a: u128, b: u128, j: u32)
    ensures
        has_var(a | b, j) == (has_var(a, j) || has_var(b, j)),
{
    let t = j as u128;
    assert((((a | b) >> t) & 1 == 1) == (((a >> t) & 1 == 1) || ((b >> t) & 1 == 1)))
        by (bit_vector);
}

/// Multiplying by a variable adds that variable and changes no other.
pub proof fn lemma_with(vars: u128, slot: u32, j: u32)
    requires
        slot < 128,
    ensures
        has_var(vars | single(slot), j) == (j == slot || has_var(vars, j)),
{
    lemma_union(vars, single(slot), j);
    lemma_single(slot, j);
}

/// Taking a variable out removes that variable and changes no other.
pub proof fn lemma_without(vars: u128, slot: u32, j: u32)
    requires
        slot < 128,
    ensures
        has_var(without(vars, slot), j) == (j != slot && has_var(vars, j)),
{
    let s = slot as u128;
    let t = j as u128;
    assert(s < 128 && t < 128 ==> ((((vars & !(1u128 << s)) >> t) & 1 == 1) == (t != s && (vars
        >> t) & 1 == 1))) by (bit_vector);
}

/// Taking a variable out of two products that both hold it keeps them apart.
pub proof fn lemma_without_injective(a: u128, b: u128, slot: u32)
    requires
        has_var(a, slot),
        has_var(b, slot),
        without(a, slot) == without(b, slot),
    ensures
        a == b,
{
    let s = slot as u128;
    assert(s < 128 && (a >> s) & 1 == 1 && (b >> s) & 1 == 1 && (a & !(1u128 << s)) == (b & !(
    1u128 << s)) ==> a == b) by (bit_vector);
}

/// Taking a variable out of a product that holds it and putting it back
/// gives the product.
pub proof fn lemma_without_with(vars: u128, slot: u32)
    requires
        has_var(vars, slot),
    ensures
        without(vars, slot) | single(slot) == vars,
{
    let s = slot as u128;
    assert(s < 128 && (vars >> s) & 1 == 1 ==> (vars & !(1u128 << s)) | (1u128 << s) == vars)
        by (bit_vector);
}

/// Putting a variable into a product that lacks it and taking it out again
/// gives the product.
pub proof fn lemma_with_without(vars: u128, slot: u32)
    requires
        slot < 128,
        !has_var(vars, slot),
    ensures
        without(vars | single(slot), slot) == vars,
{
    let s = slot as u128;
    assert(s < 128 && (vars >> s) & 1 != 1 ==> ((vars | (1u128 << s)) & !(1u128 << s)) == vars)
        by (bit_vector);
}

} // verus!
