//! Monomials and polynomials as text: `+3·a·b -2·c`.

use vstd::prelude::*;
use vstd::string::StringExecFns;
use crate::algebra::magnitude;
use crate::bits::has_var;
use crate::monom::{Monom, outweighs};
use crate::polynom::{BPolynom, lists, products};

verus! {

/// The characters of each name of a list.
pub open spec fn texts(names: Seq<String>) -> Seq<Seq<char>> {
    Seq::new(names.len(), |i: int| names[i]@)
}

/// The decimal digit `d`.
pub open spec fn digit(d: int) -> char {
    if d == 0 {
        '0'
    } else if d == 1 {
        '1'
    } else if d == 2 {
        '2'
    } else if d == 3 {
        '3'
    } else if d == 4 {
        '4'
    } else if d == 5 {
        '5'
    } else if d == 6 {
        '6'
    } else if d == 7 {
        '7'
    } else if d == 8 {
        '8'
    } else {
        '9'
    }
}

/// `n` in decimal, without leading zeros.
pub open spec fn decimal(n: nat) -> Seq<char>
    decreases n,
{
    if n < 10 {
        seq![digit(n as int)]
    } else {
        decimal(n / 10).push(digit((n % 10) as int))
    }
}

/// `c` in decimal, with its sign always written.
pub open spec fn signed_decimal(c: int) -> Seq<char> {
    if c < 0 {
        seq!['-'] + decimal((-c) as nat)
    } else {
        seq!['+'] + decimal(c as nat)
    }
}

/// The names of the variables of `vars` in the slots from `low` up, highest
/// slot first, each after a dot.
pub open spec fn factors_from(vars: u128, names: Seq<Seq<char>>, low: int) -> Seq<char>
    decreases 128 - low,
{
    if low >= 128 {
        Seq::empty()
    } else if has_var(vars, low as u32) {
        factors_from(vars, names, low + 1) + seq!['·'] + names[low]
    } else {
        factors_from(vars, names, low + 1)
    }
}

/// The term `c · vars` as text: the signed coefficient, then the names of
/// its variables, highest slot first, each after a dot.
pub open spec fn monom_text(c: int, vars: u128, names: Seq<Seq<char>>) -> Seq<char> {
    signed_decimal(c) + factors_from(vars, names, 0)
}

/// The texts in `parts` with `sep` between each two.
pub open spec fn joined(parts: Seq<Seq<char>>, sep: Seq<char>) -> Seq<char>
    decreases parts.len(),
{
    if parts.len() == 0 {
        Seq::empty()
    } else if parts.len() == 1 {
        parts[0]
    } else {
        joined(parts.drop_last(), sep) + sep + parts.last()
    }
}

/// No term of the list is followed by one with a larger coefficient magnitude.
pub open spec fn descending(order: Seq<Monom>) -> bool {
    forall|a: int, b: int|
        0 <= a < b < order.len() ==> magnitude(order[a].coefficient()) >= magnitude(
            order[b].coefficient(),
        )
}

/// The terms of `order` as text, in this order, with `sep` between them; `0`
/// where there is none.
pub open spec fn poly_text(order: Seq<Monom>, names: Seq<Seq<char>>, sep: Seq<char>) -> Seq<char> {
    if order.len() == 0 {
        seq!['0']
    } else {
        joined(Seq::new(order.len(), |i: int| monom_text(order[i].coefficient(), order[i].vars(), names)), sep)
    }
}

/// The decimal digit `d` as text.
fn digit_text(d: u64) -> (s: &'static str)
    requires
        d < 10,
    ensures
        s@ == seq![digit(d as int)],
{
    proof {
        reveal_strlit("0");
        reveal_strlit("1");
        reveal_strlit("2");
        reveal_strlit("3");
        reveal_strlit("4");
        reveal_strlit("5");
        reveal_strlit("6");
        reveal_strlit("7");
        reveal_strlit("8");
        reveal_strlit("9");
    }
    let s = if d == 0 {
        "0"
    } else if d == 1 {
        "1"
    } else if d == 2 {
        "2"
    } else if d == 3 {
        "3"
    } else if d == 4 {
        "4"
    } else if d == 5 {
        "5"
    } else if d == 6 {
        "6"
    } else if d == 7 {
        "7"
    } else if d == 8 {
        "8"
    } else {
        "9"
    };
    assert(s@ =~= seq![digit(d as int)]);
    s
}

/// Writes `n` in decimal at the end of `out`.
fn push_decimal(out: &mut String, n: u64)
    ensures
        final(out)@ == old(out)@ + decimal(n as nat),
    decreases n,
{
    if n >= 10 {
        push_decimal(out, n / 10);
    }
    out.append(digit_text(n % 10));
    assert(out@ =~= old(out)@ + decimal(n as nat));
}

/// Moving one term from the second list to the end of the first keeps the
/// two together a list of the terms of `p`.
proof fn lemma_move(a: Seq<Monom>, b: Seq<Monom>, i: int, p: Map<u128, int>)
    requires
        lists(a + b, p),
        0 <= i < b.len(),
    ensures
        lists(a.push(b[i]) + b.remove(i), p),
{
    let old_seq = a + b;
    let new_seq = a.push(b[i]) + b.remove(i);
    let back = |j: int|
        if j < a.len() {
            j
        } else if j == a.len() {
            a.len() + i
        } else if j <= a.len() + i {
            j - 1
        } else {
            j
        };
    assert forall|j: int| 0 <= j < new_seq.len() implies new_seq[j] == old_seq[back(j)] by {}
    let ko = products(old_seq);
    let kn = products(new_seq);
    assert forall|x: int, y: int| 0 <= x < kn.len() && 0 <= y < kn.len() && x != y
        implies kn[x] != kn[y] by {
        assert(kn[x] == ko[back(x)]);
        assert(kn[y] == ko[back(y)]);
    }
    assert forall|v: u128| kn.to_set().contains(v) == ko.to_set().contains(v) by {
        if kn.to_set().contains(v) {
            let j = choose|j: int| 0 <= j < kn.len() && kn[j] == v;
            assert(ko[back(j)] == v);
        }
        if ko.to_set().contains(v) {
            let j = choose|j: int| 0 <= j < ko.len() && ko[j] == v;
            let f = if j < a.len() {
                j
            } else if j == a.len() + i {
                a.len() as int
            } else if j < a.len() + i {
                j + 1
            } else {
                j
            };
            assert(back(f) == j);
            assert(kn[f] == ko[back(f)]);
        }
    }
    assert(kn.to_set() =~= ko.to_set());
    assert forall|j: int| 0 <= j < new_seq.len()
        implies (#[trigger] new_seq[j]).coefficient()
        == crate::algebra::coeff(p, new_seq[j].vars()) by {
        assert(new_seq[j] == old_seq[back(j)]);
    }
}

/// The terms, largest coefficient magnitude first.
fn largest_first(terms: Vec<Monom>, Ghost(p): Ghost<Map<u128, int>>) -> (order: Vec<Monom>)
    requires
        lists(terms@, p),
    ensures
        lists(order@, p),
        descending(order@),
{
    let mut left = terms;
    let mut order: Vec<Monom> = Vec::new();
    assert(order@ + left@ =~= terms@);
    while left.len() > 0
        invariant
            lists(order@ + left@, p),
            descending(order@),
            forall|a: int, b: int|
                0 <= a < order.len() && 0 <= b < left.len() ==> magnitude(order[a].coefficient())
                    >= magnitude(left[b].coefficient()),
        decreases left.len(),
    {
        let mut best: usize = 0;
        let mut j: usize = 1;
        while j < left.len()
            invariant
                0 <= best < left.len(),
                1 <= j <= left.len(),
                forall|b: int| 0 <= b < j
                    ==> magnitude(left[best as int].coefficient()) >= magnitude(left[b].coefficient()),
            decreases left.len() - j,
        {
            if !outweighs(left[best].factor(), left[j].factor()) {
                best = j;
            }
            j += 1;
        }
        proof {
            lemma_move(order@, left@, best as int, p);
        }
        let m = left.remove(best);
        order.push(m);
    }
    assert(order@ + left@ =~= order@);
    order
}

impl Monom {
    /// The term as text: the coefficient with its sign, then the name of each
    /// variable after a dot, highest slot first.
    pub fn to_string(&self, var_names: &[String]) -> (text: String)
        requires
            forall|slot: u32| has_var(self.vars(), slot) ==> slot < var_names@.len(),
        ensures
            text@ == monom_text(self.coefficient(), self.vars(), texts(var_names@)),
    {
        let c = self.factor();
        let vars = self.var_product();
        let ghost names = texts(var_names@);
        let mut text = String::new();
        proof {
            reveal_strlit("-");
            reveal_strlit("+");
        }
        if c < 0 {
            text.append("-");
            let size: u64 = if c == i64::MIN {
                0x8000_0000_0000_0000u64
            } else {
                (-c) as u64
            };
            push_decimal(&mut text, size);
        } else {
            text.append("+");
            push_decimal(&mut text, c as u64);
        }
        assert(text@ =~= signed_decimal(c as int));
        let mut index: usize = 128;
        while index > 0
            invariant
                index <= 128,
                vars == self.vars(),
                names == texts(var_names@),
                forall|slot: u32| has_var(vars, slot) ==> slot < var_names@.len(),
                text@ == signed_decimal(c as int) + factors_from(vars, names, index as int),
            decreases index,
        {
            index -= 1;
            proof {
                reveal_strlit("·");
            }
            if (vars >> (index as u128)) & 1 == 1 {
                assert(has_var(vars, index as u32));
                text.append("·");
                text.append(var_names[index].as_str());
                assert(names[index as int] == var_names@[index as int]@);
            } else {
                assert(!has_var(vars, index as u32));
            }
            assert(text@ =~= signed_decimal(c as int) + factors_from(vars, names, index as int));
        }
        text
    }
}

impl BPolynom {
    /// The polynomial as text: its terms, largest coefficient magnitude
    /// first, with `seperator` between them; `0` for the zero polynomial.
    /// Terms of equal magnitude come in no particular order.
    pub fn to_string(&self, var_names: &[String], seperator: &str) -> (text: String)
        requires
            self.wf(),
            forall|k: u128, slot: u32| #[trigger] self@.contains_key(k)
                && #[trigger] has_var(k, slot) ==> slot < var_names@.len(),
        ensures
            exists|order: Seq<Monom>|
                lists(order, self@) && descending(order) && text@ == poly_text(
                    order,
                    texts(var_names@),
                    seperator@,
                ),
    {
        let order = largest_first(self.terms(), Ghost(self@));
        let ghost names = texts(var_names@);
        let ghost parts = Seq::new(
            order@.len(),
            |i: int| monom_text(order@[i].coefficient(), order@[i].vars(), names),
        );
        let mut text = String::new();
        if order.len() == 0 {
            proof {
                reveal_strlit("0");
            }
            text.append("0");
            assert(text@ =~= poly_text(order@, names, seperator@));
            return text;
        }
        let mut i: usize = 0;
        while i < order.len()
            invariant
                i <= order.len(),
                order.len() > 0,
                names == texts(var_names@),
                lists(order@, self@),
                forall|k: u128, slot: u32| #[trigger] self@.contains_key(k)
                    && #[trigger] has_var(k, slot) ==> slot < var_names@.len(),
                parts == Seq::new(
                    order@.len(),
                    |i: int| monom_text(order@[i].coefficient(), order@[i].vars(), names),
                ),
                text@ == joined(parts.take(i as int), seperator@),
            decreases order.len() - i,
        {
            let m = order[i];
            proof {
                assert(products(order@)[i as int] == m.vars());
                assert(products(order@).to_set().contains(m.vars()));
                assert(self@.contains_key(m.vars()));
            }
            if i > 0 {
                text.append(seperator);
            }
            let part = m.to_string(var_names);
            text.append(part.as_str());
            proof {
                let next = parts.take(i + 1);
                assert(next.drop_last() =~= parts.take(i as int));
                assert(next.last() == parts[i as int]);
                if i == 0 {
                    assert(parts.take(0).len() == 0);
                }
                assert(text@ =~= joined(next, seperator@));
            }
            i += 1;
        }
        assert(parts.take(order.len() as int) =~= parts);
        text
    }
}

} // verus!
