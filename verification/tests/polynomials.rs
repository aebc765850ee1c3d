use bpolynom::{BPolynom, Monom};
use std::cmp::Ordering;

fn names(list: &[&str]) -> Vec<String> {
    list.iter().map(|s| s.to_string()).collect()
}

fn coefficient(p: &BPolynom, slots: &[u32]) -> Option<i64> {
    let key = slots.iter().fold(0u128, |acc, s| acc | (1u128 << s));
    p.get(key).map(|m| m.factor())
}

#[test]
fn it_works() {
    let var_names = names(&["q0", "_1_", "_2_", "z", "z_1", "t0", "t1", "t3", "t4"]);
    let monom = Monom::from((55, vec![0, 1, 3, 2, 8]));
    let monom = (monom + -56).unwrap();
    println!("{}", monom.to_string(&var_names));
    assert_eq!(monom.to_string(&var_names), "-1·t4·z·_2_·_1_·q0");
}

#[test]
fn poly_creation() {
    let var_names = names(&["q0", "_1_", "_2_", "z", "z_1", "t0", "t1", "t3", "t4"]);
    let mut poly = BPolynom::from(vec![
        (4, vec![7, 7]),
        (2, vec![6, 6]),
        (1, vec![5, 5]),
        (-3, vec![0, 4]),
    ]);
    println!("{}", poly.to_string(&var_names, " "));
    assert_eq!(poly.to_string(&var_names, " "), "+4·t3 -3·z_1·q0 +2·t1 +1·t0");
    let monom = Monom::from((7, vec![3]));
    poly = poly * monom;
    println!("{}", poly.to_string(&var_names, " "));
    assert_eq!(
        poly.to_string(&var_names, " "),
        "+28·t3·z -21·z_1·z·q0 +14·t1·z +7·t0·z"
    );
}

#[test]
fn poly_addition() {
    let var_names = names(&["q0", "q1", "q2", "q3", "t0", "t1", "t2", "t3"]);
    let poly1 = BPolynom::from(vec![
        (-8, vec![3]),
        (4, vec![2]),
        (2, vec![1]),
        (1, vec![0]),
        (4, vec![]),
    ]);
    let poly2 = BPolynom::from(vec![(-8, vec![7]), (4, vec![6]), (2, vec![5]), (1, vec![4])]);

    let add_poly = poly1.clone() + &poly2;
    println!(
        "  {}\n+ {}\n= {}",
        poly1.to_string(&var_names, " "),
        poly2.to_string(&var_names, " "),
        add_poly.to_string(&var_names, " ")
    );
    assert_eq!(add_poly.len(), 9);
    assert_eq!(coefficient(&add_poly, &[]), Some(4));
    assert_eq!(coefficient(&add_poly, &[0]), Some(1));
    assert_eq!(coefficient(&add_poly, &[1]), Some(2));
    assert_eq!(coefficient(&add_poly, &[2]), Some(4));
    assert_eq!(coefficient(&add_poly, &[3]), Some(-8));
    assert_eq!(coefficient(&add_poly, &[4]), Some(1));
    assert_eq!(coefficient(&add_poly, &[5]), Some(2));
    assert_eq!(coefficient(&add_poly, &[6]), Some(4));
    assert_eq!(coefficient(&add_poly, &[7]), Some(-8));
}

#[test]
fn poly_mult() {
    let var_names = names(&["q0", "q1", "q2", "q3", "t0", "t1", "t2", "t3"]);
    let poly1 = BPolynom::from(vec![
        (-8, vec![3]),
        (4, vec![2]),
        (2, vec![1]),
        (1, vec![0]),
        (-3, vec![]),
    ]);
    let poly2 = BPolynom::from(vec![(-8, vec![7]), (4, vec![6]), (2, vec![5]), (1, vec![4])]);

    let add_poly = &poly1 * &poly2;
    println!(
        "  {}\n· {}\n= {}",
        poly1.to_string(&var_names, " "),
        poly2.to_string(&var_names, " "),
        add_poly.to_string(&var_names, " ")
    );
    assert_eq!(add_poly.len(), 20);
    assert_eq!(coefficient(&add_poly, &[3, 7]), Some(64));
    assert_eq!(coefficient(&add_poly, &[7]), Some(24));
    assert_eq!(coefficient(&add_poly, &[0, 4]), Some(1));
    assert_eq!(coefficient(&add_poly, &[2, 5]), Some(8));
    assert_eq!(coefficient(&add_poly, &[4]), Some(-3));
    assert_eq!(coefficient(&add_poly, &[]), None);
}

#[test]
fn monom_scalar_sum_drops_the_term_at_zero() {
    let m = Monom::from((5, vec![1, 2]));
    assert!((m + -5).is_none());
    assert!((m - 5).is_none());
    assert_eq!((m + 3).unwrap().factor(), 8);
    assert_eq!((m - 7).unwrap().factor(), -2);
    assert_eq!((m - 7).unwrap().var_product(), 0b110);
}

#[test]
fn monom_scalar_sum_then_difference_gives_the_term_back() {
    let m = Monom::from((5, vec![0, 9]));
    let back = ((m + 17).unwrap() - 17).unwrap();
    assert_eq!(back.factor(), 5);
    assert_eq!(back.var_product(), m.var_product());
}

#[test]
fn monom_scalar_product() {
    let m = Monom::from((-4, vec![3]));
    assert!((m * 0).is_none());
    let tripled = (m * 3).unwrap();
    assert_eq!(tripled.factor(), -12);
    assert_eq!(tripled.var_product(), 1 << 3);
}

#[test]
fn monom_product_unites_variables() {
    let a = Monom::from((3, vec![0, 1]));
    let b = Monom::from((-5, vec![1, 2]));
    let ab = a * b;
    assert_eq!(ab.factor(), -15);
    assert_eq!(ab.var_product(), 0b111);
}

#[test]
fn multiplying_by_a_variable_twice_changes_nothing_more() {
    let m = Monom::from((6, vec![2]));
    let x = Monom::from((1, vec![5]));
    let once = m * x;
    let twice = once * x;
    assert_eq!(once.factor(), twice.factor());
    assert_eq!(once.var_product(), twice.var_product());
}

#[test]
fn repeated_slots_collapse() {
    let m = Monom::from((4, vec![7, 7, 7]));
    assert_eq!(m.var_product(), 1 << 7);
    assert_eq!(m.all_used_vars(), vec![7]);
}

#[test]
fn used_vars_come_highest_first() {
    let m = Monom::from((1, vec![0, 127, 64, 3]));
    assert_eq!(m.all_used_vars(), vec![127, 64, 3, 0]);
    let none = Monom::from((1, vec![]));
    assert_eq!(none.all_used_vars(), Vec::<usize>::new());
}

#[test]
fn free_vars_are_the_absent_ones() {
    let m = Monom::from((1, vec![0, 5, 127]));
    let free = m.all_free_vars();
    for slot in 0..128 {
        assert_eq!(free[slot], !(slot == 0 || slot == 5 || slot == 127));
    }
}

#[test]
fn set_and_delete_var_touch_one_bit() {
    let mut m = Monom::from((9, vec![1]));
    m.set_var(4);
    assert_eq!(m.var_product(), 0b10010);
    m.set_var(4);
    assert_eq!(m.var_product(), 0b10010);
    m.delete_var(1);
    assert_eq!(m.var_product(), 0b10000);
    m.delete_var(1);
    assert_eq!(m.var_product(), 0b10000);
    assert_eq!(m.factor(), 9);
}

#[test]
fn cmp_vars_orders_by_product() {
    let a = Monom::from((100, vec![0]));
    let b = Monom::from((1, vec![1]));
    let c = Monom::from((-7, vec![1]));
    assert_eq!(a.cmp_vars(&b), Ordering::Less);
    assert_eq!(b.cmp_vars(&a), Ordering::Greater);
    assert_eq!(b.cmp_vars(&c), Ordering::Equal);
}

#[test]
fn monom_text_writes_the_sign_always() {
    let var_names = names(&["a", "b", "c"]);
    assert_eq!(Monom::from((12, vec![0, 2])).to_string(&var_names), "+12·c·a");
    assert_eq!(Monom::from((-305, vec![1])).to_string(&var_names), "-305·b");
    assert_eq!(Monom::from((7, vec![])).to_string(&var_names), "+7");
    assert_eq!(
        Monom::from((i64::MIN, vec![])).to_string(&var_names),
        "-9223372036854775808"
    );
    assert_eq!(
        Monom::from((i64::MAX, vec![0])).to_string(&var_names),
        "+9223372036854775807·a"
    );
}

#[test]
fn empty_polynomial_is_zero() {
    let var_names = names(&["a"]);
    let p = BPolynom::empty();
    assert_eq!(p.len(), 0);
    assert_eq!(p.to_string(&var_names, " + "), "0");
}

#[test]
fn like_terms_combine_and_cancel() {
    let p = BPolynom::from(vec![(3, vec![0, 1]), (4, vec![1, 0]), (2, vec![2])]);
    assert_eq!(p.len(), 2);
    assert_eq!(coefficient(&p, &[0, 1]), Some(7));
    let p = p + Monom::from((-7, vec![0, 1]));
    assert_eq!(p.len(), 1);
    assert_eq!(coefficient(&p, &[0, 1]), None);
    assert_eq!(coefficient(&p, &[2]), Some(2));
}

#[test]
fn add_assign_is_the_sum_with_a_term() {
    let mut p = BPolynom::from(vec![(1, vec![0])]);
    p.add_assign(&Monom::from((5, vec![0])));
    p.add_assign(&Monom::from((-2, vec![3])));
    assert_eq!(coefficient(&p, &[0]), Some(6));
    assert_eq!(coefficient(&p, &[3]), Some(-2));
    assert_eq!(p.len(), 2);
}

#[test]
fn polynomial_sum_commutes_and_associates() {
    let a = BPolynom::from(vec![(3, vec![0]), (-2, vec![1]), (5, vec![])]);
    let b = BPolynom::from(vec![(-3, vec![0]), (7, vec![2])]);
    let c = BPolynom::from(vec![(2, vec![1]), (1, vec![2]), (1, vec![0, 1])]);
    let ab = a.clone() + &b;
    let ba = b.clone() + &a;
    let left = (a.clone() + &b) + &c;
    let right = a.clone() + &(b.clone() + &c);
    for key in 0u128..8 {
        assert_eq!(ab.get(key).map(|m| m.factor()), ba.get(key).map(|m| m.factor()));
        assert_eq!(left.get(key).map(|m| m.factor()), right.get(key).map(|m| m.factor()));
    }
    assert_eq!(coefficient(&ab, &[0]), None);
    assert_eq!(coefficient(&left, &[1]), None);
    assert_eq!(coefficient(&left, &[2]), Some(8));
    assert_eq!(coefficient(&left, &[]), Some(5));
}

#[test]
fn scaling_by_zero_leaves_nothing() {
    let p = BPolynom::from(vec![(3, vec![0]), (-2, vec![1])]);
    let zero = p.clone() * 0i64;
    assert_eq!(zero.len(), 0);
    let doubled = p * -2i64;
    assert_eq!(coefficient(&doubled, &[0]), Some(-6));
    assert_eq!(coefficient(&doubled, &[1]), Some(4));
}

#[test]
fn products_that_collide_are_combined() {
    // x·y and z·y both become x·y·z when multiplied by x·z
    let p = BPolynom::from(vec![(2, vec![0, 1]), (3, vec![2, 1]), (-5, vec![0, 1, 2])]);
    let q = p * Monom::from((1, vec![0, 2]));
    assert_eq!(q.len(), 0);
    let p = BPolynom::from(vec![(2, vec![0, 1]), (3, vec![2, 1])]);
    let q = p * Monom::from((4, vec![0, 2]));
    assert_eq!(q.len(), 1);
    assert_eq!(coefficient(&q, &[0, 1, 2]), Some(20));
}

#[test]
fn polynomial_text_puts_larger_magnitudes_first() {
    let var_names = names(&["a", "b", "c"]);
    let p = BPolynom::from(vec![(1, vec![0]), (-9, vec![1]), (4, vec![2, 0])]);
    assert_eq!(p.to_string(&var_names, " | "), "-9·b | +4·c·a | +1·a");
    assert_eq!(p.to_string(&var_names, ""), "-9·b+4·c·a+1·a");
}

#[test]
fn monomials_are_equal_when_their_variables_are() {
    let a = Monom::from((3, vec![1, 4]));
    let b = Monom::from((-8, vec![4, 1]));
    let c = Monom::from((3, vec![1]));
    assert!(a == b);
    assert!(a != c);
}

#[test]
fn monomials_are_ordered_by_magnitude() {
    let small = Monom::from((3, vec![1, 4]));
    let large = Monom::from((-8, vec![0]));
    let same = Monom::from((8, vec![5]));
    let least = Monom::from((i64::MIN, vec![]));
    assert!(small < large);
    assert!(large > small);
    assert_eq!(large.partial_cmp(&same), Some(Ordering::Equal));
    assert!(least > same);
    assert!(large <= same && large >= same);
}
