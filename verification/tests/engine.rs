use bpolynom::{BPolynom, Monom, PolyEngine};

fn labels(prefix: &str, upper: usize) -> Vec<String> {
    (0..upper).map(|i| format!("{}{}", prefix, i)).collect()
}

fn coefficient(p: &BPolynom, slots: &[u32]) -> Option<i64> {
    let key = slots.iter().fold(0u128, |acc, s| acc | (1u128 << s));
    p.get(key).map(|m| m.factor())
}

/// Every term is listed under each slot of its variables, and nothing else is.
fn index_matches(en: &PolyEngine) -> bool {
    (0..128).all(|slot| {
        en.var_occurences[slot]
            .iter()
            .all(|key| (key >> slot) & 1 == 1 && en.p.get(*key).is_some())
    }) && (0..128u32).all(|slot| {
        (0u128..4096)
            .filter(|key| (key >> slot) & 1 == 1 && en.p.get(*key).is_some())
            .all(|key| en.var_occurences[slot as usize].contains(&key))
    })
}

/// Free slots have no name and no occurrence, and the two maps agree.
fn table_matches(en: &PolyEngine) -> bool {
    (0..128).all(|slot| {
        if en.free_var_slots[slot] {
            en.var_names[slot].is_empty() && en.var_occurences[slot].is_empty()
        } else {
            en.reverse_mapping.get(&en.var_mapping[slot]) == Some(&(slot as u32))
        }
    }) && en
        .reverse_mapping
        .iter()
        .all(|(ext, slot)| !en.free_var_slots[*slot as usize] && en.var_mapping[*slot as usize] == *ext)
}

fn half_adder() -> PolyEngine {
    let mut en = PolyEngine::new(BPolynom::empty());
    let upper = 2;
    let vars: Vec<usize> = (207..(207 + upper)).collect();
    let names = labels("S", upper);
    let sum = en.get_unsigned_poly(vars, names);
    let vars: Vec<usize> = (209..(209 + 1)).collect();
    let names = labels("A", 1);
    let a = en.get_unsigned_poly(vars, names);
    let vars: Vec<usize> = (210..(210 + 1)).collect();
    let names = labels("B", 1);
    let b = en.get_unsigned_poly(vars, names);
    println!("{}", sum.to_string(&en.var_names, " "));
    println!("{}", a.to_string(&en.var_names, " "));
    println!("{}", b.to_string(&en.var_names, " "));
    en.add_from_generates(sum);
    println!("{}", en.p.to_string(&en.var_names, " "));
    en
}

fn full_adder() -> PolyEngine {
    let mut en = half_adder();
    en.or_replace(208, 211, "G0".into(), 212, "G1".into());
    println!("{}\n", en.p.to_string(&en.var_names, " "));
    assert!(index_matches(&en) && table_matches(&en));

    en.and_replace(212, 213, "C0".into(), 214, "G2".into());
    println!("{}\n", en.p.to_string(&en.var_names, " "));
    assert!(index_matches(&en) && table_matches(&en));

    en.xor_replace(207, 213, "C0".into(), 214, "G2".into());
    println!("{}\n", en.p.to_string(&en.var_names, " "));
    assert!(index_matches(&en) && table_matches(&en));

    en.and_replace(211, 209, "A0".into(), 210, "B0".into());
    println!("{}\n", en.p.to_string(&en.var_names, " "));
    assert!(index_matches(&en) && table_matches(&en));

    en.xor_replace(214, 209, "A0".into(), 210, "B0".into());
    println!("{}\n", en.p.to_string(&en.var_names, " "));
    assert!(index_matches(&en) && table_matches(&en));
    en
}

#[test]
fn test_engine() {
    let mut en = PolyEngine::new(BPolynom::empty());
    let upper = 4;
    let vars: Vec<usize> = (207..(207 + upper)).collect();
    let var_names = labels("q", upper);
    let q_poly = en.get_2_compl_poly(vars, var_names);
    println!("{}", q_poly.to_string(&en.var_names, " "));
    println!("{:?}", en.var_mapping);
    println!("{:?}", en.var_names);
    println!("{:?}", en.reverse_mapping);
    println!("{:?}", en.free_var_slots);
    assert_eq!(q_poly.to_string(&en.var_names, " "), "-8·q3 +4·q2 +2·q1 +1·q0");
    en.add_from_generates(q_poly.clone());
    println!("{}", en.p.to_string(&en.var_names, " "));
    assert!(index_matches(&en) && table_matches(&en));
    en.not_replace(208, 211, String::from("kuhkacke"));
    println!("{}", en.p.to_string(&en.var_names, " "));
    println!("{:?}", en.reverse_mapping);
    // 2·q1 became 2 − 2·k, and k took the slot that q1 gave up
    assert_eq!(en.reverse_mapping.get(&211), Some(&1));
    assert_eq!(en.reverse_mapping.get(&208), None);
    assert_eq!(en.var_names[1], "kuhkacke");
    assert_eq!(en.p.len(), 5);
    assert_eq!(coefficient(&en.p, &[]), Some(2));
    assert_eq!(coefficient(&en.p, &[1]), Some(-2));
    assert_eq!(coefficient(&en.p, &[0]), Some(1));
    assert!(index_matches(&en) && table_matches(&en));
    en.xor_replace(207, 255, String::from("pf1"), 256, String::from("pf2"));
    println!("{}", en.p.to_string(&en.var_names, " "));
    // q0 became pf1 + pf2 − 2·pf1·pf2, with pf1 in slot 0 and pf2 in slot 4
    assert_eq!(en.reverse_mapping.get(&255), Some(&0));
    assert_eq!(en.reverse_mapping.get(&256), Some(&4));
    assert_eq!(coefficient(&en.p, &[0]), Some(1));
    assert_eq!(coefficient(&en.p, &[4]), Some(1));
    assert_eq!(coefficient(&en.p, &[0, 4]), Some(-2));
    assert!(index_matches(&en) && table_matches(&en));
    en.or_replace(256, 260, String::from("or1"), 261, String::from("or2"));
    println!("{}", en.p.to_string(&en.var_names, "\n"));
    // pf2 became or1 + or2 − or1·or2, with or1 in slot 4 and or2 in slot 5
    assert_eq!(coefficient(&en.p, &[4]), Some(1));
    assert_eq!(coefficient(&en.p, &[5]), Some(1));
    assert_eq!(coefficient(&en.p, &[4, 5]), Some(-1));
    assert_eq!(coefficient(&en.p, &[0, 4]), Some(-2));
    assert_eq!(coefficient(&en.p, &[0, 5]), Some(-2));
    assert_eq!(coefficient(&en.p, &[0, 4, 5]), Some(2));
    assert!(index_matches(&en) && table_matches(&en));
    en.and_replace(211, 270, String::from("dreck"), 271, String::from("vogel"));
    println!("{}", en.p.to_string(&en.var_names, "\n"));
    println!("{:?}", en.var_mapping);
    println!("{:?}", en.var_names);
    println!("{:?}", en.reverse_mapping);
    println!("{:?}", en.free_var_slots);
    // −2·k became −2·dreck·vogel, with dreck in slot 1 and vogel in slot 6
    assert_eq!(coefficient(&en.p, &[1]), None);
    assert_eq!(coefficient(&en.p, &[1, 6]), Some(-2));
    assert_eq!(coefficient(&en.p, &[]), Some(2));
    assert_eq!(coefficient(&en.p, &[2]), Some(4));
    assert_eq!(coefficient(&en.p, &[3]), Some(-8));
    assert_eq!(en.p.len(), 11);
    assert!(index_matches(&en) && table_matches(&en));
}

#[test]
fn en_ha() {
    let mut en = half_adder();
    en.and_replace(208, 209, "A0".into(), 210, "B0".into());
    println!("{}", en.p.to_string(&en.var_names, " "));
    assert_eq!(en.p.len(), 2);
    assert_eq!(coefficient(&en.p, &[2, 3]), Some(2));
    assert_eq!(coefficient(&en.p, &[0]), Some(1));
    en.xor_replace(207, 209, "A0".into(), 210, "B0".into());
    println!("{}", en.p.to_string(&en.var_names, " "));
    // S = A + B
    assert_eq!(en.p.len(), 2);
    assert_eq!(coefficient(&en.p, &[2]), Some(1));
    assert_eq!(coefficient(&en.p, &[3]), Some(1));
    assert!(index_matches(&en) && table_matches(&en));
}

#[test]
fn en_fa() {
    let en = full_adder();
    // S = A + B + C
    let a = *en.reverse_mapping.get(&209).unwrap();
    let b = *en.reverse_mapping.get(&210).unwrap();
    let c = *en.reverse_mapping.get(&213).unwrap();
    assert_eq!(en.p.len(), 3);
    assert_eq!(coefficient(&en.p, &[a]), Some(1));
    assert_eq!(coefficient(&en.p, &[b]), Some(1));
    assert_eq!(coefficient(&en.p, &[c]), Some(1));
    assert_eq!(en.var_names[c as usize], "C0");
    assert_eq!(en.reverse_mapping.len(), 3);
}

#[test]
fn en_fa_2() {
    let mut en = full_adder();

    en.const_1_replace(213);
    println!("{}\n", en.p.to_string(&en.var_names, " "));
    assert_eq!(en.p.len(), 3);
    assert_eq!(coefficient(&en.p, &[]), Some(1));
    assert!(index_matches(&en) && table_matches(&en));

    en.const_1_replace(209);
    println!("{}\n", en.p.to_string(&en.var_names, " "));
    assert_eq!(en.p.len(), 2);
    assert_eq!(coefficient(&en.p, &[]), Some(2));
    assert!(index_matches(&en) && table_matches(&en));

    en.const_0_replace(210);
    println!("{}\n", en.p.to_string(&en.var_names, " "));
    assert_eq!(en.p.to_string(&en.var_names, " "), "+2");
    assert_eq!(en.reverse_mapping.len(), 0);
    assert!(en.free_var_slots.iter().all(|free| *free));
    assert!(index_matches(&en) && table_matches(&en));
}

#[test]
fn new_engine_marks_the_slots_of_its_polynomial_used() {
    let p = BPolynom::from(vec![(3, vec![0, 5]), (-1, vec![5, 127]), (8, vec![])]);
    let en = PolyEngine::new(p);
    for slot in 0..128 {
        assert_eq!(en.free_var_slots[slot], !(slot == 0 || slot == 5 || slot == 127));
        assert!(en.var_names[slot].is_empty());
        assert_eq!(en.var_mapping[slot], 0);
    }
    assert!(en.reverse_mapping.is_empty());
    assert_eq!(en.var_occurences[5].len(), 2);
    assert_eq!(en.var_occurences[0].len(), 1);
    assert_eq!(en.var_occurences[1].len(), 0);
    assert!(index_matches(&en));
    assert_eq!(en.next_free_var(), Some(1));
}

#[test]
fn a_freed_slot_is_the_next_to_be_given() {
    let mut en = PolyEngine::new(BPolynom::empty());
    let _ = en.get_unsigned_poly(vec![10, 11, 12, 13], labels("v", 4));
    assert_eq!(en.next_free_var(), Some(4));
    let listed = en.free_var(1);
    assert!(listed.is_empty());
    assert!(en.free_var_slots[1]);
    assert!(en.var_names[1].is_empty());
    assert_eq!(en.reverse_mapping.get(&11), None);
    assert_eq!(en.next_free_var(), Some(1));
    let one = en.get_unsigned_poly(vec![99], labels("w", 1));
    assert_eq!(en.reverse_mapping.get(&99), Some(&1));
    assert_eq!(en.var_names[1], "w0");
    assert_eq!(coefficient(&one, &[1]), Some(1));
    assert_eq!(en.next_free_var(), Some(4));
    assert!(table_matches(&en));
}

#[test]
fn free_var_hands_out_the_occurrences() {
    let mut en = PolyEngine::new(BPolynom::empty());
    let word = en.get_unsigned_poly(vec![1, 2], labels("x", 2));
    let both = word + Monom::from((5, vec![0, 1]));
    en.add_from_generates(both);
    let listed = en.free_var(0);
    assert_eq!(listed.len(), 2);
    assert!(listed.contains(&0b01) && listed.contains(&0b11));
    assert!(en.var_occurences[0].is_empty());
    assert_eq!(en.var_occurences[1].len(), 2);
}

#[test]
fn free_var_leaves_the_binding_of_another_slot_alone() {
    let mut en = PolyEngine::new(BPolynom::empty());
    let _ = en.get_unsigned_poly(vec![7], labels("a", 1));
    let _ = en.free_var(0);
    let _ = en.get_unsigned_poly(vec![8, 7], labels("b", 2));
    // slot 0 now belongs to 8, slot 1 to 7; slot 2 was never bound and names 0
    assert_eq!(en.var_mapping[2], 0);
    let _ = en.free_var(2);
    assert_eq!(en.reverse_mapping.get(&8), Some(&0));
    assert_eq!(en.reverse_mapping.get(&7), Some(&1));
    assert!(table_matches(&en));
}

#[test]
fn unsigned_and_twos_complement_words() {
    let mut en = PolyEngine::new(BPolynom::empty());
    let u = en.get_unsigned_poly(vec![1, 2, 3], labels("u", 3));
    assert_eq!(u.to_string(&en.var_names, " "), "+4·u2 +2·u1 +1·u0");
    let s = en.get_2_compl_poly(vec![4, 5, 6], labels("s", 3));
    assert_eq!(s.to_string(&en.var_names, " "), "-4·s2 +2·s1 +1·s0");
    let one = en.get_2_compl_poly(vec![9], labels("t", 1));
    assert_eq!(one.to_string(&en.var_names, " "), "-1·t0");
    let none = en.get_unsigned_poly(vec![], vec![]);
    assert_eq!(none.len(), 0);
    assert_eq!(en.next_free_var(), Some(7));
}

#[test]
fn the_longest_word_that_fits() {
    let mut en = PolyEngine::new(BPolynom::empty());
    let ids: Vec<usize> = (0..63).collect();
    let u = en.get_unsigned_poly(ids, labels("b", 63));
    assert_eq!(coefficient(&u, &[62]), Some(1i64 << 62));
    assert_eq!(u.len(), 63);
    let mut en = PolyEngine::new(BPolynom::empty());
    let ids: Vec<usize> = (0..63).collect();
    let s = en.get_2_compl_poly(ids, labels("b", 63));
    assert_eq!(coefficient(&s, &[62]), Some(-(1i64 << 62)));
    assert_eq!(coefficient(&s, &[61]), Some(1i64 << 61));
}

#[test]
fn identifiers_beyond_the_last_slot_are_passed_over() {
    let mut en = PolyEngine::new(BPolynom::empty());
    for round in 0..3 {
        let ids: Vec<usize> = (round * 60..round * 60 + 60).collect();
        let word = en.get_unsigned_poly(ids, labels("r", 60));
        if round < 2 {
            assert_eq!(word.len(), 60);
        } else {
            // only 8 slots were left; bits 8.. found none
            assert_eq!(word.len(), 8);
            assert_eq!(coefficient(&word, &[127]), Some(128));
        }
    }
    assert_eq!(en.next_free_var(), None);
    assert_eq!(en.reverse_mapping.len(), 128);
}

#[test]
fn not_gate_on_a_shared_term() {
    let mut en = PolyEngine::new(BPolynom::empty());
    let _ = en.get_unsigned_poly(vec![1, 2], labels("x", 2));
    // p = 3·x0·x1 + 3·x1 ; x0 := ¬x1  gives 3·x1 − 3·x1 + 3·x1 = 3·x1
    en.add_from_generates(BPolynom::from(vec![(3, vec![0, 1]), (3, vec![1])]));
    en.not_replace(1, 2, "x1".into());
    assert_eq!(en.p.len(), 1);
    assert_eq!(coefficient(&en.p, &[1]), Some(3));
    assert!(en.free_var_slots[0]);
    assert!(index_matches(&en) && table_matches(&en));
}

#[test]
fn xor_of_a_variable_with_itself_is_zero() {
    let mut en = PolyEngine::new(BPolynom::empty());
    let _ = en.get_unsigned_poly(vec![1, 2], labels("x", 2));
    en.add_from_generates(BPolynom::from(vec![(5, vec![0]), (1, vec![1])]));
    en.xor_replace(1, 2, "x1".into(), 2, "x1".into());
    assert_eq!(en.p.len(), 1);
    assert_eq!(coefficient(&en.p, &[1]), Some(1));
    assert!(index_matches(&en) && table_matches(&en));
}

#[test]
fn an_input_may_take_the_slot_of_the_output() {
    let mut en = PolyEngine::new(BPolynom::empty());
    let _ = en.get_unsigned_poly(vec![1, 2], labels("x", 2));
    // p = 2·x0 + 3·x0·x1 ; x0 := y ∧ x1 with y new: y takes slot 0
    en.add_from_generates(BPolynom::from(vec![(2, vec![0]), (3, vec![0, 1])]));
    en.and_replace(1, 50, "y".into(), 2, "x1".into());
    assert_eq!(en.reverse_mapping.get(&50), Some(&0));
    assert_eq!(en.var_names[0], "y");
    assert_eq!(en.p.len(), 1);
    assert_eq!(coefficient(&en.p, &[0, 1]), Some(5));
    assert!(index_matches(&en) && table_matches(&en));
}

#[test]
fn const_0_purges_the_terms_from_every_slot() {
    let mut en = PolyEngine::new(BPolynom::empty());
    let _ = en.get_unsigned_poly(vec![1, 2, 3], labels("x", 3));
    en.add_from_generates(BPolynom::from(vec![
        (2, vec![0, 1]),
        (3, vec![0, 2]),
        (4, vec![1, 2]),
        (5, vec![]),
    ]));
    en.const_0_replace(1);
    assert_eq!(en.p.len(), 2);
    assert_eq!(coefficient(&en.p, &[1, 2]), Some(4));
    assert_eq!(coefficient(&en.p, &[]), Some(5));
    assert_eq!(en.var_occurences[1].len(), 1);
    assert_eq!(en.var_occurences[2].len(), 1);
    assert!(en.var_occurences[0].is_empty());
    assert!(index_matches(&en) && table_matches(&en));
}

#[test]
fn const_1_combines_with_the_term_that_was_there() {
    let mut en = PolyEngine::new(BPolynom::empty());
    let _ = en.get_unsigned_poly(vec![1, 2], labels("x", 2));
    // p = 4·x0·x1 − 4·x1 + x0 ; x0 := 1 gives 1
    en.add_from_generates(BPolynom::from(vec![(4, vec![0, 1]), (-4, vec![1]), (1, vec![0])]));
    en.const_1_replace(1);
    assert_eq!(en.p.len(), 1);
    assert_eq!(coefficient(&en.p, &[]), Some(1));
    assert!(en.var_occurences[1].is_empty());
    assert!(index_matches(&en) && table_matches(&en));
}

fn value(p: &BPolynom, on: u128) -> i64 {
    p.terms()
        .iter()
        .filter(|m| m.var_product() & !on == 0)
        .map(|m| m.factor())
        .sum()
}

fn with_bit(on: u128, slot: u32, bit: bool) -> u128 {
    if bit {
        on | (1 << slot)
    } else {
        on & !(1 << slot)
    }
}

fn sample() -> PolyEngine {
    let mut en = PolyEngine::new(BPolynom::empty());
    let _ = en.get_unsigned_poly(vec![1, 2, 3, 4], labels("x", 4));
    en.add_from_generates(BPolynom::from(vec![
        (3, vec![0]),
        (-2, vec![0, 1]),
        (5, vec![0, 1, 2]),
        (7, vec![1, 2]),
        (-4, vec![2, 3]),
        (1, vec![0, 3]),
        (6, vec![]),
    ]));
    en
}

#[test]
fn a_rewrite_keeps_the_value_on_every_assignment() {
    for gate in 0..6 {
        for reuse in [false, true] {
            let mut en = sample();
            let before = en.p.clone();
            // the output is x0 in slot 0; the inputs are x1 and x2, or a new
            // variable that takes slot 0 and x2
            let first = if reuse { 9 } else { 2 };
            match gate {
                0 => en.const_0_replace(1),
                1 => en.const_1_replace(1),
                2 => en.not_replace(1, first, "n".into()),
                3 => en.and_replace(1, first, "n".into(), 3, "x2".into()),
                4 => en.or_replace(1, first, "n".into(), 3, "x2".into()),
                _ => en.xor_replace(1, first, "n".into(), 3, "x2".into()),
            }
            let y = *en.reverse_mapping.get(&first).unwrap_or(&1);
            for on in 0u128..16 {
                let a = (on >> y) & 1 == 1;
                let b = (on >> 2) & 1 == 1;
                let out = match gate {
                    0 => false,
                    1 => true,
                    2 => !a,
                    3 => a && b,
                    4 => a || b,
                    _ => a != b,
                };
                assert_eq!(value(&en.p, on), value(&before, with_bit(on, 0, out)));
            }
            assert!(index_matches(&en) && table_matches(&en));
        }
    }
}

#[test]
fn no_term_is_zero_and_no_product_comes_twice() {
    let mut en = sample();
    en.xor_replace(1, 2, "x1".into(), 3, "x2".into());
    en.or_replace(4, 2, "x1".into(), 3, "x2".into());
    let terms = en.p.terms();
    assert_eq!(terms.len(), en.p.len());
    for (i, m) in terms.iter().enumerate() {
        assert_ne!(m.factor(), 0);
        for n in &terms[..i] {
            assert_ne!(m.var_product(), n.var_product());
        }
    }
}
