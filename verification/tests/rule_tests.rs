use apriori::apriori;
use apriori::rules::generate_rules;
use apriori::types::{Fraction, FrequentItemsets};

fn frac(num: u64, den: u64) -> Fraction {
    Fraction { num, den }
}

fn strings(words: &[&str]) -> Vec<String> {
    words.iter().map(|w| w.to_string()).collect()
}

#[test]
fn confidence_and_lift_are_exact_ratios() {
    // itemset {a,b} with count 10, {a} count 10, {b} count 15, n = 20:
    // confidence(a -> b) = 10/10, lift = (10 * 20) / (10 * 15) = 4/3
    let table = FrequentItemsets {
        levels: vec![
            vec![(vec![0], 10), (vec![1], 15)],
            vec![(vec![0, 1], 10)],
        ],
    };
    let rules = generate_rules(&frac(1, 2), &table, 20);
    let a_to_b = rules
        .iter()
        .find(|r| r.antecedent == vec![0] && r.consequent == vec![1])
        .unwrap();
    assert_eq!(a_to_b.confidence, frac(10, 10));
    assert_eq!(a_to_b.lift_num, 200);
    assert_eq!(a_to_b.lift_den, 150);
    let b_to_a = rules
        .iter()
        .find(|r| r.antecedent == vec![1] && r.consequent == vec![0])
        .unwrap();
    assert_eq!(b_to_a.confidence, frac(10, 15));
}

#[test]
fn rules_below_min_confidence_are_dropped() {
    let table = FrequentItemsets {
        levels: vec![
            vec![(vec![0], 10), (vec![1], 15)],
            vec![(vec![0, 1], 10)],
        ],
    };
    // b -> a has confidence 10/15 < 3/4; a -> b has 10/10 >= 3/4
    let rules = generate_rules(&frac(3, 4), &table, 20);
    assert_eq!(rules.len(), 1);
    assert_eq!(rules[0].antecedent, vec![0]);
    assert_eq!(rules[0].consequent, vec![1]);
}

#[test]
fn end_to_end_rules_with_full_confidence() {
    // {a,b}, {a,b,c}, {a}, {b,c}: at min_support 1/2 and min_confidence 1,
    // the only rule is c -> b (count{b,c} = 2 = count{c}).
    let txs = vec![
        strings(&["a", "b"]),
        strings(&["a", "b", "c"]),
        strings(&["a"]),
        strings(&["b", "c"]),
    ];
    let (rules, _table) = apriori(txs, frac(1, 2), frac(1, 1), 3).unwrap();
    assert_eq!(rules.len(), 1);
    assert_eq!(rules[0].antecedent, strings(&["c"]));
    assert_eq!(rules[0].consequent, strings(&["b"]));
    assert_eq!(rules[0].confidence, frac(2, 2));
    // lift = (2 * 4) / (2 * 3)
    assert_eq!(rules[0].lift_num, 8);
    assert_eq!(rules[0].lift_den, 6);
}

#[test]
fn rule_sides_are_disjoint_and_nonempty() {
    let txs = vec![
        strings(&["a", "b"]),
        strings(&["a", "b", "c"]),
        strings(&["a"]),
        strings(&["b", "c"]),
    ];
    let (rules, _table) = apriori(txs, frac(1, 4), frac(0, 1), 3).unwrap();
    assert!(!rules.is_empty());
    for r in rules.iter() {
        assert!(!r.antecedent.is_empty());
        assert!(!r.consequent.is_empty());
        for tok in r.antecedent.iter() {
            assert!(!r.consequent.contains(tok));
        }
        // confidence stays within [0, 1]
        assert!(r.confidence.num <= r.confidence.den);
        assert!(r.confidence.den >= 1);
    }
}

#[test]
fn rules_are_sorted_by_descending_confidence() {
    let txs = vec![
        strings(&["a", "b"]),
        strings(&["a", "b", "c"]),
        strings(&["a"]),
        strings(&["b", "c"]),
    ];
    let (rules, _table) = apriori(txs, frac(1, 4), frac(0, 1), 3).unwrap();
    assert!(rules.len() >= 2);
    for w in rules.windows(2) {
        let lhs = w[0].confidence.num as u128 * w[1].confidence.den as u128;
        let rhs = w[1].confidence.num as u128 * w[0].confidence.den as u128;
        assert!(lhs >= rhs);
    }
}

#[test]
fn dominant_pair_emits_exactly_one_rule() {
    // 10 x {a,b}, 5 x {b}, 5 x {} (n = 20): count({a,b}) = 10,
    // count({a}) = 10, count({b}) = 15. At min_confidence 9/10 only
    // a -> b (confidence 10/10) survives; b -> a has 10/15 < 9/10.
    let mut txs: Vec<Vec<String>> = Vec::new();
    for _ in 0..10 {
        txs.push(strings(&["a", "b"]));
    }
    for _ in 0..5 {
        txs.push(strings(&["b"]));
    }
    for _ in 0..5 {
        txs.push(Vec::new());
    }
    let (rules, _table) = apriori(txs, frac(1, 2), frac(9, 10), 2).unwrap();
    assert_eq!(rules.len(), 1);
    assert_eq!(rules[0].antecedent, strings(&["a"]));
    assert_eq!(rules[0].consequent, strings(&["b"]));
    assert_eq!(rules[0].confidence, frac(10, 10));
    // lift = (10 * 20) / (10 * 15) = 4/3
    assert_eq!(rules[0].lift_num, 200);
    assert_eq!(rules[0].lift_den, 150);
}

#[test]
fn every_qualifying_split_is_emitted() {
    // frequent pairs {a,b} and {b,c} each admit two splits; at minimum
    // confidence zero all four rules must come out, each pair once.
    let txs = vec![
        strings(&["a", "b"]),
        strings(&["a", "b", "c"]),
        strings(&["a"]),
        strings(&["b", "c"]),
    ];
    let (rules, _table) = apriori(txs, frac(1, 2), frac(0, 1), 3).unwrap();
    assert_eq!(rules.len(), 4);
    for i in 0..rules.len() {
        for j in 0..i {
            assert!(rules[i].antecedent != rules[j].antecedent || rules[i].consequent != rules[j].consequent);
        }
    }
}

#[test]
fn no_rules_from_singleton_itemsets() {
    let (rules, table) = apriori(vec![strings(&["x"])], frac(1, 10), frac(1, 10), 5).unwrap();
    assert_eq!(table.levels.len(), 1);
    assert!(rules.is_empty());
}
