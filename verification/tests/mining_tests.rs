use apriori::types::{AprioriError, Fraction, FrequentItemsets};
use apriori::{apriori, generate_frequent_itemsets, generate_frequent_itemsets_id};

fn frac(num: u64, den: u64) -> Fraction {
    Fraction { num, den }
}

fn level_count(table: &FrequentItemsets, key: &[usize]) -> Option<u64> {
    let level = table.levels.get(key.len() - 1)?;
    for (itemset, count) in level.iter() {
        if itemset.as_slice() == key {
            return Some(*count);
        }
    }
    None
}

fn strings(words: &[&str]) -> Vec<String> {
    words.iter().map(|w| w.to_string()).collect()
}

#[test]
fn basket_mining_at_half_support() {
    // transactions {a,b}, {a,b,c}, {a}, {b,c} as ids a=0, b=1, c=2
    let txs = vec![vec![0, 1], vec![0, 1, 2], vec![0], vec![1, 2]];
    let table = generate_frequent_itemsets_id(txs, frac(1, 2), 3).unwrap();
    assert_eq!(level_count(&table, &[0]), Some(3));
    assert_eq!(level_count(&table, &[1]), Some(3));
    assert_eq!(level_count(&table, &[2]), Some(2));
    assert_eq!(level_count(&table, &[0, 1]), Some(2));
    assert_eq!(level_count(&table, &[1, 2]), Some(2));
    assert_eq!(level_count(&table, &[0, 2]), None);
    // no triple reaches 2 of 4 transactions
    assert_eq!(table.levels.len(), 2);
}

#[test]
fn single_transaction_single_item() {
    let table = generate_frequent_itemsets_id(vec![vec![7]], frac(1, 10), 5).unwrap();
    assert_eq!(table.levels.len(), 1);
    assert_eq!(table.levels[0].len(), 1);
    assert_eq!(table.levels[0][0].0, vec![7]);
    assert_eq!(table.levels[0][0].1, 1);
}

#[test]
fn full_support_with_disjoint_transactions() {
    let table = generate_frequent_itemsets_id(vec![vec![0], vec![1]], frac(1, 1), 4).unwrap();
    assert_eq!(table.levels.len(), 0);
}

#[test]
fn interning_assigns_first_seen_ids_and_collapses_duplicates() {
    let raw = vec![strings(&["pen", "pen", "ink"]), strings(&["ink"])];
    let (table, inventory) = generate_frequent_itemsets(raw, frac(1, 2), 2).unwrap();
    assert_eq!(inventory, strings(&["pen", "ink"]));
    // pen appears once (duplicates collapse), ink twice
    assert_eq!(level_count(&table, &[0]), Some(1));
    assert_eq!(level_count(&table, &[1]), Some(2));
}

#[test]
fn zero_max_length_is_rejected() {
    assert_eq!(
        generate_frequent_itemsets_id(vec![vec![0]], frac(1, 2), 0),
        Err(AprioriError::ZeroMaxLength)
    );
    assert!(apriori(vec![strings(&["a"])], frac(1, 2), frac(1, 2), 0).is_err());
}

#[test]
fn zero_denominator_is_rejected() {
    assert_eq!(
        generate_frequent_itemsets_id(vec![vec![0]], frac(1, 0), 3),
        Err(AprioriError::ZeroDenominator)
    );
    assert!(apriori(vec![strings(&["a"])], frac(1, 2), frac(1, 0), 3).is_err());
}

#[test]
fn error_messages_are_descriptive() {
    assert!(!AprioriError::ZeroMaxLength.message().is_empty());
    assert!(!AprioriError::ZeroDenominator.message().is_empty());
}

#[test]
fn empty_input_yields_empty_results() {
    let (rules, table) = apriori(Vec::new(), frac(1, 2), frac(1, 2), 3).unwrap();
    assert!(rules.is_empty());
    assert!(table.levels.is_empty());
}

#[test]
fn support_counts_never_grow_with_itemset_size() {
    let txs = vec![vec![0, 1], vec![0, 1, 2], vec![0], vec![1, 2]];
    let table = generate_frequent_itemsets_id(txs, frac(1, 4), 3).unwrap();
    let ab = level_count(&table, &[0, 1]).unwrap();
    assert!(ab <= level_count(&table, &[0]).unwrap());
    assert!(ab <= level_count(&table, &[1]).unwrap());
    let abc = level_count(&table, &[0, 1, 2]).unwrap();
    assert!(abc <= ab);
}

#[test]
fn repeated_runs_agree() {
    let txs = || vec![strings(&["a", "b"]), strings(&["a", "b", "c"]), strings(&["a"]), strings(&["b", "c"])];
    let (rules1, table1) = apriori(txs(), frac(1, 2), frac(1, 3), 3).unwrap();
    let (rules2, table2) = apriori(txs(), frac(1, 2), frac(1, 3), 3).unwrap();
    assert_eq!(table1.levels, table2.levels);
    assert_eq!(rules1.len(), rules2.len());
    for (r1, r2) in rules1.iter().zip(rules2.iter()) {
        assert_eq!(r1.antecedent, r2.antecedent);
        assert_eq!(r1.consequent, r2.consequent);
        assert_eq!(r1.confidence, r2.confidence);
        assert_eq!(r1.lift_num, r2.lift_num);
        assert_eq!(r1.lift_den, r2.lift_den);
    }
}
