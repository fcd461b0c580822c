//! Apriori frequent-itemset mining and association-rule generation.
//!
//! Transactions are interned to dense integer ids, frequent itemsets are
//! discovered level by level with anti-monotone pruning, and rules are
//! derived from the discovered table with exact rational confidence and
//! lift (no floating point enters the verified core).

pub mod itemsets;
pub mod rules;
pub mod types;
pub mod wrapper;

use vstd::prelude::*;

use types::{
    frequent, increasing, level_contains, seq_subset, threshold_met, tx_count, AprioriError,
    Fraction, FrequentItemsets, Inventory, ItemId, RawTransaction, RawTransactionId, Transaction,
};
use types::{lemma_frequent_singletons, lemma_tx_count_pos};
use itemsets::{id_used, intern_ok, interned_tx_ok, lemma_txs_deep_view, mining_result_ok};
use wrapper::{rule_ids_bounded, rules_converted};

verus! {

/// An association rule over the caller's original tokens, with exact
/// rational confidence and lift (see `rules::Rule` for the id form).
pub struct Rule {
    pub antecedent: Vec<String>,
    pub consequent: Vec<String>,
    pub confidence: Fraction,
    pub lift_num: u128,
    pub lift_den: u128,
}

/// The token rule list is non-increasing in confidence.
pub open spec fn rules_sorted(s: Seq<Rule>) -> bool {
    forall|i: int| 0 <= i < s.len() - 1
        ==> (#[trigger] s[i]).confidence.num * s[i + 1].confidence.den
            >= s[i + 1].confidence.num * s[i].confidence.den
}

/// Every id of a table itemset indexes into the inventory the table was
/// mined with.
proof fn lemma_itemset_ids_in_inventory(a: Seq<ItemId>, table: FrequentItemsets, itxs: Vec<Transaction>, raw: Seq<RawTransaction>, inv: Seq<String>, min_support: Fraction, max_length: nat)
    requires
        table.table_contains(a),
        intern_ok(raw, itxs@, inv),
        table.table_exact(itxs.deep_view(), min_support, max_length),
    ensures
        forall|j: int| 0 <= j < a.len() ==> (#[trigger] a[j]) < inv.len(),
{
    let dv = itxs.deep_view();
    lemma_txs_deep_view(itxs);
    assert(level_contains(table.levels@[a.len() - 1]@, a));
    assert(frequent(a, dv, min_support, a.len() as nat));
    lemma_frequent_singletons(a, dv, min_support, a.len() as nat);
    assert forall|j: int| 0 <= j < a.len() implies (#[trigger] a[j]) < inv.len() by {
        assert(frequent(seq![a[j]], dv, min_support, 1));
        lemma_tx_count_pos(seq![a[j]], dv);
        let t = choose|t: int| 0 <= t < dv.len() && seq_subset(seq![a[j]], #[trigger] dv[t]);
        assert(seq![a[j]][0] == a[j]);
        assert(dv[t].contains(a[j]));
        assert(dv[t] == itxs@[t]@);
        assert(interned_tx_ok(raw[t]@, itxs@[t]@, inv));
        let j2 = choose|j2: int| 0 <= j2 < itxs@[t]@.len() && itxs@[t]@[j2] == a[j];
        assert(id_used(raw[t]@, inv, itxs@[t]@[j2]));
    }
}

/// The full result relation of `apriori`: for some interning of the input
/// with inventory `inv` and some id-rule list, the table is the exact
/// mining result, the id-rule list is the exact rule-generation outcome
/// for that table (`rules_exact`: justified, complete over all qualifying
/// splits, duplicate-free, sorted by descending confidence), and the token
/// rules are their elementwise translation through `inv`.
pub open spec fn apriori_ok(raw: Seq<RawTransaction>, out_rules: Seq<Rule>, table: FrequentItemsets, min_support: Fraction, min_confidence: Fraction, max_length: nat, n: nat) -> bool {
    exists|inv: Inventory, idrules: Vec<rules::Rule>|
        #![trigger rules_converted(out_rules, idrules@, inv@)]
        {
            &&& mining_result_ok(raw, table, inv@, min_support, max_length)
            &&& table.table_shaped()
            &&& rules::rules_exact(idrules@, table, min_confidence, n)
            &&& rules_converted(out_rules, idrules@, inv@)
        }
}

/// The Apriori algorithm, end to end: intern the transactions, mine the
/// frequent itemsets at `min_support` up to `max_length`, derive all
/// association rules at `min_confidence`, and map rule items back to the
/// original tokens. Fails exactly on caller misuse: a zero `max_length`
/// or a threshold fraction with a zero denominator.
pub fn apriori(raw_transactions: Vec<RawTransaction>, min_support: Fraction, min_confidence: Fraction, max_length: usize) -> (r: Result<(Vec<Rule>, FrequentItemsets), AprioriError>)
    ensures
        r is Ok <==> max_length >= 1 && min_support.den >= 1 && min_confidence.den >= 1,
        r matches Ok(pair) ==> apriori_ok(raw_transactions@, pair.0@, pair.1, min_support, min_confidence, max_length as nat, raw_transactions@.len() as nat)
            && rules_sorted(pair.0@),
{
    if min_confidence.den == 0 {
        return Err(AprioriError::ZeroDenominator);
    }
    let n = raw_transactions.len();
    let ghost raw = raw_transactions@;
    match itemsets::generate_frequent_itemsets(raw_transactions, min_support, max_length) {
        Err(e) => Err(e),
        Ok((table, inventory)) => {
            let idrules = rules::generate_rules(&min_confidence, &table, n);
            proof {
                let itxs = choose|itxs: Vec<Transaction>|
                    #[trigger] intern_ok(raw, itxs@, inventory@)
                        && table.table_exact(itxs.deep_view(), min_support, max_length as nat)
                        && itxs.deep_view().len() == raw.len();
                assert forall|i: int| 0 <= i < idrules@.len()
                    implies rule_ids_bounded(#[trigger] idrules@[i], inventory@.len() as int) by {
                    let rl = idrules@[i];
                    assert(rules::rule_ok(rl, table, min_confidence, n as nat));
                    let c = choose|c: Seq<ItemId>| #[trigger] rules::rule_ok_with(rl, c, table, min_confidence, n as nat);
                    lemma_itemset_ids_in_inventory(rl.antecedent@, table, itxs, raw, inventory@, min_support, max_length as nat);
                    lemma_itemset_ids_in_inventory(rl.consequent@, table, itxs, raw, inventory@, min_support, max_length as nat);
                }
            }
            let ghost gidrules = idrules;
            let ghost ginv = inventory;
            let out = wrapper::convert_rules(idrules, inventory);
            proof {
                assert(rules_converted(out@, gidrules@, ginv@));
                assert forall|i: int| 0 <= i < out@.len() - 1
                    implies (#[trigger] out@[i]).confidence.num * out@[i + 1].confidence.den
                        >= out@[i + 1].confidence.num * out@[i].confidence.den by {
                    assert(out@[i].confidence == gidrules@[i].confidence);
                    assert(out@[i + 1].confidence == gidrules@[i + 1].confidence);
                    assert(rules::conf_ge(gidrules@[i], gidrules@[i + 1]));
                }
            }
            Ok((out, table))
        },
    }
}

/// Mine frequent itemsets from raw token transactions; returns the exact
/// table and the inventory mapping ids back to tokens.
pub fn generate_frequent_itemsets(raw_transactions: Vec<RawTransaction>, min_support: Fraction, max_length: usize) -> (r: Result<(FrequentItemsets, Inventory), AprioriError>)
    ensures
        r is Ok <==> max_length >= 1 && min_support.den >= 1,
        r matches Ok(pair) ==> mining_result_ok(raw_transactions@, pair.0, pair.1@, min_support, max_length as nat)
            && pair.0.table_shaped(),
{
    itemsets::generate_frequent_itemsets(raw_transactions, min_support, max_length)
}

/// Mine frequent itemsets from transactions that are already in id form.
pub fn generate_frequent_itemsets_id(raw_transactions: Vec<RawTransactionId>, min_support: Fraction, max_length: usize) -> (r: Result<FrequentItemsets, AprioriError>)
    ensures
        r is Ok <==> max_length >= 1 && min_support.den >= 1,
        r matches Ok(table) ==> table.table_exact(raw_transactions.deep_view(), min_support, max_length as nat)
            && table.table_shaped(),
{
    itemsets::generate_frequent_itemsets_id(raw_transactions, min_support, max_length)
}

} // verus!
