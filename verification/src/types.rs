//! Core data model for Apriori mining: items, itemsets, transactions, the
//! frequent-itemset table, and the specification-level notion of support.

use vstd::prelude::*;

verus! {

/// Dense, zero-based handle assigned to an item during interning.
pub type ItemId = usize;

/// Canonical itemset: item ids in strictly ascending order.
pub type Itemset = Vec<ItemId>;

/// One interned transaction: unique item ids in strictly ascending order.
pub type Transaction = Vec<ItemId>;

/// One raw transaction: item tokens as supplied by the caller.
pub type RawTransaction = Vec<String>;

/// One pre-interned transaction for callers that manage their own ids.
pub type RawTransactionId = Vec<ItemId>;

/// Mapping from `ItemId` (the index) to the original token.
pub type Inventory = Vec<String>;

/// Itemsets of one size, each paired with the number of transactions that
/// contain it.
pub type ItemsetCounts = Vec<(Itemset, u64)>;

/// An exact threshold fraction `num / den`, used for minimum support and
/// minimum confidence. A denominator of zero is rejected by the entry points.
#[derive(Clone, Copy, PartialEq, Eq, Structural, Debug)]
pub struct Fraction {
    pub num: u64,
    pub den: u64,
}

/// Caller misuse reported by the entry points.
#[derive(Clone, Copy, PartialEq, Eq, Structural, Debug)]
pub enum AprioriError {
    /// `max_length` was zero.
    ZeroMaxLength,
    /// A threshold fraction had denominator zero.
    ZeroDenominator,
}

impl AprioriError {
    /// A human-readable description of the error.
    pub fn message(&self) -> (r: String)
        ensures
            r@.len() > 0,
    {
        match self {
            AprioriError::ZeroMaxLength => {
                let m = "max_length must be at least 1";
                proof { reveal_strlit("max_length must be at least 1"); }
                m.to_owned()
            },
            AprioriError::ZeroDenominator => {
                let m = "threshold fraction must have a nonzero denominator";
                proof { reveal_strlit("threshold fraction must have a nonzero denominator"); }
                m.to_owned()
            },
        }
    }
}

/// Frequent itemsets grouped by size: `levels[k - 1]` holds the frequent
/// itemsets of size `k`. Levels are contiguous from size 1 and each stored
/// level is nonempty; mining stops at the first size with no survivors.
#[derive(Debug, PartialEq, Eq)]
pub struct FrequentItemsets {
    pub levels: Vec<ItemsetCounts>,
}

/// The elements of `s` are in strictly ascending order (so also unique).
pub open spec fn increasing(s: Seq<ItemId>) -> bool {
    forall|i: int, j: int| 0 <= i < j < s.len() ==> s[i] < s[j]
}

/// Every element of `a` occurs in `b` (set-style containment of sequences).
pub open spec fn seq_subset(a: Seq<ItemId>, b: Seq<ItemId>) -> bool {
    forall|i: int| 0 <= i < a.len() ==> b.contains(#[trigger] a[i])
}

/// Number of transactions in `txs` that contain every item of `c`.
pub open spec fn tx_count(c: Seq<ItemId>, txs: Seq<Seq<ItemId>>) -> nat
    decreases txs.len(),
{
    if txs.len() == 0 {
        0
    } else {
        tx_count(c, txs.drop_last()) + if seq_subset(c, txs.last()) {
            1nat
        } else {
            0nat
        }
    }
}

/// The support test: `count / n >= min_support`, stated without division.
pub open spec fn threshold_met(count: nat, n: nat, min_support: Fraction) -> bool {
    count * min_support.den >= min_support.num * n
}

/// `c` is a frequent itemset of size `k` for the given transactions and
/// minimum support: it is canonical, meets the threshold, occurs at all when
/// `k == 1`, and (for `k >= 2`) all of its `(k-1)`-subsets are frequent.
/// This is exactly the family that level-wise mining discovers.
pub open spec fn frequent(c: Seq<ItemId>, txs: Seq<Seq<ItemId>>, min_support: Fraction, k: nat) -> bool
    decreases k,
{
    &&& c.len() == k
    &&& 1 <= k
    &&& increasing(c)
    &&& threshold_met(tx_count(c, txs), txs.len(), min_support)
    &&& if k <= 1 {
        tx_count(c, txs) >= 1
    } else {
        forall|j: int| 0 <= j < c.len() ==> frequent(#[trigger] c.remove(j), txs, min_support, (k - 1) as nat)
    }
}

/// Some entry of the level has exactly the itemset `c` as its key.
pub open spec fn level_contains(l: Seq<(Itemset, u64)>, c: Seq<ItemId>) -> bool {
    exists|i: int| 0 <= i < l.len() && l[i].0@ == c
}

/// The count stored for `c` in the level (meaningful when keys are unique).
pub open spec fn level_count(l: Seq<(Itemset, u64)>, c: Seq<ItemId>) -> u64 {
    let i = choose|i: int| 0 <= i < l.len() && l[i].0@ == c;
    l[i].1
}

/// The level holds exactly the frequent itemsets of size `k`, each once,
/// with its exact transaction count.
pub open spec fn level_exact(l: Seq<(Itemset, u64)>, txs: Seq<Seq<ItemId>>, min_support: Fraction, k: nat) -> bool {
    &&& forall|c: Seq<ItemId>|
        #![trigger level_contains(l, c)]
        #![trigger frequent(c, txs, min_support, k)]
        level_contains(l, c) <==> frequent(c, txs, min_support, k)
    &&& forall|i: int| 0 <= i < l.len() ==> (#[trigger] l[i]).1 == tx_count(l[i].0@, txs)
    &&& forall|i: int, j: int| 0 <= i < j < l.len() ==> l[i].0@ != l[j].0@
}

impl FrequentItemsets {
    /// The table is the complete and exact result of mining `txs` at
    /// `min_support` up to `max_length`: level `k` (stored at index `k - 1`)
    /// holds exactly the frequent itemsets of size `k` with exact counts;
    /// levels are nonempty; and if the table stops short of `max_length`,
    /// no frequent itemset of the next size exists.
    pub open spec fn table_exact(&self, txs: Seq<Seq<ItemId>>, min_support: Fraction, max_length: nat) -> bool {
        &&& self.levels@.len() <= max_length
        &&& forall|k: int| 0 <= k < self.levels@.len() ==> level_exact(#[trigger] self.levels@[k]@, txs, min_support, (k + 1) as nat)
        &&& forall|k: int| 0 <= k < self.levels@.len() ==> (#[trigger] self.levels@[k]@).len() >= 1
        &&& self.levels@.len() < max_length ==> (forall|c: Seq<ItemId>| !(#[trigger] frequent(c, txs, min_support, self.levels@.len() + 1)))
    }

    /// The keys of every level are canonical (right size, ascending) and
    /// unique within their level. This is the shape the rule generator
    /// relies on; an exact table always has it.
    pub open spec fn table_shaped(&self) -> bool {
        &&& forall|k: int, i: int|
            0 <= k < self.levels@.len() && 0 <= i < self.levels@[k]@.len()
                ==> (#[trigger] self.levels@[k]@[i]).0@.len() == k + 1 && increasing(self.levels@[k]@[i].0@)
        &&& forall|k: int, i: int, j: int|
            0 <= k < self.levels@.len() && 0 <= i < j < self.levels@[k]@.len()
                ==> (#[trigger] self.levels@[k]@[i]).0@ != (#[trigger] self.levels@[k]@[j]).0@
    }

    /// The itemset `c` occurs as a key at its own size level.
    pub open spec fn table_contains(&self, c: Seq<ItemId>) -> bool {
        &&& 1 <= c.len() <= self.levels@.len()
        &&& level_contains(self.levels@[c.len() - 1]@, c)
    }

    /// The count stored for `c` at its size level.
    pub open spec fn table_count(&self, c: Seq<ItemId>) -> u64 {
        level_count(self.levels@[c.len() - 1]@, c)
    }
}

/// Counting over a prefix extended by one transaction adds exactly that
/// transaction's contribution.
pub proof fn lemma_tx_count_take_step(c: Seq<ItemId>, txs: Seq<Seq<ItemId>>, i: int)
    requires
        0 <= i < txs.len(),
    ensures
        tx_count(c, txs.take(i + 1)) == tx_count(c, txs.take(i)) + if seq_subset(c, txs[i]) {
            1nat
        } else {
            0nat
        },
{
    assert(txs.take(i + 1).drop_last() =~= txs.take(i));
    assert(txs.take(i + 1).last() == txs[i]);
}

/// Containment of sequences-as-sets is transitive.
pub proof fn lemma_seq_subset_trans(a: Seq<ItemId>, b: Seq<ItemId>, c: Seq<ItemId>)
    requires
        seq_subset(a, b),
        seq_subset(b, c),
    ensures
        seq_subset(a, c),
{
    assert forall|i: int| 0 <= i < a.len() implies c.contains(#[trigger] a[i]) by {
        let j = choose|j: int| 0 <= j < b.len() && b[j] == a[i];
        assert(c.contains(b[j]));
    }
}

/// Anti-monotonicity of support: a smaller itemset is contained in at least
/// every transaction that contains a larger one.
pub proof fn lemma_tx_count_anti_monotone(s: Seq<ItemId>, c: Seq<ItemId>, txs: Seq<Seq<ItemId>>)
    requires
        seq_subset(s, c),
    ensures
        tx_count(s, txs) >= tx_count(c, txs),
    decreases txs.len(),
{
    if txs.len() > 0 {
        lemma_tx_count_anti_monotone(s, c, txs.drop_last());
        if seq_subset(c, txs.last()) {
            lemma_seq_subset_trans(s, c, txs.last());
        }
    }
}

/// A positive support count is the same as occurring in some transaction.
pub proof fn lemma_tx_count_pos(c: Seq<ItemId>, txs: Seq<Seq<ItemId>>)
    ensures
        tx_count(c, txs) >= 1 <==> exists|t: int| 0 <= t < txs.len() && seq_subset(c, #[trigger] txs[t]),
    decreases txs.len(),
{
    if txs.len() > 0 {
        lemma_tx_count_pos(c, txs.drop_last());
        if seq_subset(c, txs.last()) {
            assert(seq_subset(c, txs[txs.len() - 1]));
        } else {
            if tx_count(c, txs.drop_last()) >= 1 {
                let t = choose|t: int| 0 <= t < txs.drop_last().len() && seq_subset(c, #[trigger] txs.drop_last()[t]);
                assert(txs.drop_last()[t] == txs[t]);
                assert(seq_subset(c, txs[t]));
            }
            if exists|t: int| 0 <= t < txs.len() && seq_subset(c, #[trigger] txs[t]) {
                let t = choose|t: int| 0 <= t < txs.len() && seq_subset(c, #[trigger] txs[t]);
                assert(t < txs.len() - 1);
                assert(txs.drop_last()[t] == txs[t]);
                assert(seq_subset(c, txs.drop_last()[t]));
            }
        }
    }
}

/// An exact table is well shaped: every key has the size of its level, is
/// strictly ascending, and is unique within its level.
pub proof fn lemma_exact_is_shaped(table: FrequentItemsets, txs: Seq<Seq<ItemId>>, min_support: Fraction, max_length: nat)
    requires
        table.table_exact(txs, min_support, max_length),
    ensures
        table.table_shaped(),
{
    assert forall|k: int, i: int|
        0 <= k < table.levels@.len() && 0 <= i < table.levels@[k]@.len()
        implies (#[trigger] table.levels@[k]@[i]).0@.len() == k + 1 && increasing(table.levels@[k]@[i].0@) by {
        let c = table.levels@[k]@[i].0@;
        assert(level_contains(table.levels@[k]@, c));
        assert(frequent(c, txs, min_support, (k + 1) as nat));
    }
}

/// Two strictly ascending sequences with the same members are equal.
pub proof fn lemma_increasing_same_members(c1: Seq<ItemId>, c2: Seq<ItemId>)
    requires
        increasing(c1),
        increasing(c2),
        forall|x: ItemId| #![trigger c1.contains(x)] #![trigger c2.contains(x)] c1.contains(x) <==> c2.contains(x),
    ensures
        c1 == c2,
    decreases c1.len(),
{
    if c1.len() == 0 {
        if c2.len() > 0 {
            assert(c2.contains(c2[0]));
        }
        assert(c1 =~= c2);
    } else {
        assert(c1.contains(c1.last()));
        assert(c2.len() > 0) by {
            assert(c2.contains(c1.last()));
        }
        let p1 = choose|p: int| 0 <= p < c2.len() && c2[p] == c1.last();
        assert(c1.last() <= c2.last());
        assert(c2.contains(c2.last()));
        let p2 = choose|p: int| 0 <= p < c1.len() && c1[p] == c2.last();
        assert(c2.last() <= c1.last());
        assert(c1.last() == c2.last());
        assert forall|x: ItemId| #![trigger c1.drop_last().contains(x)] #![trigger c2.drop_last().contains(x)]
            c1.drop_last().contains(x) <==> c2.drop_last().contains(x) by {
            if c1.drop_last().contains(x) {
                let q = choose|q: int| 0 <= q < c1.len() - 1 && c1.drop_last()[q] == x;
                assert(c1[q] == x && x < c1.last());
                assert(c1.contains(x));
                assert(c2.contains(x));
                let q2 = choose|q: int| 0 <= q < c2.len() && c2[q] == x;
                assert(q2 < c2.len() - 1);
                assert(c2.drop_last()[q2] == x);
            }
            if c2.drop_last().contains(x) {
                let q = choose|q: int| 0 <= q < c2.len() - 1 && c2.drop_last()[q] == x;
                assert(c2[q] == x && x < c2.last());
                assert(c2.contains(x));
                assert(c1.contains(x));
                let q2 = choose|q: int| 0 <= q < c1.len() && c1[q] == x;
                assert(q2 < c1.len() - 1);
                assert(c1.drop_last()[q2] == x);
            }
        }
        lemma_increasing_same_members(c1.drop_last(), c2.drop_last());
        assert(c1 =~= c1.drop_last().push(c1.last()));
        assert(c2 =~= c2.drop_last().push(c2.last()));
    }
}

/// The count stored for a table itemset is its exact transaction count.
pub proof fn lemma_table_count_exact(table: FrequentItemsets, txs: Seq<Seq<ItemId>>, min_support: Fraction, max_length: nat, c: Seq<ItemId>)
    requires
        table.table_exact(txs, min_support, max_length),
        table.table_contains(c),
    ensures
        table.table_count(c) == tx_count(c, txs),
{
    let l = table.levels@[c.len() - 1]@;
    let i = choose|i: int| 0 <= i < l.len() && l[i].0@ == c;
    assert(l[i].1 == tx_count(l[i].0@, txs));
}

/// Anti-monotonicity over the table: an itemset present in the table never
/// has a smaller count than a superset of it that is also present.
pub proof fn law_anti_monotonicity(table: FrequentItemsets, txs: Seq<Seq<ItemId>>, min_support: Fraction, max_length: nat, small: Seq<ItemId>, big: Seq<ItemId>)
    requires
        table.table_exact(txs, min_support, max_length),
        table.table_contains(small),
        table.table_contains(big),
        seq_subset(small, big),
    ensures
        table.table_count(small) >= table.table_count(big),
{
    lemma_table_count_exact(table, txs, min_support, max_length, small);
    lemma_table_count_exact(table, txs, min_support, max_length, big);
    lemma_tx_count_anti_monotone(small, big, txs);
}

/// Threshold correctness, one way: every table itemset carries its exact
/// count and meets the support threshold.
pub proof fn law_threshold_met(table: FrequentItemsets, txs: Seq<Seq<ItemId>>, min_support: Fraction, max_length: nat, c: Seq<ItemId>)
    requires
        table.table_exact(txs, min_support, max_length),
        table.table_contains(c),
    ensures
        table.table_count(c) == tx_count(c, txs),
        threshold_met(tx_count(c, txs), txs.len(), min_support),
{
    lemma_table_count_exact(table, txs, min_support, max_length, c);
    assert(level_contains(table.levels@[c.len() - 1]@, c));
    assert(frequent(c, txs, min_support, c.len() as nat));
}

/// Threshold correctness, the other way: an itemset absent from its size
/// level is not frequent there — it fails the threshold, never occurs (at
/// size one), or has a subset that is itself not frequent.
pub proof fn law_threshold_converse(table: FrequentItemsets, txs: Seq<Seq<ItemId>>, min_support: Fraction, max_length: nat, c: Seq<ItemId>)
    requires
        table.table_exact(txs, min_support, max_length),
        1 <= c.len() <= table.levels@.len(),
        !level_contains(table.levels@[c.len() - 1]@, c),
    ensures
        !frequent(c, txs, min_support, c.len() as nat),
{
}

/// Determinism: any two exact tables for the same transactions, support
/// and length bound hold exactly the same itemsets with the same counts.
pub proof fn law_determinism(t1: FrequentItemsets, t2: FrequentItemsets, txs: Seq<Seq<ItemId>>, min_support: Fraction, max_length: nat)
    requires
        t1.table_exact(txs, min_support, max_length),
        t2.table_exact(txs, min_support, max_length),
    ensures
        t1.levels@.len() == t2.levels@.len(),
        forall|c: Seq<ItemId>|
            #![trigger t1.table_contains(c)]
            #![trigger t2.table_contains(c)]
            t1.table_contains(c) <==> t2.table_contains(c),
        forall|c: Seq<ItemId>|
            #![trigger t1.table_count(c)]
            #![trigger t2.table_count(c)]
            t1.table_contains(c) ==> t1.table_count(c) == t2.table_count(c),
{
    if t1.levels@.len() < t2.levels@.len() {
        let k = t1.levels@.len() as int;
        let key = t2.levels@[k]@[0].0@;
        assert(level_contains(t2.levels@[k]@, key));
        assert(frequent(key, txs, min_support, (k + 1) as nat));
        assert(false);
    }
    if t2.levels@.len() < t1.levels@.len() {
        let k = t2.levels@.len() as int;
        let key = t1.levels@[k]@[0].0@;
        assert(level_contains(t1.levels@[k]@, key));
        assert(frequent(key, txs, min_support, (k + 1) as nat));
        assert(false);
    }
    assert forall|c: Seq<ItemId>| t1.table_contains(c) <==> t2.table_contains(c) by {
        if t1.table_contains(c) {
            assert(frequent(c, txs, min_support, c.len() as nat));
        }
        if t2.table_contains(c) {
            assert(frequent(c, txs, min_support, c.len() as nat));
        }
    }
    assert forall|c: Seq<ItemId>| t1.table_contains(c) implies #[trigger] t1.table_count(c) == t2.table_count(c) by {
        lemma_table_count_exact(t1, txs, min_support, max_length, c);
        lemma_table_count_exact(t2, txs, min_support, max_length, c);
    }
}

/// Every single item of a frequent itemset is itself frequent (and so
/// occurs in some transaction).
pub proof fn lemma_frequent_singletons(c: Seq<ItemId>, txs: Seq<Seq<ItemId>>, min_support: Fraction, k: nat)
    requires
        frequent(c, txs, min_support, k),
    ensures
        forall|q: int| 0 <= q < c.len() ==> frequent(seq![c[q]], txs, min_support, 1),
    decreases k,
{
    if k <= 1 {
        assert forall|q: int| 0 <= q < c.len() implies frequent(seq![c[q]], txs, min_support, 1) by {
            assert(c =~= seq![c[0]]);
        }
    } else {
        assert forall|q: int| 0 <= q < c.len() implies frequent(seq![c[q]], txs, min_support, 1) by {
            if q < c.len() - 1 {
                let c2 = c.remove(c.len() - 1);
                assert(frequent(c2, txs, min_support, (k - 1) as nat));
                lemma_frequent_singletons(c2, txs, min_support, (k - 1) as nat);
                assert(c2[q] == c[q]);
            } else {
                let c2 = c.remove(0);
                assert(frequent(c2, txs, min_support, (k - 1) as nat));
                lemma_frequent_singletons(c2, txs, min_support, (k - 1) as nat);
                assert(c2[q - 1] == c[q]);
            }
        }
    }
}

/// Once no itemset of some size is frequent, none of the next size is either.
pub proof fn lemma_no_frequent_step(txs: Seq<Seq<ItemId>>, min_support: Fraction, k: nat)
    requires
        1 <= k,
        forall|c: Seq<ItemId>| !(#[trigger] frequent(c, txs, min_support, k)),
    ensures
        forall|c: Seq<ItemId>| !(#[trigger] frequent(c, txs, min_support, k + 1)),
{
    assert forall|c: Seq<ItemId>| !(#[trigger] frequent(c, txs, min_support, k + 1)) by {
        if frequent(c, txs, min_support, k + 1) {
            assert(frequent(c.remove(0), txs, min_support, k));
        }
    }
}

} // verus!
