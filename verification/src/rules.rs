//! Association-rule generation: enumerate antecedent/consequent splits of
//! every frequent itemset, compute exact rational confidence and lift,
//! filter by minimum confidence, and sort by descending confidence.

use vstd::prelude::*;

use crate::types::{increasing, level_contains, Fraction, FrequentItemsets, ItemId, Itemset};
use vstd::multiset::Multiset;

verus! {

/// One association rule over interned item ids. Confidence is the exact
/// fraction count(antecedent + consequent) / count(antecedent); lift is
/// confidence divided by the consequent's support, kept as an exact
/// ratio `lift_num / lift_den` = (count(union) * n) /
/// (count(antecedent) * count(consequent)).
pub struct Rule {
    pub antecedent: Vec<ItemId>,
    pub consequent: Vec<ItemId>,
    pub confidence: Fraction,
    pub lift_num: u128,
    pub lift_den: u128,
}

impl Rule {
    /// The rule's antecedent itemset.
    pub fn get_antecedent(&self) -> (r: &Vec<ItemId>)
        ensures
            r@ == self.antecedent@,
    {
        &self.antecedent
    }

    /// The rule's consequent itemset.
    pub fn get_consequent(&self) -> (r: &Vec<ItemId>)
        ensures
            r@ == self.consequent@,
    {
        &self.consequent
    }
}

/// `a` and `s` split `c`: both canonical and nonempty, disjoint, and
/// together holding exactly the items of `c`.
pub open spec fn is_split(c: Seq<ItemId>, a: Seq<ItemId>, s: Seq<ItemId>) -> bool {
    &&& increasing(a) && increasing(s)
    &&& a.len() >= 1 && s.len() >= 1
    &&& forall|x: ItemId|
        #![trigger c.contains(x)]
        #![trigger a.contains(x)]
        #![trigger s.contains(x)]
        c.contains(x) <==> a.contains(x) || s.contains(x)
    &&& forall|x: ItemId| #[trigger] a.contains(x) ==> !s.contains(x)
}

/// As `is_split`, but either side may be empty (used during enumeration).
pub open spec fn is_partition(c: Seq<ItemId>, a: Seq<ItemId>, s: Seq<ItemId>) -> bool {
    &&& increasing(a) && increasing(s)
    &&& forall|x: ItemId|
        #![trigger c.contains(x)]
        #![trigger a.contains(x)]
        #![trigger s.contains(x)]
        c.contains(x) <==> a.contains(x) || s.contains(x)
    &&& forall|x: ItemId| #[trigger] a.contains(x) ==> !s.contains(x)
}

/// Rule `rl` is justified by the table through the itemset `c`: its two
/// sides split `c`, all three counts are read from the table, the
/// confidence meets the minimum, and no denominator is zero.
pub open spec fn rule_ok_with(rl: Rule, c: Seq<ItemId>, t: FrequentItemsets, min_confidence: Fraction, n: nat) -> bool {
    &&& is_split(c, rl.antecedent@, rl.consequent@)
    &&& c.len() >= 2
    &&& t.table_contains(c)
    &&& t.table_contains(rl.antecedent@)
    &&& t.table_contains(rl.consequent@)
    &&& rl.confidence.num == t.table_count(c)
    &&& rl.confidence.den == t.table_count(rl.antecedent@)
    &&& rl.confidence.den >= 1
    &&& t.table_count(rl.consequent@) >= 1
    &&& rl.confidence.num * min_confidence.den >= min_confidence.num * rl.confidence.den
    &&& rl.lift_num == t.table_count(c) * n
    &&& rl.lift_den == t.table_count(rl.antecedent@) * t.table_count(rl.consequent@)
}

/// Rule `rl` is justified by the table through some itemset.
pub open spec fn rule_ok(rl: Rule, t: FrequentItemsets, min_confidence: Fraction, n: nat) -> bool {
    exists|c: Seq<ItemId>| #[trigger] rule_ok_with(rl, c, t, min_confidence, n)
}

/// `x` is one of the rules of `s`.
pub open spec fn appears_in(x: Rule, s: Seq<Rule>) -> bool {
    exists|j: int| 0 <= j < s.len() && s[j] == x
}

/// Rule `a` has confidence at least that of `b` (by cross-multiplication;
/// exact on the stored fractions).
pub open spec fn conf_ge(a: Rule, b: Rule) -> bool {
    a.confidence.num * b.confidence.den >= b.confidence.num * a.confidence.den
}

/// The rule sequence is non-increasing in confidence.
pub open spec fn sorted_by_confidence(s: Seq<Rule>) -> bool {
    forall|i: int| 0 <= i < s.len() - 1 ==> conf_ge(#[trigger] s[i], s[i + 1])
}

/// Confidence is a fraction in [0, 1]: for a rule justified by an exact
/// table, the numerator (the union's count) never exceeds the denominator
/// (the antecedent's count), and the denominator is positive.
pub proof fn law_confidence_bounds(rl: Rule, t: FrequentItemsets, txs: Seq<Seq<ItemId>>, min_support: Fraction, min_confidence: Fraction, max_length: nat, n: nat)
    requires
        t.table_exact(txs, min_support, max_length),
        rule_ok(rl, t, min_confidence, n),
    ensures
        rl.confidence.num <= rl.confidence.den,
        rl.confidence.den >= 1,
{
    let c = choose|c: Seq<ItemId>| #[trigger] rule_ok_with(rl, c, t, min_confidence, n);
    assert forall|i: int| 0 <= i < rl.antecedent@.len()
        implies c.contains(#[trigger] rl.antecedent@[i]) by {
        assert(rl.antecedent@.contains(rl.antecedent@[i]));
    }
    crate::types::lemma_table_count_exact(t, txs, min_support, max_length, c);
    crate::types::lemma_table_count_exact(t, txs, min_support, max_length, rl.antecedent@);
    crate::types::lemma_tx_count_anti_monotone(rl.antecedent@, c, txs);
}

/// In a level with unique keys, any entry holding `c` holds its one count.
pub proof fn lemma_level_count_unique(l: Seq<(Itemset, u64)>, c: Seq<ItemId>, i: int)
    requires
        forall|m: int, j: int| 0 <= m < j < l.len() ==> l[m].0@ != l[j].0@,
        0 <= i < l.len(),
        l[i].0@ == c,
    ensures
        crate::types::level_count(l, c) == l[i].1,
{
    let j = choose|j: int| 0 <= j < l.len() && l[j].0@ == c;
    assert(j == i);
}

/// The pair list holds an entry whose sides are exactly `a` and `s`.
pub open spec fn has_pair(l: Seq<(Itemset, Itemset)>, a: Seq<ItemId>, s: Seq<ItemId>) -> bool {
    exists|i: int| 0 <= i < l.len() && l[i].0@ == a && l[i].1@ == s
}

/// A partition is symmetric in its two sides.
proof fn lemma_partition_swap(c: Seq<ItemId>, a: Seq<ItemId>, s: Seq<ItemId>)
    requires
        is_partition(c, a, s),
    ensures
        is_partition(c, s, a),
{
}

/// In a partition of the prefix of length `i + 1`, the side holding `c[i]`
/// holds it last, and dropping it yields a partition of the prefix of
/// length `i`.
proof fn lemma_partition_shrink(c: Seq<ItemId>, a: Seq<ItemId>, s: Seq<ItemId>, i: int)
    requires
        increasing(c),
        0 <= i < c.len(),
        is_partition(c.take(i + 1), a, s),
        a.contains(c[i]),
    ensures
        a.len() >= 1,
        a.last() == c[i],
        is_partition(c.take(i), a.drop_last(), s),
    decreases 0int,
{
    assert forall|q: int| 0 <= q < a.len() implies exists|p: int|
        0 <= p <= i && c[p] == #[trigger] a[q] by {
        assert(a.contains(a[q]));
        assert(c.take(i + 1).contains(a[q]));
        let p = choose|p: int| 0 <= p < i + 1 && (#[trigger] c.take(i + 1)[p]) == a[q];
        assert(c[p] == a[q]);
    }
    let p0 = choose|p0: int| 0 <= p0 < a.len() && a[p0] == c[i];
    if p0 < a.len() - 1 {
        assert(a[p0 + 1] > c[i]);
        let p = choose|p: int| 0 <= p <= i && c[p] == a[p0 + 1];
        assert(c[p] <= c[i]);
    }
    assert(a.last() == c[i]);
    let a2 = a.drop_last();
    assert forall|x: ItemId| #[trigger] c.take(i).contains(x)
        implies a2.contains(x) || s.contains(x) by {
        let p = choose|p: int| 0 <= p < i && (#[trigger] c.take(i)[p]) == x;
        assert(c.take(i + 1)[p] == x);
        assert(c.take(i + 1).contains(x));
        assert(x == c[p] && c[p] < c[i]);
        if a.contains(x) {
            let q = choose|q: int| 0 <= q < a.len() && a[q] == x;
            assert(q < a.len() - 1);
            assert(a2[q] == x);
        }
    }
    assert forall|x: ItemId| #[trigger] a2.contains(x) || #[trigger] s.contains(x)
        implies c.take(i).contains(x) by {
        if a2.contains(x) {
            let q = choose|q: int| 0 <= q < a2.len() && a2[q] == x;
            assert(a[q] == x);
            assert(a.contains(x));
            assert(c.take(i + 1).contains(x));
            let p = choose|p: int| 0 <= p < i + 1 && (#[trigger] c.take(i + 1)[p]) == x;
            assert(x == a[q] && a[q] < a.last());
            assert(c[p] < c[i]);
            assert(p < i);
            assert(c.take(i)[p] == x);
        } else {
            assert(s.contains(x));
            assert(c.take(i + 1).contains(x));
            let p = choose|p: int| 0 <= p < i + 1 && (#[trigger] c.take(i + 1)[p]) == x;
            assert(!s.contains(c[i]));
            assert(p < i);
            assert(c.take(i)[p] == x);
        }
    }
    assert forall|x: ItemId| #[trigger] a2.contains(x) implies !s.contains(x) by {
        let q = choose|q: int| 0 <= q < a2.len() && a2[q] == x;
        assert(a[q] == x);
        assert(a.contains(x));
    }
}

/// All ways of dividing the items of `c` between two sides (both possibly
/// empty), each side kept in ascending order: every partition occurs, and
/// no pair of sides occurs twice.
fn all_splits(c: &Vec<ItemId>) -> (r: Vec<(Vec<ItemId>, Vec<ItemId>)>)
    requires
        increasing(c@),
    ensures
        forall|i: int| 0 <= i < r@.len() ==> is_partition(c@, (#[trigger] r@[i]).0@, r@[i].1@),
        forall|a: Seq<ItemId>, s: Seq<ItemId>| #[trigger] is_partition(c@, a, s) ==> has_pair(r@, a, s),
        forall|i: int, j: int| 0 <= i < j < r@.len()
            ==> !((#[trigger] r@[i]).0@ == (#[trigger] r@[j]).0@ && r@[i].1@ == r@[j].1@),
{
    let mut r: Vec<(Vec<ItemId>, Vec<ItemId>)> = Vec::new();
    let a0: Vec<ItemId> = Vec::new();
    let s0: Vec<ItemId> = Vec::new();
    r.push((a0, s0));
    proof {
        assert(c@.take(0) =~= Seq::<ItemId>::empty());
        assert(r@[0].0@ =~= Seq::<ItemId>::empty());
        assert(r@[0].1@ =~= Seq::<ItemId>::empty());
        assert(is_partition(c@.take(0), r@[0].0@, r@[0].1@));
        assert forall|a: Seq<ItemId>, s: Seq<ItemId>| #[trigger] is_partition(c@.take(0), a, s)
            implies has_pair(r@, a, s) by {
            if a.len() > 0 {
                assert(a.contains(a[0]));
                assert(c@.take(0).contains(a[0]));
            }
            if s.len() > 0 {
                assert(s.contains(s[0]));
                assert(c@.take(0).contains(s[0]));
            }
            assert(a =~= r@[0].0@ && s =~= r@[0].1@);
        }
    }
    let mut i: usize = 0;
    while i < c.len()
        invariant
            0 <= i <= c@.len(),
            increasing(c@),
            forall|m: int| 0 <= m < r@.len() ==> is_partition(c@.take(i as int), (#[trigger] r@[m]).0@, r@[m].1@)
                && seq_max_bound(r@[m].0@, c@, i as int) && seq_max_bound(r@[m].1@, c@, i as int),
            forall|a: Seq<ItemId>, s: Seq<ItemId>| #[trigger] is_partition(c@.take(i as int), a, s)
                ==> has_pair(r@, a, s),
            forall|m: int, m2: int| 0 <= m < m2 < r@.len()
                ==> !((#[trigger] r@[m]).0@ == (#[trigger] r@[m2]).0@ && r@[m].1@ == r@[m2].1@),
        decreases c@.len() - i,
    {
        let x = c[i];
        let ghost old_r = r@;
        let mut nr: Vec<(Vec<ItemId>, Vec<ItemId>)> = Vec::new();
        let mut m: usize = 0;
        while m < r.len()
            invariant
                0 <= m <= r@.len(),
                0 <= i < c@.len(),
                x == c@[i as int],
                increasing(c@),
                r@ == old_r,
                forall|m2: int| 0 <= m2 < r@.len() ==> is_partition(c@.take(i as int), (#[trigger] r@[m2]).0@, r@[m2].1@)
                    && seq_max_bound(r@[m2].0@, c@, i as int) && seq_max_bound(r@[m2].1@, c@, i as int),
                nr@.len() == 2 * m,
                forall|m2: int| 0 <= m2 < m ==> (#[trigger] nr@[2 * m2]).0@ == r@[m2].0@.push(x)
                    && nr@[2 * m2].1@ == r@[m2].1@,
                forall|m2: int| 0 <= m2 < m ==> (#[trigger] nr@[2 * m2 + 1]).0@ == r@[m2].0@
                    && nr@[2 * m2 + 1].1@ == r@[m2].1@.push(x),
                forall|m2: int| 0 <= m2 < nr@.len() ==> is_partition(c@.take(i + 1), (#[trigger] nr@[m2]).0@, nr@[m2].1@)
                    && seq_max_bound(nr@[m2].0@, c@, i + 1) && seq_max_bound(nr@[m2].1@, c@, i + 1),
            decreases r@.len() - m,
        {
            let mut a1 = crate::itemsets::clone_itemset(&r[m].0);
            let s1 = crate::itemsets::clone_itemset(&r[m].1);
            a1.push(x);
            let a2 = crate::itemsets::clone_itemset(&r[m].0);
            let mut s2 = crate::itemsets::clone_itemset(&r[m].1);
            s2.push(x);
            proof {
                lemma_extend_partition(c@, r@[m as int].0@, r@[m as int].1@, i as int);
            }
            nr.push((a1, s1));
            nr.push((a2, s2));
            m += 1;
        }
        proof {
            assert forall|a: Seq<ItemId>, s: Seq<ItemId>| #[trigger] is_partition(c@.take(i + 1), a, s)
                implies has_pair(nr@, a, s) by {
                assert(c@.take(i + 1)[i as int] == x);
                assert(c@.take(i + 1).contains(x));
                if a.contains(x) {
                    lemma_partition_shrink(c@, a, s, i as int);
                    assert(is_partition(c@.take(i as int), a.drop_last(), s));
                    assert(has_pair(old_r, a.drop_last(), s));
                    let m2 = choose|m2: int| 0 <= m2 < old_r.len()
                        && old_r[m2].0@ == a.drop_last() && old_r[m2].1@ == s;
                    assert(nr@[2 * m2].0@ == a.drop_last().push(x));
                    assert(a =~= a.drop_last().push(x));
                    assert(nr@[2 * m2].0@ == a && nr@[2 * m2].1@ == s);
                } else {
                    assert(s.contains(x));
                    lemma_partition_swap(c@.take(i + 1), a, s);
                    lemma_partition_shrink(c@, s, a, i as int);
                    lemma_partition_swap(c@.take(i as int), s.drop_last(), a);
                    assert(is_partition(c@.take(i as int), a, s.drop_last()));
                    assert(has_pair(old_r, a, s.drop_last()));
                    let m2 = choose|m2: int| 0 <= m2 < old_r.len()
                        && old_r[m2].0@ == a && old_r[m2].1@ == s.drop_last();
                    assert(nr@[2 * m2 + 1].1@ == s.drop_last().push(x));
                    assert(s =~= s.drop_last().push(x));
                    assert(nr@[2 * m2 + 1].0@ == a && nr@[2 * m2 + 1].1@ == s);
                }
            }
            assert forall|m2: int| 0 <= m2 < old_r.len() implies !(#[trigger] old_r[m2].0@).contains(x)
                && !old_r[m2].1@.contains(x) by {
                if old_r[m2].0@.contains(x) {
                    let q = choose|q: int| 0 <= q < old_r[m2].0@.len() && old_r[m2].0@[q] == x;
                    let p = choose|p: int| 0 <= p < i && p < c@.len() && c@[p] == (#[trigger] old_r[m2].0@[q]);
                    assert(c@[p] < c@[i as int]);
                }
                if old_r[m2].1@.contains(x) {
                    let q = choose|q: int| 0 <= q < old_r[m2].1@.len() && old_r[m2].1@[q] == x;
                    let p = choose|p: int| 0 <= p < i && p < c@.len() && c@[p] == (#[trigger] old_r[m2].1@[q]);
                    assert(c@[p] < c@[i as int]);
                }
            }
            assert forall|u: int, v: int| 0 <= u < v < nr@.len()
                implies !((#[trigger] nr@[u]).0@ == (#[trigger] nr@[v]).0@ && nr@[u].1@ == nr@[v].1@) by {
                let mu = u / 2;
                let mv = v / 2;
                assert(u == 2 * mu || u == 2 * mu + 1);
                assert(v == 2 * mv || v == 2 * mv + 1);
                if nr@[u].0@ == nr@[v].0@ && nr@[u].1@ == nr@[v].1@ {
                    if u == 2 * mu && v == 2 * mv {
                        assert(old_r[mu].0@.push(x) == old_r[mv].0@.push(x));
                        assert(old_r[mu].0@.len() == old_r[mv].0@.len());
                        assert forall|q: int| 0 <= q < old_r[mu].0@.len()
                            implies old_r[mu].0@[q] == old_r[mv].0@[q] by {
                            assert(old_r[mu].0@.push(x)[q] == old_r[mu].0@[q]);
                            assert(old_r[mv].0@.push(x)[q] == old_r[mv].0@[q]);
                        }
                        assert(old_r[mu].0@ =~= old_r[mv].0@);
                        assert(old_r[mu].1@ == old_r[mv].1@);
                        assert(mu < mv);
                        assert(false);
                    } else if u == 2 * mu + 1 && v == 2 * mv + 1 {
                        assert(old_r[mu].1@.push(x) == old_r[mv].1@.push(x));
                        assert(old_r[mu].1@.len() == old_r[mv].1@.len());
                        assert forall|q: int| 0 <= q < old_r[mu].1@.len()
                            implies old_r[mu].1@[q] == old_r[mv].1@[q] by {
                            assert(old_r[mu].1@.push(x)[q] == old_r[mu].1@[q]);
                            assert(old_r[mv].1@.push(x)[q] == old_r[mv].1@[q]);
                        }
                        assert(old_r[mu].1@ =~= old_r[mv].1@);
                        assert(old_r[mu].0@ == old_r[mv].0@);
                        assert(mu < mv);
                        assert(false);
                    } else if u == 2 * mu && v == 2 * mv + 1 {
                        assert(nr@[u].0@ == old_r[mu].0@.push(x));
                        assert(nr@[u].0@.contains(x)) by {
                            assert(nr@[u].0@[old_r[mu].0@.len() as int] == x);
                        }
                        assert(!old_r[mv].0@.contains(x));
                        assert(false);
                    } else {
                        assert(u == 2 * mu + 1 && v == 2 * mv);
                        assert(nr@[v].0@ == old_r[mv].0@.push(x));
                        assert(nr@[v].0@.contains(x)) by {
                            assert(nr@[v].0@[old_r[mv].0@.len() as int] == x);
                        }
                        assert(!old_r[mu].0@.contains(x));
                        assert(false);
                    }
                }
            }
        }
        r = nr;
        i += 1;
    }
    proof {
        assert(c@.take(c@.len() as int) =~= c@);
    }
    r
}

/// Every element of `a` is one of the first `bound` items of `c`.
pub open spec fn seq_max_bound(a: Seq<ItemId>, c: Seq<ItemId>, bound: int) -> bool {
    forall|q: int| 0 <= q < a.len() ==> exists|p: int| 0 <= p < bound && p < c.len() && c[p] == #[trigger] a[q]
}

/// Extending a partition of a prefix of `c` with the next item, on either
/// side, yields a partition of the longer prefix.
proof fn lemma_extend_partition(c: Seq<ItemId>, a: Seq<ItemId>, s: Seq<ItemId>, i: int)
    requires
        increasing(c),
        0 <= i < c.len(),
        is_partition(c.take(i), a, s),
        seq_max_bound(a, c, i),
        seq_max_bound(s, c, i),
    ensures
        is_partition(c.take(i + 1), a.push(c[i]), s),
        is_partition(c.take(i + 1), a, s.push(c[i])),
        seq_max_bound(a.push(c[i]), c, i + 1),
        seq_max_bound(s.push(c[i]), c, i + 1),
        seq_max_bound(a, c, i + 1),
        seq_max_bound(s, c, i + 1),
    decreases 0int,
{
    lemma_side_push(c, a, s, i);
    lemma_side_push(c, s, a, i);
    assert forall|x: ItemId| #[trigger] c.take(i + 1).contains(x)
        implies a.push(c[i]).contains(x) || s.contains(x) by {
        let p = choose|p: int| 0 <= p < i + 1 && (#[trigger] c.take(i + 1)[p]) == x;
        if p < i {
            assert(c.take(i).contains(x));
            if a.contains(x) {
                let q = choose|q: int| 0 <= q < a.len() && a[q] == x;
                assert(a.push(c[i])[q] == x);
            }
        } else {
            assert(a.push(c[i])[a.len() as int] == c[i]);
        }
    }
    assert forall|x: ItemId| #[trigger] c.take(i + 1).contains(x)
        implies a.contains(x) || s.push(c[i]).contains(x) by {
        let p = choose|p: int| 0 <= p < i + 1 && (#[trigger] c.take(i + 1)[p]) == x;
        if p < i {
            assert(c.take(i).contains(x));
            if s.contains(x) {
                let q = choose|q: int| 0 <= q < s.len() && s[q] == x;
                assert(s.push(c[i])[q] == x);
            }
        } else {
            assert(s.push(c[i])[s.len() as int] == c[i]);
        }
    }
    assert forall|q: int| 0 <= q < a.push(c[i]).len() implies exists|p: int|
        0 <= p < i + 1 && p < c.len() && c[p] == #[trigger] a.push(c[i])[q] by {
        if q < a.len() {
            assert(a.push(c[i])[q] == a[q]);
            let p = choose|p: int| 0 <= p < i && p < c.len() && c[p] == a[q];
            assert(0 <= p < i + 1 && p < c.len() && c[p] == a.push(c[i])[q]);
        } else {
            assert(0 <= i < i + 1 && i < c.len() && c[i] == a.push(c[i])[q]);
        }
    }
    assert forall|q: int| 0 <= q < s.push(c[i]).len() implies exists|p: int|
        0 <= p < i + 1 && p < c.len() && c[p] == #[trigger] s.push(c[i])[q] by {
        if q < s.len() {
            assert(s.push(c[i])[q] == s[q]);
            let p = choose|p: int| 0 <= p < i && p < c.len() && c[p] == s[q];
            assert(0 <= p < i + 1 && p < c.len() && c[p] == s.push(c[i])[q]);
        } else {
            assert(0 <= i < i + 1 && i < c.len() && c[i] == s.push(c[i])[q]);
        }
    }
    assert forall|q: int| 0 <= q < a.len() implies exists|p: int|
        0 <= p < i + 1 && p < c.len() && c[p] == #[trigger] a[q] by {
        let p = choose|p: int| 0 <= p < i && p < c.len() && c[p] == a[q];
        assert(0 <= p < i + 1 && p < c.len() && c[p] == a[q]);
    }
    assert forall|q: int| 0 <= q < s.len() implies exists|p: int|
        0 <= p < i + 1 && p < c.len() && c[p] == #[trigger] s[q] by {
        let p = choose|p: int| 0 <= p < i && p < c.len() && c[p] == s[q];
        assert(0 <= p < i + 1 && p < c.len() && c[p] == s[q]);
    }
    assert forall|x: ItemId| #[trigger] a.push(c[i]).contains(x) || #[trigger] s.contains(x)
        implies c.take(i + 1).contains(x) by {
        if a.push(c[i]).contains(x) {
            let q = choose|q: int| 0 <= q < a.push(c[i]).len() && a.push(c[i])[q] == x;
            if q < a.len() {
                assert(a.contains(a[q]));
                assert(c.take(i).contains(x));
                let p = choose|p: int| 0 <= p < i && c.take(i)[p] == x;
                assert(c.take(i + 1)[p] == x);
            } else {
                assert(c.take(i + 1)[i] == x);
            }
        } else {
            assert(s.contains(x));
            assert(c.take(i).contains(x));
            let p = choose|p: int| 0 <= p < i && c.take(i)[p] == x;
            assert(c.take(i + 1)[p] == x);
        }
    }
    assert forall|x: ItemId| #[trigger] a.contains(x) || #[trigger] s.push(c[i]).contains(x)
        implies c.take(i + 1).contains(x) by {
        if s.push(c[i]).contains(x) {
            let q = choose|q: int| 0 <= q < s.push(c[i]).len() && s.push(c[i])[q] == x;
            if q < s.len() {
                assert(s.contains(s[q]));
                assert(c.take(i).contains(x));
                let p = choose|p: int| 0 <= p < i && c.take(i)[p] == x;
                assert(c.take(i + 1)[p] == x);
            } else {
                assert(c.take(i + 1)[i] == x);
            }
        } else {
            assert(a.contains(x));
            assert(c.take(i).contains(x));
            let p = choose|p: int| 0 <= p < i && c.take(i)[p] == x;
            assert(c.take(i + 1)[p] == x);
        }
    }
    assert forall|x: ItemId| #[trigger] a.push(c[i]).contains(x) implies !s.contains(x) by {
        let q = choose|q: int| 0 <= q < a.push(c[i]).len() && a.push(c[i])[q] == x;
        if q < a.len() {
            assert(a.contains(a[q]));
        }
    }
    assert forall|x: ItemId| #[trigger] a.contains(x) implies !s.push(c[i]).contains(x) by {
        if s.push(c[i]).contains(x) {
            let q = choose|q: int| 0 <= q < s.push(c[i]).len() && s.push(c[i])[q] == x;
            if q < s.len() {
                assert(s.contains(s[q]));
            } else {
                assert(x == c[i]);
                assert(!a.contains(c[i]));
            }
        }
    }
}

/// Pushing `c[i]` onto one side keeps that side ascending and disjoint
/// from the other.
proof fn lemma_side_push(c: Seq<ItemId>, a: Seq<ItemId>, s: Seq<ItemId>, i: int)
    requires
        increasing(c),
        0 <= i < c.len(),
        increasing(a),
        seq_max_bound(a, c, i),
        seq_max_bound(s, c, i),
    ensures
        increasing(a.push(c[i])),
        !a.contains(c[i]),
        !s.contains(c[i]),
{
    assert forall|q: int, q2: int| 0 <= q < q2 < a.push(c[i]).len()
        implies a.push(c[i])[q] < a.push(c[i])[q2] by {
        if q2 == a.len() {
            let p = choose|p: int| 0 <= p < i && p < c.len() && c[p] == a[q];
            assert(c[p] < c[i]);
        }
    }
    if a.contains(c[i]) {
        let q = choose|q: int| 0 <= q < a.len() && a[q] == c[i];
        let p = choose|p: int| 0 <= p < i && p < c.len() && c[p] == a[q];
        assert(c[p] < c[i]);
    }
    if s.contains(c[i]) {
        let q = choose|q: int| 0 <= q < s.len() && s[q] == c[i];
        let p = choose|p: int| 0 <= p < i && p < c.len() && c[p] == s[q];
        assert(c[p] < c[i]);
    }
}

/// Exact product of two 64-bit counts.
fn mul128(x: u64, y: u64) -> (r: u128)
    ensures
        r == x * y,
{
    let a = x as u128;
    let b = y as u128;
    proof {
        assert(a * b <= (u64::MAX as u128) * (u64::MAX as u128)) by (nonlinear_arith)
            requires
                a <= u64::MAX as u128,
                b <= u64::MAX as u128,
        ;
    }
    a * b
}

/// The exact confidence test `count_c / count_a >= min_confidence`.
fn conf_meets(count_c: u64, count_a: u64, min_confidence: &Fraction) -> (r: bool)
    ensures
        r == ((count_c as nat) * min_confidence.den >= min_confidence.num * (count_a as nat)),
{
    let lhs = mul128(count_c, min_confidence.den);
    let rhs = mul128(min_confidence.num, count_a);
    lhs >= rhs
}

/// Executable confidence comparison between two rules.
fn conf_ge_exec(a: &Rule, b: &Rule) -> (r: bool)
    ensures
        r == conf_ge(*a, *b),
{
    let lhs = mul128(a.confidence.num, b.confidence.den);
    let rhs = mul128(b.confidence.num, a.confidence.den);
    lhs >= rhs
}

/// Confidence comparison is transitive when all denominators are positive.
proof fn lemma_conf_ge_trans(a: Rule, b: Rule, c: Rule)
    requires
        conf_ge(a, b),
        conf_ge(b, c),
        a.confidence.den >= 1,
        b.confidence.den >= 1,
        c.confidence.den >= 1,
    ensures
        conf_ge(a, c),
{
    let an = a.confidence.num as int;
    let ad = a.confidence.den as int;
    let bn = b.confidence.num as int;
    let bd = b.confidence.den as int;
    let cn = c.confidence.num as int;
    let cd = c.confidence.den as int;
    assert(an * cd >= cn * ad) by (nonlinear_arith)
        requires
            an * bd >= bn * ad,
            bn * cd >= cn * bd,
            ad >= 1,
            bd >= 1,
            cd >= 1,
            an >= 0,
            bn >= 0,
            cn >= 0,
    ;
}

/// Index of a rule with the greatest confidence.
fn find_max_rule(v: &Vec<Rule>) -> (m: usize)
    requires
        v@.len() >= 1,
        forall|i: int| 0 <= i < v@.len() ==> (#[trigger] v@[i]).confidence.den >= 1,
    ensures
        m < v@.len(),
        forall|j: int| 0 <= j < v@.len() ==> conf_ge(v@[m as int], #[trigger] v@[j]),
{
    let mut m: usize = 0;
    let mut i: usize = 1;
    while i < v.len()
        invariant
            0 <= m < i <= v@.len(),
            forall|i2: int| 0 <= i2 < v@.len() ==> (#[trigger] v@[i2]).confidence.den >= 1,
            forall|j: int| 0 <= j < i ==> conf_ge(v@[m as int], #[trigger] v@[j]),
        decreases v@.len() - i,
    {
        if !conf_ge_exec(&v[m], &v[i]) {
            proof {
                assert(conf_ge(v@[i as int], v@[m as int]));
                assert forall|j: int| 0 <= j < i + 1 implies conf_ge(v@[i as int], #[trigger] v@[j]) by {
                    if j < i {
                        lemma_conf_ge_trans(v@[i as int], v@[m as int], v@[j]);
                    }
                }
            }
            m = i;
        }
        i += 1;
    }
    m
}

/// Sort rules by non-increasing confidence (selection sort); the result is
/// a permutation of the input.
fn sort_rules(input: Vec<Rule>) -> (r: Vec<Rule>)
    requires
        forall|i: int| 0 <= i < input@.len() ==> (#[trigger] input@[i]).confidence.den >= 1,
    ensures
        r@.len() == input@.len(),
        sorted_by_confidence(r@),
        forall|i: int| 0 <= i < r@.len() ==> appears_in(#[trigger] r@[i], input@),
        r@.to_multiset() == input@.to_multiset(),
{
    broadcast use vstd::seq_lib::group_to_multiset_ensures;
    broadcast use vstd::multiset::group_multiset_axioms;

    let ghost orig = input@;
    let mut rest = input;
    let mut out: Vec<Rule> = Vec::new();
    proof {
        assert forall|i: int| 0 <= i < rest@.len() implies appears_in(#[trigger] rest@[i], orig) by {
            assert(0 <= i < orig.len() && orig[i] == rest@[i]);
        }
        assert(out@.to_multiset().add(rest@.to_multiset()) =~= orig.to_multiset());
    }
    while rest.len() > 0
        invariant
            out@.len() + rest@.len() == orig.len(),
            out@.to_multiset().add(rest@.to_multiset()) == orig.to_multiset(),
            forall|i: int| 0 <= i < rest@.len() ==> appears_in(#[trigger] rest@[i], orig),
            forall|i: int| 0 <= i < out@.len() ==> appears_in(#[trigger] out@[i], orig),
            forall|i: int| 0 <= i < rest@.len() ==> (#[trigger] rest@[i]).confidence.den >= 1,
            sorted_by_confidence(out@),
            out@.len() > 0 ==> forall|i: int| 0 <= i < rest@.len() ==> conf_ge(out@.last(), #[trigger] rest@[i]),
        decreases rest@.len(),
    {
        let m = find_max_rule(&rest);
        let ghost old_rest = rest@;
        let ghost old_out = out@;
        let x = rest.remove(m);
        out.push(x);
        proof {
            broadcast use vstd::seq_lib::group_to_multiset_ensures;
            broadcast use vstd::multiset::group_multiset_axioms;

            assert(out@.last() == old_rest[m as int]);
            assert(rest@.to_multiset() =~= old_rest.to_multiset().remove(old_rest[m as int]));
            assert(out@.to_multiset() =~= old_out.to_multiset().insert(old_rest[m as int]));
            assert(old_rest.contains(old_rest[m as int]));
            assert(old_rest.to_multiset().count(old_rest[m as int]) >= 1);
            assert(out@.to_multiset().add(rest@.to_multiset()) =~= orig.to_multiset());
            assert forall|i: int| 0 <= i < rest@.len() implies appears_in(#[trigger] rest@[i], orig) by {
                if i < m {
                    assert(rest@[i] == old_rest[i]);
                    assert(appears_in(old_rest[i], orig));
                } else {
                    assert(rest@[i] == old_rest[i + 1]);
                    assert(appears_in(old_rest[i + 1], orig));
                }
            }
            assert forall|i: int| 0 <= i < out@.len() implies appears_in(#[trigger] out@[i], orig) by {
                if i < old_out.len() {
                    assert(out@[i] == old_out[i]);
                    assert(appears_in(old_out[i], orig));
                } else {
                    assert(out@[i] == old_rest[m as int]);
                    assert(appears_in(old_rest[m as int], orig));
                }
            }
            assert forall|i: int| 0 <= i < out@.len() - 1 implies conf_ge(#[trigger] out@[i], out@[i + 1]) by {
                if i < old_out.len() - 1 {
                    assert(out@[i] == old_out[i] && out@[i + 1] == old_out[i + 1]);
                } else if i == old_out.len() - 1 && old_out.len() > 0 {
                    assert(out@[i] == old_out.last());
                    assert(conf_ge(old_out.last(), old_rest[m as int]));
                }
            }
            assert forall|i: int| 0 <= i < rest@.len() implies conf_ge(out@.last(), #[trigger] rest@[i]) by {
                if i < m {
                    assert(rest@[i] == old_rest[i]);
                } else {
                    assert(rest@[i] == old_rest[i + 1]);
                }
            }
        }
    }
    proof {
        broadcast use vstd::seq_lib::group_to_multiset_ensures;

        assert forall|i: int| 0 <= i < out@.len() implies appears_in(#[trigger] out@[i], input@) by {
            assert(appears_in(out@[i], orig));
        }
        assert(rest@.to_multiset() =~= Multiset::<Rule>::empty());
        assert(out@.to_multiset() =~= orig.to_multiset());
    }
    out
}

/// The rule list holds an entry with exactly these two sides.
pub open spec fn rule_listed(l: Seq<Rule>, a: Seq<ItemId>, s: Seq<ItemId>) -> bool {
    exists|i: int| 0 <= i < l.len() && l[i].antecedent@ == a && l[i].consequent@ == s
}

/// The split `(a, s)` of `c` qualifies for emission: `c` and both sides are
/// in the table, neither denominator is zero, and the exact confidence
/// `count(c) / count(a)` meets the minimum.
pub open spec fn split_qualifies(c: Seq<ItemId>, a: Seq<ItemId>, s: Seq<ItemId>, t: FrequentItemsets, min_confidence: Fraction) -> bool {
    &&& t.table_contains(c)
    &&& c.len() >= 2
    &&& is_split(c, a, s)
    &&& t.table_contains(a)
    &&& t.table_contains(s)
    &&& t.table_count(a) >= 1
    &&& t.table_count(s) >= 1
    &&& t.table_count(c) * min_confidence.den >= min_confidence.num * t.table_count(a)
}

/// Rule `rl`'s sides split the key at entry `e` of level `lv`.
pub open spec fn rule_src(rl: Rule, t: FrequentItemsets, lv: int, e: int) -> bool {
    &&& 0 <= lv < t.levels@.len()
    &&& 0 <= e < t.levels@[lv]@.len()
    &&& is_split(t.levels@[lv]@[e].0@, rl.antecedent@, rl.consequent@)
}

/// Rule `rl` comes from a table entry strictly before position `(lv, e)`.
pub open spec fn rule_src_before(rl: Rule, t: FrequentItemsets, lv: int, e: int) -> bool {
    exists|lv2: int, e2: int| #[trigger] rule_src(rl, t, lv2, e2) && (lv2 < lv || (lv2 == lv && e2 < e))
}

/// The rule list is the exact outcome of rule generation from the table:
/// every listed rule is justified with exact fields (`rule_ok`), every
/// qualifying split of a table itemset is listed, no antecedent/consequent
/// pair is listed twice, and the list is non-increasing in confidence.
pub open spec fn rules_exact(l: Seq<Rule>, t: FrequentItemsets, min_confidence: Fraction, n: nat) -> bool {
    &&& forall|i: int| 0 <= i < l.len() ==> rule_ok(#[trigger] l[i], t, min_confidence, n)
    &&& forall|c: Seq<ItemId>, a: Seq<ItemId>, s: Seq<ItemId>|
        #[trigger] split_qualifies(c, a, s, t, min_confidence) ==> rule_listed(l, a, s)
    &&& forall|i: int, j: int| 0 <= i < j < l.len()
        ==> !((#[trigger] l[i]).antecedent@ == (#[trigger] l[j]).antecedent@ && l[i].consequent@ == l[j].consequent@)
    &&& sorted_by_confidence(l)
}

/// Two rules carry the same observable content: the same antecedent and
/// consequent ids, the same confidence, and the same lift.
pub open spec fn same_rule(r1: Rule, r2: Rule) -> bool {
    &&& r1.antecedent@ == r2.antecedent@
    &&& r1.consequent@ == r2.consequent@
    &&& r1.confidence == r2.confidence
    &&& r1.lift_num == r2.lift_num
    &&& r1.lift_den == r2.lift_den
}

/// Some rule of `l` has the same observable content as `v`.
pub open spec fn listed_same(v: Rule, l: Seq<Rule>) -> bool {
    exists|j: int| 0 <= j < l.len() && same_rule(v, #[trigger] l[j])
}

/// A key present in a well-shaped table is strictly ascending.
pub proof fn lemma_table_key_increasing(t: FrequentItemsets, c: Seq<ItemId>)
    requires
        t.table_shaped(),
        t.table_contains(c),
    ensures
        increasing(c),
{
    let e = choose|e: int| 0 <= e < t.levels@[c.len() - 1]@.len() && (#[trigger] t.levels@[c.len() - 1]@[e]).0@ == c;
    assert(increasing(t.levels@[c.len() - 1]@[e].0@));
}

/// Rule generation is deterministic: two exact rule lists over tables that
/// agree on membership and counts list the same rules — each rule of one
/// list occurs, with the same ids, confidence and lift, in the other, and
/// within each list no antecedent/consequent pair occurs twice.
pub proof fn law_rules_determinism(l1: Seq<Rule>, t1: FrequentItemsets, l2: Seq<Rule>, t2: FrequentItemsets, min_confidence: Fraction, n: nat)
    requires
        rules_exact(l1, t1, min_confidence, n),
        rules_exact(l2, t2, min_confidence, n),
        t1.table_shaped(),
        t2.table_shaped(),
        t1.levels@.len() == t2.levels@.len(),
        forall|c: Seq<ItemId>|
            #![trigger t1.table_contains(c)]
            #![trigger t2.table_contains(c)]
            t1.table_contains(c) <==> t2.table_contains(c),
        forall|c: Seq<ItemId>|
            #![trigger t1.table_count(c)]
            #![trigger t2.table_count(c)]
            t1.table_contains(c) ==> t1.table_count(c) == t2.table_count(c),
    ensures
        forall|i: int| 0 <= i < l1.len() ==> listed_same(#[trigger] l1[i], l2),
        forall|j: int| 0 <= j < l2.len() ==> listed_same(#[trigger] l2[j], l1),
{
    assert forall|i: int| 0 <= i < l1.len() implies listed_same(#[trigger] l1[i], l2) by {
        lemma_rule_carries_over(l1[i], t1, t2, l2, min_confidence, n);
    }
    assert forall|j: int| 0 <= j < l2.len() implies listed_same(#[trigger] l2[j], l1) by {
        lemma_rule_carries_over(l2[j], t2, t1, l1, min_confidence, n);
    }
}

/// A rule justified by one table occurs, with the same content, in any
/// exact rule list over a table agreeing in membership and counts.
proof fn lemma_rule_carries_over(v: Rule, ta: FrequentItemsets, tb: FrequentItemsets, lb: Seq<Rule>, min_confidence: Fraction, n: nat)
    requires
        rule_ok(v, ta, min_confidence, n),
        rules_exact(lb, tb, min_confidence, n),
        ta.table_shaped(),
        tb.table_shaped(),
        forall|c: Seq<ItemId>|
            #![trigger ta.table_contains(c)]
            #![trigger tb.table_contains(c)]
            ta.table_contains(c) <==> tb.table_contains(c),
        forall|c: Seq<ItemId>|
            #![trigger ta.table_count(c)]
            #![trigger tb.table_count(c)]
            ta.table_contains(c) ==> ta.table_count(c) == tb.table_count(c),
    ensures
        listed_same(v, lb),
{
    let a = v.antecedent@;
    let s = v.consequent@;
    let c = choose|c: Seq<ItemId>| #[trigger] rule_ok_with(v, c, ta, min_confidence, n);
    assert(split_qualifies(c, a, s, tb, min_confidence));
    assert(rule_listed(lb, a, s));
    let j = choose|j: int| 0 <= j < lb.len() && lb[j].antecedent@ == a && lb[j].consequent@ == s;
    let w = lb[j];
    assert(rule_ok(w, tb, min_confidence, n));
    let c2 = choose|c2: Seq<ItemId>| #[trigger] rule_ok_with(w, c2, tb, min_confidence, n);
    assert forall|x: ItemId|
        #![trigger c.contains(x)]
        #![trigger c2.contains(x)]
        c.contains(x) <==> c2.contains(x) by {
        assert(c.contains(x) <==> a.contains(x) || s.contains(x));
        assert(c2.contains(x) <==> a.contains(x) || s.contains(x));
    }
    lemma_table_key_increasing(ta, c);
    lemma_table_key_increasing(tb, c2);
    crate::types::lemma_increasing_same_members(c, c2);
    assert(w.confidence.num == tb.table_count(c) && w.confidence.num == ta.table_count(c));
    assert(w.confidence.den == tb.table_count(a) && w.confidence.den == ta.table_count(a));
    assert(same_rule(v, w));
    assert(listed_same(v, lb));
}

/// Derive all association rules from the frequent-itemset table: for every
/// itemset of size at least two and every nonempty split of it, look both
/// sides' counts up in the table, keep the rule exactly when both counts
/// are positive and the exact confidence meets the minimum, and sort by
/// descending confidence. The result is exact (`rules_exact`): every
/// returned rule is justified by the table, every qualifying split yields
/// exactly one rule, and the order is non-increasing in confidence.
pub fn generate_rules(min_confidence: &Fraction, itemset_counts: &FrequentItemsets, n: usize) -> (r: Vec<Rule>)
    requires
        itemset_counts.table_shaped(),
    ensures
        rules_exact(r@, *itemset_counts, *min_confidence, n as nat),
{
    let ghost t = *itemset_counts;
    let ghost mc = *min_confidence;
    let mut rules: Vec<Rule> = Vec::new();
    let mut lv: usize = 1;
    while lv < itemset_counts.levels.len()
        invariant
            1 <= lv,
            t == *itemset_counts,
            mc == *min_confidence,
            t.table_shaped(),
            forall|i: int| 0 <= i < rules@.len() ==> rule_ok(#[trigger] rules@[i], t, mc, n as nat),
            forall|i: int| 0 <= i < rules@.len() ==> (#[trigger] rules@[i]).confidence.den >= 1,
            forall|i: int| 0 <= i < rules@.len() ==> rule_src_before(#[trigger] rules@[i], t, lv as int, 0),
            forall|i: int, j: int| 0 <= i < j < rules@.len()
                ==> !((#[trigger] rules@[i]).antecedent@ == (#[trigger] rules@[j]).antecedent@
                    && rules@[i].consequent@ == rules@[j].consequent@),
            forall|c2: Seq<ItemId>, a2: Seq<ItemId>, s2: Seq<ItemId>|
                #[trigger] split_qualifies(c2, a2, s2, t, mc) && c2.len() <= lv ==> rule_listed(rules@, a2, s2),
        decreases itemset_counts.levels@.len() - lv,
    {
        let level = &itemset_counts.levels[lv];
        let mut e: usize = 0;
        while e < level.len()
            invariant
                1 <= lv < t.levels@.len(),
                0 <= e <= level@.len(),
                level@ == t.levels@[lv as int]@,
                t == *itemset_counts,
                mc == *min_confidence,
                t.table_shaped(),
                forall|i: int| 0 <= i < rules@.len() ==> rule_ok(#[trigger] rules@[i], t, mc, n as nat),
                forall|i: int| 0 <= i < rules@.len() ==> (#[trigger] rules@[i]).confidence.den >= 1,
                forall|i: int| 0 <= i < rules@.len() ==> rule_src_before(#[trigger] rules@[i], t, lv as int, e as int),
                forall|i: int, j: int| 0 <= i < j < rules@.len()
                    ==> !((#[trigger] rules@[i]).antecedent@ == (#[trigger] rules@[j]).antecedent@
                        && rules@[i].consequent@ == rules@[j].consequent@),
                forall|c2: Seq<ItemId>, a2: Seq<ItemId>, s2: Seq<ItemId>|
                    #[trigger] split_qualifies(c2, a2, s2, t, mc) && c2.len() <= lv ==> rule_listed(rules@, a2, s2),
                forall|c2: Seq<ItemId>, a2: Seq<ItemId>, s2: Seq<ItemId>|
                    #[trigger] split_qualifies(c2, a2, s2, t, mc) && c2.len() == lv + 1
                        && (exists|e2: int| 0 <= e2 < e && (#[trigger] t.levels@[lv as int]@[e2]).0@ == c2)
                        ==> rule_listed(rules@, a2, s2),
            decreases level@.len() - e,
        {
            let c = &level[e].0;
            let count_c = level[e].1;
            proof {
                assert(t.levels@[lv as int]@[e as int].0@ == c@);
                assert(c@.len() == lv + 1 && increasing(c@));
                assert(level_contains(t.levels@[lv as int]@, c@));
                lemma_level_count_unique(t.levels@[lv as int]@, c@, e as int);
                assert(t.table_contains(c@) && t.table_count(c@) == count_c);
            }
            let splits = all_splits(c);
            let ghost n0 = rules@.len();
            let mut sp: usize = 0;
            while sp < splits.len()
                invariant
                    1 <= lv < t.levels@.len(),
                    0 <= e < level@.len(),
                    0 <= sp <= splits@.len(),
                    n0 <= rules@.len(),
                    level@ == t.levels@[lv as int]@,
                    c@ == level@[e as int].0@,
                    count_c == level@[e as int].1,
                    c@.len() == lv + 1,
                    increasing(c@),
                    t == *itemset_counts,
                    mc == *min_confidence,
                    t.table_shaped(),
                    t.table_contains(c@),
                    t.table_count(c@) == count_c,
                    forall|i: int| 0 <= i < splits@.len() ==> is_partition(c@, (#[trigger] splits@[i]).0@, splits@[i].1@),
                    forall|i: int, j: int| 0 <= i < j < splits@.len()
                        ==> !((#[trigger] splits@[i]).0@ == (#[trigger] splits@[j]).0@ && splits@[i].1@ == splits@[j].1@),
                    forall|i: int| 0 <= i < rules@.len() ==> rule_ok(#[trigger] rules@[i], t, mc, n as nat),
                    forall|i: int| 0 <= i < rules@.len() ==> (#[trigger] rules@[i]).confidence.den >= 1,
                    forall|i: int| 0 <= i < n0 ==> rule_src_before(#[trigger] rules@[i], t, lv as int, e as int),
                    forall|i: int| n0 <= i < rules@.len() ==> rule_src(#[trigger] rules@[i], t, lv as int, e as int)
                        && has_pair(splits@.take(sp as int), rules@[i].antecedent@, rules@[i].consequent@),
                    forall|i: int, j: int| 0 <= i < j < rules@.len()
                        ==> !((#[trigger] rules@[i]).antecedent@ == (#[trigger] rules@[j]).antecedent@
                            && rules@[i].consequent@ == rules@[j].consequent@),
                    forall|c2: Seq<ItemId>, a2: Seq<ItemId>, s2: Seq<ItemId>|
                        #[trigger] split_qualifies(c2, a2, s2, t, mc) && c2.len() <= lv ==> rule_listed(rules@, a2, s2),
                    forall|c2: Seq<ItemId>, a2: Seq<ItemId>, s2: Seq<ItemId>|
                        #[trigger] split_qualifies(c2, a2, s2, t, mc) && c2.len() == lv + 1
                            && (exists|e2: int| 0 <= e2 < e && (#[trigger] t.levels@[lv as int]@[e2]).0@ == c2)
                            ==> rule_listed(rules@, a2, s2),
                    forall|a2: Seq<ItemId>, s2: Seq<ItemId>|
                        #[trigger] has_pair(splits@.take(sp as int), a2, s2) && split_qualifies(c@, a2, s2, t, mc)
                            ==> rule_listed(rules@, a2, s2),
                decreases splits@.len() - sp,
            {
                let a = &splits[sp].0;
                let s = &splits[sp].1;
                let ghost pa = a@;
                let ghost ps = s@;
                let ghost old_rules = rules@;
                let mut pushed = false;
                if a.len() >= 1 && s.len() >= 1 && a.len() <= itemset_counts.levels.len()
                    && s.len() <= itemset_counts.levels.len() {
                    let fa = crate::itemsets::level_find(&itemset_counts.levels[a.len() - 1], a);
                    let fs = crate::itemsets::level_find(&itemset_counts.levels[s.len() - 1], s);
                    match (fa, fs) {
                        (Some(ca), Some(cs)) => {
                            proof {
                                let la = t.levels@[pa.len() - 1]@;
                                let ls = t.levels@[ps.len() - 1]@;
                                let ia = choose|i: int| 0 <= i < la.len() && la[i].0@ == pa && (#[trigger] la[i]).1 == ca;
                                let is_ = choose|i: int| 0 <= i < ls.len() && ls[i].0@ == ps && (#[trigger] ls[i]).1 == cs;
                                lemma_level_count_unique(la, pa, ia);
                                lemma_level_count_unique(ls, ps, is_);
                                assert(t.table_contains(pa) && t.table_count(pa) == ca);
                                assert(t.table_contains(ps) && t.table_count(ps) == cs);
                            }
                            if ca >= 1 && cs >= 1 && conf_meets(count_c, ca, min_confidence) {
                                let rule = Rule {
                                    antecedent: crate::itemsets::clone_itemset(a),
                                    consequent: crate::itemsets::clone_itemset(s),
                                    confidence: Fraction { num: count_c, den: ca },
                                    lift_num: mul128(count_c, n as u64),
                                    lift_den: mul128(ca, cs),
                                };
                                proof {
                                    assert(is_split(c@, rule.antecedent@, rule.consequent@));
                                    assert(rule_ok_with(rule, c@, t, mc, n as nat));
                                    assert(rule_ok(rule, t, mc, n as nat));
                                    assert(rule_src(rule, t, lv as int, e as int));
                                    assert forall|i: int| 0 <= i < old_rules.len()
                                        implies !((#[trigger] old_rules[i]).antecedent@ == pa
                                            && old_rules[i].consequent@ == ps) by {
                                        if old_rules[i].antecedent@ == pa && old_rules[i].consequent@ == ps {
                                            if i < n0 {
                                                let (lv2, e2) = choose|lv2: int, e2: int|
                                                    #[trigger] rule_src(old_rules[i], t, lv2, e2)
                                                        && (lv2 < lv || (lv2 == lv && e2 < e));
                                                let key2 = t.levels@[lv2]@[e2].0@;
                                                assert(is_split(key2, pa, ps));
                                                assert forall|x: ItemId|
                                                    #![trigger key2.contains(x)]
                                                    #![trigger c@.contains(x)]
                                                    key2.contains(x) <==> c@.contains(x) by {
                                                    assert(key2.contains(x) <==> pa.contains(x) || ps.contains(x));
                                                    assert(c@.contains(x) <==> pa.contains(x) || ps.contains(x));
                                                }
                                                assert(increasing(key2) && key2.len() == lv2 + 1);
                                                crate::types::lemma_increasing_same_members(key2, c@);
                                                assert(lv2 == lv && e2 < e);
                                                assert(t.levels@[lv as int]@[e2].0@ != t.levels@[lv as int]@[e as int].0@);
                                                assert(false);
                                            } else {
                                                let sp2 = choose|sp2: int| 0 <= sp2 < sp
                                                    && (#[trigger] splits@.take(sp as int)[sp2]).0@ == pa
                                                    && splits@.take(sp as int)[sp2].1@ == ps;
                                                assert(splits@[sp2].0@ == pa && splits@[sp2].1@ == ps);
                                                assert(splits@[sp as int].0@ == pa && splits@[sp as int].1@ == ps);
                                                assert(false);
                                            }
                                        }
                                    }
                                }
                                rules.push(rule);
                                pushed = true;
                                proof {
                                    assert(rules@[rules@.len() - 1].antecedent@ == pa);
                                    assert(rules@[rules@.len() - 1].consequent@ == ps);
                                    assert(rule_listed(rules@, pa, ps));
                                }
                            } else {
                                proof {
                                    assert(!split_qualifies(c@, pa, ps, t, mc));
                                }
                            }
                        },
                        (None, _) => {
                            proof {
                                assert(!level_contains(t.levels@[pa.len() - 1]@, pa));
                                assert(!split_qualifies(c@, pa, ps, t, mc));
                            }
                        },
                        (Some(_), None) => {
                            proof {
                                assert(!level_contains(t.levels@[ps.len() - 1]@, ps));
                                assert(!split_qualifies(c@, pa, ps, t, mc));
                            }
                        },
                    }
                } else {
                    proof {
                        if pa.len() == 0 || ps.len() == 0 {
                            assert(!is_split(c@, pa, ps));
                        }
                        assert(!split_qualifies(c@, pa, ps, t, mc));
                    }
                }
                proof {
                    assert forall|a2: Seq<ItemId>, s2: Seq<ItemId>| rule_listed(old_rules, a2, s2)
                        implies rule_listed(rules@, a2, s2) by {
                        let i = choose|i: int| 0 <= i < old_rules.len()
                            && old_rules[i].antecedent@ == a2 && old_rules[i].consequent@ == s2;
                        assert(rules@[i].antecedent@ == a2 && rules@[i].consequent@ == s2);
                    }
                    assert forall|a2: Seq<ItemId>, s2: Seq<ItemId>|
                        #[trigger] has_pair(splits@.take(sp + 1), a2, s2) && split_qualifies(c@, a2, s2, t, mc)
                            implies rule_listed(rules@, a2, s2) by {
                        let idx = choose|idx: int| 0 <= idx < sp + 1
                            && (#[trigger] splits@.take(sp + 1)[idx]).0@ == a2 && splits@.take(sp + 1)[idx].1@ == s2;
                        if idx < sp {
                            assert(splits@.take(sp as int)[idx].0@ == a2 && splits@.take(sp as int)[idx].1@ == s2);
                            assert(has_pair(splits@.take(sp as int), a2, s2));
                            assert(rule_listed(old_rules, a2, s2));
                        } else {
                            assert(a2 == pa && s2 == ps);
                            assert(pushed);
                        }
                    }
                    assert forall|i: int| n0 <= i < rules@.len()
                        implies rule_src(#[trigger] rules@[i], t, lv as int, e as int)
                            && has_pair(splits@.take(sp + 1), rules@[i].antecedent@, rules@[i].consequent@) by {
                        if i < old_rules.len() {
                            assert(rules@[i] == old_rules[i]);
                            let sp2 = choose|sp2: int| 0 <= sp2 < sp
                                && (#[trigger] splits@.take(sp as int)[sp2]).0@ == old_rules[i].antecedent@
                                && splits@.take(sp as int)[sp2].1@ == old_rules[i].consequent@;
                            assert(splits@.take(sp + 1)[sp2].0@ == rules@[i].antecedent@);
                            assert(splits@.take(sp + 1)[sp2].1@ == rules@[i].consequent@);
                        } else {
                            assert(splits@.take(sp + 1)[sp as int].0@ == rules@[i].antecedent@);
                            assert(splits@.take(sp + 1)[sp as int].1@ == rules@[i].consequent@);
                        }
                    }
                }
                sp += 1;
            }
            proof {
                assert(splits@.take(splits@.len() as int) =~= splits@);
                assert forall|a2: Seq<ItemId>, s2: Seq<ItemId>| #[trigger] split_qualifies(c@, a2, s2, t, mc)
                    implies rule_listed(rules@, a2, s2) by {
                    assert(is_split(c@, a2, s2));
                    assert(is_partition(c@, a2, s2));
                    assert(has_pair(splits@, a2, s2));
                    let idx = choose|idx: int| 0 <= idx < splits@.len()
                        && (#[trigger] splits@[idx]).0@ == a2 && splits@[idx].1@ == s2;
                    assert(splits@.take(splits@.len() as int)[idx].0@ == a2);
                    assert(has_pair(splits@.take(splits@.len() as int), a2, s2));
                }
                assert forall|c2: Seq<ItemId>, a2: Seq<ItemId>, s2: Seq<ItemId>|
                    #[trigger] split_qualifies(c2, a2, s2, t, mc) && c2.len() == lv + 1
                        && (exists|e2: int| 0 <= e2 < e + 1 && (#[trigger] t.levels@[lv as int]@[e2]).0@ == c2)
                        implies rule_listed(rules@, a2, s2) by {
                    let e2 = choose|e2: int| 0 <= e2 < e + 1 && (#[trigger] t.levels@[lv as int]@[e2]).0@ == c2;
                    if e2 < e {
                        assert(exists|e3: int| 0 <= e3 < e && (#[trigger] t.levels@[lv as int]@[e3]).0@ == c2);
                    } else {
                        assert(c2 == c@);
                    }
                }
                assert forall|i: int| 0 <= i < rules@.len()
                    implies rule_src_before(#[trigger] rules@[i], t, lv as int, e + 1) by {
                    if i < n0 {
                        let (lv2, e2) = choose|lv2: int, e2: int| #[trigger] rule_src(rules@[i], t, lv2, e2)
                            && (lv2 < lv || (lv2 == lv && e2 < e));
                        assert(rule_src(rules@[i], t, lv2, e2) && (lv2 < lv || (lv2 == lv && e2 < e + 1)));
                    } else {
                        assert(rule_src(rules@[i], t, lv as int, e as int));
                    }
                }
            }
            e += 1;
        }
        proof {
            assert forall|c2: Seq<ItemId>, a2: Seq<ItemId>, s2: Seq<ItemId>|
                #[trigger] split_qualifies(c2, a2, s2, t, mc) && c2.len() <= lv + 1
                    implies rule_listed(rules@, a2, s2) by {
                if c2.len() == lv + 1 {
                    assert(level_contains(t.levels@[lv as int]@, c2));
                    let e2 = choose|e2: int| 0 <= e2 < t.levels@[lv as int]@.len()
                        && (#[trigger] t.levels@[lv as int]@[e2]).0@ == c2;
                    assert(exists|e3: int| 0 <= e3 < level@.len()
                        && (#[trigger] t.levels@[lv as int]@[e3]).0@ == c2);
                }
            }
            assert forall|i: int| 0 <= i < rules@.len()
                implies rule_src_before(#[trigger] rules@[i], t, lv + 1, 0) by {
                let (lv2, e2) = choose|lv2: int, e2: int| #[trigger] rule_src(rules@[i], t, lv2, e2)
                    && (lv2 < lv || (lv2 == lv && e2 < level@.len()));
                assert(rule_src(rules@[i], t, lv2, e2) && lv2 < lv + 1);
            }
        }
        lv += 1;
    }
    proof {
        assert forall|c2: Seq<ItemId>, a2: Seq<ItemId>, s2: Seq<ItemId>|
            #[trigger] split_qualifies(c2, a2, s2, t, mc) implies rule_listed(rules@, a2, s2) by {
            assert(c2.len() <= t.levels@.len());
            assert(c2.len() <= lv);
        }
    }
    let ghost unsorted = rules@;
    let sorted = sort_rules(rules);
    proof {
        broadcast use vstd::seq_lib::group_to_multiset_ensures;

        assert forall|i: int| 0 <= i < sorted@.len()
            implies rule_ok(#[trigger] sorted@[i], t, mc, n as nat) by {
            assert(appears_in(sorted@[i], unsorted));
            let j = choose|j: int| 0 <= j < unsorted.len() && unsorted[j] == sorted@[i];
            assert(rule_ok(unsorted[j], t, mc, n as nat));
        }
        assert forall|c2: Seq<ItemId>, a2: Seq<ItemId>, s2: Seq<ItemId>|
            #[trigger] split_qualifies(c2, a2, s2, t, mc) implies rule_listed(sorted@, a2, s2) by {
            assert(rule_listed(unsorted, a2, s2));
            let i = choose|i: int| 0 <= i < unsorted.len()
                && unsorted[i].antecedent@ == a2 && unsorted[i].consequent@ == s2;
            let v = unsorted[i];
            assert(unsorted.contains(v));
            assert(unsorted.to_multiset().count(v) > 0);
            assert(sorted@.to_multiset().count(v) > 0);
            assert(sorted@.contains(v));
            let j = choose|j: int| 0 <= j < sorted@.len() && sorted@[j] == v;
            assert(sorted@[j].antecedent@ == a2 && sorted@[j].consequent@ == s2);
        }
        assert(unsorted.no_duplicates()) by {
            assert forall|i: int, j: int| 0 <= i < unsorted.len() && 0 <= j < unsorted.len() && i != j
                implies unsorted[i] != unsorted[j] by {
                if i < j {
                    assert(!(unsorted[i].antecedent@ == unsorted[j].antecedent@
                        && unsorted[i].consequent@ == unsorted[j].consequent@));
                } else {
                    assert(!(unsorted[j].antecedent@ == unsorted[i].antecedent@
                        && unsorted[j].consequent@ == unsorted[i].consequent@));
                }
            }
        }
        unsorted.lemma_multiset_has_no_duplicates();
        assert forall|x: Rule| sorted@.to_multiset().contains(x)
            implies sorted@.to_multiset().count(x) == 1 by {
            assert(unsorted.to_multiset().contains(x));
        }
        sorted@.lemma_multiset_has_no_duplicates_conv();
        assert forall|i: int, j: int| 0 <= i < j < sorted@.len()
            implies !((#[trigger] sorted@[i]).antecedent@ == (#[trigger] sorted@[j]).antecedent@
                && sorted@[i].consequent@ == sorted@[j].consequent@) by {
            if sorted@[i].antecedent@ == sorted@[j].antecedent@
                && sorted@[i].consequent@ == sorted@[j].consequent@ {
                assert(sorted@[i] != sorted@[j]);
                assert(appears_in(sorted@[i], unsorted));
                assert(appears_in(sorted@[j], unsorted));
                let i2 = choose|i2: int| 0 <= i2 < unsorted.len() && unsorted[i2] == sorted@[i];
                let j2 = choose|j2: int| 0 <= j2 < unsorted.len() && unsorted[j2] == sorted@[j];
                assert(i2 != j2);
                if i2 < j2 {
                    assert(!(unsorted[i2].antecedent@ == unsorted[j2].antecedent@
                        && unsorted[i2].consequent@ == unsorted[j2].consequent@));
                } else {
                    assert(!(unsorted[j2].antecedent@ == unsorted[i2].antecedent@
                        && unsorted[j2].consequent@ == unsorted[i2].consequent@));
                }
                assert(false);
            }
        }
    }
    sorted
}

} // verus!
