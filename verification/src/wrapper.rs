//! Presentation: map the integer ids of mined rules back to the original
//! tokens through the inventory.

use vstd::prelude::*;

use crate::rules;
use crate::types::{Inventory, ItemId};
use crate::Rule;

verus! {

/// Every id of the rule indexes into an inventory of length `n`.
pub open spec fn rule_ids_bounded(rl: rules::Rule, n: int) -> bool {
    &&& forall|j: int| 0 <= j < rl.antecedent@.len() ==> (#[trigger] rl.antecedent@[j]) < n
    &&& forall|j: int| 0 <= j < rl.consequent@.len() ==> (#[trigger] rl.consequent@[j]) < n
}

/// The token rule `o` is the id rule `r` with each id replaced by its
/// inventory token; confidence and lift are carried over unchanged.
pub open spec fn rule_matches(o: Rule, r: rules::Rule, inv: Seq<String>) -> bool {
    &&& o.confidence == r.confidence
    &&& o.lift_num == r.lift_num
    &&& o.lift_den == r.lift_den
    &&& o.antecedent@.len() == r.antecedent@.len()
    &&& o.consequent@.len() == r.consequent@.len()
    &&& forall|j: int| 0 <= j < o.antecedent@.len() ==> r.antecedent@[j] < inv.len()
        && (#[trigger] o.antecedent@[j])@ == inv[r.antecedent@[j] as int]@
    &&& forall|j: int| 0 <= j < o.consequent@.len() ==> r.consequent@[j] < inv.len()
        && (#[trigger] o.consequent@[j])@ == inv[r.consequent@[j] as int]@
}

/// The token rules are exactly the id rules, elementwise and in order.
pub open spec fn rules_converted(out: Seq<Rule>, idr: Seq<rules::Rule>, inv: Seq<String>) -> bool {
    &&& out.len() == idr.len()
    &&& forall|i: int| 0 <= i < out.len() ==> rule_matches(#[trigger] out[i], idr[i], inv)
}

/// Replace one id list by its tokens.
fn ids_to_tokens(ids: &Vec<ItemId>, inventory: &Inventory) -> (r: Vec<String>)
    requires
        forall|j: int| 0 <= j < ids@.len() ==> (#[trigger] ids@[j]) < inventory@.len(),
    ensures
        r@.len() == ids@.len(),
        forall|j: int| 0 <= j < ids@.len() ==> (#[trigger] r@[j])@ == inventory@[ids@[j] as int]@,
{
    let mut r: Vec<String> = Vec::new();
    let mut j: usize = 0;
    while j < ids.len()
        invariant
            0 <= j <= ids@.len(),
            r@.len() == j,
            forall|m: int| 0 <= m < ids@.len() ==> (#[trigger] ids@[m]) < inventory@.len(),
            forall|m: int| 0 <= m < j ==> (#[trigger] r@[m])@ == inventory@[ids@[m] as int]@,
        decreases ids@.len() - j,
    {
        r.push(inventory[ids[j]].clone());
        j += 1;
    }
    r
}

/// Map each mined rule's ids back to tokens, keeping the order (and so the
/// descending-confidence sorting) of the input.
pub fn convert_rules(rules: Vec<rules::Rule>, inventory: Inventory) -> (r: Vec<Rule>)
    requires
        forall|i: int| 0 <= i < rules@.len() ==> rule_ids_bounded(#[trigger] rules@[i], inventory@.len() as int),
    ensures
        rules_converted(r@, rules@, inventory@),
{
    let mut out: Vec<Rule> = Vec::new();
    let mut i: usize = 0;
    while i < rules.len()
        invariant
            0 <= i <= rules@.len(),
            out@.len() == i,
            forall|m: int| 0 <= m < rules@.len() ==> rule_ids_bounded(#[trigger] rules@[m], inventory@.len() as int),
            forall|m: int| 0 <= m < i ==> rule_matches(#[trigger] out@[m], rules@[m], inventory@),
        decreases rules@.len() - i,
    {
        let rl = &rules[i];
        let antecedent = ids_to_tokens(&rl.antecedent, &inventory);
        let consequent = ids_to_tokens(&rl.consequent, &inventory);
        let converted = Rule {
            antecedent,
            consequent,
            confidence: rl.confidence,
            lift_num: rl.lift_num,
            lift_den: rl.lift_den,
        };
        proof {
            assert(rule_matches(converted, rules@[i as int], inventory@));
        }
        out.push(converted);
        i += 1;
    }
    out
}

} // verus!
