//! The rule index: implication rules looked up by the canonical key of
//! their (partly quantified) conclusion.
use crate::objects::{implication_views, predicate_text, ImplicationFactor, ImplicationView, Predicate};
use vstd::prelude::*;

verus! {

/// The rules whose conclusion has the key `key`, in stored order.
pub open spec fn links_for(key: Seq<char>, rules: Seq<ImplicationView>) -> Seq<ImplicationView>
    decreases rules.len(),
{
    if rules.len() == 0 {
        Seq::empty()
    } else {
        (if predicate_text(rules[0].conclusion) == key {
            seq![rules[0]]
        } else {
            Seq::empty()
        }) + links_for(key, rules.drop_first())
    }
}

/// Implication rules in the order in which they were stored.
pub struct RuleIndex {
    pub implications: Vec<ImplicationFactor>,
}

impl RuleIndex {
    pub fn new() -> (r: Self)
        ensures
            r.implications@.len() == 0,
    {
        RuleIndex { implications: Vec::new() }
    }

    /// Stores a rule after those already stored.
    pub fn store_implication(&mut self, implication: ImplicationFactor)
        ensures
            final(self).implications@ == old(self).implications@.push(implication),
    {
        self.implications.push(implication);
    }

    /// The stored rules whose conclusion has the same canonical key as `predicate`.
    pub fn predicate_backward_links(&self, predicate: &Predicate) -> (r: Vec<ImplicationFactor>)
        ensures
            implication_views(r@) == links_for(
                predicate_text(predicate@),
                implication_views(self.implications@),
            ),
    {
        let key = predicate.hash_string();
        let ghost rules = implication_views(self.implications@);
        let mut out: Vec<ImplicationFactor> = Vec::new();
        let mut i: usize = 0;
        assert(rules.skip(0) =~= rules);
        assert(implication_views(out@) + links_for(key@, rules.skip(0)) =~= links_for(key@, rules));
        while i < self.implications.len()
            invariant
                i <= self.implications@.len(),
                rules == implication_views(self.implications@),
                key@ == predicate_text(predicate@),
                links_for(key@, rules) == implication_views(out@) + links_for(
                    key@,
                    rules.skip(i as int),
                ),
            decreases self.implications@.len() - i,
        {
            assert(rules.skip(i as int).drop_first() =~= rules.skip(i + 1));
            let ghost before = implication_views(out@);
            let ghost rest = links_for(key@, rules.skip(i + 1));
            let other = self.implications[i].conclusion.hash_string();
            if other == key {
                out.push(self.implications[i].duplicate());
                assert(implication_views(out@) + rest =~= before + (seq![rules[i as int]] + rest));
            } else {
                assert(implication_views(out@) + rest =~= before + (Seq::<ImplicationView>::empty()
                    + rest));
            }
            i = i + 1;
        }
        assert(rules.skip(rules.len() as int) =~= Seq::<ImplicationView>::empty());
        assert(implication_views(out@) + Seq::<ImplicationView>::empty() =~= implication_views(
            out@,
        ));
        out
    }
}

} // verus!
