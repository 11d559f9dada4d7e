//! The rule-matching flag engine: a left fold of the rule store over one
//! resolved file path.
//!
//! Every rule is consulted in store order; a matching `+` rule extends the
//! gathered flags, a matching `=` rule replaces them. There is no early exit:
//! the last word belongs to the last matching rule only through this fold.

use vstd::prelude::*;
use crate::rules::{Rule, RuleMode, RuleView, rules_view, strs_view};

verus! {

/// One fold step: how a single rule combines with the flags gathered so far,
/// given whether its pattern matched the path.
pub open spec fn fold_step(acc: Seq<Seq<char>>, rule: RuleView, matched: bool) -> Seq<Seq<char>> {
    if !matched {
        acc
    } else {
        match rule.mode {
            RuleMode::Append => acc + rule.flags,
            RuleMode::Replace => rule.flags,
        }
    }
}

/// Left fold of all rules over given per-rule match outcomes, starting from
/// no flags.
pub open spec fn fold_flags(rules: Seq<RuleView>, ms: Seq<bool>) -> Seq<Seq<char>>
    decreases rules.len(),
{
    if rules.len() == 0 {
        seq![]
    } else {
        fold_step(fold_flags(rules.drop_last(), ms.drop_last()), rules.last(), ms.last())
    }
}

/// The glob engine's verdict on one pattern and one path: a function of the
/// two strings alone for a given build of the engine. A pattern the engine
/// refuses matches nothing.
pub uninterp spec fn glob_matches(pattern: Seq<char>, path: Seq<char>) -> bool;

/// The engine's verdicts on a path, one per rule, in store order.
pub open spec fn matches_of(rules: Seq<RuleView>, path: Seq<char>) -> Seq<bool> {
    Seq::new(rules.len(), |i: int| glob_matches(rules[i].pattern, path))
}

/// Relies on glob::Pattern::new and glob::Pattern::matches_path: whether the
/// rule's pattern matches the path.
#[verifier::external_body]
fn glob_match(pattern: &str, path: &str) -> (r: bool)
    ensures
        r == glob_matches(pattern@, path@),
{
    match glob::Pattern::new(pattern) {
        Ok(p) => p.matches_path(std::path::Path::new(path)),
        Err(_) => false,
    }
}

fn push_all(dst: &mut Vec<String>, src: &Vec<String>)
    ensures
        strs_view(final(dst)@) == strs_view(old(dst)@) + strs_view(src@),
{
    let ghost base = old(dst)@;
    let mut i: usize = 0;
    while i < src.len()
        invariant
            i <= src@.len(),
            strs_view(dst@) =~= strs_view(base) + strs_view(src@).take(i as int),
        decreases src@.len() - i,
    {
        let ghost prev = dst@;
        dst.push(src[i].clone());
        proof {
            assert(strs_view(dst@) =~= strs_view(prev).push(src@[i as int]@));
            assert(strs_view(dst@) =~= strs_view(base) + strs_view(src@).take(i + 1));
        }
        i += 1;
    }
    proof {
        assert(strs_view(src@).take(src@.len() as int) =~= strs_view(src@));
    }
}

/// Applies the rule fold to given per-rule match outcomes: exactly the left
/// fold that `fold_flags` states, whatever the outcomes are.
pub fn apply_rules(rules: &Vec<Rule>, matched: &Vec<bool>) -> (r: Vec<String>)
    requires
        matched@.len() == rules@.len(),
    ensures
        strs_view(r@) == fold_flags(rules_view(rules@), matched@),
{
    let ghost rv = rules_view(rules@);
    let ghost ms = matched@;
    let mut acc: Vec<String> = Vec::new();
    let mut k: usize = 0;
    while k < rules.len()
        invariant
            rv == rules_view(rules@),
            ms == matched@,
            ms.len() == rules@.len(),
            k <= rules@.len(),
            strs_view(acc@) == fold_flags(rv.take(k as int), ms.take(k as int)),
        decreases rules@.len() - k,
    {
        proof {
            assert(rv.take(k + 1).drop_last() =~= rv.take(k as int));
            assert(ms.take(k + 1).drop_last() =~= ms.take(k as int));
            assert(rv.take(k + 1).last() == rv[k as int]);
            assert(ms.take(k + 1).last() == ms[k as int]);
        }
        if matched[k] {
            let rk = &rules[k];
            match rk.mode {
                RuleMode::Append => {
                    push_all(&mut acc, &rk.flags);
                },
                RuleMode::Replace => {
                    let mut fresh: Vec<String> = Vec::new();
                    push_all(&mut fresh, &rk.flags);
                    acc = fresh;
                },
            }
            proof {
                assert(strs_view(Seq::<String>::empty()) =~= Seq::<Seq<char>>::empty());
                assert(strs_view(acc@) == fold_flags(rv.take(k + 1), ms.take(k + 1)));
            }
        } else {
            proof {
                assert(strs_view(acc@) == fold_flags(rv.take(k + 1), ms.take(k + 1)));
            }
        }
        k += 1;
    }
    proof {
        assert(rv.take(rv.len() as int) =~= rv);
        assert(ms.take(ms.len() as int) =~= ms);
    }
    acc
}

/// Matches the path against every rule in store order and folds the matching
/// ones: exactly the left fold over the glob engine's verdicts.
pub fn compute_flags(rules: &Vec<Rule>, path: &str) -> (r: Vec<String>)
    ensures
        strs_view(r@) == fold_flags(rules_view(rules@), matches_of(rules_view(rules@), path@)),
{
    let ghost ms = matches_of(rules_view(rules@), path@);
    let mut matched: Vec<bool> = Vec::new();
    let mut k: usize = 0;
    while k < rules.len()
        invariant
            ms == matches_of(rules_view(rules@), path@),
            k <= rules@.len(),
            matched@ =~= ms.take(k as int),
        decreases rules@.len() - k,
    {
        let m = glob_match(rules[k].pattern.as_str(), path);
        proof {
            assert(rules_view(rules@)[k as int].pattern == rules@[k as int]@.pattern);
            assert(m == ms[k as int]);
        }
        matched.push(m);
        proof {
            assert(matched@ =~= ms.take(k + 1));
        }
        k += 1;
    }
    proof {
        assert(matched@ =~= ms);
    }
    apply_rules(rules, &matched)
}

/// A matching replace rule discards whatever an earlier matching rule
/// gathered: over the two-rule store, both matching, only the replace rule's
/// flags remain.
pub proof fn lemma_replace_discards(r1: RuleView, r2: RuleView)
    requires
        r2.mode == RuleMode::Replace,
    ensures
        fold_flags(seq![r1, r2], seq![true, true]) == r2.flags,
{
    assert(seq![r1, r2].drop_last() =~= seq![r1]);
    assert(seq![true, true].drop_last() =~= seq![true]);
}

/// Two matching append rules accumulate their flags in store order.
pub proof fn lemma_appends_accumulate(r1: RuleView, r2: RuleView)
    requires
        r1.mode == RuleMode::Append,
        r2.mode == RuleMode::Append,
    ensures
        fold_flags(seq![r1, r2], seq![true, true]) == r1.flags + r2.flags,
{
    assert(seq![r1, r2].drop_last() =~= seq![r1]);
    assert(seq![true, true].drop_last() =~= seq![true]);
    assert(seq![r1].drop_last() =~= Seq::<RuleView>::empty());
    assert(seq![true].drop_last() =~= Seq::<bool>::empty());
    assert(fold_flags(Seq::<RuleView>::empty(), Seq::<bool>::empty()) =~= Seq::<Seq<char>>::empty());
    assert(Seq::<Seq<char>>::empty() + r1.flags =~= r1.flags);
    assert(fold_flags(seq![r1], seq![true]) =~= r1.flags);
}

/// A path matching no rule gathers no flags: the fold yields the empty list,
/// which the injector still writes out explicitly.
pub proof fn lemma_no_match_no_flags(rules: Seq<RuleView>, ms: Seq<bool>)
    requires
        ms.len() == rules.len(),
        forall|i: int| 0 <= i < ms.len() ==> !ms[i],
    ensures
        fold_flags(rules, ms) == Seq::<Seq<char>>::empty(),
    decreases rules.len(),
{
    if rules.len() > 0 {
        lemma_no_match_no_flags(rules.drop_last(), ms.drop_last());
    }
}

} // verus!
