//! The configured rules, and the search for the one that applies.

pub mod abbrev;

use crate::config::abbrev::{
    diagnostic_head, texts, Abbrev, AbbrevView, Evaluation, MatchResult, Outcome,
};
use vstd::prelude::*;

verus! {

/// The rules, in the order in which they are tried.
#[derive(Debug)]
pub struct Config {
    pub abbrevs: Vec<Abbrev>,
}

impl View for Config {
    type V = Seq<AbbrevView>;

    open spec fn view(&self) -> Seq<AbbrevView> {
        Seq::new(self.abbrevs@.len(), |i: int| self.abbrevs@[i]@)
    }
}

/// The first rule at or after `from` that applies.
pub open spec fn first_applying(
    rules: Seq<AbbrevView>,
    args_until_last: Seq<Seq<char>>,
    last_arg: Seq<char>,
    from: int,
) -> Option<int>
    decreases rules.len() - from,
{
    if from < 0 || from >= rules.len() {
        None
    } else if rules[from].applies(args_until_last, last_arg) {
        Some(from)
    } else {
        first_applying(rules, args_until_last, last_arg, from + 1)
    }
}

/// The rules that are tried from `from` on and found invalid: those before
/// the first one that applies whose context matches while their trigger is
/// a regular expression that does not compile.
pub open spec fn invalid_rules(
    rules: Seq<AbbrevView>,
    args_until_last: Seq<Seq<char>>,
    last_arg: Seq<char>,
    from: int,
) -> Seq<int>
    decreases rules.len() - from,
{
    if from < 0 || from >= rules.len() {
        Seq::empty()
    } else {
        match rules[from].outcome(args_until_last, last_arg) {
            Outcome::Matched(_) => Seq::empty(),
            Outcome::Unmatched => invalid_rules(rules, args_until_last, last_arg, from + 1),
            Outcome::Invalid => seq![from] + invalid_rules(
                rules,
                args_until_last,
                last_arg,
                from + 1,
            ),
        }
    }
}

/// The first rule that applies is the least one: it applies, and none
/// before it does. Where no rule is found, none applies.
pub proof fn lemma_first_applying(
    rules: Seq<AbbrevView>,
    args_until_last: Seq<Seq<char>>,
    last_arg: Seq<char>,
    from: int,
)
    requires
        0 <= from,
    ensures
        match first_applying(rules, args_until_last, last_arg, from) {
            Some(found) => {
                &&& from <= found < rules.len()
                &&& rules[found].applies(args_until_last, last_arg)
                &&& forall|i: int|
                    from <= i < found ==> !(#[trigger] rules[i]).applies(args_until_last, last_arg)
            },
            None => forall|i: int|
                from <= i < rules.len() ==> !(#[trigger] rules[i]).applies(
                    args_until_last,
                    last_arg,
                ),
        },
    decreases rules.len() - from,
{
    if from < rules.len() && !rules[from].applies(args_until_last, last_arg) {
        lemma_first_applying(rules, args_until_last, last_arg, from + 1);
    }
}

/// Priority is stable: of two rules that apply, the earlier one is chosen,
/// provided that no rule before it applies.
pub proof fn lemma_priority(
    rules: Seq<AbbrevView>,
    args_until_last: Seq<Seq<char>>,
    last_arg: Seq<char>,
    i: int,
    j: int,
)
    requires
        0 <= i < j < rules.len(),
        rules[i].applies(args_until_last, last_arg),
        rules[j].applies(args_until_last, last_arg),
        forall|k: int| 0 <= k < i ==> !(#[trigger] rules[k]).applies(args_until_last, last_arg),
    ensures
        first_applying(rules, args_until_last, last_arg, 0) == Some(i),
{
    lemma_first_applying(rules, args_until_last, last_arg, 0);
}

/// Of two rules that apply, the later one is never chosen: the rule that
/// is chosen is the earlier one or stands before it.
pub proof fn lemma_later_rule_loses(
    rules: Seq<AbbrevView>,
    args_until_last: Seq<Seq<char>>,
    last_arg: Seq<char>,
    i: int,
    j: int,
)
    requires
        0 <= i < j < rules.len(),
        rules[i].applies(args_until_last, last_arg),
        rules[j].applies(args_until_last, last_arg),
    ensures
        first_applying(rules, args_until_last, last_arg, 0) matches Some(found) && found <= i,
        first_applying(rules, args_until_last, last_arg, 0) != Some(j),
{
    lemma_first_applying(rules, args_until_last, last_arg, 0);
}

/// A rule that was tried and whose trigger could not be tested.
#[derive(Debug, PartialEq)]
pub struct Diagnostic {
    /// The place of the rule among the rules.
    pub rule: usize,
    /// The message for the user.
    pub message: String,
}

/// What the search for a rule comes to.
#[derive(Debug)]
pub struct Search<'a> {
    /// The first rule that applies.
    pub found: Option<MatchResult<'a>>,
    /// The rules that could not be tested on the way.
    pub diagnostics: Vec<Diagnostic>,
}

/// The rules that a list of diagnostics names.
pub open spec fn diagnosed(diagnostics: Seq<Diagnostic>) -> Seq<int> {
    Seq::new(diagnostics.len(), |i: int| diagnostics[i].rule as int)
}

/// Each message begins by naming its rule.
pub open spec fn name_their_rules(diagnostics: Seq<Diagnostic>, rules: Seq<AbbrevView>) -> bool {
    forall|k: int|
        0 <= k < diagnostics.len() ==> diagnostic_head(
            rules[(#[trigger] diagnostics[k]).rule as int].display_name(),
        ).is_prefix_of(diagnostics[k].message@)
}

impl Config {
    /// Tries the rules in order and stops at the first one that applies.
    pub fn search(&self, args_until_last: &[&str], last_arg: &str) -> (r: Search<'_>)
        ensures
            match first_applying(self@, texts(args_until_last@), last_arg@, 0) {
                Some(i) => r.found matches Some(found) && found.abbrev == &self.abbrevs@[i]
                    && self@[i].outcome(texts(args_until_last@), last_arg@) == Outcome::Matched(
                    found.context_size as int,
                ),
                None => r.found is None,
            },
            diagnosed(r.diagnostics@) == invalid_rules(
                self@,
                texts(args_until_last@),
                last_arg@,
                0,
            ),
            name_their_rules(r.diagnostics@, self@),
    {
        let ghost rules = self@;
        let ghost args = texts(args_until_last@);
        let ghost last = last_arg@;
        let n: usize = self.abbrevs.len();
        let mut diagnostics: Vec<Diagnostic> = Vec::new();
        let mut i: usize = 0;
        assert(diagnosed(diagnostics@) =~= Seq::<int>::empty());
        while i < n
            invariant
                rules == self@,
                args == texts(args_until_last@),
                last == last_arg@,
                n == self.abbrevs@.len(),
                i <= n,
                first_applying(rules, args, last, 0) == first_applying(rules, args, last, i as int),
                invalid_rules(rules, args, last, 0) == diagnosed(diagnostics@) + invalid_rules(
                    rules,
                    args,
                    last,
                    i as int,
                ),
                name_their_rules(diagnostics@, rules),
            decreases n - i,
        {
            let rule = &self.abbrevs[i];
            assert(rule@ == rules[i as int]);
            match rule.evaluate(args_until_last, last_arg) {
                Evaluation::Matched(found) => {
                    assert(diagnosed(diagnostics@) + Seq::<int>::empty() =~= diagnosed(
                        diagnostics@,
                    ));
                    return Search { found: Some(found), diagnostics };
                },
                Evaluation::Unmatched => {},
                Evaluation::Invalid(err) => {
                    let ghost before = diagnostics@;
                    let message = rule.diagnostic(&err);
                    diagnostics.push(Diagnostic { rule: i, message });
                    proof {
                        let rest = invalid_rules(rules, args, last, i + 1);
                        assert(diagnosed(diagnostics@) =~= diagnosed(before).push(i as int));
                        assert(diagnosed(before) + (seq![i as int] + rest) =~= diagnosed(
                            diagnostics@,
                        ) + rest);
                        assert forall|k: int| 0 <= k < diagnostics@.len() implies diagnostic_head(
                            rules[(#[trigger] diagnostics@[k]).rule as int].display_name(),
                        ).is_prefix_of(diagnostics@[k].message@) by {
                            if k < before.len() {
                                assert(diagnostics@[k] == before[k]);
                            } else {
                                let head = diagnostic_head(rules[i as int].display_name());
                                assert(diagnostics@[k].message@ == head + err.reason());
                                assert((head + err.reason()).subrange(0, head.len() as int)
                                    =~= head);
                            }
                        }
                    }
                },
            }
            i = i + 1;
        }
        assert(diagnosed(diagnostics@) + Seq::<int>::empty() =~= diagnosed(diagnostics@));
        Search { found: None, diagnostics }
    }
}

} // verus!
