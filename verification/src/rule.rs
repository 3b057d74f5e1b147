//! The classification rule: a destination path paired with the full,
//! inherited set of keywords a text must contain.

use vstd::prelude::*;

verus! {

/// One compiled classification rule. `destination` is the relative
/// path of the target directory, composed root-to-leaf with `/`
/// between segments; `keywords` is the node's own keywords together
/// with every ancestor's, all of which a text must contain as whole
/// words for the rule to match.
#[derive(Debug, PartialEq, Eq)]
pub struct Rule {
    pub destination: String,
    pub keywords: Vec<String>,
}

/// The mathematical value of a [`Rule`]: its destination as a
/// character sequence and its keywords as a sequence of character
/// sequences.
pub ghost struct RuleModel {
    pub destination: Seq<char>,
    pub keywords: Seq<Seq<char>>,
}

/// The character sequences of a list of strings.
pub open spec fn string_seqs(strings: Seq<String>) -> Seq<Seq<char>> {
    strings.map_values(|s: String| s@)
}

impl View for Rule {
    type V = RuleModel;

    open spec fn view(&self) -> RuleModel {
        RuleModel { destination: self.destination@, keywords: string_seqs(self.keywords@) }
    }
}

/// The models of a list of rules.
pub open spec fn rule_models(rules: Seq<Rule>) -> Seq<RuleModel> {
    rules.map_values(|r: Rule| r@)
}

} // verus!
