//! The text matcher: decides which classification rules a block of
//! text satisfies. A rule matches when it has at least one keyword
//! and every one of its keywords occurs in the text as a whole word.

use vstd::prelude::*;
use vstd::string::StrSliceExecFns;

use crate::rule::Rule;
use crate::rule::RuleModel;
use crate::rule::rule_models;
use crate::text::chars_of;

verus! {

/// Whether a character can be part of a word: an ASCII letter, an
/// ASCII digit, or an underscore. Keyword occurrences must be
/// delimited on both sides by characters that are not word
/// characters, or by the ends of the text.
pub open spec fn is_word_char(c: char) -> bool {
    let u = c as u32;
    ('a' as u32) <= u && u <= ('z' as u32) || ('A' as u32) <= u && u <= ('Z' as u32) || ('0'
        as u32) <= u && u <= ('9' as u32) || c == '_'
}

/// Whether `word` occurs in `text` at position `i` as a whole word:
/// the characters of `word` stand there, and both neighbours, where
/// they exist, are not word characters.
pub open spec fn word_at(text: Seq<char>, word: Seq<char>, i: int) -> bool {
    &&& 0 <= i
    &&& i + word.len() <= text.len()
    &&& text.subrange(i, i + word.len()) == word
    &&& (i == 0 || !is_word_char(text[i - 1]))
    &&& (i + word.len() == text.len() || !is_word_char(text[i + word.len()]))
}

/// Whether `word` occurs somewhere in `text` as a whole word.
pub open spec fn contains_word(text: Seq<char>, word: Seq<char>) -> bool {
    exists|i: int| word_at(text, word, i)
}

/// Whether a rule matches a text: the rule has at least one keyword,
/// and every keyword occurs in the text as a whole word. A rule with
/// no keywords never matches.
pub open spec fn rule_matches(r: RuleModel, text: Seq<char>) -> bool {
    &&& r.keywords.len() > 0
    &&& forall|k: int| 0 <= k < r.keywords.len() ==> contains_word(text, r.keywords[k])
}

/// The subsequence of `rules`, in order, that match `text`.
pub open spec fn matching_rules(rules: Seq<RuleModel>, text: Seq<char>) -> Seq<RuleModel>
    decreases rules,
{
    if rules.len() == 0 {
        Seq::empty()
    } else if rule_matches(rules[0], text) {
        seq![rules[0]] + matching_rules(rules.drop_first(), text)
    } else {
        matching_rules(rules.drop_first(), text)
    }
}

/// Law: a rule with an empty keyword set is never selected, whatever
/// the text — the empty text and every other text included. Every
/// rule among the matches has at least one keyword.
pub proof fn lemma_empty_keywords_never_match(rules: Seq<RuleModel>, text: Seq<char>)
    ensures
        forall|i: int|
            0 <= i < matching_rules(rules, text).len() ==> (#[trigger] matching_rules(rules, text)[i]).keywords.len() > 0,
    decreases rules,
{
    if rules.len() > 0 {
        lemma_empty_keywords_never_match(rules.drop_first(), text);
        if rule_matches(rules[0], text) {
            let all = seq![rules[0]] + matching_rules(rules.drop_first(), text);
            assert forall|i: int|
                0 <= i < all.len() implies (#[trigger] all[i]).keywords.len() > 0 by {
                if i > 0 {
                    assert(all[i] == matching_rules(rules.drop_first(), text)[i - 1]);
                }
            }
        }
    }
}

/// Law: matching is a pure function of the rules and the text. Any
/// two selections taken from the same rules and the same text — in
/// particular, the results of running the matcher twice — are
/// identical.
pub proof fn lemma_matches_deterministic(
    rules: Seq<RuleModel>,
    text: Seq<char>,
    out1: Seq<RuleModel>,
    out2: Seq<RuleModel>,
)
    requires
        out1 == matching_rules(rules, text),
        out2 == matching_rules(rules, text),
    ensures
        out1 == out2,
{
}

/// The models of a list of borrowed rules.
pub open spec fn ref_models(rules: Seq<&Rule>) -> Seq<RuleModel> {
    rules.map_values(|r: &Rule| r@)
}

/// Decides [`is_word_char`] for one character.
fn is_word_char_exec(c: char) -> (b: bool)
    ensures
        b == is_word_char(c),
{
    let u = c as u32;
    ('a' as u32) <= u && u <= ('z' as u32) || ('A' as u32) <= u && u <= ('Z' as u32) || ('0'
        as u32) <= u && u <= ('9' as u32) || c == '_'
}

/// Decides [`word_at`] for one position of the text.
#[verifier::loop_isolation(false)]
fn word_at_exec(text: &Vec<char>, word: &Vec<char>, i: usize) -> (b: bool)
    requires
        i + word@.len() <= text@.len(),
    ensures
        b == word_at(text@, word@, i as int),
{
    let tl = text.len();
    let wl = word.len();
    if i > 0 && is_word_char_exec(text[i - 1]) {
        return false;
    }
    let end = i + wl;
    if end < tl && is_word_char_exec(text[end]) {
        return false;
    }
    let mut j: usize = 0;
    while j < word.len()
        invariant
            j <= word@.len(),
            forall|k: int| 0 <= k < j ==> text@[i + k] == word@[k],
        decreases word@.len() - j,
    {
        if text[i + j] != word[j] {
            proof {
                assert(text@.subrange(i as int, i + word@.len())[j as int] == text@[i + j]);
            }
            return false;
        }
        j = j + 1;
    }
    proof {
        assert(text@.subrange(i as int, i + word@.len()) =~= word@);
    }
    true
}

/// Decides [`contains_word`] by trying every position of the text.
fn contains_word_exec(text: &Vec<char>, word: &Vec<char>) -> (b: bool)
    ensures
        b == contains_word(text@, word@),
{
    if word.len() > text.len() {
        proof {
            assert forall|i: int| !word_at(text@, word@, i) by {}
        }
        return false;
    }
    let last = text.len() - word.len();
    let mut i: usize = 0;
    loop
        invariant_except_break
            i <= last,
            forall|j: int| 0 <= j < i ==> !word_at(text@, word@, j),
        invariant
            word@.len() <= text@.len(),
            last == text@.len() - word@.len(),
        ensures
            forall|j: int| 0 <= j <= last ==> !word_at(text@, word@, j),
        decreases last - i,
    {
        if word_at_exec(text, word, i) {
            proof {
                assert(word_at(text@, word@, i as int));
            }
            return true;
        }
        if i == last {
            break;
        }
        i = i + 1;
    }
    proof {
        assert forall|j: int| !word_at(text@, word@, j) by {
            if 0 <= j <= last as int {
                assert(!word_at(text@, word@, j));
            }
        }
    }
    false
}

impl Rule {
    /// Whether this rule matches `text`: the rule has at least one
    /// keyword and each keyword occurs in `text` as a whole word, as
    /// [`rule_matches`] describes.
    #[verifier::loop_isolation(false)]
    pub fn matches(&self, text: &str) -> (b: bool)
        ensures
            b == rule_matches(self@, text@),
    {
        if self.keywords.len() == 0 {
            return false;
        }
        let text_chars = chars_of(text);
        let mut k: usize = 0;
        while k < self.keywords.len()
            invariant
                k <= self.keywords@.len(),
                forall|j: int| 0 <= j < k ==> contains_word(text@, self@.keywords[j]),
            decreases self.keywords@.len() - k,
        {
            let word_chars = chars_of(self.keywords[k].as_str());
            if !contains_word_exec(&text_chars, &word_chars) {
                proof {
                    assert(!contains_word(text@, self@.keywords[k as int]));
                }
                return false;
            }
            k = k + 1;
        }
        true
    }
}

/// Selects the rules that match `text`: the subsequence of `rules`,
/// preserving input order, for which [`rule_matches`] holds, exactly
/// as [`matching_rules`] describes. An empty result means the text is
/// unclassified; it is not an error.
#[verifier::loop_isolation(false)]
pub fn matches<'a>(rules: &'a Vec<Rule>, text: &str) -> (out: Vec<&'a Rule>)
    ensures
        ref_models(out@) == matching_rules(rule_models(rules@), text@),
{
    let mut out: Vec<&'a Rule> = Vec::new();
    let mut i: usize = 0;
    proof {
        assert(rule_models(rules@).skip(0) =~= rule_models(rules@));
        assert(ref_models(out@) =~= Seq::<RuleModel>::empty());
    }
    while i < rules.len()
        invariant
            i <= rules@.len(),
            matching_rules(rule_models(rules@), text@) == ref_models(out@) + matching_rules(
                rule_models(rules@).skip(i as int),
                text@,
            ),
        decreases rules@.len() - i,
    {
        let ghost models = rule_models(rules@);
        proof {
            assert(models.skip(i as int)[0] == models[i as int]);
            assert(models[i as int] == rules@[i as int]@);
            assert(models.skip(i as int).drop_first() =~= models.skip(i as int + 1));
        }
        let ghost prev = out@;
        if rules[i].matches(text) {
            out.push(&rules[i]);
            proof {
                assert(ref_models(out@) =~= ref_models(prev) + seq![rules@[i as int]@]);
                assert(ref_models(prev) + (seq![models[i as int]] + matching_rules(
                    models.skip(i as int + 1),
                    text@,
                )) =~= ref_models(out@) + matching_rules(models.skip(i as int + 1), text@));
            }
        }
        i = i + 1;
    }
    proof {
        assert(rule_models(rules@).skip(rules@.len() as int) =~= Seq::<RuleModel>::empty());
        assert(ref_models(out@) + Seq::<RuleModel>::empty() =~= ref_models(out@));
    }
    out
}

} // verus!
