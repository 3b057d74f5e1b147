use ddc::compile::compile;
use ddc::config::ConfigValue;
use ddc::rule::Rule;

fn rule(destination: &str, keywords: &[&str]) -> Rule {
    Rule {
        destination: destination.to_string(),
        keywords: keywords.iter().map(|w| w.to_string()).collect(),
    }
}

fn s(text: &str) -> ConfigValue {
    ConfigValue::Str(text.to_string())
}

fn node(dir: &str, keywords: &[&str], sub: Vec<ConfigValue>) -> ConfigValue {
    let mut entries: Vec<(String, ConfigValue)> = vec![("dir".to_string(), s(dir))];
    if !keywords.is_empty() {
        entries.push((
            "keywords".to_string(),
            ConfigValue::List(keywords.iter().map(|w| s(w)).collect()),
        ));
    }
    if !sub.is_empty() {
        entries.push(("sub".to_string(), ConfigValue::List(sub)));
    }
    ConfigValue::Mapping(entries)
}

#[test]
fn whole_word_boundary_is_respected() {
    let r = rule("pets", &["cat"]);
    assert!(!r.matches("category"));
    assert!(r.matches("a cat sat"));
}

#[test]
fn word_may_touch_text_edges_and_punctuation() {
    let r = rule("pets", &["cat"]);
    assert!(r.matches("cat"));
    assert!(r.matches("the cat."));
    assert!(r.matches("cat, dog"));
    assert!(!r.matches("cat_walk"));
    assert!(!r.matches("concat"));
}

#[test]
fn matching_is_case_sensitive() {
    let r = rule("pets", &["cat"]);
    assert!(!r.matches("Cat sat"));
    assert!(r.matches("cat sat"));
}

#[test]
fn all_keywords_are_required_in_any_order() {
    let r = rule("taxes", &["invoice", "2024"]);
    assert!(!r.matches("an invoice arrived"));
    assert!(!r.matches("the year 2024"));
    assert!(r.matches("invoice for 2024"));
    assert!(r.matches("2024: please pay this invoice"));
}

#[test]
fn keyword_with_pattern_characters_is_taken_literally() {
    let r = rule("versions", &["a.b"]);
    assert!(r.matches("release a.b is out"));
    assert!(!r.matches("release aXb is out"));
    assert!(!r.matches("release a b is out"));
}

#[test]
fn rule_without_keywords_never_matches() {
    let r = rule("root", &[]);
    assert!(!r.matches(""));
    assert!(!r.matches("any text at all"));
    let rules = vec![r];
    assert!(ddc::matching::matches(&rules, "").is_empty());
    assert!(ddc::matching::matches(&rules, "any text at all").is_empty());
}

#[test]
fn matcher_keeps_rule_order_and_drops_non_matches() {
    let rules = vec![
        rule("a", &["alpha"]),
        rule("b", &["beta"]),
        rule("c", &["alpha", "gamma"]),
    ];
    let found = ddc::matching::matches(&rules, "alpha gamma");
    let destinations: Vec<&str> = found.iter().map(|r| r.destination.as_str()).collect();
    assert_eq!(destinations, vec!["a", "c"]);
}

#[test]
fn matching_twice_yields_identical_results() {
    let rules = vec![rule("a", &["tax"]), rule("b", &["none"])];
    let text = "tax season";
    let first = ddc::matching::matches(&rules, text);
    let second = ddc::matching::matches(&rules, text);
    assert_eq!(first, second);
}

#[test]
fn inherited_keyword_makes_sibling_branches_ambiguous() {
    let tree = vec![node(
        "money",
        &["tax"],
        vec![
            node("simple", &[], vec![]),
            node("federal", &["federal"], vec![]),
        ],
    )];
    let rules = compile(&tree).unwrap();
    let found = ddc::matching::matches(&rules, "federal tax forms");
    let destinations: Vec<&str> = found.iter().map(|r| r.destination.as_str()).collect();
    assert!(destinations.contains(&"money"));
    assert!(destinations.contains(&"money/federal"));
}

#[test]
fn end_to_end_bills_tree() {
    let tree = vec![node(
        "bills",
        &["bill"],
        vec![node("electric", &["kwh"], vec![])],
    )];
    let rules = compile(&tree).unwrap();
    assert_eq!(rules.len(), 2);
    assert_eq!(rules[0].destination, "bills");
    assert_eq!(rules[0].keywords, vec!["bill".to_string()]);
    assert_eq!(rules[1].destination, "bills/electric");
    assert_eq!(
        rules[1].keywords,
        vec!["bill".to_string(), "kwh".to_string()]
    );

    let both = ddc::matching::matches(&rules, "monthly bill: 40 kwh used");
    let destinations: Vec<&str> = both.iter().map(|r| r.destination.as_str()).collect();
    assert_eq!(destinations, vec!["bills", "bills/electric"]);

    let only_parent = ddc::matching::matches(&rules, "monthly bill");
    let destinations: Vec<&str> = only_parent.iter().map(|r| r.destination.as_str()).collect();
    assert_eq!(destinations, vec!["bills"]);

    let neither = ddc::matching::matches(&rules, "kwh used");
    assert!(neither.is_empty());
}

#[test]
fn no_match_is_an_empty_result_not_an_error() {
    let rules = vec![rule("a", &["alpha"])];
    let found = ddc::matching::matches(&rules, "nothing relevant here");
    assert!(found.is_empty());
}
