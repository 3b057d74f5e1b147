use ddc::compile::compile;
use ddc::config::ConfigError;
use ddc::config::ConfigValue;

fn s(text: &str) -> ConfigValue {
    ConfigValue::Str(text.to_string())
}

fn keyword_list(words: &[&str]) -> ConfigValue {
    ConfigValue::List(words.iter().map(|w| s(w)).collect())
}

fn node(dir: &str, keywords: Option<&[&str]>, sub: Option<Vec<ConfigValue>>) -> ConfigValue {
    let mut entries: Vec<(String, ConfigValue)> = vec![("dir".to_string(), s(dir))];
    if let Some(words) = keywords {
        entries.push(("keywords".to_string(), keyword_list(words)));
    }
    if let Some(children) = sub {
        entries.push(("sub".to_string(), ConfigValue::List(children)));
    }
    ConfigValue::Mapping(entries)
}

#[test]
fn empty_tree_compiles_to_no_rules() {
    let rules = compile(&vec![]).unwrap();
    assert!(rules.is_empty());
}

#[test]
fn single_node_yields_one_rule() {
    let tree = vec![node("bills", Some(&["bill"]), None)];
    let rules = compile(&tree).unwrap();
    assert_eq!(rules.len(), 1);
    assert_eq!(rules[0].destination, "bills");
    assert_eq!(rules[0].keywords, vec!["bill".to_string()]);
}

#[test]
fn node_without_keywords_still_yields_a_rule() {
    let tree = vec![node("misc", None, None)];
    let rules = compile(&tree).unwrap();
    assert_eq!(rules.len(), 1);
    assert_eq!(rules[0].destination, "misc");
    assert!(rules[0].keywords.is_empty());
}

#[test]
fn one_rule_per_node_across_the_tree() {
    let tree = vec![
        node(
            "a",
            Some(&["x"]),
            Some(vec![node("b", None, None), node("c", Some(&["y"]), None)]),
        ),
        node("d", None, None),
    ];
    let rules = compile(&tree).unwrap();
    assert_eq!(rules.len(), 4);
    let destinations: Vec<&str> = rules.iter().map(|r| r.destination.as_str()).collect();
    assert_eq!(destinations, vec!["a", "a/b", "a/c", "d"]);
}

#[test]
fn child_inherits_parent_keywords_and_path() {
    let tree = vec![node(
        "bills",
        Some(&["bill"]),
        Some(vec![node("electric", Some(&["kwh"]), None)]),
    )];
    let rules = compile(&tree).unwrap();
    assert_eq!(rules.len(), 2);
    assert_eq!(rules[0].destination, "bills");
    assert_eq!(rules[0].keywords, vec!["bill".to_string()]);
    assert_eq!(rules[1].destination, "bills/electric");
    assert_eq!(
        rules[1].keywords,
        vec!["bill".to_string(), "kwh".to_string()]
    );
}

#[test]
fn grandchild_accumulates_every_ancestor() {
    let tree = vec![node(
        "a",
        Some(&["one"]),
        Some(vec![node(
            "b",
            Some(&["two"]),
            Some(vec![node("c", Some(&["three"]), None)]),
        )]),
    )];
    let rules = compile(&tree).unwrap();
    assert_eq!(rules.len(), 3);
    assert_eq!(rules[2].destination, "a/b/c");
    assert_eq!(
        rules[2].keywords,
        vec!["one".to_string(), "two".to_string(), "three".to_string()]
    );
}

#[test]
fn rules_keep_preorder() {
    let tree = vec![
        node("p", None, Some(vec![node("q", None, None)])),
        node("r", None, None),
    ];
    let rules = compile(&tree).unwrap();
    let destinations: Vec<&str> = rules.iter().map(|r| r.destination.as_str()).collect();
    assert_eq!(destinations, vec!["p", "p/q", "r"]);
}

#[test]
fn missing_dir_key_is_reported() {
    let tree = vec![ConfigValue::Mapping(vec![(
        "keywords".to_string(),
        keyword_list(&["x"]),
    )])];
    let err = compile(&tree).unwrap_err();
    assert_eq!(err, ConfigError::MissingField("dir".to_string()));
}

#[test]
fn non_string_dir_value_is_reported_as_missing() {
    let tree = vec![ConfigValue::Mapping(vec![(
        "dir".to_string(),
        ConfigValue::Other,
    )])];
    let err = compile(&tree).unwrap_err();
    assert_eq!(err, ConfigError::MissingField("dir".to_string()));
}

#[test]
fn keywords_that_are_not_a_list_are_reported_with_the_path() {
    let tree = vec![node(
        "outer",
        None,
        Some(vec![ConfigValue::Mapping(vec![
            ("dir".to_string(), s("inner")),
            ("keywords".to_string(), s("oops")),
        ])]),
    )];
    let err = compile(&tree).unwrap_err();
    assert_eq!(err, ConfigError::InvalidKeywords("outer/inner".to_string()));
}

#[test]
fn keyword_list_with_a_non_string_is_reported() {
    let tree = vec![ConfigValue::Mapping(vec![
        ("dir".to_string(), s("bin")),
        (
            "keywords".to_string(),
            ConfigValue::List(vec![s("ok"), ConfigValue::Other]),
        ),
    ])];
    let err = compile(&tree).unwrap_err();
    assert_eq!(err, ConfigError::InvalidKeywords("bin".to_string()));
}

#[test]
fn sub_that_is_not_a_list_is_reported() {
    let tree = vec![ConfigValue::Mapping(vec![
        ("dir".to_string(), s("top")),
        ("sub".to_string(), s("oops")),
    ])];
    let err = compile(&tree).unwrap_err();
    assert_eq!(err, ConfigError::InvalidChildren("top".to_string()));
}

#[test]
fn non_mapping_node_is_reported_with_parent_path() {
    let tree = vec![node("top", None, Some(vec![s("oops")]))];
    let err = compile(&tree).unwrap_err();
    assert_eq!(err, ConfigError::InvalidNode("top".to_string()));
}

#[test]
fn compilation_fails_fast_on_the_first_malformed_node() {
    let tree = vec![
        node("fine", None, None),
        ConfigValue::Mapping(vec![("sub".to_string(), s("oops"))]),
        ConfigValue::Other,
    ];
    let err = compile(&tree).unwrap_err();
    assert_eq!(err, ConfigError::MissingField("dir".to_string()));
}

#[test]
fn first_entry_wins_for_a_repeated_key() {
    let tree = vec![ConfigValue::Mapping(vec![
        ("dir".to_string(), s("first")),
        ("dir".to_string(), s("second")),
    ])];
    let rules = compile(&tree).unwrap();
    assert_eq!(rules.len(), 1);
    assert_eq!(rules[0].destination, "first");
}

#[test]
fn empty_keyword_list_leaves_only_inherited_keywords() {
    let tree = vec![node(
        "outer",
        Some(&["shared"]),
        Some(vec![node("inner", Some(&[]), None)]),
    )];
    let rules = compile(&tree).unwrap();
    assert_eq!(rules.len(), 2);
    assert_eq!(rules[1].destination, "outer/inner");
    assert_eq!(rules[1].keywords, vec!["shared".to_string()]);
}

#[test]
fn unknown_keys_are_ignored() {
    let tree = vec![ConfigValue::Mapping(vec![
        ("note".to_string(), s("irrelevant")),
        ("dir".to_string(), s("docs")),
        ("count".to_string(), ConfigValue::Other),
    ])];
    let rules = compile(&tree).unwrap();
    assert_eq!(rules.len(), 1);
    assert_eq!(rules[0].destination, "docs");
    assert!(rules[0].keywords.is_empty());
}
