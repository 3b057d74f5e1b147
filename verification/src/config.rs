//! The generic configuration tree handed in by the caller, and the
//! errors the rule compiler reports for a malformed tree.

use vstd::prelude::*;

verus! {

/// One value of the already-parsed configuration tree: a string, a
/// list of values, an associative mapping from string keys to values,
/// or some other scalar the rule compiler has no use for (a number, a
/// boolean, a null).
#[derive(Debug)]
pub enum ConfigValue {
    Str(String),
    List(Vec<ConfigValue>),
    Mapping(Vec<(String, ConfigValue)>),
    Other,
}

/// Why a configuration tree was rejected. Each variant carries what
/// the compiler knew at the offending node: the required key that was
/// absent, or the destination path built so far.
#[derive(Debug, PartialEq, Eq)]
pub enum ConfigError {
    /// A node lacks its required name key; carries that key.
    MissingField(String),
    /// A node's keyword entry is not a list of strings; carries the
    /// destination path of the node.
    InvalidKeywords(String),
    /// A node's child entry is not a list; carries the destination
    /// path of the node.
    InvalidChildren(String),
    /// A node is not an associative mapping; carries the destination
    /// path accumulated before the node.
    InvalidNode(String),
}

/// The mathematical value of a [`ConfigError`]: the same four cases
/// with the carried string as a character sequence.
pub ghost enum ErrorModel {
    MissingField(Seq<char>),
    InvalidKeywords(Seq<char>),
    InvalidChildren(Seq<char>),
    InvalidNode(Seq<char>),
}

impl View for ConfigError {
    type V = ErrorModel;

    open spec fn view(&self) -> ErrorModel {
        match self {
            ConfigError::MissingField(s) => ErrorModel::MissingField(s@),
            ConfigError::InvalidKeywords(s) => ErrorModel::InvalidKeywords(s@),
            ConfigError::InvalidChildren(s) => ErrorModel::InvalidChildren(s@),
            ConfigError::InvalidNode(s) => ErrorModel::InvalidNode(s@),
        }
    }
}

/// What looking a key up in a mapping yields: the value of the first
/// entry whose key equals `key`, if any. A repeated key keeps its
/// first entry, later ones are shadowed.
pub open spec fn entry_lookup(entries: Seq<(String, ConfigValue)>, key: Seq<char>) -> Option<
    ConfigValue,
>
    decreases entries,
{
    if entries.len() == 0 {
        Option::None
    } else if entries[0].0@ == key {
        Option::Some(entries[0].1)
    } else {
        entry_lookup(entries.drop_first(), key)
    }
}

/// Structural size of a configuration value: one for the value itself
/// plus the sizes of everything nested inside it. Serves as the
/// termination measure for recursion over the tree.
pub open spec fn weight(v: ConfigValue) -> nat
    decreases v,
{
    match v {
        ConfigValue::Str(_) => 1,
        ConfigValue::Other => 1,
        ConfigValue::List(items) => 1 + weight_list(items@),
        ConfigValue::Mapping(entries) => 1 + weight_entries(entries@),
    }
}

/// Sum of the structural sizes of a sequence of values.
pub open spec fn weight_list(s: Seq<ConfigValue>) -> nat
    decreases s,
{
    if s.len() == 0 {
        0
    } else {
        weight(s[0]) + weight_list(s.drop_first())
    }
}

/// Sum of the structural sizes of the values of a sequence of
/// key/value entries.
pub open spec fn weight_entries(s: Seq<(String, ConfigValue)>) -> nat
    decreases s,
{
    if s.len() == 0 {
        0
    } else {
        weight(s[0].1) + weight_entries(s.drop_first())
    }
}

/// Every configuration value has structural size at least one.
pub proof fn lemma_weight_pos(v: ConfigValue)
    ensures
        weight(v) >= 1,
{
    match v {
        ConfigValue::Str(_) => {},
        ConfigValue::Other => {},
        ConfigValue::List(_) => {},
        ConfigValue::Mapping(_) => {},
    }
}

/// Each element of a sequence of values has structural size bounded
/// by the sequence's.
pub proof fn lemma_weight_list_elem(s: Seq<ConfigValue>, i: int)
    requires
        0 <= i < s.len(),
    ensures
        weight(s[i]) <= weight_list(s),
    decreases s,
{
    if i > 0 {
        lemma_weight_list_elem(s.drop_first(), i - 1);
        assert(s.drop_first()[i - 1] == s[i]);
    }
}

/// A value found by key lookup is nested in the entries, so its
/// structural size is bounded by theirs.
pub proof fn lemma_entry_lookup_weight(entries: Seq<(String, ConfigValue)>, key: Seq<char>)
    requires
        entry_lookup(entries, key) is Some,
    ensures
        weight(entry_lookup(entries, key)->Some_0) <= weight_entries(entries),
    decreases entries,
{
    if entries.len() > 0 && entries[0].0@ != key {
        lemma_entry_lookup_weight(entries.drop_first(), key);
    }
}

} // verus!
