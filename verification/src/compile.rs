//! The rule compiler: flattens a nested configuration tree into the
//! ordered list of classification rules, propagating every ancestor's
//! keywords down to each descendant.

use vstd::prelude::*;

use crate::config::ConfigError;
use crate::config::ConfigValue;
use crate::config::ErrorModel;
use crate::config::entry_lookup;
use crate::config::lemma_entry_lookup_weight;
use crate::config::lemma_weight_pos;
use crate::config::weight;
use crate::config::weight_entries;
use crate::config::weight_list;
use crate::rule::Rule;
use crate::rule::RuleModel;
use crate::rule::rule_models;
use crate::rule::string_seqs;
use vstd::string::StringExecFns;

verus! {

/// The destination path of a node named `name` under the accumulated
/// parent path `parent`: the name alone at the top of the tree,
/// otherwise the parent path, a `/`, and the name.
pub open spec fn join_path(parent: Seq<char>, name: Seq<char>) -> Seq<char> {
    if parent.len() == 0 {
        name
    } else {
        parent + seq!['/'] + name
    }
}

/// Whether every value of the sequence is a string.
pub open spec fn all_strings(items: Seq<ConfigValue>) -> bool {
    forall|i: int| 0 <= i < items.len() ==> items[i] is Str
}

/// The character sequence of a string configuration value (and the
/// empty sequence for any other value).
pub open spec fn str_value(v: ConfigValue) -> Seq<char> {
    match v {
        ConfigValue::Str(s) => s@,
        _ => Seq::empty(),
    }
}

/// The character sequences of a sequence of string values.
pub open spec fn str_values(items: Seq<ConfigValue>) -> Seq<Seq<char>> {
    items.map_values(|v: ConfigValue| str_value(v))
}

/// The full keyword set of a node whose mapping is `entries` and
/// whose ancestors contribute `inherited`: the inherited keywords
/// followed by the node's own, or an error naming the node's
/// destination `dest` if the keyword entry is present but is not a
/// list of strings. A node without a keyword entry contributes
/// nothing of its own.
pub open spec fn spec_node_keywords(
    entries: Seq<(String, ConfigValue)>,
    inherited: Seq<Seq<char>>,
    dest: Seq<char>,
) -> Result<Seq<Seq<char>>, ErrorModel> {
    match entry_lookup(entries, "keywords"@) {
        Option::None => Result::Ok(inherited),
        Option::Some(ConfigValue::List(items)) => if all_strings(items@) {
            Result::Ok(inherited + str_values(items@))
        } else {
            Result::Err(ErrorModel::InvalidKeywords(dest))
        },
        Option::Some(_) => Result::Err(ErrorModel::InvalidKeywords(dest)),
    }
}

/// The rules compiled from a sequence of sibling nodes, under the
/// accumulated parent path `dest` and parent keywords `kws`: each
/// node's rules in input order, or the first error met in traversal
/// order.
pub open spec fn spec_compile(
    nodes: Seq<ConfigValue>,
    dest: Seq<char>,
    kws: Seq<Seq<char>>,
) -> Result<Seq<RuleModel>, ErrorModel>
    decreases weight_list(nodes), 1int,
{
    if nodes.len() == 0 {
        Result::Ok(Seq::empty())
    } else {
        proof {
            lemma_weight_pos(nodes[0]);
        }
        match spec_compile_node(nodes[0], dest, kws) {
            Result::Err(e) => Result::Err(e),
            Result::Ok(first) => match spec_compile(nodes.drop_first(), dest, kws) {
                Result::Err(e) => Result::Err(e),
                Result::Ok(rest) => Result::Ok(first + rest),
            },
        }
    }
}

/// The rules compiled from one node: the node's own rule, followed in
/// pre-order by the rules of its children, which inherit the node's
/// destination and full keyword set. A node that is not a mapping, or
/// lacks a string under its name key `dir`, or carries a malformed
/// keyword or child entry, is the first error.
pub open spec fn spec_compile_node(
    node: ConfigValue,
    dest: Seq<char>,
    kws: Seq<Seq<char>>,
) -> Result<Seq<RuleModel>, ErrorModel>
    decreases weight(node), 0int,
{
    match node {
        ConfigValue::Mapping(entries) => match entry_lookup(entries@, "dir"@) {
            Option::Some(ConfigValue::Str(name)) => {
                let own_dest = join_path(dest, name@);
                match spec_node_keywords(entries@, kws, own_dest) {
                    Result::Err(e) => Result::Err(e),
                    Result::Ok(own_kws) => {
                        let own_rule = RuleModel { destination: own_dest, keywords: own_kws };
                        match entry_lookup(entries@, "sub"@) {
                            Option::None => Result::Ok(seq![own_rule]),
                            Option::Some(ConfigValue::List(subs)) => {
                                proof {
                                    lemma_entry_lookup_weight(entries@, "sub"@);
                                }
                                match spec_compile(subs@, own_dest, own_kws) {
                                    Result::Err(e) => Result::Err(e),
                                    Result::Ok(rest) => Result::Ok(seq![own_rule] + rest),
                                }
                            },
                            Option::Some(_) => Result::Err(ErrorModel::InvalidChildren(own_dest)),
                        }
                    },
                }
            },
            _ => Result::Err(ErrorModel::MissingField("dir"@)),
        },
        _ => Result::Err(ErrorModel::InvalidNode(dest)),
    }
}

/// The number of nodes of the subtree rooted at one configuration
/// node: the node itself plus every node beneath its child entry.
pub open spec fn tree_count(node: ConfigValue) -> nat
    decreases weight(node), 0int,
{
    match node {
        ConfigValue::Mapping(entries) => match entry_lookup(entries@, "sub"@) {
            Option::Some(ConfigValue::List(subs)) => {
                proof {
                    lemma_entry_lookup_weight(entries@, "sub"@);
                }
                1 + tree_count_list(subs@)
            },
            _ => 1,
        },
        _ => 1,
    }
}

/// The total number of nodes of a sequence of configuration subtrees.
pub open spec fn tree_count_list(nodes: Seq<ConfigValue>) -> nat
    decreases weight_list(nodes), 1int,
{
    if nodes.len() == 0 {
        0
    } else {
        proof {
            lemma_weight_pos(nodes[0]);
        }
        tree_count(nodes[0]) + tree_count_list(nodes.drop_first())
    }
}

/// Law: compiling a well-formed tree yields exactly one rule per
/// configuration node, so the number of rules equals the node count.
pub proof fn lemma_one_rule_per_node(nodes: Seq<ConfigValue>, dest: Seq<char>, kws: Seq<Seq<char>>)
    requires
        spec_compile(nodes, dest, kws) is Ok,
    ensures
        spec_compile(nodes, dest, kws)->Ok_0.len() == tree_count_list(nodes),
    decreases weight_list(nodes), 1int,
{
    if nodes.len() > 0 {
        lemma_weight_pos(nodes[0]);
        lemma_one_rule_per_node_at(nodes[0], dest, kws);
        lemma_one_rule_per_node(nodes.drop_first(), dest, kws);
    }
}

/// Law: compiling one well-formed node yields one rule for the node
/// itself and one for every node beneath it.
pub proof fn lemma_one_rule_per_node_at(node: ConfigValue, dest: Seq<char>, kws: Seq<Seq<char>>)
    requires
        spec_compile_node(node, dest, kws) is Ok,
    ensures
        spec_compile_node(node, dest, kws)->Ok_0.len() == tree_count(node),
    decreases weight(node), 0int,
{
    match node {
        ConfigValue::Mapping(entries) => match entry_lookup(entries@, "dir"@) {
            Option::Some(ConfigValue::Str(name)) => {
                let own_dest = join_path(dest, name@);
                match spec_node_keywords(entries@, kws, own_dest) {
                    Result::Ok(own_kws) => match entry_lookup(entries@, "sub"@) {
                        Option::Some(ConfigValue::List(subs)) => {
                            lemma_entry_lookup_weight(entries@, "sub"@);
                            lemma_one_rule_per_node(subs@, own_dest, own_kws);
                        },
                        _ => {},
                    },
                    _ => {},
                }
            },
            _ => {},
        },
        _ => {},
    }
}

/// Whether the path `d` lies at or below the accumulated parent path
/// `p`: either `p` is the empty path at the top of the tree, or `d`
/// begins with `p` followed by a `/`.
pub open spec fn path_extends(d: Seq<char>, p: Seq<char>) -> bool {
    p.len() == 0 || (p.is_prefix_of(d) && d.len() > p.len() && d[p.len() as int] == '/')
}

/// Lying at or below a path is transitive through an intermediate
/// path.
proof fn lemma_path_extends_trans(d2: Seq<char>, d1: Seq<char>, p: Seq<char>)
    requires
        path_extends(d2, d1),
        path_extends(d1, p),
    ensures
        path_extends(d2, p),
{
    if p.len() > 0 {
        assert(d1.len() > p.len());
        assert(d1.is_prefix_of(d2));
        assert forall|k: int| 0 <= k < p.len() implies p[k] == d2[k] by {
            assert(p[k] == d1[k]);
            assert(d1[k] == d2[k]);
        }
        assert(p =~= d2.subrange(0, p.len() as int));
        assert(d2[p.len() as int] == d1[p.len() as int]);
    }
}

/// Law: every rule compiled under an accumulated parent path and
/// parent keyword set inherits both. In particular, taking the parent
/// context to be a parent rule's destination and keywords: each rule
/// produced from a child node keeps every keyword of the parent rule
/// (the parent's keywords are a prefix, hence a subset, of the
/// child's) and its destination extends the parent's destination by
/// at least one `/`-separated segment.
pub proof fn lemma_rules_inherit(nodes: Seq<ConfigValue>, dest: Seq<char>, kws: Seq<Seq<char>>)
    requires
        spec_compile(nodes, dest, kws) is Ok,
    ensures
        forall|i: int|
            0 <= i < spec_compile(nodes, dest, kws)->Ok_0.len() ==> {
                let r = #[trigger] spec_compile(nodes, dest, kws)->Ok_0[i];
                &&& kws.is_prefix_of(r.keywords)
                &&& forall|x: Seq<char>| kws.contains(x) ==> r.keywords.contains(x)
                &&& path_extends(r.destination, dest)
            },
    decreases weight_list(nodes), 1int,
{
    if nodes.len() > 0 {
        lemma_weight_pos(nodes[0]);
        lemma_rules_inherit_at(nodes[0], dest, kws);
        lemma_rules_inherit(nodes.drop_first(), dest, kws);
        let first = spec_compile_node(nodes[0], dest, kws)->Ok_0;
        let rest = spec_compile(nodes.drop_first(), dest, kws)->Ok_0;
        assert forall|i: int| 0 <= i < (first + rest).len() implies {
            let r = #[trigger] (first + rest)[i];
            &&& kws.is_prefix_of(r.keywords)
            &&& forall|x: Seq<char>| kws.contains(x) ==> r.keywords.contains(x)
            &&& path_extends(r.destination, dest)
        } by {
            if i < first.len() {
                assert((first + rest)[i] == first[i]);
            } else {
                assert((first + rest)[i] == rest[i - first.len()]);
            }
        }
    }
}

/// Law: every rule compiled from one node inherits the accumulated
/// parent path and parent keyword set, as [`lemma_rules_inherit`]
/// states for a sequence of nodes.
pub proof fn lemma_rules_inherit_at(node: ConfigValue, dest: Seq<char>, kws: Seq<Seq<char>>)
    requires
        spec_compile_node(node, dest, kws) is Ok,
    ensures
        forall|i: int|
            0 <= i < spec_compile_node(node, dest, kws)->Ok_0.len() ==> {
                let r = #[trigger] spec_compile_node(node, dest, kws)->Ok_0[i];
                &&& kws.is_prefix_of(r.keywords)
                &&& forall|x: Seq<char>| kws.contains(x) ==> r.keywords.contains(x)
                &&& path_extends(r.destination, dest)
            },
    decreases weight(node), 0int,
{
    match node {
        ConfigValue::Mapping(entries) => match entry_lookup(entries@, "dir"@) {
            Option::Some(ConfigValue::Str(name)) => {
                let own_dest = join_path(dest, name@);
                match spec_node_keywords(entries@, kws, own_dest) {
                    Result::Ok(own_kws) => {
                        assert(kws.is_prefix_of(own_kws)) by {
                            match entry_lookup(entries@, "keywords"@) {
                                Option::Some(ConfigValue::List(items)) => {
                                    assert(kws =~= (kws + str_values(items@)).subrange(
                                        0,
                                        kws.len() as int,
                                    ));
                                },
                                _ => {
                                    assert(kws =~= kws.subrange(0, kws.len() as int));
                                },
                            }
                        }
                        assert forall|x: Seq<char>| kws.contains(x) implies own_kws.contains(
                            x,
                        ) by {
                            let w = choose|w: int| 0 <= w < kws.len() && kws[w] == x;
                            assert(own_kws[w] == x);
                        }
                        assert(path_extends(own_dest, dest)) by {
                            if dest.len() > 0 {
                                assert(dest =~= own_dest.subrange(0, dest.len() as int));
                                assert(own_dest[dest.len() as int] == '/');
                            }
                        }
                        match entry_lookup(entries@, "sub"@) {
                            Option::Some(ConfigValue::List(subs)) => {
                                lemma_entry_lookup_weight(entries@, "sub"@);
                                lemma_rules_inherit(subs@, own_dest, own_kws);
                                let rest = spec_compile(subs@, own_dest, own_kws)->Ok_0;
                                let own_rule = RuleModel {
                                    destination: own_dest,
                                    keywords: own_kws,
                                };
                                let all = seq![own_rule] + rest;
                                assert forall|i: int| 0 <= i < all.len() implies {
                                    let r = #[trigger] all[i];
                                    &&& kws.is_prefix_of(r.keywords)
                                    &&& forall|x: Seq<char>| kws.contains(x) ==> r.keywords.contains(
                                        x,
                                    )
                                    &&& path_extends(r.destination, dest)
                                } by {
                                    if i == 0 {
                                        assert(all[0] == own_rule);
                                    } else {
                                        assert(all[i] == rest[i - 1]);
                                        let r = rest[i - 1];
                                        assert(own_kws.is_prefix_of(r.keywords));
                                        assert(kws.is_prefix_of(r.keywords)) by {
                                            assert(kws =~= r.keywords.subrange(
                                                0,
                                                kws.len() as int,
                                            )) by {
                                                assert forall|k: int|
                                                    0 <= k < kws.len() implies kws[k]
                                                    == r.keywords[k] by {
                                                    assert(kws[k] == own_kws[k]);
                                                    assert(own_kws[k] == r.keywords[k]);
                                                }
                                            }
                                        }
                                        assert forall|x: Seq<char>| kws.contains(x) implies r
                                            .keywords.contains(x) by {
                                            assert(own_kws.contains(x));
                                        }
                                        lemma_path_extends_trans(r.destination, own_dest, dest);
                                    }
                                }
                            },
                            _ => {},
                        }
                    },
                    _ => {},
                }
            },
            _ => {},
        },
        _ => {},
    }
}

/// Finds the value of the first entry of the mapping whose key is
/// `key`, as [`entry_lookup`] describes.
fn lookup<'a>(entries: &'a Vec<(String, ConfigValue)>, key: &str) -> (r: Option<&'a ConfigValue>)
    ensures
        match r {
            Option::Some(v) => entry_lookup(entries@, key@) == Option::Some(*v),
            Option::None => entry_lookup(entries@, key@) is None,
        },
{
    proof {
        assert(entries@.skip(0) =~= entries@);
    }
    let mut i: usize = 0;
    while i < entries.len()
        invariant
            i <= entries@.len(),
            entry_lookup(entries@, key@) == entry_lookup(entries@.skip(i as int), key@),
        decreases entries@.len() - i,
    {
        proof {
            assert(entries@.skip(i as int)[0] == entries@[i as int]);
            assert(entries@.skip(i as int).drop_first() =~= entries@.skip(i as int + 1));
        }
        if crate::text::str_eq(entries[i].0.as_str(), key) {
            return Option::Some(&entries[i].1);
        }
        i = i + 1;
    }
    proof {
        assert(entries@.skip(entries@.len() as int) =~= Seq::<(String, ConfigValue)>::empty());
    }
    Option::None
}

/// Composes the destination path of a node named `name` under the
/// accumulated parent path `parent`, as [`join_path`] describes.
pub fn join(parent: &String, name: &String) -> (r: String)
    ensures
        r@ == join_path(parent@, name@),
{
    if parent.as_str().is_empty() {
        name.clone()
    } else {
        let mut r = parent.clone();
        r.append("/");
        r.append(name.as_str());
        proof {
            reveal_strlit("/");
            assert(r@ =~= join_path(parent@, name@));
        }
        r
    }
}

/// Resolves the full keyword set of a node from its mapping entries
/// and the keywords inherited from its ancestors, as
/// [`spec_node_keywords`] describes.
#[verifier::loop_isolation(false)]
fn node_keywords(entries: &Vec<(String, ConfigValue)>, inherited: &Vec<String>, dest: &String) -> (r:
    Result<Vec<String>, ConfigError>)
    ensures
        match r {
            Result::Ok(ks) => spec_node_keywords(entries@, string_seqs(inherited@), dest@)
                == Result::<_, ErrorModel>::Ok(string_seqs(ks@)),
            Result::Err(e) => spec_node_keywords(entries@, string_seqs(inherited@), dest@)
                == Result::<Seq<Seq<char>>, ErrorModel>::Err(e@),
        },
{
    match lookup(entries, "keywords") {
        Option::None => Result::Ok(crate::text::clone_strings(inherited)),
        Option::Some(ConfigValue::List(items)) => {
            let mut out = crate::text::clone_strings(inherited);
            let mut i: usize = 0;
            while i < items.len()
                invariant
                    i <= items@.len(),
                    out@.len() == inherited@.len() + i,
                    forall|j: int| 0 <= j < inherited@.len() ==> out@[j] == inherited@[j],
                    forall|j: int|
                        0 <= j < i ==> items@[j] is Str && out@[inherited@.len() + j]@
                            == str_value(items@[j]),
                decreases items@.len() - i,
            {
                match &items[i] {
                    ConfigValue::Str(s) => {
                        out.push(s.clone());
                    },
                    _ => {
                        proof {
                            assert(items@[i as int] !is Str);
                            assert(!all_strings(items@));
                        }
                        return Result::Err(ConfigError::InvalidKeywords(dest.clone()));
                    },
                }
                i = i + 1;
            }
            proof {
                assert(all_strings(items@));
                assert forall|k: int| 0 <= k < string_seqs(out@).len() implies string_seqs(out@)[k]
                    == (string_seqs(inherited@) + str_values(items@))[k] by {
                    if k >= inherited@.len() {
                        assert(out@[k]@ == str_value(items@[k - inherited@.len()]));
                    }
                }
                assert(string_seqs(out@) =~= string_seqs(inherited@) + str_values(items@));
            }
            Result::Ok(out)
        },
        Option::Some(_) => Result::Err(ConfigError::InvalidKeywords(dest.clone())),
    }
}

/// Compiles one configuration node under the accumulated parent path
/// and keywords, as [`spec_compile_node`] describes: the node's own
/// rule followed by its children's rules, or the first error.
#[verifier::loop_isolation(false)]
fn compile_node(node: &ConfigValue, dest: &String, kws: &Vec<String>) -> (r: Result<
    Vec<Rule>,
    ConfigError,
>)
    ensures
        match r {
            Result::Ok(rules) => spec_compile_node(*node, dest@, string_seqs(kws@))
                == Result::<_, ErrorModel>::Ok(rule_models(rules@)),
            Result::Err(e) => spec_compile_node(*node, dest@, string_seqs(kws@))
                == Result::<Seq<RuleModel>, ErrorModel>::Err(e@),
        },
    decreases weight(*node), 0int,
{
    match node {
        ConfigValue::Mapping(entries) => match lookup(entries, "dir") {
            Option::Some(ConfigValue::Str(name)) => {
                let own_dest = join(dest, name);
                match node_keywords(entries, kws, &own_dest) {
                    Result::Err(e) => Result::Err(e),
                    Result::Ok(own_kws) => match lookup(entries, "sub") {
                        Option::None => {
                            let mut rules: Vec<Rule> = Vec::new();
                            rules.push(Rule { destination: own_dest, keywords: own_kws });
                            proof {
                                assert(rule_models(rules@) =~= seq![rules@[0]@]);
                            }
                            Result::Ok(rules)
                        },
                        Option::Some(ConfigValue::List(subs)) => {
                            proof {
                                lemma_entry_lookup_weight(entries@, "sub"@);
                            }
                            match compile_nodes(subs, &own_dest, &own_kws) {
                                Result::Err(e) => Result::Err(e),
                                Result::Ok(mut rest) => {
                                    let ghost rest_view = rest@;
                                    let mut rules: Vec<Rule> = Vec::new();
                                    rules.push(Rule { destination: own_dest, keywords: own_kws });
                                    rules.append(&mut rest);
                                    proof {
                                        assert(rule_models(rules@) =~= seq![rules@[0]@]
                                            + rule_models(rest_view));
                                    }
                                    Result::Ok(rules)
                                },
                            }
                        },
                        Option::Some(_) => Result::Err(ConfigError::InvalidChildren(own_dest)),
                    },
                }
            },
            _ => Result::Err(ConfigError::MissingField("dir".to_owned())),
        },
        _ => Result::Err(ConfigError::InvalidNode(dest.clone())),
    }
}

/// Compiles a sequence of sibling configuration nodes under the
/// accumulated parent path and keywords, as [`spec_compile`]
/// describes: each node's rules in input order, or the first error
/// met in traversal order.
#[verifier::loop_isolation(false)]
fn compile_nodes(nodes: &Vec<ConfigValue>, dest: &String, kws: &Vec<String>) -> (r: Result<
    Vec<Rule>,
    ConfigError,
>)
    ensures
        match r {
            Result::Ok(rules) => spec_compile(nodes@, dest@, string_seqs(kws@))
                == Result::<_, ErrorModel>::Ok(rule_models(rules@)),
            Result::Err(e) => spec_compile(nodes@, dest@, string_seqs(kws@))
                == Result::<Seq<RuleModel>, ErrorModel>::Err(e@),
        },
    decreases weight_list(nodes@), 1int,
{
    proof {
        assert(nodes@.skip(0) =~= nodes@);
    }
    let mut acc: Vec<Rule> = Vec::new();
    let mut i: usize = 0;
    while i < nodes.len()
        invariant
            i <= nodes@.len(),
            spec_compile(nodes@, dest@, string_seqs(kws@)) == (match spec_compile(
                nodes@.skip(i as int),
                dest@,
                string_seqs(kws@),
            ) {
                Result::Ok(rest) => Result::<_, ErrorModel>::Ok(rule_models(acc@) + rest),
                Result::Err(e) => Result::<Seq<RuleModel>, ErrorModel>::Err(e),
            }),
        decreases nodes@.len() - i,
    {
        proof {
            assert(nodes@.skip(i as int)[0] == nodes@[i as int]);
            assert(nodes@.skip(i as int).drop_first() =~= nodes@.skip(i as int + 1));
            crate::config::lemma_weight_list_elem(nodes@, i as int);
            lemma_weight_pos(nodes@[i as int]);
        }
        match compile_node(&nodes[i], dest, kws) {
            Result::Err(e) => {
                return Result::Err(e);
            },
            Result::Ok(mut rules) => {
                let ghost prev = acc@;
                let ghost step = rules@;
                acc.append(&mut rules);
                proof {
                    assert(rule_models(acc@) =~= rule_models(prev) + rule_models(step));
                    assert forall|rest: Seq<RuleModel>|
                        true implies rule_models(prev) + (rule_models(step) + rest) =~= rule_models(
                        acc@,
                    ) + rest by {}
                }
            },
        }
        i = i + 1;
    }
    proof {
        assert(nodes@.skip(nodes@.len() as int) =~= Seq::<ConfigValue>::empty());
        assert(rule_models(acc@) + Seq::<RuleModel>::empty() =~= rule_models(acc@));
    }
    Result::Ok(acc)
}

/// Compiles a configuration tree, given as the ordered sequence of
/// its top-level nodes, into the flat, ordered list of classification
/// rules: one rule per node, in pre-order, each holding its composed
/// destination path and the union of its own and all its ancestors'
/// keywords. Fails with the first error met in traversal order if a
/// node is malformed, exactly when [`spec_compile`] does.
pub fn compile(nodes: &Vec<ConfigValue>) -> (r: Result<Vec<Rule>, ConfigError>)
    ensures
        match r {
            Result::Ok(rules) => spec_compile(nodes@, Seq::empty(), Seq::empty())
                == Result::<_, ErrorModel>::Ok(rule_models(rules@)),
            Result::Err(e) => spec_compile(nodes@, Seq::empty(), Seq::empty())
                == Result::<Seq<RuleModel>, ErrorModel>::Err(e@),
        },
{
    let dest = String::new();
    let kws: Vec<String> = Vec::new();
    let r = compile_nodes(nodes, &dest, &kws);
    proof {
        assert(dest@ =~= Seq::<char>::empty());
        assert(string_seqs(kws@) =~= Seq::<Seq<char>>::empty());
    }
    r
}

} // verus!
