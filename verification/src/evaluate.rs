//! Evaluation of compiled rules on values.

use vstd::prelude::*;
use crate::node::Node;
use crate::node::Reference;
use crate::node::named_view;
use crate::node::nodes_view;
use crate::node::strings_view;
use crate::node::table_view;
use crate::number::Number;
use crate::pattern::find_match;
use crate::pattern::is_hit;
use crate::rule::Bound;
use crate::rule::Kind;
use crate::rule::Rule;
use crate::rule::accepts;
use crate::rule::lemma_accepts_all_of;
use crate::rule::lemma_accepts_any_of;
use crate::rule::lemma_accepts_contains;
use crate::rule::lemma_accepts_enum;
use crate::rule::lemma_accepts_items;
use crate::rule::lemma_accepts_one_of;
use crate::rule::lemma_accepts_properties;
use crate::rule::lemma_accepts_property_names;
use crate::rule::lemma_accepts_required;
use crate::rule::lemma_accepts_requires;
use crate::rule::lemma_accepts_tuple;
use crate::rule::lemma_accepts_type;
use crate::rule::lemma_accepts_unique_items;
use crate::rule::matches_pattern;
use crate::rule::member_passes;
use crate::rule::only_accepts;
use crate::rule::rule_names;
use crate::rule::target_position;
use crate::value::Json;
use crate::value::Value;
use crate::value::entry_names;
use crate::value::find_entry;
use crate::value::items_view;
use crate::value::lemma_tallest;
use crate::value::lemma_tallest_member;
use crate::value::members_view;

verus! {

/// Whether `value` is of the type `kind`.
pub fn kind_holds(kind: Kind, value: &Value) -> (r: bool)
    ensures
        r == kind.holds(value@),
{
    match kind {
        Kind::Null => match value {
            Value::Null => true,
            _ => false,
        },
        Kind::Boolean => match value {
            Value::Bool(_) => true,
            _ => false,
        },
        Kind::Object => match value {
            Value::Object(_) => true,
            _ => false,
        },
        Kind::Array => match value {
            Value::Array(_) => true,
            _ => false,
        },
        Kind::Number => match value {
            Value::Number(_) => true,
            _ => false,
        },
        Kind::String => match value {
            Value::String(_) => true,
            _ => false,
        },
        Kind::Integer => match value {
            Value::Number(x) => x.is_integer(),
            _ => false,
        },
    }
}

/// Whether `value` is of one of the types `kinds`.
fn any_kind(kinds: &Vec<Kind>, value: &Value) -> (r: bool)
    ensures
        r == (exists|i: int| 0 <= i < kinds@.len() && (#[trigger] kinds@[i]).holds(value@)),
{
    let mut i: usize = 0;
    while i < kinds.len()
        invariant
            i <= kinds.len(),
            forall|j: int| 0 <= j < i ==> !(#[trigger] kinds@[j]).holds(value@),
        decreases kinds.len() - i,
    {
        if kind_holds(kinds[i], value) {
            return true;
        }
        i = i + 1;
    }
    false
}

/// Whether `value` equals one of `choices`.
fn any_equal(choices: &Vec<Value>, value: &Value) -> (r: bool)
    ensures
        r == (exists|i: int|
            0 <= i < choices@.len() && (#[trigger] items_view(choices@)[i]).equal(value@)),
{
    let mut i: usize = 0;
    while i < choices.len()
        invariant
            i <= choices.len(),
            forall|j: int| 0 <= j < i ==> !(#[trigger] items_view(choices@)[j]).equal(value@),
        decreases choices.len() - i,
    {
        if choices[i].equals(value) {
            assert(items_view(choices@)[i as int].equal(value@));
            return true;
        }
        i = i + 1;
    }
    false
}

/// Whether the quantity of `value` that `bound` looks at is within `limit`;
/// so for every value to which `bound` does not apply.
pub fn within_limit(bound: Bound, limit: &Number, value: &Value) -> (r: bool)
    ensures
        r == match bound.measure(value@) {
            Some(x) => bound.admits(x, limit@),
            None => true,
        },
{
    let measured: Option<Number> = match bound {
        Bound::Minimum | Bound::Maximum | Bound::ExclusiveMinimum | Bound::ExclusiveMaximum => {
            match value {
                Value::Number(x) => Some(x.clone()),
                _ => None,
            }
        },
        Bound::MinLength | Bound::MaxLength => match value {
            Value::String(s) => {
                let n = Number::from_u64(s.as_str().unicode_len() as u64);
                assert(bound.measure(value@) == Some(n@));
                Some(n)
            },
            _ => None,
        },
        Bound::MinItems | Bound::MaxItems => match value {
            Value::Array(items) => {
                let n = Number::from_u64(items.len() as u64);
                assert(value@ == Json::Array(items_view(items@)));
                assert(bound.measure(value@) == Some(n@));
                Some(n)
            },
            _ => None,
        },
        Bound::MinProperties | Bound::MaxProperties => match value {
            Value::Object(members) => {
                let n = Number::from_u64(members.len() as u64);
                assert(value@ == Json::Object(members_view(members@)));
                assert(bound.measure(value@) == Some(n@));
                Some(n)
            },
            _ => None,
        },
    };
    assert(match measured {
        Some(x) => bound.measure(value@) == Some(x@),
        None => bound.measure(value@) is None,
    });
    match measured {
        None => true,
        Some(x) => match bound {
            Bound::Minimum | Bound::MinLength | Bound::MinItems | Bound::MinProperties => limit.le(
                &x,
            ),
            Bound::Maximum | Bound::MaxLength | Bound::MaxItems | Bound::MaxProperties => x.le(
                limit,
            ),
            Bound::ExclusiveMinimum => limit.lt(&x),
            Bound::ExclusiveMaximum => x.lt(limit),
        },
    }
}

/// Whether no two of `elements` are equal.
#[verifier::loop_isolation(false)]
pub fn all_distinct(elements: &Vec<Value>) -> (r: bool)
    ensures
        r == (forall|i: int, j: int|
            0 <= i < j < elements@.len() ==> !(#[trigger] items_view(elements@)[i]).equal(
                #[trigger] items_view(elements@)[j],
            )),
{
    let ghost items = items_view(elements@);
    let mut i: usize = 0;
    while i < elements.len()
        invariant
            i <= elements.len(),
            forall|a: int, b: int|
                0 <= a < i && a < b < items.len() ==> !(#[trigger] items[a]).equal(
                    #[trigger] items[b],
                ),
        decreases elements.len() - i,
    {
        let mut j: usize = i + 1;
        while j < elements.len()
            invariant
                i < j <= elements.len(),
                forall|b: int| i < b < j ==> !items[i as int].equal(#[trigger] items[b]),
            decreases elements.len() - j,
        {
            if elements[i].equals(&elements[j]) {
                assert(items[i as int].equal(items[j as int]));
                return false;
            }
            j = j + 1;
        }
        i = i + 1;
    }
    true
}

/// Whether the object `value` has a member of each of `names`.
fn has_all(value: &Value, names: &Vec<String>) -> (r: bool)
    ensures
        r == (forall|i: int|
            0 <= i < names@.len() ==> value@.has(#[trigger] strings_view(names@)[i])),
{
    let mut i: usize = 0;
    while i < names.len()
        invariant
            i <= names.len(),
            forall|j: int| 0 <= j < i ==> value@.has(#[trigger] strings_view(names@)[j]),
        decreases names.len() - i,
    {
        if value.find(names[i].as_str()).is_none() {
            assert(!value@.has(strings_view(names@)[i as int]));
            return false;
        }
        i = i + 1;
    }
    true
}

/// The index of the last entry of `table` kept under `target`.
pub fn find_target(table: &Vec<(Reference, Node)>, target: &Reference) -> (r: Option<usize>)
    ensures
        match r {
            Some(k) => k < table.len() && k as int == target_position(table_view(table@), target@),
            None => target_position(table_view(table@), target@) == -1,
        },
{
    let ghost rules = table_view(table@);
    let mut found: Option<usize> = None;
    let mut i: usize = 0;
    while i < table.len()
        invariant
            i <= table.len(),
            rules == table_view(table@),
            match found {
                Some(k) => k < i && k as int == target_position(rules.take(i as int), target@),
                None => target_position(rules.take(i as int), target@) == -1,
            },
        decreases table.len() - i,
    {
        proof {
            assert(rules.take(i + 1).drop_last() =~= rules.take(i as int));
            assert(rules.take(i + 1).last() == rules[i as int]);
        }
        if table[i].0.document == target.document && table[i].0.text == target.text {
            found = Some(i);
        }
        i = i + 1;
    }
    proof {
        assert(rules.take(i as int) =~= rules);
    }
    found
}

/// Whether `node` accepts `value`, with the rules of the references in
/// `table` and `hops` references left to follow on this value.
pub fn check(table: &Vec<(Reference, Node)>, node: &Node, value: &Value, hops: usize) -> (r: bool)
    ensures
        r == accepts(table_view(table@), node@, value@, hops as nat),
    decreases value@.height(), hops, node,
{
    match node {
        Node::AcceptAll => true,
        Node::RejectAll => false,
        Node::Const(expected) => expected.equals(value),
        Node::Enum(choices) => {
            assert(node@ == Rule::Enum(items_view(choices@)));
            proof {
                lemma_accepts_enum(table_view(table@), items_view(choices@), value@, hops as nat);
            }
            any_equal(choices, value)
        },
        Node::Type(kinds) => {
            proof {
                lemma_accepts_type(table_view(table@), kinds@, value@, hops as nat);
            }
            any_kind(kinds, value)
        },
        Node::Limit(bound, limit) => within_limit(*bound, limit, value),
        Node::MultipleOf(divisor) => match value {
            Value::Number(x) => x.is_multiple_of(divisor),
            _ => true,
        },
        Node::Pattern(pattern) => match value {
            Value::String(text) => is_hit(find_match(pattern.as_str(), text.as_str())),
            _ => true,
        },
        Node::UniqueItems => match value {
            Value::Array(elements) => {
                assert(value@ == Json::Array(items_view(elements@)));
                proof {
                    lemma_accepts_unique_items(
                        table_view(table@),
                        items_view(elements@),
                        hops as nat,
                    );
                }
                all_distinct(elements)
            },
            _ => true,
        },
        Node::Required(names) => match value {
            Value::Object(_) => {
                proof {
                    lemma_accepts_required(
                        table_view(table@),
                        strings_view(names@),
                        value@,
                        hops as nat,
                    );
                }
                has_all(value, names)
            },
            _ => true,
        },
        Node::Requires(name, names) => match value {
            Value::Object(_) => {
                proof {
                    lemma_accepts_requires(
                        table_view(table@),
                        name@,
                        strings_view(names@),
                        value@,
                        hops as nat,
                    );
                }
                if value.find(name.as_str()).is_some() {
                    has_all(value, names)
                } else {
                    true
                }
            },
            _ => true,
        },
        Node::Implies(name, inner) => match value {
            Value::Object(_) => if value.find(name.as_str()).is_some() {
                assert(node@ == Rule::Implies(name@, Box::new(inner@)));
                check(table, inner, value, hops)
            } else {
                true
            },
            _ => true,
        },
        Node::AllOf(nodes) => {
            assert(node@ == Rule::AllOf(nodes_view(nodes@)));
            check_all(table, nodes, value, hops)
        },
        Node::AnyOf(nodes) => {
            assert(node@ == Rule::AnyOf(nodes_view(nodes@)));
            check_any(table, nodes, value, hops)
        },
        Node::OneOf(nodes) => {
            assert(node@ == Rule::OneOf(nodes_view(nodes@)));
            check_one(table, nodes, value, hops)
        },
        Node::Not(inner) => {
            assert(node@ == Rule::Not(Box::new(inner@)));
            !check(table, inner, value, hops)
        },
        Node::IfThenElse(condition, consequence, alternative) => {
            assert(node@ == Rule::IfThenElse(
                Box::new(condition@),
                Box::new(consequence@),
                Box::new(alternative@),
            ));
            if check(table, condition, value, hops) {
                check(table, consequence, value, hops)
            } else {
                check(table, alternative, value, hops)
            }
        },
        Node::Properties(named, patterns, additional) => match value {
            Value::Object(members) => {
                assert(value@ == Json::Object(members_view(members@)));
                assert(node@ == Rule::Properties(
                    named_view(named@),
                    named_view(patterns@),
                    Box::new(additional@),
                ));
                check_members(table, named, patterns, additional, members, hops)
            },
            _ => true,
        },
        Node::PropertyNames(inner) => match value {
            Value::Object(members) => {
                assert(value@ == Json::Object(members_view(members@)));
                assert(node@ == Rule::PropertyNames(Box::new(inner@)));
                check_names(table, inner, members, hops)
            },
            _ => true,
        },
        Node::Items(inner) => match value {
            Value::Array(elements) => {
                assert(value@ == Json::Array(items_view(elements@)));
                assert(node@ == Rule::Items(Box::new(inner@)));
                check_items(table, inner, elements, hops)
            },
            _ => true,
        },
        Node::Tuple(nodes, rest) => match value {
            Value::Array(elements) => {
                assert(value@ == Json::Array(items_view(elements@)));
                assert(node@ == Rule::Tuple(nodes_view(nodes@), Box::new(rest@)));
                check_tuple(table, nodes, rest, elements, hops)
            },
            _ => true,
        },
        Node::Contains(inner) => match value {
            Value::Array(elements) => {
                assert(value@ == Json::Array(items_view(elements@)));
                assert(node@ == Rule::Contains(Box::new(inner@)));
                check_contains(table, inner, elements, hops)
            },
            _ => true,
        },
        Node::Ref(target) => match find_target(table, target) {
            Some(k) => hops > 0 && check(table, &table[k].1, value, hops - 1),
            None => false,
        },
    }
}

/// Whether every one of `nodes` accepts `value`.
#[verifier::loop_isolation(false)]
pub fn check_all(table: &Vec<(Reference, Node)>, nodes: &Vec<Node>, value: &Value, hops: usize) -> (r:
    bool)
    ensures
        r == accepts(table_view(table@), Rule::AllOf(nodes_view(nodes@)), value@, hops as nat),
    decreases value@.height(), hops, nodes,
{
    let ghost tv = table_view(table@);
    let ghost rules = nodes_view(nodes@);
    proof {
        lemma_accepts_all_of(tv, rules, value@, hops as nat);
    }
    let mut i: usize = 0;
    while i < nodes.len()
        invariant
            i <= nodes.len(),
            forall|j: int| 0 <= j < i ==> accepts(tv, #[trigger] rules[j], value@, hops as nat),
        decreases nodes.len() - i,
    {
        if !check(table, &nodes[i], value, hops) {
            assert(!accepts(tv, rules[i as int], value@, hops as nat));
            return false;
        }
        i = i + 1;
    }
    true
}

/// Whether at least one of `nodes` accepts `value`.
#[verifier::loop_isolation(false)]
pub fn check_any(table: &Vec<(Reference, Node)>, nodes: &Vec<Node>, value: &Value, hops: usize) -> (r:
    bool)
    ensures
        r == accepts(table_view(table@), Rule::AnyOf(nodes_view(nodes@)), value@, hops as nat),
    decreases value@.height(), hops, nodes,
{
    let ghost tv = table_view(table@);
    let ghost rules = nodes_view(nodes@);
    proof {
        lemma_accepts_any_of(tv, rules, value@, hops as nat);
    }
    let mut i: usize = 0;
    while i < nodes.len()
        invariant
            i <= nodes.len(),
            forall|j: int| 0 <= j < i ==> !accepts(tv, #[trigger] rules[j], value@, hops as nat),
        decreases nodes.len() - i,
    {
        if check(table, &nodes[i], value, hops) {
            assert(accepts(tv, rules[i as int], value@, hops as nat));
            return true;
        }
        i = i + 1;
    }
    false
}

/// Whether exactly one of `nodes` accepts `value`.
pub fn check_one(table: &Vec<(Reference, Node)>, nodes: &Vec<Node>, value: &Value, hops: usize) -> (r:
    bool)
    ensures
        r == accepts(table_view(table@), Rule::OneOf(nodes_view(nodes@)), value@, hops as nat),
    decreases value@.height(), hops, nodes,
{
    let ghost tv = table_view(table@);
    let ghost rules = nodes_view(nodes@);
    proof {
        lemma_accepts_one_of(tv, rules, value@, hops as nat);
    }
    let mut hit: bool = false;
    let ghost mut first: int = 0;
    let mut i: usize = 0;
    while i < nodes.len()
        invariant
            i <= nodes.len(),
            tv == table_view(table@),
            rules == nodes_view(nodes@),
            !hit ==> forall|j: int|
                0 <= j < i ==> !accepts(tv, #[trigger] rules[j], value@, hops as nat),
            hit ==> 0 <= first < i && accepts(tv, rules[first], value@, hops as nat),
            hit ==> forall|j: int|
                0 <= j < i && j != first ==> !accepts(tv, #[trigger] rules[j], value@, hops as nat),
        decreases nodes.len() - i,
    {
        if check(table, &nodes[i], value, hops) {
            assert(accepts(tv, rules[i as int], value@, hops as nat));
            if hit {
                proof {
                    assert forall|c: int| !(#[trigger] only_accepts(
                        tv,
                        rules,
                        value@,
                        hops as nat,
                        c,
                    )) by {
                        if c == first {
                            assert(accepts(tv, rules[i as int], value@, hops as nat));
                        } else {
                            assert(accepts(tv, rules[first], value@, hops as nat));
                        }
                    }
                }
                return false;
            }
            hit = true;
            proof {
                first = i as int;
            }
        }
        i = i + 1;
    }
    proof {
        if hit {
            assert(only_accepts(tv, rules, value@, hops as nat, first));
        } else {
            assert forall|c: int| !(#[trigger] only_accepts(tv, rules, value@, hops as nat, c)) by {
                if 0 <= c < rules.len() {
                    assert(!accepts(tv, rules[c], value@, hops as nat));
                }
            }
        }
    }
    hit
}

/// Whether every one of `members` passes the rules that an object's members
/// are held to.
#[verifier::loop_isolation(false)]
pub fn check_members(
    table: &Vec<(Reference, Node)>,
    named: &Vec<(String, Node)>,
    patterns: &Vec<(String, Node)>,
    additional: &Node,
    members: &Vec<(String, Value)>,
    hops: usize,
) -> (r: bool)
    ensures
        r == accepts(
            table_view(table@),
            Rule::Properties(named_view(named@), named_view(patterns@), Box::new(additional@)),
            Json::Object(members_view(members@)),
            hops as nat,
        ),
    decreases Json::Object(members_view(members@)).height(), hops, additional,
{
    let ghost tv = table_view(table@);
    let ghost ms = members_view(members@);
    proof {
        lemma_accepts_properties(
            tv,
            named_view(named@),
            named_view(patterns@),
            additional@,
            ms,
            hops as nat,
        );
    }
    let mut i: usize = 0;
    while i < members.len()
        invariant
            i <= members.len(),
            forall|j: int|
                0 <= j < i ==> member_passes(
                    tv,
                    named_view(named@),
                    named_view(patterns@),
                    additional@,
                    (#[trigger] ms[j]).0,
                    ms[j].1,
                ),
        decreases members.len() - i,
    {
        proof {
            lemma_tallest_member(ms, i as int);
        }
        if !check_member(table, named, patterns, additional, &members[i].0, &members[i].1) {
            assert(!member_passes(
                tv,
                named_view(named@),
                named_view(patterns@),
                additional@,
                ms[i as int].0,
                ms[i as int].1,
            ));
            return false;
        }
        i = i + 1;
    }
    true
}

/// Whether the name of every one of `members`, taken as a string, passes
/// `inner`.
#[verifier::loop_isolation(false)]
pub fn check_names(
    table: &Vec<(Reference, Node)>,
    inner: &Node,
    members: &Vec<(String, Value)>,
    hops: usize,
) -> (r: bool)
    ensures
        r == accepts(
            table_view(table@),
            Rule::PropertyNames(Box::new(inner@)),
            Json::Object(members_view(members@)),
            hops as nat,
        ),
    decreases Json::Object(members_view(members@)).height(), hops, inner,
{
    let ghost tv = table_view(table@);
    let ghost ms = members_view(members@);
    proof {
        lemma_accepts_property_names(tv, inner@, ms, hops as nat);
    }
    let mut i: usize = 0;
    while i < members.len()
        invariant
            i <= members.len(),
            forall|j: int|
                0 <= j < i ==> accepts(tv, inner@, Json::String((#[trigger] ms[j]).0), tv.len()),
        decreases members.len() - i,
    {
        let name = Value::String(members[i].0.clone());
        if !check(table, inner, &name, table.len()) {
            assert(!accepts(tv, inner@, Json::String(ms[i as int].0), tv.len()));
            return false;
        }
        i = i + 1;
    }
    true
}

/// Whether every one of `elements` passes `inner`.
#[verifier::loop_isolation(false)]
pub fn check_items(
    table: &Vec<(Reference, Node)>,
    inner: &Node,
    elements: &Vec<Value>,
    hops: usize,
) -> (r: bool)
    ensures
        r == accepts(
            table_view(table@),
            Rule::Items(Box::new(inner@)),
            Json::Array(items_view(elements@)),
            hops as nat,
        ),
    decreases Json::Array(items_view(elements@)).height(), hops, inner,
{
    let ghost tv = table_view(table@);
    let ghost items = items_view(elements@);
    proof {
        lemma_accepts_items(tv, inner@, items, hops as nat);
    }
    let mut i: usize = 0;
    while i < elements.len()
        invariant
            i <= elements.len(),
            forall|j: int| 0 <= j < i ==> accepts(tv, inner@, #[trigger] items[j], tv.len()),
        decreases elements.len() - i,
    {
        proof {
            lemma_tallest(items, i as int);
        }
        if !check(table, inner, &elements[i], table.len()) {
            assert(!accepts(tv, inner@, items[i as int], tv.len()));
            return false;
        }
        i = i + 1;
    }
    true
}

/// Whether element `i` of `elements` passes node `i` of `nodes`, and every
/// element beyond them passes `rest`.
#[verifier::loop_isolation(false)]
pub fn check_tuple(
    table: &Vec<(Reference, Node)>,
    nodes: &Vec<Node>,
    rest: &Node,
    elements: &Vec<Value>,
    hops: usize,
) -> (r: bool)
    ensures
        r == accepts(
            table_view(table@),
            Rule::Tuple(nodes_view(nodes@), Box::new(rest@)),
            Json::Array(items_view(elements@)),
            hops as nat,
        ),
    decreases Json::Array(items_view(elements@)).height(), hops, rest,
{
    let ghost tv = table_view(table@);
    let ghost items = items_view(elements@);
    let ghost rules = nodes_view(nodes@);
    proof {
        lemma_accepts_tuple(tv, rules, rest@, items, hops as nat);
    }
    let mut i: usize = 0;
    while i < elements.len()
        invariant
            i <= elements.len(),
            forall|j: int|
                0 <= j < i ==> if j < rules.len() {
                    accepts(tv, rules[j], #[trigger] items[j], tv.len())
                } else {
                    accepts(tv, rest@, items[j], tv.len())
                },
        decreases elements.len() - i,
    {
        proof {
            lemma_tallest(items, i as int);
        }
        let passed: bool = if i < nodes.len() {
            check(table, &nodes[i], &elements[i], table.len())
        } else {
            check(table, rest, &elements[i], table.len())
        };
        if !passed {
            assert(!(if (i as int) < rules.len() {
                accepts(tv, rules[i as int], items[i as int], tv.len())
            } else {
                accepts(tv, rest@, items[i as int], tv.len())
            }));
            return false;
        }
        i = i + 1;
    }
    true
}

/// Whether at least one of `elements` passes `inner`.
#[verifier::loop_isolation(false)]
pub fn check_contains(
    table: &Vec<(Reference, Node)>,
    inner: &Node,
    elements: &Vec<Value>,
    hops: usize,
) -> (r: bool)
    ensures
        r == accepts(
            table_view(table@),
            Rule::Contains(Box::new(inner@)),
            Json::Array(items_view(elements@)),
            hops as nat,
        ),
    decreases Json::Array(items_view(elements@)).height(), hops, inner,
{
    let ghost tv = table_view(table@);
    let ghost items = items_view(elements@);
    proof {
        lemma_accepts_contains(tv, inner@, items, hops as nat);
    }
    let mut i: usize = 0;
    while i < elements.len()
        invariant
            i <= elements.len(),
            forall|j: int| 0 <= j < i ==> !accepts(tv, inner@, #[trigger] items[j], tv.len()),
        decreases elements.len() - i,
    {
        proof {
            lemma_tallest(items, i as int);
        }
        if check(table, inner, &elements[i], table.len()) {
            assert(accepts(tv, inner@, items[i as int], tv.len()));
            return true;
        }
        i = i + 1;
    }
    false
}

/// Whether the member `name` with the value `value` passes the rules that an
/// object's members are held to.
#[verifier::loop_isolation(false)]
pub fn check_member(
    table: &Vec<(Reference, Node)>,
    named: &Vec<(String, Node)>,
    patterns: &Vec<(String, Node)>,
    additional: &Node,
    name: &String,
    value: &Value,
) -> (r: bool)
    ensures
        r == member_passes(
            table_view(table@),
            named_view(named@),
            named_view(patterns@),
            additional@,
            name@,
            value@,
        ),
    decreases value@.height(), table.len() + 1, additional,
{
    let ghost tv = table_view(table@);
    let ghost ps = named_view(patterns@);
    proof {
        assert(entry_names(named@) =~= rule_names(named_view(named@)));
    }
    let by_name = find_entry(named, name);
    match by_name {
        Some(k) => {
            if !check(table, &named[k].1, value, table.len()) {
                return false;
            }
        },
        None => {},
    }
    let mut matched: bool = false;
    let mut p: usize = 0;
    while p < patterns.len()
        invariant
            p <= patterns.len(),
            forall|q: int|
                0 <= q < p && matches_pattern((#[trigger] ps[q]).0, name@) ==> accepts(
                    tv,
                    ps[q].1,
                    value@,
                    tv.len(),
                ),
            matched == (exists|q: int|
                0 <= q < p && matches_pattern((#[trigger] ps[q]).0, name@)),
        decreases patterns.len() - p,
    {
        if is_hit(find_match(patterns[p].0.as_str(), name.as_str())) {
            assert(matches_pattern(ps[p as int].0, name@));
            matched = true;
            if !check(table, &patterns[p].1, value, table.len()) {
                return false;
            }
        }
        p = p + 1;
    }
    if by_name.is_none() && !matched {
        check(table, additional, value, table.len())
    } else {
        true
    }
}

} // verus!
