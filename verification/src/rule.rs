//! Validation rules as mathematical objects, and what it means for a rule to
//! accept a value.

use vstd::prelude::*;
use crate::number::Decimal;
use crate::pattern::search;
use crate::value::Json;
use crate::value::lemma_tallest;
use crate::value::lemma_tallest_member;
use crate::value::position;
use crate::value::tallest;
use crate::value::tallest_member;

verus! {

/// The JSON types that the `type` keyword can name.
#[derive(Clone, Copy, Debug, PartialEq, Eq, Structural)]
pub enum Kind {
    Null,
    Boolean,
    Object,
    Array,
    Number,
    String,
    Integer,
}

impl Kind {
    /// Whether `instance` is of this type. A number without a fractional part
    /// is an integer, however it is written.
    pub open spec fn holds(self, instance: Json) -> bool {
        match self {
            Kind::Null => instance is Null,
            Kind::Boolean => instance is Bool,
            Kind::Object => instance is Object,
            Kind::Array => instance is Array,
            Kind::Number => instance is Number,
            Kind::String => instance is String,
            Kind::Integer => match instance {
                Json::Number(x) => x.is_integer(),
                _ => false,
            },
        }
    }
}

/// The keywords that compare a quantity of the instance with a number.
#[derive(Clone, Copy, Debug, PartialEq, Eq, Structural)]
pub enum Bound {
    Minimum,
    Maximum,
    ExclusiveMinimum,
    ExclusiveMaximum,
    MinLength,
    MaxLength,
    MinItems,
    MaxItems,
    MinProperties,
    MaxProperties,
}

/// A whole number as a decimal.
pub open spec fn count(n: nat) -> Decimal {
    Decimal { coefficient: n as int, exponent: 0 }
}

impl Bound {
    /// The quantity that the keyword looks at: the number itself, the number
    /// of characters of a string, of elements of an array, of members of an
    /// object. `None` where the keyword does not apply to `instance`.
    pub open spec fn measure(self, instance: Json) -> Option<Decimal> {
        match self {
            Bound::Minimum | Bound::Maximum | Bound::ExclusiveMinimum | Bound::ExclusiveMaximum => {
                match instance {
                    Json::Number(x) => Some(x),
                    _ => None,
                }
            },
            Bound::MinLength | Bound::MaxLength => match instance {
                Json::String(s) => Some(count(s.len())),
                _ => None,
            },
            Bound::MinItems | Bound::MaxItems => match instance {
                Json::Array(items) => Some(count(items.len())),
                _ => None,
            },
            Bound::MinProperties | Bound::MaxProperties => match instance {
                Json::Object(members) => Some(count(members.len())),
                _ => None,
            },
        }
    }

    /// Whether the quantity `x` is within `limit`.
    pub open spec fn admits(self, x: Decimal, limit: Decimal) -> bool {
        match self {
            Bound::Minimum | Bound::MinLength | Bound::MinItems | Bound::MinProperties => limit.le(
                x,
            ),
            Bound::Maximum | Bound::MaxLength | Bound::MaxItems | Bound::MaxProperties => x.le(
                limit,
            ),
            Bound::ExclusiveMinimum => limit.lt(x),
            Bound::ExclusiveMaximum => x.lt(limit),
        }
    }
}

/// What a reference points to: the text of the reference and the document in
/// which it was written (`0` for the root document, `k + 1` for entry `k` of
/// the document table).
pub struct Target {
    pub document: nat,
    pub text: Seq<char>,
}

/// A validation rule.
pub enum Rule {
    /// Accepts every value.
    AcceptAll,
    /// Accepts no value.
    RejectAll,
    /// Accepts the values equal to the one given.
    Const(Json),
    /// Accepts the values equal to one of those given.
    Enum(Seq<Json>),
    /// Accepts the values of one of the types given.
    Type(Seq<Kind>),
    /// Compares a quantity of the value with a number.
    Limit(Bound, Decimal),
    /// Accepts the numbers that are a multiple of the divisor.
    MultipleOf(Decimal),
    /// Accepts the strings in which the expression matches somewhere.
    Pattern(Seq<char>),
    /// Accepts the arrays without two equal elements.
    UniqueItems,
    /// Accepts the objects that have a member of each name given.
    Required(Seq<Seq<char>>),
    /// An object that has the member named first must have all the others.
    Requires(Seq<char>, Seq<Seq<char>>),
    /// An object that has the member named must itself pass the rule.
    Implies(Seq<char>, Box<Rule>),
    /// Every rule must accept.
    AllOf(Seq<Rule>),
    /// At least one rule must accept.
    AnyOf(Seq<Rule>),
    /// Exactly one rule must accept.
    OneOf(Seq<Rule>),
    /// The rule must not accept.
    Not(Box<Rule>),
    /// Where the first rule accepts the second must, else the third.
    IfThenElse(Box<Rule>, Box<Rule>, Box<Rule>),
    /// Rules by member name, rules by expression on the member name, and the
    /// rule for the members that neither covers.
    Properties(Seq<(Seq<char>, Rule)>, Seq<(Seq<char>, Rule)>, Box<Rule>),
    /// Every member name, taken as a string, must pass the rule.
    PropertyNames(Box<Rule>),
    /// Every element must pass the rule.
    Items(Box<Rule>),
    /// Element `i` must pass rule `i`; the elements beyond the list must pass
    /// the last rule.
    Tuple(Seq<Rule>, Box<Rule>),
    /// At least one element must pass the rule.
    Contains(Box<Rule>),
    /// The rule kept under the target in the table of resolved references.
    Ref(Target),
}

/// The names under which a list of rules is kept.
pub open spec fn rule_names(named: Seq<(Seq<char>, Rule)>) -> Seq<Seq<char>> {
    Seq::new(named.len(), |i: int| named[i].0)
}

/// The index of the last entry of `table` kept under `target`, or `-1`.
pub open spec fn target_position(table: Seq<(Target, Rule)>, target: Target) -> int
    decreases table.len(),
{
    if table.len() == 0 {
        -1
    } else if table.last().0 == target {
        table.len() - 1
    } else {
        target_position(table.drop_last(), target)
    }
}

/// Whether the expression `pattern` matches somewhere in `text`; never so
/// where the engine rejects the expression.
pub open spec fn matches_pattern(pattern: Seq<char>, text: Seq<char>) -> bool {
    search(pattern, text) == Some(true)
}

/// Whether `rule` accepts `instance`.
///
/// `table` holds the rules of the resolved references. `hops` bounds how many
/// references may be followed in a row without going into an element or a
/// member of the instance; each step into the instance starts again from
/// `table.len()`. A chain of references that needs more than that has come
/// back to a reference it started from on the same value, and is not accepted.
pub open spec fn accepts(table: Seq<(Target, Rule)>, rule: Rule, instance: Json, hops: nat) -> bool
    decreases instance.height(), hops, rule,
    via accepts_decreases
{
    match rule {
        Rule::AcceptAll => true,
        Rule::RejectAll => false,
        Rule::Const(expected) => expected.equal(instance),
        Rule::Enum(choices) => exists|i: int|
            0 <= i < choices.len() && (#[trigger] choices[i]).equal(instance),
        Rule::Type(kinds) => exists|i: int|
            0 <= i < kinds.len() && (#[trigger] kinds[i]).holds(instance),
        Rule::Limit(bound, limit) => match bound.measure(instance) {
            Some(x) => bound.admits(x, limit),
            None => true,
        },
        Rule::MultipleOf(divisor) => match instance {
            Json::Number(x) => x.is_multiple_of(divisor),
            _ => true,
        },
        Rule::Pattern(pattern) => match instance {
            Json::String(text) => matches_pattern(pattern, text),
            _ => true,
        },
        Rule::UniqueItems => match instance {
            Json::Array(items) => forall|i: int, j: int|
                0 <= i < j < items.len() ==> !(#[trigger] items[i]).equal(#[trigger] items[j]),
            _ => true,
        },
        Rule::Required(names) => match instance {
            Json::Object(_) => forall|i: int|
                0 <= i < names.len() ==> instance.has(#[trigger] names[i]),
            _ => true,
        },
        Rule::Requires(name, names) => match instance {
            Json::Object(_) => instance.has(name) ==> forall|i: int|
                0 <= i < names.len() ==> instance.has(#[trigger] names[i]),
            _ => true,
        },
        Rule::Implies(name, inner) => match instance {
            Json::Object(_) => instance.has(name) ==> accepts(table, *inner, instance, hops),
            _ => true,
        },
        Rule::AllOf(rules) => forall|i: int|
            0 <= i < rules.len() ==> accepts(table, #[trigger] rules[i], instance, hops),
        Rule::AnyOf(rules) => exists|i: int|
            0 <= i < rules.len() && accepts(table, #[trigger] rules[i], instance, hops),
        Rule::OneOf(rules) => exists|i: int|
            {
                &&& 0 <= i < rules.len()
                &&& accepts(table, #[trigger] rules[i], instance, hops)
                &&& forall|j: int|
                    0 <= j < rules.len() && j != i ==> !accepts(
                        table,
                        #[trigger] rules[j],
                        instance,
                        hops,
                    )
            },
        Rule::Not(inner) => !accepts(table, *inner, instance, hops),
        Rule::IfThenElse(condition, consequence, alternative) => if accepts(
            table,
            *condition,
            instance,
            hops,
        ) {
            accepts(table, *consequence, instance, hops)
        } else {
            accepts(table, *alternative, instance, hops)
        },
        Rule::Properties(named, patterns, additional) => match instance {
            Json::Object(members) => forall|i: int|
                0 <= i < members.len() ==> member_passes(
                    table,
                    named,
                    patterns,
                    *additional,
                    (#[trigger] members[i]).0,
                    members[i].1,
                ),
            _ => true,
        },
        Rule::PropertyNames(inner) => match instance {
            Json::Object(members) => forall|i: int|
                0 <= i < members.len() ==> accepts(
                    table,
                    *inner,
                    Json::String((#[trigger] members[i]).0),
                    table.len(),
                ),
            _ => true,
        },
        Rule::Items(inner) => match instance {
            Json::Array(items) => forall|i: int|
                0 <= i < items.len() ==> accepts(table, *inner, #[trigger] items[i], table.len()),
            _ => true,
        },
        Rule::Tuple(rules, rest) => match instance {
            Json::Array(items) => forall|i: int|
                0 <= i < items.len() ==> if i < rules.len() {
                    accepts(table, rules[i], #[trigger] items[i], table.len())
                } else {
                    accepts(table, *rest, items[i], table.len())
                },
            _ => true,
        },
        Rule::Contains(inner) => match instance {
            Json::Array(items) => exists|i: int|
                0 <= i < items.len() && accepts(table, *inner, #[trigger] items[i], table.len()),
            _ => true,
        },
        Rule::Ref(target) => {
            let k = target_position(table, target);
            0 <= k < table.len() && hops > 0 && accepts(
                table,
                table[k].1,
                instance,
                (hops - 1) as nat,
            )
        },
    }
}

/// Whether the member `name` with the value `value` passes the rules that an
/// object's members are held to: the rule kept under its name, if there is
/// one; the rule of every expression that matches its name; and, where neither
/// a name nor an expression covers it, the rule `additional`.
pub open spec fn member_passes(
    table: Seq<(Target, Rule)>,
    named: Seq<(Seq<char>, Rule)>,
    patterns: Seq<(Seq<char>, Rule)>,
    additional: Rule,
    name: Seq<char>,
    value: Json,
) -> bool
    decreases value.height(), table.len() + 1, additional,
{
    let k = position(rule_names(named), name);
    &&& 0 <= k < named.len() ==> accepts(table, named[k].1, value, table.len())
    &&& forall|p: int|
        0 <= p < patterns.len() && matches_pattern((#[trigger] patterns[p]).0, name) ==> accepts(
            table,
            patterns[p].1,
            value,
            table.len(),
        )
    &&& (!(0 <= k < named.len()) && forall|p: int|
        0 <= p < patterns.len() ==> !matches_pattern((#[trigger] patterns[p]).0, name))
        ==> accepts(table, additional, value, table.len())
}

#[via_fn]
proof fn accepts_decreases(table: Seq<(Target, Rule)>, rule: Rule, instance: Json, hops: nat) {
    assert forall|items: Seq<Json>, i: int| 0 <= i < items.len() implies (
    #[trigger] items[i]).height() <= tallest(items) by {
        lemma_tallest(items, i);
    }
    assert forall|members: Seq<(Seq<char>, Json)>, i: int| 0 <= i < members.len() implies (
    #[trigger] members[i]).1.height() <= tallest_member(members) by {
        lemma_tallest_member(members, i);
    }
}

/// What `Enum` accepts.
pub proof fn lemma_accepts_enum(
    table: Seq<(Target, Rule)>,
    choices: Seq<Json>,
    instance: Json,
    hops: nat,
)
    ensures
        accepts(table, Rule::Enum(choices), instance, hops) == (exists|i: int|
            0 <= i < choices.len() && (#[trigger] choices[i]).equal(instance)),
{
    assert(Rule::Enum(choices)->Enum_0 == choices);
}

/// What `Type` accepts.
pub proof fn lemma_accepts_type(
    table: Seq<(Target, Rule)>,
    kinds: Seq<Kind>,
    instance: Json,
    hops: nat,
)
    ensures
        accepts(table, Rule::Type(kinds), instance, hops) == (exists|i: int|
            0 <= i < kinds.len() && (#[trigger] kinds[i]).holds(instance)),
{
    assert(Rule::Type(kinds)->Type_0 == kinds);
}

/// What `Required` accepts.
pub proof fn lemma_accepts_required(
    table: Seq<(Target, Rule)>,
    names: Seq<Seq<char>>,
    instance: Json,
    hops: nat,
)
    ensures
        accepts(table, Rule::Required(names), instance, hops) == (instance is Object ==> forall|
            i: int,
        |
            0 <= i < names.len() ==> instance.has(#[trigger] names[i])),
{
    assert(Rule::Required(names)->Required_0 == names);
}

/// What `Requires` accepts.
pub proof fn lemma_accepts_requires(
    table: Seq<(Target, Rule)>,
    name: Seq<char>,
    names: Seq<Seq<char>>,
    instance: Json,
    hops: nat,
)
    ensures
        accepts(table, Rule::Requires(name, names), instance, hops) == (instance is Object
            && instance.has(name) ==> forall|i: int|
            0 <= i < names.len() ==> instance.has(#[trigger] names[i])),
{
    assert(Rule::Requires(name, names)->Requires_1 == names);
}

/// What `AllOf` accepts.
pub proof fn lemma_accepts_all_of(
    table: Seq<(Target, Rule)>,
    rules: Seq<Rule>,
    instance: Json,
    hops: nat,
)
    ensures
        accepts(table, Rule::AllOf(rules), instance, hops) == (forall|i: int|
            0 <= i < rules.len() ==> accepts(table, #[trigger] rules[i], instance, hops)),
{
    assert(Rule::AllOf(rules)->AllOf_0 == rules);
}

/// What `AnyOf` accepts.
pub proof fn lemma_accepts_any_of(
    table: Seq<(Target, Rule)>,
    rules: Seq<Rule>,
    instance: Json,
    hops: nat,
)
    ensures
        accepts(table, Rule::AnyOf(rules), instance, hops) == (exists|i: int|
            0 <= i < rules.len() && accepts(table, #[trigger] rules[i], instance, hops)),
{
    assert(Rule::AnyOf(rules)->AnyOf_0 == rules);
}

/// Rule `i` of `rules` accepts `instance` and no other of them does.
pub open spec fn only_accepts(
    table: Seq<(Target, Rule)>,
    rules: Seq<Rule>,
    instance: Json,
    hops: nat,
    i: int,
) -> bool {
    &&& 0 <= i < rules.len()
    &&& accepts(table, rules[i], instance, hops)
    &&& forall|j: int|
        0 <= j < rules.len() && j != i ==> !accepts(table, #[trigger] rules[j], instance, hops)
}

/// What `OneOf` accepts.
pub proof fn lemma_accepts_one_of(
    table: Seq<(Target, Rule)>,
    rules: Seq<Rule>,
    instance: Json,
    hops: nat,
)
    ensures
        accepts(table, Rule::OneOf(rules), instance, hops) == (exists|i: int| #[trigger]
            only_accepts(table, rules, instance, hops, i)),
{
    assert(Rule::OneOf(rules)->OneOf_0 == rules);
    if accepts(table, Rule::OneOf(rules), instance, hops) {
        let i = choose|i: int|
            {
                &&& 0 <= i < rules.len()
                &&& accepts(table, #[trigger] rules[i], instance, hops)
                &&& forall|j: int|
                    0 <= j < rules.len() && j != i ==> !accepts(
                        table,
                        #[trigger] rules[j],
                        instance,
                        hops,
                    )
            };
        assert(only_accepts(table, rules, instance, hops, i));
    } else {
        assert forall|i: int| !(#[trigger] only_accepts(table, rules, instance, hops, i)) by {
            if only_accepts(table, rules, instance, hops, i) {
                assert(accepts(table, rules[i], instance, hops));
            }
        }
    }
}

/// What `Properties` accepts on an object.
pub proof fn lemma_accepts_properties(
    table: Seq<(Target, Rule)>,
    named: Seq<(Seq<char>, Rule)>,
    patterns: Seq<(Seq<char>, Rule)>,
    additional: Rule,
    members: Seq<(Seq<char>, Json)>,
    hops: nat,
)
    ensures
        accepts(
            table,
            Rule::Properties(named, patterns, Box::new(additional)),
            Json::Object(members),
            hops,
        ) == (forall|i: int|
            0 <= i < members.len() ==> member_passes(
                table,
                named,
                patterns,
                additional,
                (#[trigger] members[i]).0,
                members[i].1,
            )),
{
    assert(Json::Object(members)->Object_0 == members);
}

/// What `PropertyNames` accepts on an object.
pub proof fn lemma_accepts_property_names(
    table: Seq<(Target, Rule)>,
    inner: Rule,
    members: Seq<(Seq<char>, Json)>,
    hops: nat,
)
    ensures
        accepts(table, Rule::PropertyNames(Box::new(inner)), Json::Object(members), hops) == (
        forall|i: int|
            0 <= i < members.len() ==> accepts(
                table,
                inner,
                Json::String((#[trigger] members[i]).0),
                table.len(),
            )),
{
    assert(Json::Object(members)->Object_0 == members);
}

/// What `Items` accepts on an array.
pub proof fn lemma_accepts_items(
    table: Seq<(Target, Rule)>,
    inner: Rule,
    items: Seq<Json>,
    hops: nat,
)
    ensures
        accepts(table, Rule::Items(Box::new(inner)), Json::Array(items), hops) == (forall|i: int|
            0 <= i < items.len() ==> accepts(table, inner, #[trigger] items[i], table.len())),
{
    assert(Json::Array(items)->Array_0 == items);
}

/// What `Tuple` accepts on an array.
pub proof fn lemma_accepts_tuple(
    table: Seq<(Target, Rule)>,
    rules: Seq<Rule>,
    rest: Rule,
    items: Seq<Json>,
    hops: nat,
)
    ensures
        accepts(table, Rule::Tuple(rules, Box::new(rest)), Json::Array(items), hops) == (forall|
            i: int,
        |
            0 <= i < items.len() ==> if i < rules.len() {
                accepts(table, rules[i], #[trigger] items[i], table.len())
            } else {
                accepts(table, rest, items[i], table.len())
            }),
{
    assert(Json::Array(items)->Array_0 == items);
    assert(Rule::Tuple(rules, Box::new(rest))->Tuple_0 == rules);
}

/// What `Contains` accepts on an array.
pub proof fn lemma_accepts_contains(
    table: Seq<(Target, Rule)>,
    inner: Rule,
    items: Seq<Json>,
    hops: nat,
)
    ensures
        accepts(table, Rule::Contains(Box::new(inner)), Json::Array(items), hops) == (exists|
            i: int,
        |
            0 <= i < items.len() && accepts(table, inner, #[trigger] items[i], table.len())),
{
    assert(Json::Array(items)->Array_0 == items);
}

/// What `UniqueItems` accepts on an array.
pub proof fn lemma_accepts_unique_items(table: Seq<(Target, Rule)>, items: Seq<Json>, hops: nat)
    ensures
        accepts(table, Rule::UniqueItems, Json::Array(items), hops) == (forall|i: int, j: int|
            0 <= i < j < items.len() ==> !(#[trigger] items[i]).equal(#[trigger] items[j])),
{
    assert(Json::Array(items)->Array_0 == items);
}

} // verus!
