//! What a schema compiles to.
//!
//! A schema is `true`, `false` or an object. An object with a `$ref` stands
//! for the rule of the reference alone, whatever else it holds. Any other
//! object stands for the conjunction of the rules of the keywords it holds,
//! in a fixed order of the keywords; names that are no keyword are passed
//! over. The first fault, in that order and depth first, is the outcome of a
//! schema that cannot be compiled.

use vstd::prelude::*;
use crate::keyword::ErrorKind;
use crate::keyword::Fault;
use crate::keyword::Keyword;
use crate::keyword::PathStep;
use crate::keyword::family;
use crate::keyword::family_count;
use crate::keyword::fault;
use crate::keyword::under;
use crate::pattern::search;
use crate::rule::Bound;
use crate::rule::Kind;
use crate::rule::Rule;
use crate::rule::Target;
use crate::value::Json;

verus! {

/// The JSON type called `name`.
pub open spec fn kind_named(name: Seq<char>) -> Option<Kind> {
    if name == "null"@ {
        Some(Kind::Null)
    } else if name == "boolean"@ {
        Some(Kind::Boolean)
    } else if name == "object"@ {
        Some(Kind::Object)
    } else if name == "array"@ {
        Some(Kind::Array)
    } else if name == "number"@ {
        Some(Kind::Number)
    } else if name == "string"@ {
        Some(Kind::String)
    } else if name == "integer"@ {
        Some(Kind::Integer)
    } else {
        None
    }
}

/// The JSON type that `item` names, where it is a string that names one.
pub open spec fn kind_of(item: Json) -> Option<Kind> {
    match item {
        Json::String(name) => kind_named(name),
        _ => None,
    }
}

/// Every one of `items` names a JSON type.
pub open spec fn all_kinds(items: Seq<Json>) -> bool {
    forall|i: int| 0 <= i < items.len() ==> kind_of(#[trigger] items[i]) is Some
}

/// The JSON types that `items` name.
pub open spec fn kinds_of(items: Seq<Json>) -> Seq<Kind> {
    Seq::new(items.len(), |i: int| kind_of(items[i])->0)
}

/// Every one of `items` is a string.
pub open spec fn all_strings(items: Seq<Json>) -> bool {
    forall|i: int| 0 <= i < items.len() ==> (#[trigger] items[i]) is String
}

/// The strings `items`.
pub open spec fn strings_of(items: Seq<Json>) -> Seq<Seq<char>> {
    Seq::new(items.len(), |i: int| items[i]->String_0)
}

/// The bound that a keyword sets, for the keywords that set one.
pub open spec fn bound_of(keyword: Keyword) -> Option<Bound> {
    match keyword {
        Keyword::Minimum => Some(Bound::Minimum),
        Keyword::Maximum => Some(Bound::Maximum),
        Keyword::ExclusiveMinimum => Some(Bound::ExclusiveMinimum),
        Keyword::ExclusiveMaximum => Some(Bound::ExclusiveMaximum),
        Keyword::MinLength => Some(Bound::MinLength),
        Keyword::MaxLength => Some(Bound::MaxLength),
        Keyword::MinItems => Some(Bound::MinItems),
        Keyword::MaxItems => Some(Bound::MaxItems),
        Keyword::MinProperties => Some(Bound::MinProperties),
        Keyword::MaxProperties => Some(Bound::MaxProperties),
        _ => None,
    }
}

/// Whether the bound is on a count (of characters, elements or members) and
/// so must be a whole number that is not negative.
pub open spec fn counts(bound: Bound) -> bool {
    !(bound is Minimum || bound is Maximum || bound is ExclusiveMinimum
        || bound is ExclusiveMaximum)
}

/// The engine accepts `pattern` as an expression.
pub open spec fn is_expression(pattern: Seq<char>) -> bool {
    search(pattern, Seq::empty()) is Some
}

/// The rule of `type`: a type name, or a list of at least one type name.
pub open spec fn part_type(schema: Json) -> Result<Option<Rule>, Fault> {
    if !schema.has(Keyword::Type.name()) {
        Ok(None)
    } else {
        match schema.get(Keyword::Type.name()) {
            Json::String(name) => match kind_named(name) {
                Some(kind) => Ok(Some(Rule::Type(seq![kind]))),
                None => Err(fault(ErrorKind::Malformed, Keyword::Type)),
            },
            Json::Array(items) => if items.len() > 0 && all_kinds(items) {
                Ok(Some(Rule::Type(kinds_of(items))))
            } else {
                Err(fault(ErrorKind::Malformed, Keyword::Type))
            },
            _ => Err(fault(ErrorKind::Malformed, Keyword::Type)),
        }
    }
}

/// The rule of `enum`: a list of at least one value.
pub open spec fn part_enum(schema: Json) -> Result<Option<Rule>, Fault> {
    if !schema.has(Keyword::Enum.name()) {
        Ok(None)
    } else {
        match schema.get(Keyword::Enum.name()) {
            Json::Array(items) => if items.len() > 0 {
                Ok(Some(Rule::Enum(items)))
            } else {
                Err(fault(ErrorKind::Malformed, Keyword::Enum))
            },
            _ => Err(fault(ErrorKind::Malformed, Keyword::Enum)),
        }
    }
}

/// The rule of `const`: any value.
pub open spec fn part_const(schema: Json) -> Result<Option<Rule>, Fault> {
    if !schema.has(Keyword::Const.name()) {
        Ok(None)
    } else {
        Ok(Some(Rule::Const(schema.get(Keyword::Const.name()))))
    }
}

/// The rule of `multipleOf`: a number above zero.
pub open spec fn part_multiple_of(schema: Json) -> Result<Option<Rule>, Fault> {
    if !schema.has(Keyword::MultipleOf.name()) {
        Ok(None)
    } else {
        match schema.get(Keyword::MultipleOf.name()) {
            Json::Number(divisor) => if divisor.coefficient > 0 {
                Ok(Some(Rule::MultipleOf(divisor)))
            } else {
                Err(fault(ErrorKind::Malformed, Keyword::MultipleOf))
            },
            _ => Err(fault(ErrorKind::Malformed, Keyword::MultipleOf)),
        }
    }
}

/// The rule of a keyword that sets a bound: a number, and for a bound on a
/// count a whole number that is not negative.
pub open spec fn part_limit(schema: Json, keyword: Keyword, bound: Bound) -> Result<
    Option<Rule>,
    Fault,
> {
    if !schema.has(keyword.name()) {
        Ok(None)
    } else {
        match schema.get(keyword.name()) {
            Json::Number(limit) => if counts(bound) && !(limit.is_integer() && limit.coefficient
                >= 0) {
                Err(fault(ErrorKind::Malformed, keyword))
            } else {
                Ok(Some(Rule::Limit(bound, limit)))
            },
            _ => Err(fault(ErrorKind::Malformed, keyword)),
        }
    }
}

/// The rule of `pattern`: a string that the engine accepts as an expression.
pub open spec fn part_pattern(schema: Json) -> Result<Option<Rule>, Fault> {
    if !schema.has(Keyword::Pattern.name()) {
        Ok(None)
    } else {
        match schema.get(Keyword::Pattern.name()) {
            Json::String(pattern) => if is_expression(pattern) {
                Ok(Some(Rule::Pattern(pattern)))
            } else {
                Err(fault(ErrorKind::Unsupported, Keyword::Pattern))
            },
            _ => Err(fault(ErrorKind::Malformed, Keyword::Pattern)),
        }
    }
}

/// The rule of `uniqueItems`: a boolean; `false` asks for nothing.
pub open spec fn part_unique_items(schema: Json) -> Result<Option<Rule>, Fault> {
    if !schema.has(Keyword::UniqueItems.name()) {
        Ok(None)
    } else {
        match schema.get(Keyword::UniqueItems.name()) {
            Json::Bool(wanted) => if wanted {
                Ok(Some(Rule::UniqueItems))
            } else {
                Ok(None)
            },
            _ => Err(fault(ErrorKind::Malformed, Keyword::UniqueItems)),
        }
    }
}

/// The rule of `required`: a list of strings.
pub open spec fn part_required(schema: Json) -> Result<Option<Rule>, Fault> {
    if !schema.has(Keyword::Required.name()) {
        Ok(None)
    } else {
        match schema.get(Keyword::Required.name()) {
            Json::Array(items) => if all_strings(items) {
                Ok(Some(Rule::Required(strings_of(items))))
            } else {
                Err(fault(ErrorKind::Malformed, Keyword::Required))
            },
            _ => Err(fault(ErrorKind::Malformed, Keyword::Required)),
        }
    }
}

/// The rule that `keyword` makes of the rule of its one sub-schema.
pub open spec fn wrap_single(keyword: Keyword, inner: Rule) -> Rule {
    match keyword {
        Keyword::Contains => Rule::Contains(Box::new(inner)),
        Keyword::PropertyNames => Rule::PropertyNames(Box::new(inner)),
        _ => Rule::Not(Box::new(inner)),
    }
}

/// The rule that `keyword` makes of the rules of its list of sub-schemas.
pub open spec fn wrap_list(keyword: Keyword, rules: Seq<Rule>) -> Rule {
    match keyword {
        Keyword::AnyOf => Rule::AnyOf(rules),
        Keyword::OneOf => Rule::OneOf(rules),
        _ => Rule::AllOf(rules),
    }
}

/// What the schema `schema`, written in document `document`, compiles to.
pub open spec fn compiled(schema: Json, document: nat) -> Result<Rule, Fault>
    decreases schema, 4nat, 0nat,
{
    match schema {
        Json::Bool(accept) => Ok(
            if accept {
                Rule::AcceptAll
            } else {
                Rule::RejectAll
            },
        ),
        Json::Object(_) => if schema.has(Keyword::Ref.name()) {
            match schema.get(Keyword::Ref.name()) {
                Json::String(text) => Ok(Rule::Ref(Target { document, text })),
                _ => Err(fault(ErrorKind::Malformed, Keyword::Ref)),
            }
        } else {
            match parts(schema, document, family_count()) {
                Ok(rules) => Ok(
                    if rules.len() == 0 {
                        Rule::AcceptAll
                    } else {
                        Rule::AllOf(rules)
                    },
                ),
                Err(f) => Err(f),
            }
        },
        _ => Err(Fault { kind: ErrorKind::NotASchema, keyword: None, location: Seq::empty() }),
    }
}

/// The rules of the first `k` of the keywords that contribute a rule, for
/// those of them that `schema` holds.
pub open spec fn parts(schema: Json, document: nat, k: nat) -> Result<Seq<Rule>, Fault>
    decreases schema, 3nat, k,
{
    if k == 0 {
        Ok(Seq::empty())
    } else {
        match parts(schema, document, (k - 1) as nat) {
            Ok(rules) => match part(schema, document, family((k - 1) as nat)) {
                Ok(Some(rule)) => Ok(rules.push(rule)),
                Ok(None) => Ok(rules),
                Err(f) => Err(f),
            },
            Err(f) => Err(f),
        }
    }
}

/// The rule that `keyword` contributes: none where `schema` does not hold the
/// keyword.
pub open spec fn part(schema: Json, document: nat, keyword: Keyword) -> Result<Option<Rule>, Fault>
    decreases schema, 2nat, 0nat,
{
    match keyword {
        Keyword::Type => part_type(schema),
        Keyword::Enum => part_enum(schema),
        Keyword::Const => part_const(schema),
        Keyword::MultipleOf => part_multiple_of(schema),
        Keyword::Pattern => part_pattern(schema),
        Keyword::UniqueItems => part_unique_items(schema),
        Keyword::Required => part_required(schema),
        Keyword::Contains | Keyword::PropertyNames | Keyword::Not => match sub_schema(
            schema,
            document,
            keyword,
        ) {
            Ok(Some(inner)) => Ok(Some(wrap_single(keyword, inner))),
            Ok(None) => Ok(None),
            Err(f) => Err(f),
        },
        Keyword::AllOf | Keyword::AnyOf | Keyword::OneOf => part_list(schema, document, keyword),
        Keyword::Items => part_items(schema, document),
        Keyword::If => part_condition(schema, document),
        Keyword::Properties => part_properties(schema, document),
        Keyword::Dependencies => part_dependencies(schema, document),
        _ => match bound_of(keyword) {
            Some(bound) => part_limit(schema, keyword, bound),
            None => Ok(None),
        },
    }
}

/// What the sub-schema under `keyword` compiles to: nothing where `schema`
/// does not hold the keyword.
pub open spec fn sub_schema(schema: Json, document: nat, keyword: Keyword) -> Result<Option<Rule>, Fault>
    decreases schema, 1nat, 0nat,
{
    if schema.has(keyword.name()) {
        match under(compiled(schema.get(keyword.name()), document), PathStep::Key(keyword.name())) {
            Ok(rule) => Ok(Some(rule)),
            Err(f) => Err(f),
        }
    } else {
        Ok(None)
    }
}

/// What the sub-schema under `keyword` compiles to, and the rule that accepts
/// everything where `schema` does not hold the keyword.
pub open spec fn sub_or_accept(schema: Json, document: nat, keyword: Keyword) -> Result<Rule, Fault>
    decreases schema, 1nat, 1nat,
{
    match sub_schema(schema, document, keyword) {
        Ok(Some(rule)) => Ok(rule),
        Ok(None) => Ok(Rule::AcceptAll),
        Err(f) => Err(f),
    }
}

/// The rule of `allOf`, `anyOf` or `oneOf`: a list of at least one schema.
pub open spec fn part_list(schema: Json, document: nat, keyword: Keyword) -> Result<
    Option<Rule>,
    Fault,
>
    decreases schema, 1nat, 0nat,
{
    if !schema.has(keyword.name()) {
        Ok(None)
    } else {
        match schema.get(keyword.name()) {
            Json::Array(items) => if items.len() > 0 {
                match under(
                    compiled_list(items, document, items.len()),
                    PathStep::Key(keyword.name()),
                ) {
                    Ok(rules) => Ok(Some(wrap_list(keyword, rules))),
                    Err(f) => Err(f),
                }
            } else {
                Err(fault(ErrorKind::Malformed, keyword))
            },
            _ => Err(fault(ErrorKind::Malformed, keyword)),
        }
    }
}

/// The rule of `items`: one schema for every element, or a list of schemas
/// for the first elements with the schema of `additionalItems` for the rest.
/// Without `items`, `additionalItems` asks for nothing.
pub open spec fn part_items(schema: Json, document: nat) -> Result<Option<Rule>, Fault>
    decreases schema, 1nat, 2nat,
{
    if !schema.has(Keyword::Items.name()) {
        Ok(None)
    } else {
        match schema.get(Keyword::Items.name()) {
            Json::Array(items) => match under(
                compiled_list(items, document, items.len()),
                PathStep::Key(Keyword::Items.name()),
            ) {
                Ok(rules) => match sub_or_accept(schema, document, Keyword::AdditionalItems) {
                    Ok(rest) => Ok(Some(Rule::Tuple(rules, Box::new(rest)))),
                    Err(f) => Err(f),
                },
                Err(f) => Err(f),
            },
            _ => match sub_schema(schema, document, Keyword::Items) {
                Ok(Some(inner)) => Ok(Some(Rule::Items(Box::new(inner)))),
                Ok(None) => Ok(None),
                Err(f) => Err(f),
            },
        }
    }
}

/// The rule of `if` with `then` and `else`. Without `if`, the other two ask
/// for nothing.
pub open spec fn part_condition(schema: Json, document: nat) -> Result<Option<Rule>, Fault>
    decreases schema, 1nat, 2nat,
{
    match sub_schema(schema, document, Keyword::If) {
        Ok(Some(condition)) => match sub_or_accept(schema, document, Keyword::Then) {
            Ok(consequence) => match sub_or_accept(schema, document, Keyword::Else) {
                Ok(alternative) => Ok(
                    Some(
                        Rule::IfThenElse(
                            Box::new(condition),
                            Box::new(consequence),
                            Box::new(alternative),
                        ),
                    ),
                ),
                Err(f) => Err(f),
            },
            Err(f) => Err(f),
        },
        Ok(None) => Ok(None),
        Err(f) => Err(f),
    }
}

/// The rules of the members of the object under `keyword`, by member name,
/// and none where `schema` does not hold the keyword. Under
/// `patternProperties` every name must be an expression that the engine
/// accepts.
pub open spec fn named_rules(schema: Json, document: nat, keyword: Keyword) -> Result<
    Seq<(Seq<char>, Rule)>,
    Fault,
>
    decreases schema, 1nat, 0nat,
{
    if !schema.has(keyword.name()) {
        Ok(Seq::empty())
    } else {
        match schema.get(keyword.name()) {
            Json::Object(members) => under(
                compiled_members(members, document, keyword, members.len()),
                PathStep::Key(keyword.name()),
            ),
            _ => Err(fault(ErrorKind::Malformed, keyword)),
        }
    }
}

/// The rule of `properties`, `patternProperties` and `additionalProperties`
/// together: none where `schema` holds none of the three. Where it does not
/// hold one of them, there are no rules by name, no rules by expression, or
/// everything is accepted of the members that those two do not cover.
pub open spec fn part_properties(schema: Json, document: nat) -> Result<Option<Rule>, Fault>
    decreases schema, 1nat, 2nat,
{
    if !schema.has(Keyword::Properties.name()) && !schema.has(Keyword::PatternProperties.name())
        && !schema.has(Keyword::AdditionalProperties.name()) {
        Ok(None)
    } else {
        match named_rules(schema, document, Keyword::Properties) {
            Ok(named) => match named_rules(schema, document, Keyword::PatternProperties) {
                Ok(patterns) => match sub_or_accept(
                    schema,
                    document,
                    Keyword::AdditionalProperties,
                ) {
                    Ok(additional) => Ok(
                        Some(Rule::Properties(named, patterns, Box::new(additional))),
                    ),
                    Err(f) => Err(f),
                },
                Err(f) => Err(f),
            },
            Err(f) => Err(f),
        }
    }
}

/// The rule of `dependencies`: an object; each member is a list of names
/// that the object must have, or a schema that it must pass, where it has
/// the member's name.
pub open spec fn part_dependencies(schema: Json, document: nat) -> Result<Option<Rule>, Fault>
    decreases schema, 1nat, 0nat,
{
    if !schema.has(Keyword::Dependencies.name()) {
        Ok(None)
    } else {
        match schema.get(Keyword::Dependencies.name()) {
            Json::Object(members) => match under(
                compiled_dependencies(members, document, members.len()),
                PathStep::Key(Keyword::Dependencies.name()),
            ) {
                Ok(rules) => Ok(Some(Rule::AllOf(rules))),
                Err(f) => Err(f),
            },
            _ => Err(fault(ErrorKind::Malformed, Keyword::Dependencies)),
        }
    }
}

/// What the first `n` of `items` compile to.
pub open spec fn compiled_list(items: Seq<Json>, document: nat, n: nat) -> Result<Seq<Rule>, Fault>
    decreases items, 0nat, n,
{
    if n == 0 || n > items.len() {
        Ok(Seq::empty())
    } else {
        match compiled_list(items, document, (n - 1) as nat) {
            Ok(rules) => match under(
                compiled(items[n - 1], document),
                PathStep::Index((n - 1) as nat),
            ) {
                Ok(rule) => Ok(rules.push(rule)),
                Err(f) => Err(f),
            },
            Err(f) => Err(f),
        }
    }
}

/// What the values of the first `n` of `members` compile to, each under its
/// member's name.
pub open spec fn compiled_members(
    members: Seq<(Seq<char>, Json)>,
    document: nat,
    keyword: Keyword,
    n: nat,
) -> Result<Seq<(Seq<char>, Rule)>, Fault>
    decreases members, 0nat, n,
{
    if n == 0 || n > members.len() {
        Ok(Seq::empty())
    } else {
        match compiled_members(members, document, keyword, (n - 1) as nat) {
            Ok(rules) => if keyword == Keyword::PatternProperties && !is_expression(
                members[n - 1].0,
            ) {
                Err(fault(ErrorKind::Unsupported, keyword).under(PathStep::Key(members[n - 1].0)))
            } else {
                match under(
                    compiled(members[n - 1].1, document),
                    PathStep::Key(members[n - 1].0),
                ) {
                    Ok(rule) => Ok(rules.push((members[n - 1].0, rule))),
                    Err(f) => Err(f),
                }
            },
            Err(f) => Err(f),
        }
    }
}

/// The rules of the first `n` of the members of `dependencies`.
pub open spec fn compiled_dependencies(
    members: Seq<(Seq<char>, Json)>,
    document: nat,
    n: nat,
) -> Result<Seq<Rule>, Fault>
    decreases members, 0nat, n,
{
    if n == 0 || n > members.len() {
        Ok(Seq::empty())
    } else {
        match compiled_dependencies(members, document, (n - 1) as nat) {
            Ok(rules) => match members[n - 1].1 {
                Json::Array(names) => if all_strings(names) {
                    Ok(rules.push(Rule::Requires(members[n - 1].0, strings_of(names))))
                } else {
                    Err(
                        fault(ErrorKind::Malformed, Keyword::Dependencies).under(
                            PathStep::Key(members[n - 1].0),
                        ),
                    )
                },
                _ => match under(
                    compiled(members[n - 1].1, document),
                    PathStep::Key(members[n - 1].0),
                ) {
                    Ok(rule) => Ok(rules.push(Rule::Implies(members[n - 1].0, Box::new(rule)))),
                    Err(f) => Err(f),
                },
            },
            Err(f) => Err(f),
        }
    }
}

} // verus!
