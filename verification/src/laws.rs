//! What holds of every schema of a given form, and of every value.

use vstd::prelude::*;
use crate::digits::pow10;
use crate::keyword::ErrorKind;
use crate::keyword::Fault;
use crate::keyword::Keyword;
use crate::keyword::family;
use crate::keyword::family_count;
use crate::keyword::fault;
use crate::number::Decimal;
use crate::resolver::mentions;
use crate::rule::Rule;
use crate::rule::Target;
use crate::rule::accepts;
use crate::rule::lemma_accepts_all_of;
use crate::rule::lemma_accepts_any_of;
use crate::rule::lemma_accepts_contains;
use crate::rule::lemma_accepts_enum;
use crate::rule::lemma_accepts_items;
use crate::rule::lemma_accepts_one_of;
use crate::rule::lemma_accepts_properties;
use crate::rule::lemma_accepts_property_names;
use crate::rule::lemma_accepts_required;
use crate::rule::lemma_accepts_requires;
use crate::rule::lemma_accepts_tuple;
use crate::rule::lemma_accepts_type;
use crate::rule::lemma_accepts_unique_items;
use crate::rule::only_accepts;
use crate::rule::target_position;
use crate::schema::bound_of;
use crate::schema::compiled;
use crate::schema::part;
use crate::schema::part_condition;
use crate::schema::part_const;
use crate::schema::part_dependencies;
use crate::schema::part_enum;
use crate::schema::part_items;
use crate::schema::part_limit;
use crate::schema::part_list;
use crate::schema::part_properties;
use crate::schema::parts;
use crate::schema::sub_schema;
use crate::validator::broken;
use crate::validator::compiles_to;
use crate::validator::entry_holds;
use crate::validator::fails_with;
use crate::validator::linked;
use crate::validator::reaches;
use crate::validator::table_targets;
use crate::value::Json;
use crate::value::lemma_position;
use crate::value::member_names;
use crate::value::position;

verus! {

/// No two keywords have the same name.
pub proof fn lemma_keyword_names_differ(a: Keyword, b: Keyword)
    requires
        a != b,
    ensures
        a.name() != b.name(),
{
    reveal_strlit("$ref");
    reveal_strlit("type");
    reveal_strlit("enum");
    reveal_strlit("const");
    reveal_strlit("multipleOf");
    reveal_strlit("maximum");
    reveal_strlit("exclusiveMaximum");
    reveal_strlit("minimum");
    reveal_strlit("exclusiveMinimum");
    reveal_strlit("maxLength");
    reveal_strlit("minLength");
    reveal_strlit("pattern");
    reveal_strlit("items");
    reveal_strlit("additionalItems");
    reveal_strlit("contains");
    reveal_strlit("maxItems");
    reveal_strlit("minItems");
    reveal_strlit("uniqueItems");
    reveal_strlit("maxProperties");
    reveal_strlit("minProperties");
    reveal_strlit("required");
    reveal_strlit("properties");
    reveal_strlit("patternProperties");
    reveal_strlit("additionalProperties");
    reveal_strlit("dependencies");
    reveal_strlit("propertyNames");
    reveal_strlit("if");
    reveal_strlit("then");
    reveal_strlit("else");
    reveal_strlit("allOf");
    reveal_strlit("anyOf");
    reveal_strlit("oneOf");
    reveal_strlit("not");
    let x = a.name();
    let y = b.name();
    if x.len() == y.len() {
        assert(x[0] != y[0] || x[1] != y[1] || x[10] != y[10]);
    }
}

/// The schema object that holds the one keyword `keyword`, with the value
/// `value`.
pub open spec fn single(keyword: Keyword, value: Json) -> Json {
    Json::Object(seq![(keyword.name(), value)])
}

/// The keywords that contribute a rule of their own.
pub open spec fn is_family(keyword: Keyword) -> bool {
    exists|k: nat| k < family_count() && #[trigger] family(k) == keyword
}

/// A schema object with one keyword holds that keyword and no other.
pub proof fn lemma_single_holds(keyword: Keyword, value: Json, other: Keyword)
    ensures
        single(keyword, value).has(other.name()) == (other == keyword),
        single(keyword, value).get(keyword.name()) == value,
{
    let members = seq![(keyword.name(), value)];
    let names = member_names(members);
    assert(names.drop_last() =~= Seq::<Seq<char>>::empty());
    assert(names.last() == keyword.name());
    if other != keyword {
        lemma_keyword_names_differ(other, keyword);
    }
    assert(position(names.drop_last(), other.name()) == -1);
}

/// In a schema object with the one keyword `keyword`, no other keyword
/// contributes a rule.
pub proof fn lemma_part_absent(keyword: Keyword, value: Json, document: nat, other: Keyword)
    requires
        is_family(keyword),
        other != keyword,
    ensures
        part(single(keyword, value), document, other) == Ok::<Option<Rule>, Fault>(None),
{
    let schema = single(keyword, value);
    assert forall|k: Keyword| k != keyword implies !schema.has(#[trigger] k.name()) by {
        lemma_single_holds(keyword, value, k);
    }
    let k = choose|k: nat| k < family_count() && #[trigger] family(k) == keyword;
    assert(keyword != Keyword::AdditionalItems && keyword != Keyword::PatternProperties && keyword
        != Keyword::AdditionalProperties && keyword != Keyword::Then && keyword != Keyword::Else
        && keyword != Keyword::Ref);
    assert(!schema.has(Keyword::AdditionalItems.name()));
    assert(!schema.has(Keyword::PatternProperties.name()));
    assert(!schema.has(Keyword::AdditionalProperties.name()));
    assert(!schema.has(Keyword::Then.name()));
    assert(!schema.has(Keyword::Else.name()));
    assert(!schema.has(other.name()));
    match other {
        Keyword::Contains | Keyword::PropertyNames | Keyword::Not => {
            assert(sub_schema(schema, document, other) == Ok::<Option<Rule>, Fault>(None));
        },
        Keyword::AllOf | Keyword::AnyOf | Keyword::OneOf => {
            assert(part_list(schema, document, other) == Ok::<Option<Rule>, Fault>(None));
        },
        Keyword::Items => {
            assert(part_items(schema, document) == Ok::<Option<Rule>, Fault>(None));
        },
        Keyword::If => {
            assert(sub_schema(schema, document, Keyword::If) == Ok::<Option<Rule>, Fault>(None));
            assert(part_condition(schema, document) == Ok::<Option<Rule>, Fault>(None));
        },
        Keyword::Properties => {
            assert(part_properties(schema, document) == Ok::<Option<Rule>, Fault>(None));
        },
        Keyword::Dependencies => {
            assert(part_dependencies(schema, document) == Ok::<Option<Rule>, Fault>(None));
        },
        _ => {
            if bound_of(other) is Some {
                assert(part_limit(schema, other, bound_of(other)->0) == Ok::<Option<Rule>, Fault>(
                    None,
                ));
            }
        },
    }
}

/// The rules of the first `n` keywords of a schema object with the one
/// keyword `keyword`, which contributes the rule `rule`: that rule once
/// the keyword is among them, and none before.
pub proof fn lemma_parts_single(
    keyword: Keyword,
    value: Json,
    document: nat,
    rule: Rule,
    at: nat,
    n: nat,
)
    requires
        at < family_count(),
        family(at) == keyword,
        n <= family_count(),
        part(single(keyword, value), document, keyword) == Ok::<Option<Rule>, Fault>(Some(rule)),
    ensures
        parts(single(keyword, value), document, n) == Ok::<Seq<Rule>, Fault>(
            if n > at {
                seq![rule]
            } else {
                Seq::empty()
            },
        ),
    decreases n,
{
    if n > 0 {
        let schema = single(keyword, value);
        lemma_parts_single(keyword, value, document, rule, at, (n - 1) as nat);
        let other = family((n - 1) as nat);
        if n - 1 == at {
            assert(Seq::<Rule>::empty().push(rule) =~= seq![rule]);
        } else {
            assert(other != keyword);
            lemma_part_absent(keyword, value, document, other);
        }
    }
}

/// A schema object with one keyword stands for the rule of that keyword: it
/// compiles to the conjunction of that rule alone, and to the keyword's
/// fault where the keyword's value is not of the form that the keyword takes.
pub proof fn lemma_single_keyword(keyword: Keyword, value: Json, document: nat)
    requires
        is_family(keyword),
    ensures
        compiled(single(keyword, value), document) == match part(
            single(keyword, value),
            document,
            keyword,
        ) {
            Ok(Some(rule)) => Ok::<Rule, Fault>(Rule::AllOf(seq![rule])),
            Ok(None) => Ok(Rule::AcceptAll),
            Err(f) => Err(f),
        },
{
    let schema = single(keyword, value);
    let at = choose|k: nat| k < family_count() && #[trigger] family(k) == keyword;
    lemma_single_holds(keyword, value, Keyword::Ref);
    assert(!schema.has(Keyword::Ref.name()));
    match part(schema, document, keyword) {
        Ok(Some(rule)) => {
            lemma_parts_single(keyword, value, document, rule, at, family_count());
        },
        Ok(None) => {
            lemma_parts_none(keyword, value, document, family_count());
        },
        Err(f) => {
            lemma_parts_none(keyword, value, document, at);
            assert(parts(schema, document, at + 1) == Err::<Seq<Rule>, Fault>(f));
            crate::compile::lemma_parts_fault(schema, document, at + 1, family_count());
        },
    }
}

/// The keywords before the one that a schema object holds contribute no
/// rule, and where that one contributes none either, none does.
pub proof fn lemma_parts_none(keyword: Keyword, value: Json, document: nat, n: nat)
    requires
        is_family(keyword),
        n <= family_count(),
        part(single(keyword, value), document, keyword) == Ok::<Option<Rule>, Fault>(None) || (
        forall|k: nat| k < n ==> family(k) != keyword),
    ensures
        parts(single(keyword, value), document, n) == Ok::<Seq<Rule>, Fault>(Seq::empty()),
    decreases n,
{
    if n > 0 {
        lemma_parts_none(keyword, value, document, (n - 1) as nat);
        let other = family((n - 1) as nat);
        if other != keyword {
            lemma_part_absent(keyword, value, document, other);
        }
    }
}

/// The conjunction of one rule accepts what the rule accepts.
pub proof fn lemma_conjunction_of_one(
    table: Seq<(Target, Rule)>,
    rule: Rule,
    instance: Json,
    hops: nat,
)
    ensures
        accepts(table, Rule::AllOf(seq![rule]), instance, hops) == accepts(
            table,
            rule,
            instance,
            hops,
        ),
{
    let rules = seq![rule];
    lemma_accepts_all_of(table, rules, instance, hops);
    assert(rules[0] == rule);
}

/// In a compiled schema, every reference on a way from the schema has its
/// entry in the table.
pub proof fn lemma_reached_has_entry(
    root: Json,
    documents: Seq<(Seq<char>, Json)>,
    rule: Rule,
    table: Seq<(Target, Rule)>,
    chain: Seq<Target>,
    i: int,
)
    requires
        compiles_to(root, documents, rule, table),
        reaches(root, documents, chain),
        0 <= i < chain.len(),
    ensures
        table_targets(table).contains(chain[i]),
    decreases i,
{
    if i == 0 {
        assert(mentions(rule, chain[0]));
    } else {
        lemma_reached_has_entry(root, documents, rule, table, chain, i - 1);
        let j = choose|j: int|
            0 <= j < table_targets(table).len() && table_targets(table)[j] == chain[i - 1];
        assert(entry_holds(root, documents, table[j]));
        assert(linked(root, documents, chain[i - 1], chain[i]));
        assert(mentions(table[j].1, chain[i]));
    }
}

/// A schema either compiles or has a fault, never both: so compilation
/// succeeds exactly on the schemas that have no fault.
pub proof fn law_compiles_or_fails(
    root: Json,
    documents: Seq<(Seq<char>, Json)>,
    rule: Rule,
    table: Seq<(Target, Rule)>,
    f: Fault,
)
    requires
        compiles_to(root, documents, rule, table),
    ensures
        !fails_with(root, documents, f),
{
    assert forall|chain: Seq<Target>| #[trigger] reaches(root, documents, chain) implies !broken(
        root,
        documents,
        chain.last(),
        f,
    ) by {
        lemma_reached_has_entry(root, documents, rule, table, chain, chain.len() - 1);
        let j = choose|j: int|
            0 <= j < table_targets(table).len() && table_targets(table)[j] == chain.last();
        assert(entry_holds(root, documents, table[j]));
    }
}

/// The schema `true` compiles to a validator that accepts every value, and
/// the schema `false` to one that accepts none; neither fails to compile.
pub proof fn law_boolean_schema(
    accept: bool,
    documents: Seq<(Seq<char>, Json)>,
    rule: Rule,
    table: Seq<(Target, Rule)>,
    instance: Json,
    hops: nat,
)
    ensures
        compiles_to(Json::Bool(accept), documents, rule, table) ==> accepts(
            table,
            rule,
            instance,
            hops,
        ) == accept,
        forall|f: Fault| !fails_with(Json::Bool(accept), documents, f),
{
    assert forall|f: Fault| !fails_with(Json::Bool(accept), documents, f) by {
        assert forall|chain: Seq<Target>| !reaches(Json::Bool(accept), documents, chain) by {
            if chain.len() > 0 {
                assert(!mentions(Rule::AcceptAll, chain[0]));
                assert(!mentions(Rule::RejectAll, chain[0]));
            }
        }
    }
}

/// A value without an object that has two members of one name equals
/// itself.
pub proof fn lemma_equal_reflexive(value: Json)
    requires
        value.wf(),
    ensures
        value.equal(value),
    decreases value,
{
    match value {
        Json::Array(items) => {
            assert forall|i: int| 0 <= i < items.len() implies (#[trigger] items[i]).equal(
                items[i],
            ) by {
                lemma_equal_reflexive(items[i]);
            }
        },
        Json::Object(members) => {
            let names = member_names(members);
            assert forall|i: int| 0 <= i < members.len() implies {
                let k = position(names, (#[trigger] members[i]).0);
                0 <= k < members.len() && members[i].1.equal(members[k].1)
            } by {
                lemma_position(names, members[i].0);
                let k = position(names, members[i].0);
                assert(names[i] == members[i].0);
                assert(k >= i);
                assert(names[k] == names[i]);
                lemma_equal_reflexive(members[i].1);
            }
        },
        Json::Number(x) => {},
        _ => {},
    }
}

/// The schema `{"const": v}` compiles, whatever `v` is, to a validator that
/// accepts exactly the values that equal `v`; among them `v` itself, where
/// no object in it has two members of one name.
pub proof fn law_const(
    expected: Json,
    documents: Seq<(Seq<char>, Json)>,
    rule: Rule,
    table: Seq<(Target, Rule)>,
    instance: Json,
    hops: nat,
)
    ensures
        compiles_to(single(Keyword::Const, expected), documents, rule, table) ==> accepts(
            table,
            rule,
            instance,
            hops,
        ) == expected.equal(instance),
        compiles_to(single(Keyword::Const, expected), documents, rule, table) && expected.wf()
            ==> accepts(table, rule, expected, hops),
        forall|f: Fault| !fails_with(single(Keyword::Const, expected), documents, f),
{
    let schema = single(Keyword::Const, expected);
    assert(family(2) == Keyword::Const);
    lemma_single_keyword(Keyword::Const, expected, 0);
    lemma_single_holds(Keyword::Const, expected, Keyword::Const);
    assert(part_const(schema) == Ok::<Option<Rule>, Fault>(Some(Rule::Const(expected))));
    let only = Rule::AllOf(seq![Rule::Const(expected)]);
    assert(compiled(schema, 0) == Ok::<Rule, Fault>(only));
    lemma_conjunction_of_one(table, Rule::Const(expected), instance, hops);
    lemma_conjunction_of_one(table, Rule::Const(expected), expected, hops);
    if expected.wf() {
        lemma_equal_reflexive(expected);
    }
    assert forall|f: Fault| !fails_with(schema, documents, f) by {
        assert forall|chain: Seq<Target>| !reaches(schema, documents, chain) by {
            if chain.len() > 0 {
                lemma_mentions_conjunction_of_one(Rule::Const(expected), chain[0]);
            }
        }
    }
}

/// The conjunction of one rule holds the references that the rule holds.
pub proof fn lemma_mentions_conjunction_of_one(rule: Rule, target: Target)
    ensures
        mentions(Rule::AllOf(seq![rule]), target) == mentions(rule, target),
{
    let rules = seq![rule];
    assert(rules[0] == rule);
    assert(mentions(Rule::AllOf(rules), target) == crate::resolver::mentions_any(rules, target));
}

/// The schema `{"enum": [..]}` with at least one choice compiles to a
/// validator that accepts exactly the values that equal one of the choices.
/// With no choice it does not compile: the fault is that `enum` is
/// malformed.
pub proof fn law_enum(
    choices: Seq<Json>,
    documents: Seq<(Seq<char>, Json)>,
    rule: Rule,
    table: Seq<(Target, Rule)>,
    instance: Json,
    hops: nat,
)
    ensures
        compiles_to(single(Keyword::Enum, Json::Array(choices)), documents, rule, table)
            ==> choices.len() > 0 && accepts(table, rule, instance, hops) == (exists|i: int|
            0 <= i < choices.len() && (#[trigger] choices[i]).equal(instance)),
        forall|f: Fault| #[trigger]
            fails_with(single(Keyword::Enum, Json::Array(choices)), documents, f) ==> choices.len()
                == 0 && f == fault(ErrorKind::Malformed, Keyword::Enum),
{
    let schema = single(Keyword::Enum, Json::Array(choices));
    assert(family(1) == Keyword::Enum);
    lemma_single_keyword(Keyword::Enum, Json::Array(choices), 0);
    lemma_single_holds(Keyword::Enum, Json::Array(choices), Keyword::Enum);
    if choices.len() > 0 {
        assert(part_enum(schema) == Ok::<Option<Rule>, Fault>(Some(Rule::Enum(choices))));
        lemma_conjunction_of_one(table, Rule::Enum(choices), instance, hops);
        lemma_accepts_enum(table, choices, instance, hops);
    } else {
        assert(part_enum(schema) == Err::<Option<Rule>, Fault>(
            fault(ErrorKind::Malformed, Keyword::Enum),
        ));
    }
    assert forall|f: Fault| #[trigger] fails_with(schema, documents, f) implies choices.len() == 0
        && f == fault(ErrorKind::Malformed, Keyword::Enum) by {
        assert forall|chain: Seq<Target>| !reaches(schema, documents, chain) by {
            if chain.len() > 0 && choices.len() > 0 {
                lemma_mentions_conjunction_of_one(Rule::Enum(choices), chain[0]);
            }
        }
    }
}

/// Every keyword that sets a bound contributes a rule of its own.
pub proof fn lemma_bound_is_family(keyword: Keyword)
    requires
        bound_of(keyword) is Some,
    ensures
        is_family(keyword),
{
    assert(family(4) == Keyword::Maximum);
    assert(family(5) == Keyword::ExclusiveMaximum);
    assert(family(6) == Keyword::Minimum);
    assert(family(7) == Keyword::ExclusiveMinimum);
    assert(family(8) == Keyword::MaxLength);
    assert(family(9) == Keyword::MinLength);
    assert(family(13) == Keyword::MaxItems);
    assert(family(14) == Keyword::MinItems);
    assert(family(16) == Keyword::MaxProperties);
    assert(family(17) == Keyword::MinProperties);
}

/// A schema with one keyword that sets a bound, such as `{"minimum": 1.0}`,
/// compiles to a validator that compares the quantity that the keyword looks
/// at with the bound, exactly and however the two numbers are written, and
/// that accepts every value that has no such quantity: `{"minimum": 0}`
/// accepts every string.
pub proof fn law_bound(
    keyword: Keyword,
    limit: Decimal,
    documents: Seq<(Seq<char>, Json)>,
    rule: Rule,
    table: Seq<(Target, Rule)>,
    instance: Json,
    hops: nat,
)
    requires
        bound_of(keyword) is Some,
        compiles_to(single(keyword, Json::Number(limit)), documents, rule, table),
    ensures
        accepts(table, rule, instance, hops) == match bound_of(keyword)->0.measure(instance) {
            Some(x) => bound_of(keyword)->0.admits(x, limit),
            None => true,
        },
{
    let schema = single(keyword, Json::Number(limit));
    let bound = bound_of(keyword)->0;
    lemma_bound_is_family(keyword);
    lemma_single_keyword(keyword, Json::Number(limit), 0);
    lemma_single_holds(keyword, Json::Number(limit), keyword);
    assert(part(schema, 0, keyword) == part_limit(schema, keyword, bound));
    lemma_conjunction_of_one(table, Rule::Limit(bound, limit), instance, hops);
}

/// Whether the rule looks at values of the type of `instance` at all.
pub open spec fn applies(rule: Rule, instance: Json) -> bool {
    match rule {
        Rule::Limit(bound, _) => bound.measure(instance) is Some,
        Rule::MultipleOf(_) => instance is Number,
        Rule::Pattern(_) => instance is String,
        Rule::UniqueItems | Rule::Items(_) | Rule::Tuple(_, _) | Rule::Contains(_) => instance is Array,
        Rule::Required(_) | Rule::Requires(_, _) | Rule::Implies(_, _) | Rule::Properties(_, _, _)
        | Rule::PropertyNames(_) => instance is Object,
        _ => true,
    }
}

/// A rule accepts every value of a type that it does not look at.
pub proof fn law_inapplicable_passes(
    table: Seq<(Target, Rule)>,
    rule: Rule,
    instance: Json,
    hops: nat,
)
    requires
        !applies(rule, instance),
    ensures
        accepts(table, rule, instance, hops),
{
}

/// Whether judging `instance` by `rule` comes to a reference with no hop left
/// to follow it, before it goes into an element or a member of `instance`.
pub open spec fn runs_dry(
    table: Seq<(Target, Rule)>,
    rule: Rule,
    instance: Json,
    hops: nat,
) -> bool
    decreases hops, rule,
{
    match rule {
        Rule::Ref(target) => {
            let k = target_position(table, target);
            0 <= k < table.len() && (hops == 0 || runs_dry(
                table,
                table[k].1,
                instance,
                (hops - 1) as nat,
            ))
        },
        Rule::Implies(_, inner) => runs_dry(table, *inner, instance, hops),
        Rule::Not(inner) => runs_dry(table, *inner, instance, hops),
        Rule::IfThenElse(condition, consequence, alternative) => runs_dry(
            table,
            *condition,
            instance,
            hops,
        ) || runs_dry(table, *consequence, instance, hops) || runs_dry(
            table,
            *alternative,
            instance,
            hops,
        ),
        Rule::AllOf(rules) => any_runs_dry(table, rules, instance, hops),
        Rule::AnyOf(rules) => any_runs_dry(table, rules, instance, hops),
        Rule::OneOf(rules) => any_runs_dry(table, rules, instance, hops),
        _ => false,
    }
}

/// Whether judging `instance` by one of `rules` runs dry.
pub open spec fn any_runs_dry(
    table: Seq<(Target, Rule)>,
    rules: Seq<Rule>,
    instance: Json,
    hops: nat,
) -> bool
    decreases hops, rules,
{
    exists|i: int| 0 <= i < rules.len() && runs_dry(table, #[trigger] rules[i], instance, hops)
}

/// The number of hops matters only where it runs out: a verdict that was
/// reached without coming to a reference with no hop left is the verdict for
/// every larger number of hops, and is reached without running dry there
/// too.
pub proof fn law_hops(
    table: Seq<(Target, Rule)>,
    rule: Rule,
    instance: Json,
    hops: nat,
    more: nat,
)
    requires
        !runs_dry(table, rule, instance, hops),
        hops <= more,
    ensures
        accepts(table, rule, instance, more) == accepts(table, rule, instance, hops),
        !runs_dry(table, rule, instance, more),
    decreases hops, rule,
{
    match rule {
        Rule::Ref(target) => {
            let k = target_position(table, target);
            if 0 <= k < table.len() {
                law_hops(table, table[k].1, instance, (hops - 1) as nat, (more - 1) as nat);
            }
        },
        Rule::Implies(_, inner) => {
            law_hops(table, *inner, instance, hops, more);
        },
        Rule::Not(inner) => {
            law_hops(table, *inner, instance, hops, more);
        },
        Rule::IfThenElse(condition, consequence, alternative) => {
            law_hops(table, *condition, instance, hops, more);
            law_hops(table, *consequence, instance, hops, more);
            law_hops(table, *alternative, instance, hops, more);
        },
        Rule::AllOf(rules) => {
            lemma_hops_each(table, rules, instance, hops, more);
            lemma_accepts_all_of(table, rules, instance, hops);
            lemma_accepts_all_of(table, rules, instance, more);
        },
        Rule::AnyOf(rules) => {
            lemma_hops_each(table, rules, instance, hops, more);
            lemma_accepts_any_of(table, rules, instance, hops);
            lemma_accepts_any_of(table, rules, instance, more);
        },
        Rule::OneOf(rules) => {
            lemma_hops_each(table, rules, instance, hops, more);
            lemma_accepts_one_of(table, rules, instance, hops);
            lemma_accepts_one_of(table, rules, instance, more);
            assert forall|i: int| #[trigger]
                only_accepts(table, rules, instance, more, i) == only_accepts(
                    table,
                    rules,
                    instance,
                    hops,
                    i,
                ) by {}
        },
        Rule::Enum(choices) => {
            lemma_accepts_enum(table, choices, instance, hops);
            lemma_accepts_enum(table, choices, instance, more);
        },
        Rule::Type(kinds) => {
            lemma_accepts_type(table, kinds, instance, hops);
            lemma_accepts_type(table, kinds, instance, more);
        },
        Rule::Required(names) => {
            lemma_accepts_required(table, names, instance, hops);
            lemma_accepts_required(table, names, instance, more);
        },
        Rule::Requires(name, names) => {
            lemma_accepts_requires(table, name, names, instance, hops);
            lemma_accepts_requires(table, name, names, instance, more);
        },
        Rule::UniqueItems => {
            if instance is Array {
                lemma_accepts_unique_items(table, instance->Array_0, hops);
                lemma_accepts_unique_items(table, instance->Array_0, more);
            }
        },
        Rule::Properties(named, patterns, additional) => {
            if instance is Object {
                lemma_accepts_properties(
                    table,
                    named,
                    patterns,
                    *additional,
                    instance->Object_0,
                    hops,
                );
                lemma_accepts_properties(
                    table,
                    named,
                    patterns,
                    *additional,
                    instance->Object_0,
                    more,
                );
            }
        },
        Rule::PropertyNames(inner) => {
            if instance is Object {
                lemma_accepts_property_names(table, *inner, instance->Object_0, hops);
                lemma_accepts_property_names(table, *inner, instance->Object_0, more);
            }
        },
        Rule::Items(inner) => {
            if instance is Array {
                lemma_accepts_items(table, *inner, instance->Array_0, hops);
                lemma_accepts_items(table, *inner, instance->Array_0, more);
            }
        },
        Rule::Tuple(rules, rest) => {
            if instance is Array {
                lemma_accepts_tuple(table, rules, *rest, instance->Array_0, hops);
                lemma_accepts_tuple(table, rules, *rest, instance->Array_0, more);
            }
        },
        Rule::Contains(inner) => {
            if instance is Array {
                lemma_accepts_contains(table, *inner, instance->Array_0, hops);
                lemma_accepts_contains(table, *inner, instance->Array_0, more);
            }
        },
        _ => {},
    }
}

/// What `law_hops` says, of each rule of a list none of which runs dry.
proof fn lemma_hops_each(
    table: Seq<(Target, Rule)>,
    rules: Seq<Rule>,
    instance: Json,
    hops: nat,
    more: nat,
)
    requires
        !any_runs_dry(table, rules, instance, hops),
        hops <= more,
    ensures
        !any_runs_dry(table, rules, instance, more),
        forall|i: int|
            0 <= i < rules.len() ==> accepts(table, #[trigger] rules[i], instance, more) == accepts(
                table,
                rules[i],
                instance,
                hops,
            ),
    decreases hops, rules,
{
    assert forall|i: int| 0 <= i < rules.len() implies accepts(
        table,
        #[trigger] rules[i],
        instance,
        more,
    ) == accepts(table, rules[i], instance, hops) && !runs_dry(table, rules[i], instance, more) by {
        assert(!runs_dry(table, rules[i], instance, hops));
        law_hops(table, rules[i], instance, hops, more);
    }
}

/// A number is the same number when its coefficient is multiplied by a power
/// of ten and its exponent lowered by as much: `1`, `1.0` and `1.00` are one
/// number.
pub proof fn law_same_number(coefficient: int, exponent: int, zeros: nat)
    ensures
        (Decimal { coefficient, exponent }).same(
            Decimal { coefficient: coefficient * pow10(zeros), exponent: exponent - zeros },
        ),
{
    let a = Decimal { coefficient, exponent };
    let b = Decimal { coefficient: coefficient * pow10(zeros), exponent: exponent - zeros };
    assert(a.unit(b) == exponent - zeros);
    assert(pow10(0) == 1);
    assert(b.scaled(exponent - zeros) == (coefficient * pow10(zeros)) * 1);
    assert(a.scaled(exponent - zeros) == coefficient * pow10(zeros));
}

} // verus!
