//! The compiler from a schema to its rule.

use vstd::prelude::*;
use crate::keyword::CompileError;
use crate::keyword::ErrorKind;
use crate::keyword::Fault;
use crate::keyword::Keyword;
use crate::keyword::Step;
use crate::keyword::families;
use crate::keyword::family;
use crate::keyword::family_at;
use crate::keyword::family_count;
use crate::node::Node;
use crate::node::Reference;
use crate::node::named_view;
use crate::node::nodes_view;
use crate::node::strings_view;
use crate::pattern::find_match;
use crate::rule::Bound;
use crate::rule::Kind;
use crate::rule::Rule;
use crate::schema::all_kinds;
use crate::schema::all_strings;
use crate::schema::bound_of;
use crate::schema::compiled;
use crate::schema::compiled_dependencies;
use crate::schema::compiled_list;
use crate::schema::compiled_members;
use crate::schema::counts;
use crate::schema::is_expression;
use crate::schema::kind_named;
use crate::schema::kind_of;
use crate::schema::kinds_of;
use crate::schema::named_rules;
use crate::schema::part;
use crate::schema::part_condition;
use crate::schema::part_const;
use crate::schema::part_dependencies;
use crate::schema::part_enum;
use crate::schema::part_items;
use crate::schema::part_limit;
use crate::schema::part_list;
use crate::schema::part_multiple_of;
use crate::schema::part_pattern;
use crate::schema::part_properties;
use crate::schema::part_required;
use crate::schema::part_type;
use crate::schema::part_unique_items;
use crate::schema::parts;
use crate::schema::strings_of;
use crate::schema::sub_or_accept;
use crate::schema::sub_schema;
use crate::value::Json;
use crate::value::Value;
use crate::value::items_view;
use crate::value::lemma_tallest;
use crate::value::lemma_tallest_member;
use crate::value::members_view;

verus! {

/// The outcome of compiling one schema, as a mathematical object.
pub open spec fn rule_outcome(r: Result<Node, CompileError>) -> Result<Rule, Fault> {
    match r {
        Ok(node) => Ok(node@),
        Err(e) => Err(e@),
    }
}

/// The outcome of compiling one keyword, as a mathematical object.
pub open spec fn part_outcome(r: Result<Option<Node>, CompileError>) -> Result<Option<Rule>, Fault> {
    match r {
        Ok(Some(node)) => Ok(Some(node@)),
        Ok(None) => Ok(None),
        Err(e) => Err(e@),
    }
}

/// The outcome of compiling a list of schemas, as a mathematical object.
pub open spec fn list_outcome(r: Result<Vec<Node>, CompileError>) -> Result<Seq<Rule>, Fault> {
    match r {
        Ok(nodes) => Ok(nodes_view(nodes@)),
        Err(e) => Err(e@),
    }
}

/// The outcome of compiling the members of an object, as a mathematical
/// object.
pub open spec fn named_outcome(r: Result<Vec<(String, Node)>, CompileError>) -> Result<
    Seq<(Seq<char>, Rule)>,
    Fault,
> {
    match r {
        Ok(named) => Ok(named_view(named@)),
        Err(e) => Err(e@),
    }
}

/// A fault among the first keywords stays the outcome when more keywords are
/// taken in.
pub proof fn lemma_parts_fault(schema: Json, document: nat, k: nat, n: nat)
    requires
        k <= n,
        parts(schema, document, k) is Err,
    ensures
        parts(schema, document, n) == parts(schema, document, k),
    decreases n,
{
    if k < n {
        lemma_parts_fault(schema, document, k, (n - 1) as nat);
    }
}

/// A fault among the first schemas of a list stays the outcome when more of
/// the list is taken in.
pub proof fn lemma_list_fault(items: Seq<Json>, document: nat, k: nat, n: nat)
    requires
        k <= n <= items.len(),
        compiled_list(items, document, k) is Err,
    ensures
        compiled_list(items, document, n) == compiled_list(items, document, k),
    decreases n,
{
    if k < n {
        lemma_list_fault(items, document, k, (n - 1) as nat);
    }
}

/// A fault among the first members stays the outcome when more members are
/// taken in.
pub proof fn lemma_members_fault(
    members: Seq<(Seq<char>, Json)>,
    document: nat,
    keyword: Keyword,
    k: nat,
    n: nat,
)
    requires
        k <= n <= members.len(),
        compiled_members(members, document, keyword, k) is Err,
    ensures
        compiled_members(members, document, keyword, n) == compiled_members(
            members,
            document,
            keyword,
            k,
        ),
    decreases n,
{
    if k < n {
        lemma_members_fault(members, document, keyword, k, (n - 1) as nat);
    }
}

/// A fault among the first dependencies stays the outcome when more of them
/// are taken in.
pub proof fn lemma_dependencies_fault(
    members: Seq<(Seq<char>, Json)>,
    document: nat,
    k: nat,
    n: nat,
)
    requires
        k <= n <= members.len(),
        compiled_dependencies(members, document, k) is Err,
    ensures
        compiled_dependencies(members, document, n) == compiled_dependencies(members, document, k),
    decreases n,
{
    if k < n {
        lemma_dependencies_fault(members, document, k, (n - 1) as nat);
    }
}

/// Whether `text` reads `word`.
fn reads(text: &String, word: &str) -> (r: bool)
    ensures
        r == (text@ == word@),
{
    let owned = String::from_str(word);
    *text == owned
}

/// The JSON type called `name`.
pub fn kind_from(name: &String) -> (r: Option<Kind>)
    ensures
        r == kind_named(name@),
{
    if reads(name, "null") {
        Some(Kind::Null)
    } else if reads(name, "boolean") {
        Some(Kind::Boolean)
    } else if reads(name, "object") {
        Some(Kind::Object)
    } else if reads(name, "array") {
        Some(Kind::Array)
    } else if reads(name, "number") {
        Some(Kind::Number)
    } else if reads(name, "string") {
        Some(Kind::String)
    } else if reads(name, "integer") {
        Some(Kind::Integer)
    } else {
        None
    }
}

/// The strings `items`, where every one of them is a string.
fn strings_from(items: &Vec<Value>) -> (r: Option<Vec<String>>)
    ensures
        match r {
            Some(strings) => all_strings(items_view(items@)) && strings_view(strings@)
                == strings_of(items_view(items@)),
            None => !all_strings(items_view(items@)),
        },
{
    let ghost views = items_view(items@);
    let mut out: Vec<String> = Vec::new();
    let mut i: usize = 0;
    while i < items.len()
        invariant
            i <= items.len(),
            views == items_view(items@),
            out@.len() == i,
            forall|j: int| 0 <= j < i ==> (#[trigger] views[j]) is String,
            forall|j: int| 0 <= j < i ==> (#[trigger] out@[j])@ == views[j]->String_0,
        decreases items.len() - i,
    {
        match &items[i] {
            Value::String(s) => {
                out.push(s.clone());
            },
            _ => {
                assert(!(views[i as int] is String));
                return None;
            },
        }
        i = i + 1;
    }
    proof {
        assert(strings_view(out@) =~= strings_of(views));
    }
    Some(out)
}

/// The rule of `type`.
pub fn compile_type(schema: &Value) -> (r: Result<Option<Node>, CompileError>)
    ensures
        part_outcome(r) == part_type(schema@),
{
    match schema.get(Keyword::Type.text()) {
        None => Ok(None),
        Some(v) => match v {
            Value::String(name) => match kind_from(name) {
                Some(kind) => {
                    let mut kinds: Vec<Kind> = Vec::new();
                    kinds.push(kind);
                    assert(kinds@ =~= seq![kind]);
                    Ok(Some(Node::Type(kinds)))
                },
                None => Err(CompileError::new(ErrorKind::Malformed, Keyword::Type)),
            },
            Value::Array(items) => {
                let ghost views = items_view(items@);
                assert(v@ == Json::Array(views));
                if items.len() == 0 {
                    return Err(CompileError::new(ErrorKind::Malformed, Keyword::Type));
                }
                let mut kinds: Vec<Kind> = Vec::new();
                let mut i: usize = 0;
                while i < items.len()
                    invariant
                        i <= items.len(),
                        views == items_view(items@),
                        kinds@.len() == i,
                        forall|j: int| 0 <= j < i ==> kind_of(#[trigger] views[j]) is Some,
                        forall|j: int| 0 <= j < i ==> (#[trigger] kinds@[j]) == kind_of(views[j])->0,
                        v@ == Json::Array(views),
                        schema@.has(Keyword::Type.name()),
                        v@ == schema@.get(Keyword::Type.name()),
                    decreases items.len() - i,
                {
                    let found: Option<Kind> = match &items[i] {
                        Value::String(name) => kind_from(name),
                        _ => None,
                    };
                    assert(found == kind_of(views[i as int]));
                    match found {
                        Some(kind) => {
                            kinds.push(kind);
                        },
                        None => {
                            assert(!all_kinds(views));
                            return Err(CompileError::new(ErrorKind::Malformed, Keyword::Type));
                        },
                    }
                    i = i + 1;
                }
                proof {
                    assert(all_kinds(views));
                    assert(kinds@ =~= kinds_of(views));
                }
                Ok(Some(Node::Type(kinds)))
            },
            _ => Err(CompileError::new(ErrorKind::Malformed, Keyword::Type)),
        },
    }
}

/// The rule of `enum`.
pub fn compile_enum(schema: &Value) -> (r: Result<Option<Node>, CompileError>)
    ensures
        part_outcome(r) == part_enum(schema@),
{
    match schema.get(Keyword::Enum.text()) {
        None => Ok(None),
        Some(v) => match v {
            Value::Array(items) => {
                assert(v@ == Json::Array(items_view(items@)));
                if items.len() == 0 {
                    return Err(CompileError::new(ErrorKind::Malformed, Keyword::Enum));
                }
                match v.clone() {
                    Value::Array(choices) => {
                        assert(items_view(choices@) == items_view(items@));
                        Ok(Some(Node::Enum(choices)))
                    },
                    _ => Err(CompileError::new(ErrorKind::Malformed, Keyword::Enum)),
                }
            },
            _ => Err(CompileError::new(ErrorKind::Malformed, Keyword::Enum)),
        },
    }
}

/// The rule of `const`.
pub fn compile_const(schema: &Value) -> (r: Result<Option<Node>, CompileError>)
    ensures
        part_outcome(r) == part_const(schema@),
{
    match schema.get(Keyword::Const.text()) {
        None => Ok(None),
        Some(v) => Ok(Some(Node::Const(v.clone()))),
    }
}

/// The rule of `multipleOf`.
pub fn compile_multiple_of(schema: &Value) -> (r: Result<Option<Node>, CompileError>)
    ensures
        part_outcome(r) == part_multiple_of(schema@),
{
    match schema.get(Keyword::MultipleOf.text()) {
        None => Ok(None),
        Some(v) => match v {
            Value::Number(divisor) => if divisor.is_positive() {
                Ok(Some(Node::MultipleOf(divisor.clone())))
            } else {
                Err(CompileError::new(ErrorKind::Malformed, Keyword::MultipleOf))
            },
            _ => Err(CompileError::new(ErrorKind::Malformed, Keyword::MultipleOf)),
        },
    }
}

/// Whether the bound is on a count.
pub fn is_count(bound: Bound) -> (r: bool)
    ensures
        r == counts(bound),
{
    match bound {
        Bound::Minimum | Bound::Maximum | Bound::ExclusiveMinimum | Bound::ExclusiveMaximum => false,
        _ => true,
    }
}

/// The bound that a keyword sets, for the keywords that set one.
pub fn bound_for(keyword: Keyword) -> (r: Option<Bound>)
    ensures
        r == bound_of(keyword),
{
    match keyword {
        Keyword::Minimum => Some(Bound::Minimum),
        Keyword::Maximum => Some(Bound::Maximum),
        Keyword::ExclusiveMinimum => Some(Bound::ExclusiveMinimum),
        Keyword::ExclusiveMaximum => Some(Bound::ExclusiveMaximum),
        Keyword::MinLength => Some(Bound::MinLength),
        Keyword::MaxLength => Some(Bound::MaxLength),
        Keyword::MinItems => Some(Bound::MinItems),
        Keyword::MaxItems => Some(Bound::MaxItems),
        Keyword::MinProperties => Some(Bound::MinProperties),
        Keyword::MaxProperties => Some(Bound::MaxProperties),
        _ => None,
    }
}

/// The rule of a keyword that sets a bound.
pub fn compile_limit(schema: &Value, keyword: Keyword, bound: Bound) -> (r: Result<
    Option<Node>,
    CompileError,
>)
    ensures
        part_outcome(r) == part_limit(schema@, keyword, bound),
{
    match schema.get(keyword.text()) {
        None => Ok(None),
        Some(v) => match v {
            Value::Number(limit) => {
                if is_count(bound) && !(limit.is_integer() && !limit.is_negative()) {
                    Err(CompileError::new(ErrorKind::Malformed, keyword))
                } else {
                    Ok(Some(Node::Limit(bound, limit.clone())))
                }
            },
            _ => Err(CompileError::new(ErrorKind::Malformed, keyword)),
        },
    }
}

/// Whether the engine accepts `pattern` as an expression.
pub fn accepts_expression(pattern: &String) -> (r: bool)
    ensures
        r == is_expression(pattern@),
{
    proof {
        reveal_strlit("");
        assert(""@ =~= Seq::<char>::empty());
    }
    find_match(pattern.as_str(), "").is_some()
}

/// The rule of `pattern`.
pub fn compile_pattern(schema: &Value) -> (r: Result<Option<Node>, CompileError>)
    ensures
        part_outcome(r) == part_pattern(schema@),
{
    match schema.get(Keyword::Pattern.text()) {
        None => Ok(None),
        Some(v) => match v {
            Value::String(pattern) => if accepts_expression(pattern) {
                Ok(Some(Node::Pattern(pattern.clone())))
            } else {
                Err(CompileError::new(ErrorKind::Unsupported, Keyword::Pattern))
            },
            _ => Err(CompileError::new(ErrorKind::Malformed, Keyword::Pattern)),
        },
    }
}

/// The rule of `uniqueItems`.
pub fn compile_unique_items(schema: &Value) -> (r: Result<Option<Node>, CompileError>)
    ensures
        part_outcome(r) == part_unique_items(schema@),
{
    match schema.get(Keyword::UniqueItems.text()) {
        None => Ok(None),
        Some(v) => match v {
            Value::Bool(wanted) => if *wanted {
                Ok(Some(Node::UniqueItems))
            } else {
                Ok(None)
            },
            _ => Err(CompileError::new(ErrorKind::Malformed, Keyword::UniqueItems)),
        },
    }
}

/// The rule of `required`.
pub fn compile_required(schema: &Value) -> (r: Result<Option<Node>, CompileError>)
    ensures
        part_outcome(r) == part_required(schema@),
{
    match schema.get(Keyword::Required.text()) {
        None => Ok(None),
        Some(v) => match v {
            Value::Array(items) => {
                assert(v@ == Json::Array(items_view(items@)));
                match strings_from(items) {
                    Some(names) => Ok(Some(Node::Required(names))),
                    None => Err(CompileError::new(ErrorKind::Malformed, Keyword::Required)),
                }
            },
            _ => Err(CompileError::new(ErrorKind::Malformed, Keyword::Required)),
        },
    }
}

/// The step into the member called like `keyword`.
fn key_step(keyword: Keyword) -> (r: Step)
    ensures
        r@ == crate::keyword::PathStep::Key(keyword.name()),
{
    Step::Key(String::from_str(keyword.text()))
}

/// What the schema `schema`, written in document `document`, compiles to.
#[verifier::loop_isolation(false)]
pub fn compile_node(schema: &Value, document: usize) -> (r: Result<Node, CompileError>)
    ensures
        rule_outcome(r) == compiled(schema@, document as nat),
    decreases schema@.height(), 6nat,
{
    match schema {
        Value::Bool(accept) => Ok(
            if *accept {
                Node::AcceptAll
            } else {
                Node::RejectAll
            },
        ),
        Value::Object(_) => match schema.get(Keyword::Ref.text()) {
            Some(v) => match v {
                Value::String(text) => Ok(Node::Ref(Reference { document, text: text.clone() })),
                _ => Err(CompileError::new(ErrorKind::Malformed, Keyword::Ref)),
            },
            None => {
                let mut nodes: Vec<Node> = Vec::new();
                let mut k: usize = 0;
                assert(nodes_view(nodes@) =~= Seq::empty());
                while k < families()
                    invariant
                        k <= family_count(),
                        parts(schema@, document as nat, k as nat) == Ok::<Seq<Rule>, Fault>(
                            nodes_view(nodes@),
                        ),
                    decreases family_count() - k,
                {
                    let ghost before = nodes_view(nodes@);
                    let outcome = compile_part(schema, document, family_at(k));
                    assert(part_outcome(outcome) == part(
                        schema@,
                        document as nat,
                        family(k as nat),
                    ));
                    match outcome {
                        Ok(Some(node)) => {
                            nodes.push(node);
                            assert(nodes_view(nodes@) =~= before.push(node@));
                        },
                        Ok(None) => {},
                        Err(e) => {
                            proof {
                                assert(parts(schema@, document as nat, (k + 1) as nat) == Err::<
                                    Seq<Rule>,
                                    Fault,
                                >(e@));
                                lemma_parts_fault(
                                    schema@,
                                    document as nat,
                                    (k + 1) as nat,
                                    family_count(),
                                );
                            }
                            return Err(e);
                        },
                    }
                    k = k + 1;
                }
                if nodes.len() == 0 {
                    Ok(Node::AcceptAll)
                } else {
                    let ghost rules = nodes_view(nodes@);
                    let node = Node::AllOf(nodes);
                    assert(node@ == Rule::AllOf(rules));
                    Ok(node)
                }
            },
        },
        _ => {
            let e = CompileError { kind: ErrorKind::NotASchema, keyword: None, location: Vec::new() };
            assert(e@.location =~= Seq::empty());
            Err(e)
        },
    }
}

/// The rule that `keyword` contributes.
pub fn compile_part(schema: &Value, document: usize, keyword: Keyword) -> (r: Result<
    Option<Node>,
    CompileError,
>)
    ensures
        part_outcome(r) == part(schema@, document as nat, keyword),
    decreases schema@.height(), 5nat,
{
    match keyword {
        Keyword::Type => compile_type(schema),
        Keyword::Enum => compile_enum(schema),
        Keyword::Const => compile_const(schema),
        Keyword::MultipleOf => compile_multiple_of(schema),
        Keyword::Pattern => compile_pattern(schema),
        Keyword::UniqueItems => compile_unique_items(schema),
        Keyword::Required => compile_required(schema),
        Keyword::Contains | Keyword::PropertyNames | Keyword::Not => {
            let outcome = compile_sub(schema, document, keyword);
            assert(part_outcome(outcome) == sub_schema(schema@, document as nat, keyword));
            match outcome {
                Ok(Some(inner)) => {
                    let ghost rule = inner@;
                    let node = match keyword {
                        Keyword::Contains => Node::Contains(Box::new(inner)),
                        Keyword::PropertyNames => Node::PropertyNames(Box::new(inner)),
                        _ => Node::Not(Box::new(inner)),
                    };
                    assert(node@ == crate::schema::wrap_single(keyword, rule));
                    Ok(Some(node))
                },
                Ok(None) => Ok(None),
                Err(e) => Err(e),
            }
        },
        Keyword::AllOf | Keyword::AnyOf | Keyword::OneOf => compile_combination(
            schema,
            document,
            keyword,
        ),
        Keyword::Items => compile_items(schema, document),
        Keyword::If => compile_condition(schema, document),
        Keyword::Properties => compile_properties(schema, document),
        Keyword::Dependencies => compile_dependent(schema, document),
        _ => match bound_for(keyword) {
            Some(bound) => compile_limit(schema, keyword, bound),
            None => Ok(None),
        },
    }
}

/// What the sub-schema under `keyword` compiles to.
pub fn compile_sub(schema: &Value, document: usize, keyword: Keyword) -> (r: Result<
    Option<Node>,
    CompileError,
>)
    ensures
        part_outcome(r) == sub_schema(schema@, document as nat, keyword),
    decreases schema@.height(), 2nat,
{
    match schema.get(keyword.text()) {
        None => Ok(None),
        Some(v) => match compile_node(v, document) {
            Ok(node) => Ok(Some(node)),
            Err(e) => Err(e.under(key_step(keyword))),
        },
    }
}

/// What the sub-schema under `keyword` compiles to, and the node that
/// accepts everything where `schema` does not hold the keyword.
pub fn compile_sub_or_accept(schema: &Value, document: usize, keyword: Keyword) -> (r: Result<
    Node,
    CompileError,
>)
    ensures
        rule_outcome(r) == sub_or_accept(schema@, document as nat, keyword),
    decreases schema@.height(), 3nat,
{
    let outcome = compile_sub(schema, document, keyword);
    assert(part_outcome(outcome) == sub_schema(schema@, document as nat, keyword));
    match outcome {
        Ok(Some(node)) => Ok(node),
        Ok(None) => Ok(Node::AcceptAll),
        Err(e) => Err(e),
    }
}

/// The rule of `allOf`, `anyOf` or `oneOf`.
pub fn compile_combination(schema: &Value, document: usize, keyword: Keyword) -> (r: Result<
    Option<Node>,
    CompileError,
>)
    ensures
        part_outcome(r) == part_list(schema@, document as nat, keyword),
    decreases schema@.height(), 2nat,
{
    match schema.get(keyword.text()) {
        None => Ok(None),
        Some(v) => match v {
            Value::Array(items) => {
                assert(v@ == Json::Array(items_view(items@)));
                if items.len() == 0 {
                    return Err(CompileError::new(ErrorKind::Malformed, keyword));
                }
                let outcome = compile_list(items, document);
                assert(list_outcome(outcome) == compiled_list(
                    items_view(items@),
                    document as nat,
                    items_view(items@).len(),
                ));
                match outcome {
                    Ok(nodes) => {
                        let ghost rules = nodes_view(nodes@);
                        let node = match keyword {
                            Keyword::AnyOf => Node::AnyOf(nodes),
                            Keyword::OneOf => Node::OneOf(nodes),
                            _ => Node::AllOf(nodes),
                        };
                        assert(node@ == crate::schema::wrap_list(keyword, rules));
                        Ok(Some(node))
                    },
                    Err(e) => Err(e.under(key_step(keyword))),
                }
            },
            _ => Err(CompileError::new(ErrorKind::Malformed, keyword)),
        },
    }
}

/// The rule of `items` with `additionalItems`.
pub fn compile_items(schema: &Value, document: usize) -> (r: Result<Option<Node>, CompileError>)
    ensures
        part_outcome(r) == part_items(schema@, document as nat),
    decreases schema@.height(), 4nat,
{
    match schema.get(Keyword::Items.text()) {
        None => Ok(None),
        Some(v) => match v {
            Value::Array(items) => {
                assert(v@ == Json::Array(items_view(items@)));
                let outcome = compile_list(items, document);
                assert(list_outcome(outcome) == compiled_list(
                    items_view(items@),
                    document as nat,
                    items_view(items@).len(),
                ));
                match outcome {
                    Ok(nodes) => {
                        let after = compile_sub_or_accept(schema, document, Keyword::AdditionalItems);
                        assert(rule_outcome(after) == sub_or_accept(
                            schema@,
                            document as nat,
                            Keyword::AdditionalItems,
                        ));
                        match after {
                            Ok(rest) => {
                                let ghost rules = nodes_view(nodes@);
                                let ghost last = rest@;
                                let node = Node::Tuple(nodes, Box::new(rest));
                                assert(node@ == Rule::Tuple(rules, Box::new(last)));
                                Ok(Some(node))
                            },
                            Err(e) => Err(e),
                        }
                    },
                    Err(e) => Err(e.under(key_step(Keyword::Items))),
                }
            },
            _ => {
                let outcome = compile_sub(schema, document, Keyword::Items);
                assert(part_outcome(outcome) == sub_schema(
                    schema@,
                    document as nat,
                    Keyword::Items,
                ));
                match outcome {
                    Ok(Some(inner)) => {
                        let ghost rule = inner@;
                        let node = Node::Items(Box::new(inner));
                        assert(node@ == Rule::Items(Box::new(rule)));
                        Ok(Some(node))
                    },
                    Ok(None) => Ok(None),
                    Err(e) => Err(e),
                }
            },
        },
    }
}

/// The rule of `if` with `then` and `else`.
pub fn compile_condition(schema: &Value, document: usize) -> (r: Result<Option<Node>, CompileError>)
    ensures
        part_outcome(r) == part_condition(schema@, document as nat),
    decreases schema@.height(), 4nat,
{
    let first = compile_sub(schema, document, Keyword::If);
    assert(part_outcome(first) == sub_schema(schema@, document as nat, Keyword::If));
    match first {
        Ok(Some(condition)) => {
            let second = compile_sub_or_accept(schema, document, Keyword::Then);
            assert(rule_outcome(second) == sub_or_accept(schema@, document as nat, Keyword::Then));
            match second {
                Ok(consequence) => {
                    let third = compile_sub_or_accept(schema, document, Keyword::Else);
                    assert(rule_outcome(third) == sub_or_accept(
                        schema@,
                        document as nat,
                        Keyword::Else,
                    ));
                    match third {
                        Ok(alternative) => {
                            let ghost a = condition@;
                            let ghost b = consequence@;
                            let ghost c = alternative@;
                            let node = Node::IfThenElse(
                                Box::new(condition),
                                Box::new(consequence),
                                Box::new(alternative),
                            );
                            assert(node@ == Rule::IfThenElse(
                                Box::new(a),
                                Box::new(b),
                                Box::new(c),
                            ));
                            Ok(Some(node))
                        },
                        Err(e) => Err(e),
                    }
                },
                Err(e) => Err(e),
            }
        },
        Ok(None) => Ok(None),
        Err(e) => Err(e),
    }
}

/// The rules of the members of the object under `keyword`.
pub fn compile_named(schema: &Value, document: usize, keyword: Keyword) -> (r: Result<
    Vec<(String, Node)>,
    CompileError,
>)
    ensures
        named_outcome(r) == named_rules(schema@, document as nat, keyword),
    decreases schema@.height(), 2nat,
{
    match schema.get(keyword.text()) {
        None => {
            let named: Vec<(String, Node)> = Vec::new();
            assert(named_view(named@) =~= Seq::empty());
            Ok(named)
        },
        Some(v) => match v {
            Value::Object(members) => {
                assert(v@ == Json::Object(members_view(members@)));
                let outcome = compile_members(members, document, keyword);
                assert(named_outcome(outcome) == compiled_members(
                    members_view(members@),
                    document as nat,
                    keyword,
                    members_view(members@).len(),
                ));
                match outcome {
                    Ok(named) => Ok(named),
                    Err(e) => Err(e.under(key_step(keyword))),
                }
            },
            _ => Err(CompileError::new(ErrorKind::Malformed, keyword)),
        },
    }
}

/// The rule of `properties`, `patternProperties` and `additionalProperties`.
pub fn compile_properties(schema: &Value, document: usize) -> (r: Result<Option<Node>, CompileError>)
    ensures
        part_outcome(r) == part_properties(schema@, document as nat),
    decreases schema@.height(), 4nat,
{
    let by_name: bool = schema.get(Keyword::Properties.text()).is_some();
    let by_pattern: bool = schema.get(Keyword::PatternProperties.text()).is_some();
    let others: bool = schema.get(Keyword::AdditionalProperties.text()).is_some();
    if !by_name && !by_pattern && !others {
        return Ok(None);
    }
    let first = compile_named(schema, document, Keyword::Properties);
    assert(named_outcome(first) == named_rules(schema@, document as nat, Keyword::Properties));
    match first {
        Ok(named) => {
            let second = compile_named(schema, document, Keyword::PatternProperties);
            assert(named_outcome(second) == named_rules(
                schema@,
                document as nat,
                Keyword::PatternProperties,
            ));
            match second {
                Ok(patterns) => {
                    let third = compile_sub_or_accept(
                        schema,
                        document,
                        Keyword::AdditionalProperties,
                    );
                    assert(rule_outcome(third) == sub_or_accept(
                        schema@,
                        document as nat,
                        Keyword::AdditionalProperties,
                    ));
                    match third {
                        Ok(additional) => {
                            let ghost a = named_view(named@);
                            let ghost b = named_view(patterns@);
                            let ghost c = additional@;
                            let node = Node::Properties(named, patterns, Box::new(additional));
                            assert(node@ == Rule::Properties(a, b, Box::new(c)));
                            Ok(Some(node))
                        },
                        Err(e) => Err(e),
                    }
                },
                Err(e) => Err(e),
            }
        },
        Err(e) => Err(e),
    }
}

/// The rule of `dependencies`.
pub fn compile_dependent(schema: &Value, document: usize) -> (r: Result<Option<Node>, CompileError>)
    ensures
        part_outcome(r) == part_dependencies(schema@, document as nat),
    decreases schema@.height(), 2nat,
{
    match schema.get(Keyword::Dependencies.text()) {
        None => Ok(None),
        Some(v) => match v {
            Value::Object(members) => {
                assert(v@ == Json::Object(members_view(members@)));
                let outcome = compile_dependencies(members, document);
                assert(list_outcome(outcome) == compiled_dependencies(
                    members_view(members@),
                    document as nat,
                    members_view(members@).len(),
                ));
                match outcome {
                    Ok(nodes) => {
                        let ghost rules = nodes_view(nodes@);
                        let node = Node::AllOf(nodes);
                        assert(node@ == Rule::AllOf(rules));
                        Ok(Some(node))
                    },
                    Err(e) => Err(e.under(key_step(Keyword::Dependencies))),
                }
            },
            _ => Err(CompileError::new(ErrorKind::Malformed, Keyword::Dependencies)),
        },
    }
}

/// What the schemas `items` compile to.
#[verifier::loop_isolation(false)]
pub fn compile_list(items: &Vec<Value>, document: usize) -> (r: Result<Vec<Node>, CompileError>)
    ensures
        list_outcome(r) == compiled_list(
            items_view(items@),
            document as nat,
            items_view(items@).len(),
        ),
    decreases Json::Array(items_view(items@)).height(), 1nat,
{
    let ghost views = items_view(items@);
    let mut nodes: Vec<Node> = Vec::new();
    let mut i: usize = 0;
    assert(nodes_view(nodes@) =~= Seq::empty());
    while i < items.len()
        invariant
            i <= items.len(),
            compiled_list(views, document as nat, i as nat) == Ok::<Seq<Rule>, Fault>(
                nodes_view(nodes@),
            ),
        decreases items.len() - i,
    {
        let ghost before = nodes_view(nodes@);
        proof {
            lemma_tallest(views, i as int);
        }
        let outcome = compile_node(&items[i], document);
        assert(rule_outcome(outcome) == compiled(views[i as int], document as nat));
        match outcome {
            Ok(node) => {
                nodes.push(node);
                assert(nodes_view(nodes@) =~= before.push(node@));
            },
            Err(e) => {
                let located = e.under(Step::Index(i));
                proof {
                    assert(compiled_list(views, document as nat, (i + 1) as nat) == Err::<
                        Seq<Rule>,
                        Fault,
                    >(located@));
                    lemma_list_fault(views, document as nat, (i + 1) as nat, views.len());
                }
                return Err(located);
            },
        }
        i = i + 1;
    }
    Ok(nodes)
}

/// What the values of `members` compile to, each under its member's name.
#[verifier::loop_isolation(false)]
pub fn compile_members(members: &Vec<(String, Value)>, document: usize, keyword: Keyword) -> (r:
    Result<Vec<(String, Node)>, CompileError>)
    ensures
        named_outcome(r) == compiled_members(
            members_view(members@),
            document as nat,
            keyword,
            members_view(members@).len(),
        ),
    decreases Json::Object(members_view(members@)).height(), 1nat,
{
    let ghost views = members_view(members@);
    let mut named: Vec<(String, Node)> = Vec::new();
    let mut i: usize = 0;
    assert(named_view(named@) =~= Seq::empty());
    while i < members.len()
        invariant
            i <= members.len(),
            compiled_members(views, document as nat, keyword, i as nat) == Ok::<
                Seq<(Seq<char>, Rule)>,
                Fault,
            >(named_view(named@)),
        decreases members.len() - i,
    {
        let ghost before = named_view(named@);
        proof {
            lemma_tallest_member(views, i as int);
        }
        let is_pattern: bool = match keyword {
            Keyword::PatternProperties => true,
            _ => false,
        };
        if is_pattern && !accepts_expression(&members[i].0) {
            let located = CompileError::new(ErrorKind::Unsupported, keyword).under(
                Step::Key(members[i].0.clone()),
            );
            proof {
                assert(compiled_members(views, document as nat, keyword, (i + 1) as nat) == Err::<
                    Seq<(Seq<char>, Rule)>,
                    Fault,
                >(located@));
                lemma_members_fault(views, document as nat, keyword, (i + 1) as nat, views.len());
            }
            return Err(located);
        }
        let outcome = compile_node(&members[i].1, document);
        assert(rule_outcome(outcome) == compiled(views[i as int].1, document as nat));
        match outcome {
            Ok(node) => {
                named.push((members[i].0.clone(), node));
                assert(named_view(named@) =~= before.push((views[i as int].0, node@)));
            },
            Err(e) => {
                let located = e.under(Step::Key(members[i].0.clone()));
                proof {
                    assert(compiled_members(views, document as nat, keyword, (i + 1) as nat)
                        == Err::<Seq<(Seq<char>, Rule)>, Fault>(located@));
                    lemma_members_fault(
                        views,
                        document as nat,
                        keyword,
                        (i + 1) as nat,
                        views.len(),
                    );
                }
                return Err(located);
            },
        }
        i = i + 1;
    }
    Ok(named)
}

/// The rules of the members of `dependencies`.
#[verifier::loop_isolation(false)]
pub fn compile_dependencies(members: &Vec<(String, Value)>, document: usize) -> (r: Result<
    Vec<Node>,
    CompileError,
>)
    ensures
        list_outcome(r) == compiled_dependencies(
            members_view(members@),
            document as nat,
            members_view(members@).len(),
        ),
    decreases Json::Object(members_view(members@)).height(), 1nat,
{
    let ghost views = members_view(members@);
    let mut nodes: Vec<Node> = Vec::new();
    let mut i: usize = 0;
    assert(nodes_view(nodes@) =~= Seq::empty());
    while i < members.len()
        invariant
            i <= members.len(),
            compiled_dependencies(views, document as nat, i as nat) == Ok::<Seq<Rule>, Fault>(
                nodes_view(nodes@),
            ),
        decreases members.len() - i,
    {
        let ghost before = nodes_view(nodes@);
        proof {
            lemma_tallest_member(views, i as int);
        }
        match &members[i].1 {
            Value::Array(names) => {
                assert(views[i as int].1 == Json::Array(items_view(names@)));
                match strings_from(names) {
                    Some(strings) => {
                        let node = Node::Requires(members[i].0.clone(), strings);
                        nodes.push(node);
                        assert(nodes_view(nodes@) =~= before.push(
                            Rule::Requires(views[i as int].0, strings_of(items_view(names@))),
                        ));
                    },
                    None => {
                        let located = CompileError::new(
                            ErrorKind::Malformed,
                            Keyword::Dependencies,
                        ).under(Step::Key(members[i].0.clone()));
                        proof {
                            assert(compiled_dependencies(views, document as nat, (i + 1) as nat)
                                == Err::<Seq<Rule>, Fault>(located@));
                            lemma_dependencies_fault(
                                views,
                                document as nat,
                                (i + 1) as nat,
                                views.len(),
                            );
                        }
                        return Err(located);
                    },
                }
            },
            _ => {
                let outcome = compile_node(&members[i].1, document);
                assert(rule_outcome(outcome) == compiled(views[i as int].1, document as nat));
                match outcome {
                    Ok(inner) => {
                        let ghost rule = inner@;
                        let node = Node::Implies(members[i].0.clone(), Box::new(inner));
                        assert(node@ == Rule::Implies(views[i as int].0, Box::new(rule)));
                        nodes.push(node);
                        assert(nodes_view(nodes@) =~= before.push(
                            Rule::Implies(views[i as int].0, Box::new(rule)),
                        ));
                    },
                    Err(e) => {
                        let located = e.under(Step::Key(members[i].0.clone()));
                        proof {
                            assert(compiled_dependencies(views, document as nat, (i + 1) as nat)
                                == Err::<Seq<Rule>, Fault>(located@));
                            lemma_dependencies_fault(
                                views,
                                document as nat,
                                (i + 1) as nat,
                                views.len(),
                            );
                        }
                        return Err(located);
                    },
                }
            },
        }
        i = i + 1;
    }
    Ok(nodes)
}

} // verus!
