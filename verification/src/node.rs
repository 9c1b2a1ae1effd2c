//! Compiled validation rules.

use vstd::prelude::*;
use crate::number::Number;
use crate::rule::Bound;
use crate::rule::Kind;
use crate::rule::Rule;
use crate::rule::Target;
use crate::value::Value;
use crate::value::items_view;

verus! {

/// A reference as it is kept in a compiled rule: its text and the document
/// in which it was written.
#[derive(Debug)]
pub struct Reference {
    pub document: usize,
    pub text: String,
}

impl View for Reference {
    type V = Target;

    open spec fn view(&self) -> Target {
        Target { document: self.document as nat, text: self.text@ }
    }
}

/// A compiled validation rule. Each variant stands for the `Rule` of the same
/// name.
#[derive(Debug)]
pub enum Node {
    AcceptAll,
    RejectAll,
    Const(Value),
    Enum(Vec<Value>),
    Type(Vec<Kind>),
    Limit(Bound, Number),
    MultipleOf(Number),
    Pattern(String),
    UniqueItems,
    Required(Vec<String>),
    Requires(String, Vec<String>),
    Implies(String, Box<Node>),
    AllOf(Vec<Node>),
    AnyOf(Vec<Node>),
    OneOf(Vec<Node>),
    Not(Box<Node>),
    IfThenElse(Box<Node>, Box<Node>, Box<Node>),
    Properties(Vec<(String, Node)>, Vec<(String, Node)>, Box<Node>),
    PropertyNames(Box<Node>),
    Items(Box<Node>),
    Tuple(Vec<Node>, Box<Node>),
    Contains(Box<Node>),
    Ref(Reference),
}

/// The character sequences of a list of strings.
pub open spec fn strings_view(strings: Seq<String>) -> Seq<Seq<char>> {
    Seq::new(strings.len(), |i: int| strings[i]@)
}

/// The rules that a list of nodes stands for.
pub open spec fn nodes_view(nodes: Seq<Node>) -> Seq<Rule>
    decreases nodes,
{
    Seq::new(
        nodes.len(),
        |i: int|
            if 0 <= i < nodes.len() {
                rule_of(nodes[i])
            } else {
                Rule::AcceptAll
            },
    )
}

/// The named rules that a list of named nodes stands for.
pub open spec fn named_view(named: Seq<(String, Node)>) -> Seq<(Seq<char>, Rule)>
    decreases named,
{
    Seq::new(
        named.len(),
        |i: int|
            if 0 <= i < named.len() {
                (named[i].0@, rule_of(named[i].1))
            } else {
                (Seq::empty(), Rule::AcceptAll)
            },
    )
}

/// The table of rules that a table of nodes stands for.
pub open spec fn table_view(table: Seq<(Reference, Node)>) -> Seq<(Target, Rule)> {
    Seq::new(table.len(), |i: int| (table[i].0@, table[i].1@))
}

/// The rule that a node stands for.
pub open spec fn rule_of(node: Node) -> Rule
    decreases node,
{
    match node {
            Node::AcceptAll => Rule::AcceptAll,
            Node::RejectAll => Rule::RejectAll,
            Node::Const(expected) => Rule::Const(expected@),
            Node::Enum(choices) => Rule::Enum(items_view(choices@)),
            Node::Type(kinds) => Rule::Type(kinds@),
            Node::Limit(bound, limit) => Rule::Limit(bound, limit@),
            Node::MultipleOf(divisor) => Rule::MultipleOf(divisor@),
            Node::Pattern(pattern) => Rule::Pattern(pattern@),
            Node::UniqueItems => Rule::UniqueItems,
            Node::Required(names) => Rule::Required(strings_view(names@)),
            Node::Requires(name, names) => Rule::Requires(name@, strings_view(names@)),
            Node::Implies(name, inner) => Rule::Implies(name@, Box::new(rule_of(*inner))),
            Node::AllOf(nodes) => Rule::AllOf(nodes_view(nodes@)),
            Node::AnyOf(nodes) => Rule::AnyOf(nodes_view(nodes@)),
            Node::OneOf(nodes) => Rule::OneOf(nodes_view(nodes@)),
            Node::Not(inner) => Rule::Not(Box::new(rule_of(*inner))),
            Node::IfThenElse(condition, consequence, alternative) => Rule::IfThenElse(
                Box::new(rule_of(*condition)),
                Box::new(rule_of(*consequence)),
                Box::new(rule_of(*alternative)),
            ),
            Node::Properties(named, patterns, additional) => Rule::Properties(
                named_view(named@),
                named_view(patterns@),
                Box::new(rule_of(*additional)),
            ),
            Node::PropertyNames(inner) => Rule::PropertyNames(Box::new(rule_of(*inner))),
            Node::Items(inner) => Rule::Items(Box::new(rule_of(*inner))),
            Node::Tuple(nodes, rest) => Rule::Tuple(nodes_view(nodes@), Box::new(rule_of(*rest))),
            Node::Contains(inner) => Rule::Contains(Box::new(rule_of(*inner))),
            Node::Ref(reference) => Rule::Ref(reference@),
    }
}

impl View for Node {
    type V = Rule;

    open spec fn view(&self) -> Rule {
        rule_of(*self)
    }
}

} // verus!
