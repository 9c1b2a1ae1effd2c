//! The references that a rule follows, and the table that holds their rules.

use vstd::prelude::*;
use crate::node::Node;
use crate::node::Reference;
use crate::node::named_view;
use crate::node::nodes_view;
use crate::rule::Rule;
use crate::rule::Target;

verus! {

/// Whether `rule` holds a reference to `target`, at any depth.
pub open spec fn mentions(rule: Rule, target: Target) -> bool
    decreases rule,
{
    match rule {
        Rule::Ref(t) => t == target,
        Rule::Implies(_, inner) => mentions(*inner, target),
        Rule::Not(inner) => mentions(*inner, target),
        Rule::PropertyNames(inner) => mentions(*inner, target),
        Rule::Items(inner) => mentions(*inner, target),
        Rule::Contains(inner) => mentions(*inner, target),
        Rule::AllOf(rules) => mentions_any(rules, target),
        Rule::AnyOf(rules) => mentions_any(rules, target),
        Rule::OneOf(rules) => mentions_any(rules, target),
        Rule::IfThenElse(condition, consequence, alternative) => mentions(*condition, target)
            || mentions(*consequence, target) || mentions(*alternative, target),
        Rule::Properties(named, patterns, additional) => mentions_named(named, target)
            || mentions_named(patterns, target) || mentions(*additional, target),
        Rule::Tuple(rules, rest) => mentions_any(rules, target) || mentions(*rest, target),
        _ => false,
    }
}

/// Whether one of `rules` holds a reference to `target`.
pub open spec fn mentions_any(rules: Seq<Rule>, target: Target) -> bool
    decreases rules,
{
    exists|i: int| 0 <= i < rules.len() && mentions(#[trigger] rules[i], target)
}

/// Whether one of the rules `named` holds a reference to `target`.
pub open spec fn mentions_named(named: Seq<(Seq<char>, Rule)>, target: Target) -> bool
    decreases named,
{
    exists|i: int| 0 <= i < named.len() && mentions((#[trigger] named[i]).1, target)
}

/// The targets of a list of references.
pub open spec fn targets_view(keys: Seq<Reference>) -> Seq<Target> {
    Seq::new(keys.len(), |i: int| keys[i]@)
}

/// `after` is `before` with more targets behind it.
pub open spec fn grown(before: Seq<Target>, after: Seq<Target>) -> bool {
    &&& before.len() <= after.len()
    &&& forall|j: int| 0 <= j < before.len() ==> after[j] == before[j]
}

/// What collecting the references of a rule does to a list of targets
/// without duplicates: it adds, behind those already there, the targets that
/// the rule mentions and that were missing, and nothing else.
pub open spec fn collected(
    before: Seq<Target>,
    after: Seq<Target>,
    wanted: spec_fn(Target) -> bool,
) -> bool {
    &&& grown(before, after)
    &&& after.no_duplicates()
    &&& forall|t: Target| #[trigger] wanted(t) ==> after.contains(t)
    &&& forall|j: int| before.len() <= j < after.len() ==> wanted(#[trigger] after[j])
}

/// Collecting for one thing and then for another collects for both.
pub proof fn lemma_collected_both(
    a: Seq<Target>,
    b: Seq<Target>,
    c: Seq<Target>,
    first: spec_fn(Target) -> bool,
    second: spec_fn(Target) -> bool,
    both: spec_fn(Target) -> bool,
)
    requires
        collected(a, b, first),
        collected(b, c, second),
        forall|t: Target| #[trigger] both(t) == (first(t) || second(t)),
    ensures
        collected(a, c, both),
{
    assert forall|t: Target| #[trigger] both(t) implies c.contains(t) by {
        if first(t) {
            let j = choose|j: int| 0 <= j < b.len() && b[j] == t;
            assert(c[j] == t);
        }
    }
    assert forall|j: int| a.len() <= j < c.len() implies both(#[trigger] c[j]) by {
        if j < b.len() {
            assert(c[j] == b[j]);
        }
    }
}

/// Collecting nothing leaves the list as it is.
pub proof fn lemma_collected_none(a: Seq<Target>, wanted: spec_fn(Target) -> bool)
    requires
        a.no_duplicates(),
        forall|t: Target| !#[trigger] wanted(t),
    ensures
        collected(a, a, wanted),
{
}

/// What was collected for one thing was collected for anything that wants
/// the same targets.
pub proof fn lemma_collected_same(
    a: Seq<Target>,
    b: Seq<Target>,
    one: spec_fn(Target) -> bool,
    other: spec_fn(Target) -> bool,
)
    requires
        collected(a, b, one),
        forall|t: Target| #![trigger one(t)] #![trigger other(t)] one(t) == other(t),
    ensures
        collected(a, b, other),
{
    assert forall|j: int| a.len() <= j < b.len() implies other(#[trigger] b[j]) by {
        assert(one(b[j]));
    }
}

/// Whether `keys` holds a reference to the target of `reference`.
pub fn has_key(keys: &Vec<Reference>, reference: &Reference) -> (r: bool)
    ensures
        r == targets_view(keys@).contains(reference@),
{
    let mut i: usize = 0;
    while i < keys.len()
        invariant
            i <= keys.len(),
            forall|j: int| 0 <= j < i ==> targets_view(keys@)[j] != reference@,
        decreases keys.len() - i,
    {
        if keys[i].document == reference.document && keys[i].text == reference.text {
            assert(targets_view(keys@)[i as int] == reference@);
            return true;
        }
        i = i + 1;
    }
    false
}

/// Adds to `keys` the references of `node` that it does not hold yet.
pub fn collect(node: &Node, keys: &mut Vec<Reference>)
    requires
        targets_view(old(keys)@).no_duplicates(),
    ensures
        collected(
            targets_view(old(keys)@),
            targets_view(final(keys)@),
            |t: Target| mentions(node@, t),
        ),
        grown(targets_view(old(keys)@), targets_view(final(keys)@)),
        targets_view(final(keys)@).no_duplicates(),
        forall|t: Target| #[trigger]
            mentions(node@, t) ==> targets_view(final(keys)@).contains(t),
        forall|j: int|
            old(keys)@.len() <= j < final(keys)@.len() ==> mentions(
                node@,
                #[trigger] targets_view(final(keys)@)[j],
            ),
    decreases node,
{
    let ghost before = targets_view(keys@);
    let ghost wanted = |t: Target| mentions(node@, t);
    match node {
        Node::Ref(reference) => {
            if !has_key(keys, reference) {
                keys.push(Reference { document: reference.document, text: reference.text.clone() });
                proof {
                    let after = targets_view(keys@);
                    assert(after =~= before.push(reference@));
                    assert(after[before.len() as int] == reference@);
                    assert forall|t: Target| #[trigger] wanted(t) implies after.contains(t) by {
                        assert(after[before.len() as int] == t);
                    }
                }
            } else {
                proof {
                    assert forall|t: Target| #[trigger] wanted(t) implies before.contains(t) by {
                        assert(t == reference@);
                    }
                }
            }
        },
        Node::Implies(_, inner) => {
            collect(inner, keys);
            proof {
                lemma_collected_same(
                    before,
                    targets_view(keys@),
                    |t: Target| mentions(inner@, t),
                    wanted,
                );
            }
        },
        Node::Not(inner) => {
            collect(inner, keys);
            proof {
                lemma_collected_same(
                    before,
                    targets_view(keys@),
                    |t: Target| mentions(inner@, t),
                    wanted,
                );
            }
        },
        Node::PropertyNames(inner) => {
            collect(inner, keys);
            proof {
                lemma_collected_same(
                    before,
                    targets_view(keys@),
                    |t: Target| mentions(inner@, t),
                    wanted,
                );
            }
        },
        Node::Items(inner) => {
            collect(inner, keys);
            proof {
                lemma_collected_same(
                    before,
                    targets_view(keys@),
                    |t: Target| mentions(inner@, t),
                    wanted,
                );
            }
        },
        Node::Contains(inner) => {
            collect(inner, keys);
            proof {
                lemma_collected_same(
                    before,
                    targets_view(keys@),
                    |t: Target| mentions(inner@, t),
                    wanted,
                );
            }
        },
        Node::AllOf(nodes) => {
            assert(node@ == Rule::AllOf(nodes_view(nodes@)));
            collect_all(nodes, keys);
            proof {
                lemma_collected_same(
                    before,
                    targets_view(keys@),
                    |t: Target| mentions_any(nodes_view(nodes@), t),
                    wanted,
                );
            }
        },
        Node::AnyOf(nodes) => {
            assert(node@ == Rule::AnyOf(nodes_view(nodes@)));
            collect_all(nodes, keys);
            proof {
                lemma_collected_same(
                    before,
                    targets_view(keys@),
                    |t: Target| mentions_any(nodes_view(nodes@), t),
                    wanted,
                );
            }
        },
        Node::OneOf(nodes) => {
            assert(node@ == Rule::OneOf(nodes_view(nodes@)));
            collect_all(nodes, keys);
            proof {
                lemma_collected_same(
                    before,
                    targets_view(keys@),
                    |t: Target| mentions_any(nodes_view(nodes@), t),
                    wanted,
                );
            }
        },
        Node::IfThenElse(condition, consequence, alternative) => {
            assert(node@ == Rule::IfThenElse(
                Box::new(condition@),
                Box::new(consequence@),
                Box::new(alternative@),
            ));
            collect(condition, keys);
            let ghost one = targets_view(keys@);
            collect(consequence, keys);
            let ghost two = targets_view(keys@);
            collect(alternative, keys);
            proof {
                let first = |t: Target| mentions(condition@, t);
                let second = |t: Target| mentions(consequence@, t);
                let third = |t: Target| mentions(alternative@, t);
                let pair = |t: Target| first(t) || second(t);
                lemma_collected_both(before, one, two, first, second, pair);
                lemma_collected_both(before, two, targets_view(keys@), pair, third, wanted);
            }
        },
        Node::Properties(named, patterns, additional) => {
            assert(node@ == Rule::Properties(
                named_view(named@),
                named_view(patterns@),
                Box::new(additional@),
            ));
            collect_named(named, keys);
            let ghost one = targets_view(keys@);
            collect_named(patterns, keys);
            let ghost two = targets_view(keys@);
            collect(additional, keys);
            proof {
                let first = |t: Target| mentions_named(named_view(named@), t);
                let second = |t: Target| mentions_named(named_view(patterns@), t);
                let third = |t: Target| mentions(additional@, t);
                let pair = |t: Target| first(t) || second(t);
                lemma_collected_both(before, one, two, first, second, pair);
                lemma_collected_both(before, two, targets_view(keys@), pair, third, wanted);
            }
        },
        Node::Tuple(nodes, rest) => {
            assert(node@ == Rule::Tuple(nodes_view(nodes@), Box::new(rest@)));
            collect_all(nodes, keys);
            let ghost one = targets_view(keys@);
            collect(rest, keys);
            proof {
                let first = |t: Target| mentions_any(nodes_view(nodes@), t);
                let second = |t: Target| mentions(rest@, t);
                lemma_collected_both(before, one, targets_view(keys@), first, second, wanted);
            }
        },
        _ => {
            proof {
                lemma_collected_none(before, wanted);
            }
        },
    }
    proof {
        let after = targets_view(keys@);
        assert(collected(before, after, wanted));
        assert forall|t: Target| #[trigger] mentions(node@, t) implies after.contains(t) by {
            assert(wanted(t));
        }
        assert forall|j: int| before.len() <= j < after.len() implies mentions(
            node@,
            #[trigger] after[j],
        ) by {
            assert(wanted(after[j]));
        }
    }
}

/// Adds to `keys` the references of `nodes` that it does not hold yet.
pub fn collect_all(nodes: &Vec<Node>, keys: &mut Vec<Reference>)
    requires
        targets_view(old(keys)@).no_duplicates(),
    ensures
        collected(
            targets_view(old(keys)@),
            targets_view(final(keys)@),
            |t: Target| mentions_any(nodes_view(nodes@), t),
        ),
    decreases nodes,
{
    let ghost before = targets_view(keys@);
    let ghost rules = nodes_view(nodes@);
    let mut i: usize = 0;
    proof {
        lemma_collected_none(before, |t: Target| mentions_any(rules.take(0), t));
    }
    while i < nodes.len()
        invariant
            i <= nodes.len(),
            rules == nodes_view(nodes@),
            collected(
                before,
                targets_view(keys@),
                |t: Target| mentions_any(rules.take(i as int), t),
            ),
        decreases nodes.len() - i,
    {
        let ghost middle = targets_view(keys@);
        collect(&nodes[i], keys);
        proof {
            let first = |t: Target| mentions_any(rules.take(i as int), t);
            let second = |t: Target| mentions(rules[i as int], t);
            let both = |t: Target| mentions_any(rules.take(i + 1), t);
            assert forall|t: Target| #[trigger] both(t) == (first(t) || second(t)) by {
                lemma_mentions_any_step(rules, i as int, t);
            }
            lemma_collected_both(before, middle, targets_view(keys@), first, second, both);
        }
        i = i + 1;
    }
    proof {
        assert(rules.take(i as int) =~= rules);
    }
}

/// Adds to `keys` the references of the nodes `named` that it does not hold
/// yet.
pub fn collect_named(named: &Vec<(String, Node)>, keys: &mut Vec<Reference>)
    requires
        targets_view(old(keys)@).no_duplicates(),
    ensures
        collected(
            targets_view(old(keys)@),
            targets_view(final(keys)@),
            |t: Target| mentions_named(named_view(named@), t),
        ),
    decreases named,
{
    let ghost before = targets_view(keys@);
    let ghost rules = named_view(named@);
    let mut i: usize = 0;
    proof {
        lemma_collected_none(before, |t: Target| mentions_named(rules.take(0), t));
    }
    while i < named.len()
        invariant
            i <= named.len(),
            rules == named_view(named@),
            collected(
                before,
                targets_view(keys@),
                |t: Target| mentions_named(rules.take(i as int), t),
            ),
        decreases named.len() - i,
    {
        let ghost middle = targets_view(keys@);
        collect(&named[i].1, keys);
        proof {
            let first = |t: Target| mentions_named(rules.take(i as int), t);
            let second = |t: Target| mentions(rules[i as int].1, t);
            let both = |t: Target| mentions_named(rules.take(i + 1), t);
            assert forall|t: Target| #[trigger] both(t) == (first(t) || second(t)) by {
                lemma_mentions_named_step(rules, i as int, t);
            }
            lemma_collected_both(before, middle, targets_view(keys@), first, second, both);
        }
        i = i + 1;
    }
    proof {
        assert(rules.take(i as int) =~= rules);
    }
}

/// One more rule in a list mentions what the shorter list mentions and what
/// the rule itself mentions.
pub proof fn lemma_mentions_any_step(rules: Seq<Rule>, i: int, target: Target)
    requires
        0 <= i < rules.len(),
    ensures
        mentions_any(rules.take(i + 1), target) == (mentions_any(rules.take(i), target) || mentions(
            rules[i],
            target,
        )),
{
    let shorter = rules.take(i);
    let longer = rules.take(i + 1);
    if mentions_any(longer, target) {
        let j = choose|j: int| 0 <= j < longer.len() && mentions(#[trigger] longer[j], target);
        if j < i {
            assert(shorter[j] == longer[j]);
        }
    }
    if mentions_any(shorter, target) {
        let j = choose|j: int| 0 <= j < shorter.len() && mentions(#[trigger] shorter[j], target);
        assert(longer[j] == shorter[j]);
    }
    if mentions(rules[i], target) {
        assert(longer[i] == rules[i]);
    }
}

/// One more named rule in a list mentions what the shorter list mentions and
/// what the rule itself mentions.
pub proof fn lemma_mentions_named_step(named: Seq<(Seq<char>, Rule)>, i: int, target: Target)
    requires
        0 <= i < named.len(),
    ensures
        mentions_named(named.take(i + 1), target) == (mentions_named(named.take(i), target)
            || mentions(named[i].1, target)),
{
    let shorter = named.take(i);
    let longer = named.take(i + 1);
    if mentions_named(longer, target) {
        let j = choose|j: int| 0 <= j < longer.len() && mentions((#[trigger] longer[j]).1, target);
        if j < i {
            assert(shorter[j] == longer[j]);
        }
    }
    if mentions_named(shorter, target) {
        let j = choose|j: int|
            0 <= j < shorter.len() && mentions((#[trigger] shorter[j]).1, target);
        assert(longer[j] == shorter[j]);
    }
    if mentions(named[i].1, target) {
        assert(longer[i] == named[i]);
    }
}

} // verus!
