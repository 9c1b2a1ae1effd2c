//! Compiled schemas: how one is made of a schema and the documents it refers
//! to, and how it judges a value.

use vstd::prelude::*;
use crate::compile::compile_node;
use crate::evaluate::check;
use crate::keyword::CompileError;
use crate::keyword::ErrorKind;
use crate::keyword::Fault;
use crate::keyword::Keyword;
use crate::keyword::PathStep;
use crate::keyword::Step;
use crate::keyword::fault;
use crate::node::Node;
use crate::node::Reference;
use crate::node::table_view;
use crate::pointer::documents_view;
use crate::pointer::resolve;
use crate::pointer::resolve_reference;
use crate::resolver::collect;
use crate::resolver::mentions;
use crate::resolver::targets_view;
use crate::rule::Rule;
use crate::rule::Target;
use crate::schema::compiled;
use crate::value::Json;
use crate::value::Value;

verus! {

/// Something that judges JSON values.
pub trait Validator {
    /// Whether `instance` is accepted.
    spec fn accepts(&self, instance: Json) -> bool;

    /// Whether `value` is accepted.
    fn validate(&self, value: &Value) -> (verdict: bool)
        ensures
            verdict == self.accepts(value@),
    ;
}

/// A compiled schema: the rule of the schema itself, and a table that holds,
/// for every reference that can be met while judging a value, the rule of
/// the schema that the reference leads to.
#[derive(Debug)]
pub struct CompiledSchema {
    pub root: Node,
    pub table: Vec<(Reference, Node)>,
}

/// The targets under which the entries of a table are kept.
pub open spec fn table_targets(table: Seq<(Target, Rule)>) -> Seq<Target> {
    Seq::new(table.len(), |i: int| table[i].0)
}

/// The entry's target leads to a schema, and the entry's rule is what that
/// schema compiles to.
pub open spec fn entry_holds(
    root: Json,
    documents: Seq<(Seq<char>, Json)>,
    entry: (Target, Rule),
) -> bool {
    match resolve(root, documents, entry.0) {
        Some((d, schema)) => compiled(schema, d) == Ok::<Rule, Fault>(entry.1),
        None => false,
    }
}

/// `rule` and `table` are the compiled form of the schema `root` with the
/// documents `documents`: `rule` is what `root` compiles to; no target
/// stands twice in the table; every entry holds the rule of the schema that
/// its target leads to; every reference in `rule` or in a rule of the table
/// has an entry; and every entry is there for a reference in `rule` or in the
/// rule of an entry before it. So the table holds the references that can be
/// reached from `root`, each once, and nothing else.
pub open spec fn compiles_to(
    root: Json,
    documents: Seq<(Seq<char>, Json)>,
    rule: Rule,
    table: Seq<(Target, Rule)>,
) -> bool {
    &&& compiled(root, 0) == Ok::<Rule, Fault>(rule)
    &&& table_targets(table).no_duplicates()
    &&& forall|i: int| 0 <= i < table.len() ==> entry_holds(root, documents, #[trigger] table[i])
    &&& forall|t: Target| #[trigger] mentions(rule, t) ==> table_targets(table).contains(t)
    &&& forall|i: int, t: Target|
        0 <= i < table.len() && #[trigger] mentions(table[i].1, t) ==> table_targets(
            table,
        ).contains(t)
    &&& forall|i: int| 0 <= i < table.len() ==> needed(rule, table, #[trigger] table[i].0, i)
}

/// `target` is mentioned by `rule` or by the rule of one of the first `n`
/// entries of `table`.
pub open spec fn needed(rule: Rule, table: Seq<(Target, Rule)>, target: Target, n: int) -> bool {
    mentions(rule, target) || exists|j: int|
        0 <= j < n && j < table.len() && mentions((#[trigger] table[j]).1, target)
}

/// The schema that `from` leads to compiles, and its rule holds a reference
/// to `to`.
pub open spec fn linked(
    root: Json,
    documents: Seq<(Seq<char>, Json)>,
    from: Target,
    to: Target,
) -> bool {
    match resolve(root, documents, from) {
        Some((d, schema)) => match compiled(schema, d) {
            Ok(rule) => mentions(rule, to),
            Err(_) => false,
        },
        None => false,
    }
}

/// `chain` is a way from the schema `root` along references: `root` compiles
/// and its rule holds the first of them, and each leads to a schema whose
/// rule holds the next.
pub open spec fn reaches(root: Json, documents: Seq<(Seq<char>, Json)>, chain: Seq<Target>) -> bool {
    &&& chain.len() > 0
    &&& match compiled(root, 0) {
        Ok(rule) => mentions(rule, chain[0]),
        Err(_) => false,
    }
    &&& forall|i: int|
        0 <= i < chain.len() - 1 ==> linked(root, documents, #[trigger] chain[i], chain[i + 1])
}

/// `f` is what is wrong with the reference `target`: it leads nowhere, or to
/// a schema that does not compile. Either way the text of the reference is
/// the first step of the place that `f` gives.
pub open spec fn broken(
    root: Json,
    documents: Seq<(Seq<char>, Json)>,
    target: Target,
    f: Fault,
) -> bool {
    match resolve(root, documents, target) {
        None => f == fault(ErrorKind::UnresolvedReference, Keyword::Ref).under(
            PathStep::Key(target.text),
        ),
        Some((d, schema)) => match compiled(schema, d) {
            Err(inner) => f == inner.under(PathStep::Key(target.text)),
            Ok(_) => false,
        },
    }
}

/// `f` is a fault of the schema `root` with the documents `documents`: the
/// fault of `root` itself, or that of a reference that can be reached from
/// it.
pub open spec fn fails_with(root: Json, documents: Seq<(Seq<char>, Json)>, f: Fault) -> bool {
    ||| compiled(root, 0) == Err::<Rule, Fault>(f)
    ||| exists|chain: Seq<Target>| #[trigger]
        reaches(root, documents, chain) && broken(root, documents, chain.last(), f)
}

impl Validator for CompiledSchema {
    /// Whether the schema's rule accepts `instance`, with as many references
    /// followed in a row on one value as the table has entries.
    open spec fn accepts(&self, instance: Json) -> bool {
        crate::rule::accepts(table_view(self.table@), self.root@, instance, self.table@.len())
    }

    fn validate(&self, value: &Value) -> (verdict: bool) {
        check(&self.table, &self.root, value, self.table.len())
    }
}

/// What was in a list of targets is in the list that grew out of it.
proof fn lemma_grown_contains(before: Seq<Target>, after: Seq<Target>, t: Target)
    requires
        crate::resolver::grown(before, after),
        before.contains(t),
    ensures
        after.contains(t),
{
    let j = choose|j: int| 0 <= j < before.len() && before[j] == t;
    assert(after[j] == t);
}

/// A way along references, made one reference longer.
proof fn lemma_reaches_further(
    root: Json,
    documents: Seq<(Seq<char>, Json)>,
    chain: Seq<Target>,
    next: Target,
)
    requires
        reaches(root, documents, chain),
        linked(root, documents, chain.last(), next),
    ensures
        reaches(root, documents, chain.push(next)),
        chain.push(next).last() == next,
{
    let longer = chain.push(next);
    assert(longer[0] == chain[0]);
    assert forall|i: int| 0 <= i < longer.len() - 1 implies linked(
        root,
        documents,
        #[trigger] longer[i],
        longer[i + 1],
    ) by {
        if i < chain.len() - 1 {
            assert(longer[i] == chain[i]);
            assert(longer[i + 1] == chain[i + 1]);
        } else {
            assert(longer[i] == chain.last());
        }
    }
}

/// Compiles `schema`, and with it every schema that a reference leads to,
/// in `schema` itself or in one of `documents`, each of which stands under
/// its identifier.
pub fn generate_validator_with(schema: &Value, documents: &Vec<(String, Value)>) -> (r: Result<
    CompiledSchema,
    CompileError,
>)
    ensures
        match r {
            Ok(c) => compiles_to(
                schema@,
                documents_view(documents@),
                c.root@,
                table_view(c.table@),
            ),
            Err(e) => fails_with(schema@, documents_view(documents@), e@),
        },
{
    let ghost docs = documents_view(documents@);
    let root = match compile_node(schema, 0) {
        Ok(node) => node,
        Err(e) => {
            return Err(e);
        },
    };
    let mut keys: Vec<Reference> = Vec::new();
    assert(targets_view(keys@) =~= Seq::empty());
    collect(&root, &mut keys);
    let ghost mut chains: Seq<Seq<Target>> = Seq::new(
        keys@.len(),
        |j: int| seq![targets_view(keys@)[j]],
    );
    let mut table: Vec<(Reference, Node)> = Vec::new();
    let mut i: usize = 0;
    while i < keys.len()
        invariant
            i <= keys.len(),
            table.len() == i,
            docs == documents_view(documents@),
            compiled(schema@, 0) == Ok::<Rule, Fault>(root@),
            targets_view(keys@).no_duplicates(),
            forall|j: int| 0 <= j < i ==> (#[trigger] table_view(table@)[j]).0 == targets_view(keys@)[j],
            forall|j: int| 0 <= j < i ==> entry_holds(schema@, docs, #[trigger] table_view(table@)[j]),
            forall|t: Target| #[trigger] mentions(root@, t) ==> targets_view(keys@).contains(t),
            forall|j: int, t: Target|
                0 <= j < i && #[trigger] mentions(table_view(table@)[j].1, t) ==> targets_view(
                    keys@,
                ).contains(t),
            chains.len() == keys@.len(),
            forall|j: int|
                0 <= j < keys@.len() ==> reaches(schema@, docs, #[trigger] chains[j])
                    && chains[j].last() == targets_view(keys@)[j],
            forall|j: int|
                0 <= j < keys@.len() ==> needed(
                    root@,
                    table_view(table@),
                    #[trigger] targets_view(keys@)[j],
                    j,
                ),
        decreases usize::MAX - i,
    {
        let ghost target = targets_view(keys@)[i as int];
        let ghost here = chains[i as int];
        assert(reaches(schema@, docs, here) && here.last() == target);
        match resolve_reference(schema, documents, &keys[i]) {
            None => {
                let e = CompileError::new(ErrorKind::UnresolvedReference, Keyword::Ref).under(
                    Step::Key(keys[i].text.clone()),
                );
                assert(broken(schema@, docs, here.last(), e@));
                return Err(e);
            },
            Some((d, found)) => match compile_node(found, d) {
                Err(e) => {
                    let located = e.under(Step::Key(keys[i].text.clone()));
                    assert(broken(schema@, docs, here.last(), located@));
                    return Err(located);
                },
                Ok(node) => {
                    let ghost before = targets_view(keys@);
                    let ghost rows = table_view(table@);
                    let ghost old_chains = chains;
                    let key = Reference { document: keys[i].document, text: keys[i].text.clone() };
                    assert(key@ == target);
                    collect(&node, &mut keys);
                    let ghost after = targets_view(keys@);
                    table.push((key, node));
                    proof {
                        assert(table_view(table@) =~= rows.push((target, node@)));
                        chains =
                        Seq::new(
                            after.len(),
                            |j: int|
                                if j < before.len() {
                                    old_chains[j]
                                } else {
                                    here.push(after[j])
                                },
                        );
                        assert forall|j: int| 0 <= j < after.len() implies reaches(
                            schema@,
                            docs,
                            #[trigger] chains[j],
                        ) && chains[j].last() == after[j] by {
                            if j < before.len() {
                                assert(chains[j] == old_chains[j]);
                                assert(after[j] == before[j]);
                            } else {
                                assert(mentions(node@, after[j]));
                                assert(linked(schema@, docs, here.last(), after[j]));
                                lemma_reaches_further(schema@, docs, here, after[j]);
                            }
                        }
                        assert forall|t: Target| #[trigger] mentions(root@, t) implies after.contains(
                            t,
                        ) by {
                            lemma_grown_contains(before, after, t);
                        }
                        assert forall|j: int, t: Target|
                            0 <= j < i + 1 && #[trigger] mentions(
                                table_view(table@)[j].1,
                                t,
                            ) implies after.contains(t) by {
                            if j < i {
                                assert(table_view(table@)[j] == rows[j]);
                                lemma_grown_contains(before, after, t);
                            } else {
                                assert(table_view(table@)[j].1 == node@);
                            }
                        }
                        assert forall|j: int| 0 <= j < after.len() implies needed(
                            root@,
                            table_view(table@),
                            #[trigger] after[j],
                            j,
                        ) by {
                            if j < before.len() {
                                assert(after[j] == before[j]);
                                assert(needed(root@, rows, before[j], j));
                                if !mentions(root@, before[j]) {
                                    let p = choose|p: int|
                                        0 <= p < j && p < rows.len() && mentions(
                                            (#[trigger] rows[p]).1,
                                            before[j],
                                        );
                                    assert(table_view(table@)[p] == rows[p]);
                                }
                            } else {
                                assert(mentions(node@, after[j]));
                                assert(table_view(table@)[i as int].1 == node@);
                            }
                        }
                        assert forall|j: int| 0 <= j < i + 1 implies (#[trigger] table_view(
                            table@,
                        )[j]).0 == after[j] && entry_holds(schema@, docs, table_view(table@)[j]) by {
                            if j < i {
                                assert(table_view(table@)[j] == rows[j]);
                                assert(after[j] == before[j]);
                            } else {
                                assert(after[j] == before[j]);
                            }
                        }
                    }
                },
            },
        }
        i = i + 1;
    }
    proof {
        assert(table_targets(table_view(table@)) =~= targets_view(keys@));
        assert forall|j: int| 0 <= j < table@.len() implies needed(
            root@,
            table_view(table@),
            #[trigger] table_view(table@)[j].0,
            j,
        ) by {
            assert(needed(root@, table_view(table@), targets_view(keys@)[j], j));
        }
    }
    Ok(CompiledSchema { root, table })
}

/// Compiles `schema`, with references into `schema` itself only.
pub fn generate_validator(schema: &Value) -> (r: Result<CompiledSchema, CompileError>)
    ensures
        match r {
            Ok(c) => compiles_to(schema@, Seq::empty(), c.root@, table_view(c.table@)),
            Err(e) => fails_with(schema@, Seq::empty(), e@),
        },
{
    let documents: Vec<(String, Value)> = Vec::new();
    assert(documents_view(documents@) =~= Seq::empty());
    generate_validator_with(schema, &documents)
}

} // verus!
