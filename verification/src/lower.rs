use vstd::prelude::*;
use crate::dim::SymDim;
use crate::error::{InferenceError, ShapeError};
use crate::collect::{
    collect, lemma_offsets_grow, lemma_table_len, offsets_of, spec_node_rule, spec_offset,
    spec_place, spec_rules_of, spec_table, Operator,
};
use crate::fact::{copy_of, copy_value, known, FactView, PartialFact, ResolvedFact};
use crate::graph::{Graph, Node, OutletRef};
use crate::op::{spec_literals, Reshape, TypedReshape};
use crate::reshape::spec_compute_shape;
use crate::solver::{
    fails_with, lemma_fixpoint_is_unique, lemma_passes_refine, reaches_fixpoint, resolved_views,
    solve_fully, spec_passes, stuck_at, views, Rule,
};

verus! {

/// What lowering makes of one rule, given the resolved facts: an equality
/// needs no operator; a reshape becomes an operator that holds its output
/// shape, which takes a target that is a constant.
pub open spec fn spec_lower_rule(rule: Rule, facts: Seq<ResolvedFact>) -> Result<
    Option<Seq<SymDim>>,
    ShapeError,
> {
    match rule {
        Rule::Equals { a, b } => Ok(None),
        Rule::Reshape { input, shape, output } => if input >= facts.len() || shape >= facts.len() {
            Err(ShapeError::DanglingReference)
        } else {
            match facts[shape as int].value {
                None => Err(ShapeError::VariableShape),
                Some(t) => match spec_compute_shape(
                    facts[input as int].shape@,
                    spec_literals(t.data@),
                ) {
                    Err(e) => Err(e),
                    Ok(s) => Ok(Some(s)),
                },
            }
        },
    }
}

/// Lowering of the rules in order; the first failure ends it.
pub open spec fn spec_lower(rules: Seq<Rule>, facts: Seq<ResolvedFact>) -> Result<
    Seq<Option<Seq<SymDim>>>,
    ShapeError,
>
    decreases rules.len(),
{
    if rules.len() == 0 {
        Ok(Seq::empty())
    } else {
        match spec_lower(rules.drop_last(), facts) {
            Err(e) => Err(e),
            Ok(done) => match spec_lower_rule(rules.last(), facts) {
                Err(e) => Err(e),
                Ok(op) => Ok(done.push(op)),
            },
        }
    }
}

/// The output shapes that the lowered operators hold.
pub open spec fn shapes_of(ops: Seq<Option<TypedReshape>>) -> Seq<Option<Seq<SymDim>>> {
    Seq::new(
        ops.len(),
        |i: int|
            match ops[i] {
                Some(op) => Some(op.shape@),
                None => None,
            },
    )
}

/// Whether the passes from `start` on reach resolved facts on which lowering
/// fails with `e`.
pub open spec fn lowering_fails(rules: Seq<Rule>, start: Seq<FactView>, e: ShapeError) -> bool {
    exists|facts: Seq<ResolvedFact>|
        {
            &&& #[trigger] reaches_fixpoint(rules, start, resolved_views(facts))
            &&& spec_lower(rules, facts) == Err::<Seq<Option<Seq<SymDim>>>, ShapeError>(e)
        }
}

/// A lowering that fails on the first rules fails in the same way on all.
pub proof fn lemma_lower_fails_on(rules: Seq<Rule>, facts: Seq<ResolvedFact>, n: int)
    requires
        0 <= n <= rules.len(),
        spec_lower(rules.take(n), facts) is Err,
    ensures
        spec_lower(rules, facts) == spec_lower(rules.take(n), facts),
    decreases rules.len() - n,
{
    if n == rules.len() {
        assert(rules.take(n) =~= rules);
    } else {
        assert(rules.take(n + 1).drop_last() =~= rules.take(n));
        lemma_lower_fails_on(rules, facts, n + 1);
    }
}

/// Lowers one rule; see `spec_lower_rule`.
pub fn lower_rule(rule: Rule, facts: &Vec<ResolvedFact>) -> (r: Result<
    Option<TypedReshape>,
    ShapeError,
>)
    ensures
        match r {
            Ok(Some(op)) => spec_lower_rule(rule, facts@) == Ok::<Option<Seq<SymDim>>, ShapeError>(
                Some(op.shape@),
            ),
            Ok(None) => spec_lower_rule(rule, facts@) == Ok::<Option<Seq<SymDim>>, ShapeError>(None),
            Err(e) => spec_lower_rule(rule, facts@) == Err::<Option<Seq<SymDim>>, ShapeError>(e),
        },
{
    match rule {
        Rule::Equals { a, b } => Ok(None),
        Rule::Reshape { input, shape, output } => {
            if input >= facts.len() || shape >= facts.len() {
                return Err(ShapeError::DanglingReference);
            }
            match Reshape::new().to_typed(&facts[input], &facts[shape]) {
                Ok(op) => Ok(Some(op)),
                Err(e) => Err(e),
            }
        },
    }
}

/// Lowers every rule, in order, on resolved facts.
pub fn lower(rules: &Vec<Rule>, facts: &Vec<ResolvedFact>) -> (r: Result<
    Vec<Option<TypedReshape>>,
    ShapeError,
>)
    ensures
        match r {
            Ok(ops) => spec_lower(rules@, facts@) == Ok::<Seq<Option<Seq<SymDim>>>, ShapeError>(
                shapes_of(ops@),
            ),
            Err(e) => spec_lower(rules@, facts@) == Err::<Seq<Option<Seq<SymDim>>>, ShapeError>(e),
        },
{
    let mut ops: Vec<Option<TypedReshape>> = Vec::new();
    let mut i: usize = 0;
    assert(shapes_of(ops@) =~= Seq::empty());
    while i < rules.len()
        invariant
            i <= rules@.len(),
            spec_lower(rules@.take(i as int), facts@) == Ok::<
                Seq<Option<Seq<SymDim>>>,
                ShapeError,
            >(shapes_of(ops@)),
        decreases rules@.len() - i,
    {
        proof {
            assert(rules@.take(i + 1).drop_last() =~= rules@.take(i as int));
        }
        let ghost done = shapes_of(ops@);
        match lower_rule(rules[i], facts) {
            Ok(op) => {
                ops.push(op);
                assert(shapes_of(ops@) =~= done.push(
                    match op {
                        Some(o) => Some(o.shape@),
                        None => None,
                    },
                ));
            },
            Err(e) => {
                proof {
                    lemma_lower_fails_on(rules@, facts@, i + 1);
                }
                return Err(e);
            },
        }
        i += 1;
    }
    proof {
        assert(rules@.take(i as int) =~= rules@);
    }
    Ok(ops)
}

/// Inference, then lowering: solves the rules on the table, resolves every
/// fact, and lowers every rule on the resolved facts.
pub fn solve_and_lower(rules: &Vec<Rule>, table: Vec<PartialFact>) -> (r: Result<
    (Vec<ResolvedFact>, Vec<Option<TypedReshape>>),
    InferenceError,
>)
    ensures
        match r {
            Ok((facts, ops)) => {
                &&& reaches_fixpoint(rules@, views(table@), resolved_views(facts@))
                &&& spec_lower(rules@, facts@) == Ok::<Seq<Option<Seq<SymDim>>>, ShapeError>(
                    shapes_of(ops@),
                )
            },
            Err(InferenceError::Rule(e)) => fails_with(rules@, views(table@), e) || lowering_fails(
                rules@,
                views(table@),
                e,
            ),
            Err(InferenceError::UnderConstrained { place, field }) => stuck_at(
                rules@,
                views(table@),
                place,
                field,
            ),
        },
{
    let facts = match solve_fully(rules, table) {
        Ok(facts) => facts,
        Err(e) => {
            return Err(e);
        },
    };
    match lower(rules, &facts) {
        Ok(ops) => Ok((facts, ops)),
        Err(e) => {
            assert(reaches_fixpoint(rules@, views(table@), resolved_views(facts@)));
            Err(InferenceError::Rule(e))
        },
    }
}

/// The operators of a graph after lowering.
#[derive(Debug, PartialEq, Eq)]
pub enum TypedOperator {
    Source,
    Reshape(TypedReshape),
}

pub fn copy_resolved(f: &ResolvedFact) -> (r: ResolvedFact)
    ensures
        r@ == f@,
        r.datum_type == f.datum_type,
        r.shape@ == f.shape@,
{
    ResolvedFact {
        datum_type: f.datum_type,
        shape: copy_of(&f.shape),
        value: copy_value(&f.value),
    }
}

/// Whether `m` is what lowering makes of the node `n` of `g`, given the
/// resolved facts of all outlets: the same id, name and place; a source keeps
/// its inputs and gets the resolved facts of its outputs; a reshape becomes the
/// operator that lowering its rule gives, reads its first input only, and has
/// the output fact of that operator.
pub open spec fn node_lowered(
    g: Graph<PartialFact, Operator>,
    facts: Seq<ResolvedFact>,
    n: Node<PartialFact, Operator>,
    m: Node<ResolvedFact, TypedOperator>,
) -> bool {
    &&& m.id == n.id
    &&& m.name@ == n.name@
    &&& m.outputs@.len() == n.outputs@.len()
    &&& match n.op {
        Operator::Source => {
            &&& m.op is Source
            &&& m.inputs@ == n.inputs@
            &&& forall|s: int|
                0 <= s < m.outputs@.len() ==> (#[trigger] m.outputs@[s])@ == facts[spec_offset(
                    g,
                    n.id as int,
                ) + s]@
        },
        Operator::Reshape => {
            &&& n.inputs@.len() == 2
            &&& m.outputs@.len() == 1
            &&& m.inputs@ == seq![n.inputs@[0]]
            &&& m.op matches TypedOperator::Reshape(op)
            &&& spec_node_rule(g, n) matches Ok(Some(rule))
            &&& spec_lower_rule(rule, facts) == Ok::<Option<Seq<SymDim>>, ShapeError>(
                Some(op.shape@),
            )
            &&& m.outputs@[0].shape@ == op.shape@
            &&& m.outputs@[0].datum_type == facts[spec_place(g, n.inputs@[0])].datum_type
            &&& m.outputs@[0].value is None
        },
    }
}

/// Whether `t` is the lowering of `g`, node for node, given the resolved facts
/// of all outlets. Ids are kept, and the places of removed nodes stay empty.
pub open spec fn graph_lowered(
    g: Graph<PartialFact, Operator>,
    facts: Seq<ResolvedFact>,
    t: Graph<ResolvedFact, TypedOperator>,
) -> bool {
    &&& facts.len() == spec_offset(g, g.nodes@.len() as int)
    &&& t.nodes@.len() == g.nodes@.len()
    &&& t.inputs@ == g.inputs@
    &&& t.outputs@ == g.outputs@
    &&& forall|i: int|
        0 <= i < g.nodes@.len() ==> match (#[trigger] g.nodes@[i], t.nodes@[i]) {
            (None, None) => true,
            (Some(n), Some(m)) => node_lowered(g, facts, n, m),
            _ => false,
        }
}

/// The rules of the first nodes are the first rules of the graph.
pub proof fn lemma_rules_prefix(g: Graph<PartialFact, Operator>, i: int, j: int)
    requires
        0 <= i <= j <= g.nodes@.len(),
        spec_rules_of(g, j) is Ok,
    ensures
        spec_rules_of(g, i) is Ok,
        spec_rules_of(g, i)->Ok_0.len() <= spec_rules_of(g, j)->Ok_0.len(),
        spec_rules_of(g, i)->Ok_0 == spec_rules_of(g, j)->Ok_0.take(
            spec_rules_of(g, i)->Ok_0.len() as int,
        ),
    decreases j - i,
{
    if i < j {
        lemma_rules_prefix(g, i, j - 1);
        let a = spec_rules_of(g, i)->Ok_0;
        let b = spec_rules_of(g, j - 1)->Ok_0;
        let c = spec_rules_of(g, j)->Ok_0;
        assert(a =~= c.take(a.len() as int)) by {
            assert forall|k: int| 0 <= k < a.len() implies a[k] == c[k] by {
                assert(a[k] == b.take(a.len() as int)[k]);
            }
        }
    } else {
        let a = spec_rules_of(g, i)->Ok_0;
        assert(a =~= a.take(a.len() as int));
    }
}

/// A lowering that succeeds on all rules gives, for each rule, what lowering
/// that rule alone gives.
pub proof fn lemma_lower_each(rules: Seq<Rule>, facts: Seq<ResolvedFact>, k: int)
    requires
        spec_lower(rules, facts) is Ok,
        0 <= k < rules.len(),
    ensures
        spec_lower(rules, facts)->Ok_0.len() == rules.len(),
        spec_lower_rule(rules[k], facts) == Ok::<Option<Seq<SymDim>>, ShapeError>(
            spec_lower(rules, facts)->Ok_0[k],
        ),
    decreases rules.len(),
{
    lemma_lower_len(rules, facts);
    if k < rules.len() - 1 {
        lemma_lower_each(rules.drop_last(), facts, k);
    }
}

pub proof fn lemma_lower_len(rules: Seq<Rule>, facts: Seq<ResolvedFact>)
    requires
        spec_lower(rules, facts) is Ok,
    ensures
        spec_lower(rules, facts)->Ok_0.len() == rules.len(),
    decreases rules.len(),
{
    if rules.len() > 0 {
        lemma_lower_len(rules.drop_last(), facts);
    }
}

/// Whether inference and lowering of the graph end in the error `e`: the
/// outlets cannot be numbered, or a node states no valid rule, or a pass
/// fails, or a fact stays unresolved, or lowering fails.
pub open spec fn inference_fails(g: Graph<PartialFact, Operator>, e: InferenceError) -> bool {
    let n = g.nodes@.len() as int;
    if spec_offset(g, n) > usize::MAX {
        e == InferenceError::Rule(ShapeError::Overflow)
    } else {
        match spec_rules_of(g, n) {
            Err(x) => e == InferenceError::Rule(x),
            Ok(rules) => match e {
                InferenceError::Rule(x) => fails_with(rules, views(spec_table(g, n)), x)
                    || lowering_fails(rules, views(spec_table(g, n)), x),
                InferenceError::UnderConstrained { place, field } => stuck_at(
                    rules,
                    views(spec_table(g, n)),
                    place,
                    field,
                ),
            },
        }
    }
}

/// The resolved facts of the outputs of a source.
fn source_outputs(facts: &Vec<ResolvedFact>, first: usize, count: usize) -> (r: Vec<ResolvedFact>)
    requires
        first + count <= facts@.len(),
    ensures
        r@.len() == count,
        forall|s: int| 0 <= s < count ==> (#[trigger] r@[s])@ == facts@[first + s]@,
{
    let mut out: Vec<ResolvedFact> = Vec::new();
    let mut s: usize = 0;
    let total: usize = facts.len();
    while s < count
        invariant
            first + count <= total,
            total == facts@.len(),
            s <= count,
            out@.len() == s,
            forall|j: int| 0 <= j < s ==> (#[trigger] out@[j])@ == facts@[first + j]@,
        decreases count - s,
    {
        out.push(copy_resolved(&facts[first + s]));
        s += 1;
    }
    out
}

/// Inference and lowering of a whole graph: collects the rules of the nodes
/// and the facts of their outputs, solves, resolves every fact, and lowers
/// node by node. Gives the resolved graph and the resolved facts of all
/// outlets of the given graph.
#[verifier::loop_isolation(false)]
pub fn infer_and_lower(g: &Graph<PartialFact, Operator>) -> (r: Result<
    (Graph<ResolvedFact, TypedOperator>, Vec<ResolvedFact>),
    InferenceError,
>)
    requires
        g.wf(),
    ensures
        match r {
            Ok((t, facts)) => {
                &&& t.wf()
                &&& spec_rules_of(*g, g.nodes@.len() as int) is Ok
                &&& reaches_fixpoint(
                    spec_rules_of(*g, g.nodes@.len() as int)->Ok_0,
                    views(spec_table(*g, g.nodes@.len() as int)),
                    resolved_views(facts@),
                )
                &&& graph_lowered(*g, facts@, t)
            },
            Err(e) => inference_fails(*g, e),
        },
{
    let ghost len = g.nodes@.len() as int;
    let (rules, table) = match collect(g) {
        Ok(x) => x,
        Err(e) => {
            return Err(InferenceError::Rule(e));
        },
    };
    let ghost start = views(table@);
    let (facts, ops) = match solve_and_lower(&rules, table) {
        Ok(x) => x,
        Err(e) => {
            return Err(e);
        },
    };
    let offsets = match offsets_of(g) {
        Ok(v) => v,
        Err(e) => {
            return Err(InferenceError::Rule(e));
        },
    };
    proof {
        let n = choose|n: nat| #[trigger]
            spec_passes(rules@, start, n) == Ok::<Seq<FactView>, ShapeError>(
                resolved_views(facts@),
            );
        lemma_passes_refine(rules@, start, n);
        lemma_table_len(*g, len);
        assert(facts@.len() == spec_offset(*g, len));
        lemma_lower_len(rules@, facts@);
    }
    let mut nodes: Vec<Option<Node<ResolvedFact, TypedOperator>>> = Vec::new();
    let rule_count: usize = rules.len();
    let mut k: usize = 0;
    let mut i: usize = 0;
    while i < g.nodes.len()
        invariant
            i <= g.nodes@.len(),
            nodes@.len() == i,
            spec_rules_of(*g, i as int) is Ok,
            k == spec_rules_of(*g, i as int)->Ok_0.len(),
            k <= rules@.len(),
            forall|j: int|
                0 <= j < i ==> match (#[trigger] g.nodes@[j], nodes@[j]) {
                    (None, None) => true,
                    (Some(n), Some(m)) => node_lowered(*g, facts@, n, m),
                    _ => false,
                },
        decreases g.nodes@.len() - i,
    {
        proof {
            lemma_rules_prefix(*g, i as int, len);
            lemma_rules_prefix(*g, i + 1, len);
            lemma_offsets_grow(*g, i as int, len);
        }
        let ghost done = nodes@;
        match &g.nodes[i] {
            None => {
                nodes.push(None);
            },
            Some(n) => {
                assert(g.nodes@[i as int] is Some);
                assert(n.id == i);
                match n.op {
                    Operator::Source => {
                        let outputs = source_outputs(&facts, offsets[i], n.outputs.len());
                        nodes.push(
                            Some(
                                Node {
                                    id: n.id,
                                    name: n.name.clone(),
                                    op: TypedOperator::Source,
                                    inputs: copy_of(&n.inputs),
                                    outputs,
                                },
                            ),
                        );
                    },
                    Operator::Reshape => {
                        assert(spec_node_rule(*g, *n) is Ok);
                        let a = n.inputs[0];
                        proof {
                            assert(g.all_held(n.inputs@));
                            assert(g.holds(n.inputs@[0]));
                            lemma_offsets_grow(*g, a.node as int, len);
                            let rule = spec_node_rule(*g, *n)->Ok_0->Some_0;
                            let sofar = spec_rules_of(*g, i + 1)->Ok_0;
                            assert(sofar[k as int] == rule);
                            assert(k < rule_count);
                            assert(rules@.take(sofar.len() as int)[k as int] == rules@[k as int]);
                            lemma_lower_each(rules@, facts@, k as int);
                            assert(shapes_of(ops@)[k as int] is Some);
                        }
                        let op = match &ops[k] {
                            Some(op) => TypedReshape { shape: copy_of(&op.shape) },
                            None => {
                                assert(false);
                                return Err(InferenceError::Rule(ShapeError::InvalidReshape));
                            },
                        };
                        let out = op.output_fact(&facts[offsets[a.node] + a.slot]);
                        let mut inputs: Vec<OutletRef> = Vec::new();
                        inputs.push(a);
                        let mut outputs: Vec<ResolvedFact> = Vec::new();
                        outputs.push(out);
                        assert(inputs@ =~= seq![n.inputs@[0]]);
                        nodes.push(
                            Some(
                                Node {
                                    id: n.id,
                                    name: n.name.clone(),
                                    op: TypedOperator::Reshape(op),
                                    inputs,
                                    outputs,
                                },
                            ),
                        );
                        k += 1;
                    },
                }
            },
        }
        assert forall|j: int| 0 <= j < i implies nodes@[j] == done[j] by {}
        i += 1;
    }
    let t = Graph { nodes, inputs: copy_of(&g.inputs), outputs: copy_of(&g.outputs) };
    proof {
        assert forall|r: OutletRef| g.holds(r) implies t.holds(r) by {
            assert(g.nodes@[r.node as int] is Some);
        }
        assert forall|j: int| 0 <= j < t.nodes@.len() && (#[trigger] t.nodes@[j]) is Some implies {
            &&& t.nodes@[j]->Some_0.id == j
            &&& t.all_held(t.nodes@[j]->Some_0.inputs@)
        } by {
            assert(g.nodes@[j] is Some);
            let n = g.nodes@[j]->Some_0;
            let m = t.nodes@[j]->Some_0;
            assert(g.all_held(n.inputs@));
            assert forall|x: int| 0 <= x < m.inputs@.len() implies t.holds(#[trigger] m.inputs@[x]) by {
                if n.op is Reshape {
                    assert(m.inputs@[x] == n.inputs@[0]);
                    assert(g.holds(n.inputs@[0]));
                } else {
                    assert(g.holds(n.inputs@[x]));
                }
            }
        }
        assert(t.all_held(t.inputs@)) by {
            assert forall|x: int| 0 <= x < t.inputs@.len() implies t.holds(#[trigger] t.inputs@[x]) by {
                assert(g.holds(g.inputs@[x]));
            }
        }
        assert(t.all_held(t.outputs@)) by {
            assert forall|x: int| 0 <= x < t.outputs@.len() implies t.holds(
                #[trigger] t.outputs@[x],
            ) by {
                assert(g.holds(g.outputs@[x]));
            }
        }
    }
    Ok((t, facts))
}

/// Whether two nodes of resolved graphs have the same id, name, wiring,
/// operator and output facts.
pub open spec fn same_node(
    a: Node<ResolvedFact, TypedOperator>,
    b: Node<ResolvedFact, TypedOperator>,
) -> bool {
    &&& a.id == b.id
    &&& a.name@ == b.name@
    &&& a.inputs@ == b.inputs@
    &&& a.outputs@.len() == b.outputs@.len()
    &&& forall|s: int| 0 <= s < a.outputs@.len() ==> (#[trigger] a.outputs@[s])@ == b.outputs@[s]@
    &&& match (a.op, b.op) {
        (TypedOperator::Source, TypedOperator::Source) => true,
        (TypedOperator::Reshape(x), TypedOperator::Reshape(y)) => x.shape@ == y.shape@,
        _ => false,
    }
}

/// Whether two resolved graphs have the same nodes at the same places and the
/// same designated outlets.
pub open spec fn same_graph(
    a: Graph<ResolvedFact, TypedOperator>,
    b: Graph<ResolvedFact, TypedOperator>,
) -> bool {
    &&& a.nodes@.len() == b.nodes@.len()
    &&& a.inputs@ == b.inputs@
    &&& a.outputs@ == b.outputs@
    &&& forall|i: int|
        0 <= i < a.nodes@.len() ==> match (#[trigger] a.nodes@[i], b.nodes@[i]) {
            (None, None) => true,
            (Some(x), Some(y)) => same_node(x, y),
            _ => false,
        }
}

/// Lowering is determined by the graph: whatever resolved facts and resolved
/// graphs two runs of inference and lowering give for one graph, the facts
/// state the same and the graphs have the same nodes, wiring and facts.
pub proof fn lemma_lowering_is_determined(
    g: Graph<PartialFact, Operator>,
    f1: Seq<ResolvedFact>,
    t1: Graph<ResolvedFact, TypedOperator>,
    f2: Seq<ResolvedFact>,
    t2: Graph<ResolvedFact, TypedOperator>,
)
    requires
        g.wf(),
        spec_rules_of(g, g.nodes@.len() as int) is Ok,
        reaches_fixpoint(
            spec_rules_of(g, g.nodes@.len() as int)->Ok_0,
            views(spec_table(g, g.nodes@.len() as int)),
            resolved_views(f1),
        ),
        reaches_fixpoint(
            spec_rules_of(g, g.nodes@.len() as int)->Ok_0,
            views(spec_table(g, g.nodes@.len() as int)),
            resolved_views(f2),
        ),
        graph_lowered(g, f1, t1),
        graph_lowered(g, f2, t2),
    ensures
        resolved_views(f1) == resolved_views(f2),
        same_graph(t1, t2),
{
    let len = g.nodes@.len() as int;
    lemma_fixpoint_is_unique(
        spec_rules_of(g, len)->Ok_0,
        views(spec_table(g, len)),
        resolved_views(f1),
        resolved_views(f2),
    );
    assert forall|p: int| 0 <= p < f1.len() implies {
        &&& f1[p]@ == f2[p]@
        &&& f1[p].datum_type == f2[p].datum_type
        &&& f1[p].shape@ == f2[p].shape@
        &&& (f1[p].value is Some <==> f2[p].value is Some)
        &&& f1[p].value is Some ==> f1[p].value->Some_0@ == f2[p].value->Some_0@
    } by {
        assert(resolved_views(f1)[p] == f1[p]@);
        assert(resolved_views(f2)[p] == f2[p]@);
        let x = f1[p].shape@;
        let y = f2[p].shape@;
        assert(known(x) == known(y));
        assert(x.len() == known(x).len() && y.len() == known(y).len());
        assert forall|i: int| 0 <= i < x.len() implies x[i] == y[i] by {
            assert(known(x)[i] == Some(x[i]));
            assert(known(y)[i] == Some(y[i]));
        }
        assert(x =~= y);
    }
    assert forall|i: int| 0 <= i < t1.nodes@.len() implies match (
        #[trigger] t1.nodes@[i],
        t2.nodes@[i],
    ) {
        (None, None) => true,
        (Some(x), Some(y)) => same_node(x, y),
        _ => false,
    } by {
        assert(g.nodes@[i] is Some || g.nodes@[i] is None);
        if let Some(n) = g.nodes@[i] {
            let x = t1.nodes@[i]->Some_0;
            let y = t2.nodes@[i]->Some_0;
            lemma_offsets_grow(g, i, len);
            assert(n.id == i);
            match n.op {
                Operator::Source => {
                    assert forall|s: int| 0 <= s < x.outputs@.len() implies (
                    #[trigger] x.outputs@[s])@ == y.outputs@[s]@ by {
                        assert(f1[spec_offset(g, i) + s]@ == f2[spec_offset(g, i) + s]@);
                    }
                },
                Operator::Reshape => {
                    assert(g.all_held(n.inputs@));
                    assert(g.holds(n.inputs@[0]) && g.holds(n.inputs@[1]));
                    lemma_offsets_grow(g, n.inputs@[0].node as int, len);
                    lemma_offsets_grow(g, n.inputs@[1].node as int, len);
                    let rule = spec_node_rule(g, n)->Ok_0->Some_0;
                    assert(spec_lower_rule(rule, f1) == spec_lower_rule(rule, f2));
                    assert(x.outputs@[0]@ == y.outputs@[0]@);
                },
            }
        }
    }
}

} // verus!
