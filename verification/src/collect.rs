use vstd::prelude::*;
use crate::error::ShapeError;
use crate::fact::PartialFact;
use crate::graph::{Graph, Node, OutletRef};
use crate::solver::{copy_fact, views, Rule};

verus! {

/// The operators of a graph before lowering.
#[derive(Clone, Copy, Debug, PartialEq, Eq, Structural)]
pub enum Operator {
    /// Gives a tensor from outside; it reads nothing and states no rule.
    Source,
    /// Reshapes its first input to the target that its second input holds.
    Reshape,
}

/// The number of outputs of the node `i`; a removed node has none.
pub open spec fn arity(g: Graph<PartialFact, Operator>, i: int) -> int {
    match g.nodes@[i] {
        Some(n) => n.outputs@.len() as int,
        None => 0,
    }
}

/// The place in the table of the first output of node `i`: the number of
/// outputs of the nodes before it.
pub open spec fn spec_offset(g: Graph<PartialFact, Operator>, i: int) -> int
    decreases i,
{
    if i <= 0 || i > g.nodes@.len() {
        0
    } else {
        spec_offset(g, i - 1) + arity(g, i - 1)
    }
}

/// The place of an outlet in the table.
pub open spec fn spec_place(g: Graph<PartialFact, Operator>, r: OutletRef) -> int {
    spec_offset(g, r.node as int) + r.slot
}

/// The facts of the outputs of the nodes below `upto`, node by node.
pub open spec fn spec_table(g: Graph<PartialFact, Operator>, upto: int) -> Seq<PartialFact>
    decreases upto,
{
    if upto <= 0 || upto > g.nodes@.len() {
        Seq::empty()
    } else {
        match g.nodes@[upto - 1] {
            Some(n) => spec_table(g, upto - 1) + n.outputs@,
            None => spec_table(g, upto - 1),
        }
    }
}

/// The rule that a node states. A reshape must read two outlets and have one
/// output.
pub open spec fn spec_node_rule(g: Graph<PartialFact, Operator>, n: Node<PartialFact, Operator>) -> Result<
    Option<Rule>,
    ShapeError,
> {
    match n.op {
        Operator::Source => Ok(None),
        Operator::Reshape => if n.inputs@.len() != 2 || n.outputs@.len() != 1 {
            Err(ShapeError::InvalidReshape)
        } else {
            Ok(
                Some(
                    Rule::Reshape {
                        input: spec_place(g, n.inputs@[0]) as usize,
                        shape: spec_place(g, n.inputs@[1]) as usize,
                        output: spec_offset(g, n.id as int) as usize,
                    },
                ),
            )
        },
    }
}

/// The rules of the nodes below `upto`, in the order of the nodes.
pub open spec fn spec_rules_of(g: Graph<PartialFact, Operator>, upto: int) -> Result<
    Seq<Rule>,
    ShapeError,
>
    decreases upto,
{
    if upto <= 0 || upto > g.nodes@.len() {
        Ok(Seq::empty())
    } else {
        match spec_rules_of(g, upto - 1) {
            Err(e) => Err(e),
            Ok(before) => match g.nodes@[upto - 1] {
                None => Ok(before),
                Some(n) => match spec_node_rule(g, n) {
                    Err(e) => Err(e),
                    Ok(None) => Ok(before),
                    Ok(Some(rule)) => Ok(before.push(rule)),
                },
            },
        }
    }
}

/// The outputs of a node lie in the table before those of every later node.
pub proof fn lemma_offsets_grow(g: Graph<PartialFact, Operator>, i: int, j: int)
    requires
        0 <= i < j <= g.nodes@.len(),
    ensures
        0 <= spec_offset(g, i),
        spec_offset(g, i) + arity(g, i) <= spec_offset(g, j),
    decreases j - i,
{
    lemma_offset_is_natural(g, i);
    if i + 1 < j {
        lemma_offsets_grow(g, i, j - 1);
    }
}

pub proof fn lemma_offset_is_natural(g: Graph<PartialFact, Operator>, i: int)
    ensures
        0 <= spec_offset(g, i),
    decreases i,
{
    if 0 < i <= g.nodes@.len() {
        lemma_offset_is_natural(g, i - 1);
    }
}

/// The table has as many facts as the nodes have outputs.
pub proof fn lemma_table_len(g: Graph<PartialFact, Operator>, upto: int)
    requires
        0 <= upto <= g.nodes@.len(),
    ensures
        spec_table(g, upto).len() == spec_offset(g, upto),
    decreases upto,
{
    if upto > 0 {
        lemma_table_len(g, upto - 1);
    }
}

/// The facts of all outputs of the graph, in one table.
pub fn table_of(g: &Graph<PartialFact, Operator>) -> (r: Vec<PartialFact>)
    ensures
        views(r@) == views(spec_table(*g, g.nodes@.len() as int)),
{
    let mut table: Vec<PartialFact> = Vec::new();
    let mut i: usize = 0;
    assert(views(table@) =~= views(spec_table(*g, 0)));
    while i < g.nodes.len()
        invariant
            i <= g.nodes@.len(),
            views(table@) == views(spec_table(*g, i as int)),
        decreases g.nodes@.len() - i,
    {
        match &g.nodes[i] {
            None => {},
            Some(n) => {
                let ghost before = table@;
                let mut k: usize = 0;
                while k < n.outputs.len()
                    invariant
                        k <= n.outputs@.len(),
                        table@.len() == before.len() + k,
                        forall|j: int| 0 <= j < before.len() ==> table@[j] == before[j],
                        forall|j: int| 0 <= j < k ==> table@[before.len() + j]@ == n.outputs@[j]@,
                    decreases n.outputs@.len() - k,
                {
                    table.push(copy_fact(&n.outputs[k]));
                    k += 1;
                }
                proof {
                    let whole = spec_table(*g, i as int) + n.outputs@;
                    assert(views(before).len() == views(spec_table(*g, i as int)).len());
                    assert forall|j: int| 0 <= j < table@.len() implies views(table@)[j] == views(
                        whole,
                    )[j] by {
                        if j < before.len() {
                            assert(views(before)[j] == views(spec_table(*g, i as int))[j]);
                        }
                    }
                    assert(views(table@) =~= views(whole));
                }
            },
        }
        i += 1;
    }
    table
}

/// The place of the first output of every node, and after them the number of
/// all outputs. Fails with `Overflow` exactly when that number is above
/// `usize::MAX`.
pub fn offsets_of(g: &Graph<PartialFact, Operator>) -> (r: Result<Vec<usize>, ShapeError>)
    ensures
        match r {
            Ok(v) => {
                &&& v@.len() == g.nodes@.len() + 1
                &&& forall|i: int| 0 <= i <= g.nodes@.len() ==> #[trigger] v@[i] == spec_offset(*g, i)
            },
            Err(e) => e == ShapeError::Overflow && spec_offset(*g, g.nodes@.len() as int)
                > usize::MAX,
        },
{
    let mut offsets: Vec<usize> = Vec::new();
    offsets.push(0);
    let mut total: usize = 0;
    let mut i: usize = 0;
    while i < g.nodes.len()
        invariant
            i <= g.nodes@.len(),
            offsets@.len() == i + 1,
            total == spec_offset(*g, i as int),
            forall|j: int| 0 <= j <= i ==> #[trigger] offsets@[j] == spec_offset(*g, j),
        decreases g.nodes@.len() - i,
    {
        let n: usize = match &g.nodes[i] {
            Some(n) => n.outputs.len(),
            None => 0,
        };
        match total.checked_add(n) {
            Some(next) => {
                total = next;
            },
            None => {
                proof {
                    if i + 1 < g.nodes@.len() {
                        lemma_offsets_grow(*g, i as int, g.nodes@.len() as int);
                    }
                }
                return Err(ShapeError::Overflow);
            },
        }
        offsets.push(total);
        i += 1;
    }
    Ok(offsets)
}

/// The rules that the nodes of the graph state, over the places of the table.
pub fn rules_of(g: &Graph<PartialFact, Operator>, offsets: &Vec<usize>) -> (r: Result<
    Vec<Rule>,
    ShapeError,
>)
    requires
        g.wf(),
        offsets@.len() == g.nodes@.len() + 1,
        forall|i: int| 0 <= i <= g.nodes@.len() ==> #[trigger] offsets@[i] == spec_offset(*g, i),
    ensures
        match r {
            Ok(rules) => spec_rules_of(*g, g.nodes@.len() as int) == Ok::<Seq<Rule>, ShapeError>(
                rules@,
            ),
            Err(e) => spec_rules_of(*g, g.nodes@.len() as int) == Err::<Seq<Rule>, ShapeError>(e),
        },
{
    let mut rules: Vec<Rule> = Vec::new();
    let mut i: usize = 0;
    while i < g.nodes.len()
        invariant
            g.wf(),
            offsets@.len() == g.nodes@.len() + 1,
            forall|i: int| 0 <= i <= g.nodes@.len() ==> #[trigger] offsets@[i] == spec_offset(*g, i),
            i <= g.nodes@.len(),
            spec_rules_of(*g, i as int) == Ok::<Seq<Rule>, ShapeError>(rules@),
        decreases g.nodes@.len() - i,
    {
        match &g.nodes[i] {
            None => {},
            Some(n) => {
                match n.op {
                    Operator::Source => {},
                    Operator::Reshape => {
                        if n.inputs.len() != 2 || n.outputs.len() != 1 {
                            proof {
                                lemma_rules_fail_on(*g, i + 1);
                            }
                            return Err(ShapeError::InvalidReshape);
                        }
                        let a = n.inputs[0];
                        let b = n.inputs[1];
                        proof {
                            assert(g.nodes@[i as int] is Some);
                            assert(g.all_held(n.inputs@));
                            assert(g.holds(n.inputs@[0]) && g.holds(n.inputs@[1]));
                            lemma_offsets_grow(*g, a.node as int, g.nodes@.len() as int);
                            lemma_offsets_grow(*g, b.node as int, g.nodes@.len() as int);
                            assert(offsets@[g.nodes@.len() as int] == spec_offset(
                                *g,
                                g.nodes@.len() as int,
                            ));
                        }
                        rules.push(
                            Rule::Reshape {
                                input: offsets[a.node] + a.slot,
                                shape: offsets[b.node] + b.slot,
                                output: offsets[i],
                            },
                        );
                    },
                }
            },
        }
        i += 1;
    }
    Ok(rules)
}

/// Rules that fail on the first nodes fail in the same way on all.
pub proof fn lemma_rules_fail_on(g: Graph<PartialFact, Operator>, n: int)
    requires
        0 <= n <= g.nodes@.len(),
        spec_rules_of(g, n) is Err,
    ensures
        spec_rules_of(g, g.nodes@.len() as int) == spec_rules_of(g, n),
    decreases g.nodes@.len() - n,
{
    if n < g.nodes@.len() {
        lemma_rules_fail_on(g, n + 1);
    }
}

/// What the solver works on: the rules of the graph and the table of its facts.
pub fn collect(g: &Graph<PartialFact, Operator>) -> (r: Result<
    (Vec<Rule>, Vec<PartialFact>),
    ShapeError,
>)
    requires
        g.wf(),
    ensures
        match r {
            Ok((rules, table)) => {
                &&& spec_offset(*g, g.nodes@.len() as int) <= usize::MAX
                &&& spec_rules_of(*g, g.nodes@.len() as int) == Ok::<Seq<Rule>, ShapeError>(rules@)
                &&& views(table@) == views(spec_table(*g, g.nodes@.len() as int))
            },
            Err(e) => if spec_offset(*g, g.nodes@.len() as int) > usize::MAX {
                e == ShapeError::Overflow
            } else {
                spec_rules_of(*g, g.nodes@.len() as int) == Err::<Seq<Rule>, ShapeError>(e)
            },
        },
{
    let offsets = match offsets_of(g) {
        Ok(v) => v,
        Err(e) => {
            return Err(e);
        },
    };
    assert(offsets@[g.nodes@.len() as int] == spec_offset(*g, g.nodes@.len() as int));
    let rules = match rules_of(g, &offsets) {
        Ok(v) => v,
        Err(e) => {
            return Err(e);
        },
    };
    Ok((rules, table_of(g)))
}

/// The outlet whose fact stands at `place` of the table, so that what is
/// said of a place can be said of a node; `None` where the table is shorter.
pub fn outlet_at(g: &Graph<PartialFact, Operator>, place: usize) -> (r: Option<OutletRef>)
    ensures
        match r {
            Some(o) => g.holds(o) && spec_place(*g, o) == place,
            None => spec_offset(*g, g.nodes@.len() as int) <= place,
        },
{
    let mut first: usize = 0;
    let mut i: usize = 0;
    while i < g.nodes.len()
        invariant
            i <= g.nodes@.len(),
            first == spec_offset(*g, i as int),
            first <= place,
        decreases g.nodes@.len() - i,
    {
        let n: usize = match &g.nodes[i] {
            Some(n) => n.outputs.len(),
            None => 0,
        };
        if place - first < n {
            return Some(OutletRef { node: i, slot: place - first });
        }
        first = first + n;
        i += 1;
    }
    None
}

} // verus!
