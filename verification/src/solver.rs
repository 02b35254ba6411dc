use vstd::prelude::*;
use crate::dim::SymDim;
use crate::error::{Field, InferenceError, ShapeError};
use crate::fact::{
    copy_of, copy_value, is_resolved, lemma_unify_refines, refines, spec_unify, FactView,
    PartialFact, ResolvedFact,
};
use crate::op::{spec_rules, Reshape};

verus! {

/// A constraint between facts of one table; a fact is named by its place in
/// the table.
#[derive(Clone, Copy, Debug, PartialEq, Eq, Structural)]
pub enum Rule {
    /// The two facts describe one tensor.
    Equals { a: usize, b: usize },
    /// `output` is `input` reshaped to the target that `shape` holds.
    Reshape { input: usize, shape: usize, output: usize },
}

/// What the facts of a table state.
pub open spec fn views(table: Seq<PartialFact>) -> Seq<FactView> {
    Seq::new(table.len(), |i: int| table[i]@)
}

/// Whether each fact of `fine` refines the fact of `coarse` at its place.
pub open spec fn all_refine(fine: Seq<FactView>, coarse: Seq<FactView>) -> bool {
    &&& fine.len() == coarse.len()
    &&& forall|i: int| 0 <= i < fine.len() ==> refines(#[trigger] fine[i], coarse[i])
}

/// One application of a rule. A rule that names a place outside the table
/// fails with `DanglingReference`.
pub open spec fn spec_apply(rule: Rule, t: Seq<FactView>) -> Result<Seq<FactView>, ShapeError> {
    match rule {
        Rule::Equals { a, b } => if a >= t.len() || b >= t.len() {
            Err(ShapeError::DanglingReference)
        } else {
            match spec_unify(t[a as int], t[b as int]) {
                Err(e) => Err(e),
                Ok(u) => Ok(t.update(a as int, u).update(b as int, u)),
            }
        },
        Rule::Reshape { input, shape, output } => if input >= t.len() || shape >= t.len()
            || output >= t.len() {
            Err(ShapeError::DanglingReference)
        } else {
            match spec_rules(t[input as int], t[shape as int], t[output as int]) {
                Err(e) => Err(e),
                Ok((i, o)) => Ok(t.update(input as int, i).update(output as int, o)),
            }
        },
    }
}

/// One pass: every rule applied once, in order.
pub open spec fn spec_pass(rules: Seq<Rule>, t: Seq<FactView>) -> Result<Seq<FactView>, ShapeError>
    decreases rules.len(),
{
    if rules.len() == 0 {
        Ok(t)
    } else {
        match spec_pass(rules.drop_last(), t) {
            Err(e) => Err(e),
            Ok(m) => spec_apply(rules.last(), m),
        }
    }
}

/// `n` passes, one after the other.
pub open spec fn spec_passes(rules: Seq<Rule>, t: Seq<FactView>, n: nat) -> Result<
    Seq<FactView>,
    ShapeError,
>
    decreases n,
{
    if n == 0 {
        Ok(t)
    } else {
        match spec_passes(rules, t, (n - 1) as nat) {
            Err(e) => Err(e),
            Ok(m) => spec_pass(rules, m),
        }
    }
}

/// The number of unknown dimensions of a list.
pub open spec fn none_count(dims: Seq<Option<SymDim>>) -> nat
    decreases dims.len(),
{
    if dims.len() == 0 {
        0
    } else {
        none_count(dims.drop_last()) + (if dims.last() is None {
            1nat
        } else {
            0nat
        })
    }
}

/// 1 for a fact of unknown rank.
pub open spec fn open_rank(f: FactView) -> nat {
    if f.shape is None {
        1
    } else {
        0
    }
}

/// The number of unknown properties of a fact, the rank aside.
pub open spec fn unknowns(f: FactView) -> nat {
    (if f.datum_type is None {
        1nat
    } else {
        0nat
    }) + (if f.value is None {
        1nat
    } else {
        0nat
    }) + (match f.shape {
        Some(dims) => none_count(dims),
        None => 0nat,
    })
}

pub open spec fn total_open_rank(t: Seq<FactView>) -> nat
    decreases t.len(),
{
    if t.len() == 0 {
        0
    } else {
        total_open_rank(t.drop_last()) + open_rank(t.last())
    }
}

pub open spec fn total_unknowns(t: Seq<FactView>) -> nat
    decreases t.len(),
{
    if t.len() == 0 {
        0
    } else {
        total_unknowns(t.drop_last()) + unknowns(t.last())
    }
}

pub proof fn lemma_refines_is_transitive(a: FactView, b: FactView, c: FactView)
    requires
        refines(a, b),
        refines(b, c),
    ensures
        refines(a, c),
{
    if let Some(cd) = c.shape {
        let bd = b.shape->Some_0;
        let ad = a.shape->Some_0;
        assert forall|i: int| 0 <= i < cd.len() && (#[trigger] cd[i]) is Some implies ad[i]
            == cd[i] by {
            assert(bd[i] == cd[i]);
            assert(bd[i] is Some);
        }
    }
}

pub proof fn lemma_all_refine_is_transitive(a: Seq<FactView>, b: Seq<FactView>, c: Seq<FactView>)
    requires
        all_refine(a, b),
        all_refine(b, c),
    ensures
        all_refine(a, c),
{
    assert forall|i: int| 0 <= i < a.len() implies refines(#[trigger] a[i], c[i]) by {
        assert(refines(b[i], c[i]));
        lemma_refines_is_transitive(a[i], b[i], c[i]);
    }
}

/// The rules of the reshape operator only add knowledge to the two facts that
/// they change.
pub proof fn lemma_rules_refine(input: FactView, shape: FactView, output: FactView)
    requires
        spec_rules(input, shape, output) is Ok,
    ensures
        refines(spec_rules(input, shape, output)->Ok_0.0, input),
        refines(spec_rules(input, shape, output)->Ok_0.1, output),
{
}

/// A rule only adds knowledge: every fact of the table after it refines the
/// fact that stood there before.
pub proof fn lemma_apply_refines(rule: Rule, t: Seq<FactView>)
    requires
        spec_apply(rule, t) is Ok,
    ensures
        all_refine(spec_apply(rule, t)->Ok_0, t),
{
    match rule {
        Rule::Equals { a, b } => {
            lemma_unify_refines(t[a as int], t[b as int]);
        },
        Rule::Reshape { input, shape, output } => {
            lemma_rules_refine(t[input as int], t[shape as int], t[output as int]);
        },
    }
}

/// Across a pass every property of every fact moves from unknown to known or
/// stays as it is; none moves from one known value to another.
pub proof fn lemma_pass_refines(rules: Seq<Rule>, t: Seq<FactView>)
    requires
        spec_pass(rules, t) is Ok,
    ensures
        all_refine(spec_pass(rules, t)->Ok_0, t),
    decreases rules.len(),
{
    if rules.len() > 0 {
        let m = spec_pass(rules.drop_last(), t)->Ok_0;
        lemma_pass_refines(rules.drop_last(), t);
        lemma_apply_refines(rules.last(), m);
        lemma_all_refine_is_transitive(spec_pass(rules, t)->Ok_0, m, t);
    }
}

/// The same across any number of passes.
pub proof fn lemma_passes_refine(rules: Seq<Rule>, t: Seq<FactView>, n: nat)
    requires
        spec_passes(rules, t, n) is Ok,
    ensures
        all_refine(spec_passes(rules, t, n)->Ok_0, t),
    decreases n,
{
    if n > 0 {
        let m = spec_passes(rules, t, (n - 1) as nat)->Ok_0;
        lemma_passes_refine(rules, t, (n - 1) as nat);
        lemma_pass_refines(rules, m);
        lemma_all_refine_is_transitive(spec_passes(rules, t, n)->Ok_0, m, t);
    }
}

/// A list of dimensions that keeps every known dimension has at most as many
/// unknown ones, and as many only where it is the same list.
pub proof fn lemma_none_count_shrinks(fine: Seq<Option<SymDim>>, coarse: Seq<Option<SymDim>>)
    requires
        fine.len() == coarse.len(),
        forall|i: int| 0 <= i < coarse.len() && (#[trigger] coarse[i]) is Some ==> fine[i] == coarse[i],
    ensures
        none_count(fine) <= none_count(coarse),
        none_count(fine) == none_count(coarse) ==> fine == coarse,
    decreases coarse.len(),
{
    if coarse.len() > 0 {
        let f = fine.drop_last();
        let c = coarse.drop_last();
        assert forall|i: int| 0 <= i < c.len() && (#[trigger] c[i]) is Some implies f[i] == c[i] by {
            assert(coarse[i] is Some);
        }
        lemma_none_count_shrinks(f, c);
        assert(coarse.last() is Some ==> fine.last() == coarse.last());
        if none_count(fine) == none_count(coarse) {
            assert(fine =~= f.push(fine.last()));
            assert(coarse =~= c.push(coarse.last()));
        }
    } else {
        assert(fine =~= coarse);
    }
}

/// A fact that refines another has no more open rank; with the same rank, no
/// more unknown properties; and with as many, it is the same fact.
pub proof fn lemma_fact_progress(fine: FactView, coarse: FactView)
    requires
        refines(fine, coarse),
    ensures
        open_rank(fine) <= open_rank(coarse),
        open_rank(fine) == open_rank(coarse) ==> unknowns(fine) <= unknowns(coarse),
        open_rank(fine) == open_rank(coarse) && unknowns(fine) == unknowns(coarse) ==> fine
            == coarse,
{
    if let (Some(f), Some(c)) = (fine.shape, coarse.shape) {
        lemma_none_count_shrinks(f, c);
    }
}

/// The same for tables. This is why the passes end: each pass that changes a
/// fact lowers the pair of the two totals.
pub proof fn lemma_table_progress(fine: Seq<FactView>, coarse: Seq<FactView>)
    requires
        all_refine(fine, coarse),
    ensures
        total_open_rank(fine) <= total_open_rank(coarse),
        total_open_rank(fine) == total_open_rank(coarse) ==> total_unknowns(fine)
            <= total_unknowns(coarse),
        total_open_rank(fine) == total_open_rank(coarse) && total_unknowns(fine) == total_unknowns(
            coarse,
        ) ==> fine == coarse,
    decreases coarse.len(),
{
    if coarse.len() > 0 {
        let f = fine.drop_last();
        let c = coarse.drop_last();
        assert forall|i: int| 0 <= i < f.len() implies refines(#[trigger] f[i], c[i]) by {
            assert(refines(fine[i], coarse[i]));
        }
        lemma_table_progress(f, c);
        assert(refines(fine[fine.len() - 1], coarse[coarse.len() - 1]));
        lemma_fact_progress(fine.last(), coarse.last());
        if total_open_rank(fine) == total_open_rank(coarse) && total_unknowns(fine)
            == total_unknowns(coarse) {
            assert(fine =~= f.push(fine.last()));
            assert(coarse =~= c.push(coarse.last()));
        }
    } else {
        assert(fine =~= coarse);
    }
}

pub fn same_dims(a: &Vec<Option<SymDim>>, b: &Vec<Option<SymDim>>) -> (r: bool)
    ensures
        r == (a@ == b@),
{
    if a.len() != b.len() {
        return false;
    }
    let mut i: usize = 0;
    while i < a.len()
        invariant
            a@.len() == b@.len(),
            i <= a@.len(),
            forall|j: int| 0 <= j < i ==> a@[j] == b@[j],
        decreases a@.len() - i,
    {
        let same = match (a[i], b[i]) {
            (Some(x), Some(y)) => x == y,
            (None, None) => true,
            _ => false,
        };
        if !same {
            return false;
        }
        i += 1;
    }
    assert(a@ =~= b@);
    true
}

/// Whether two facts state the same.
pub fn same_fact(a: &PartialFact, b: &PartialFact) -> (r: bool)
    ensures
        r == (a@ == b@),
{
    let same_type = match (a.datum_type, b.datum_type) {
        (Some(x), Some(y)) => x == y,
        (None, None) => true,
        _ => false,
    };
    let same_shape = match (&a.shape, &b.shape) {
        (Some(x), Some(y)) => same_dims(x, y),
        (None, None) => true,
        _ => false,
    };
    let same_value = match (&a.value, &b.value) {
        (Some(x), Some(y)) => x.same_as(y),
        (None, None) => true,
        _ => false,
    };
    same_type && same_shape && same_value
}

pub fn copy_fact(f: &PartialFact) -> (r: PartialFact)
    ensures
        r@ == f@,
{
    PartialFact {
        datum_type: f.datum_type,
        shape: match &f.shape {
            Some(v) => Some(copy_of(v)),
            None => None,
        },
        value: copy_value(&f.value),
    }
}

pub fn copy_table(t: &Vec<PartialFact>) -> (r: Vec<PartialFact>)
    ensures
        views(r@) == views(t@),
{
    let mut out: Vec<PartialFact> = Vec::new();
    let mut i: usize = 0;
    while i < t.len()
        invariant
            i <= t@.len(),
            out@.len() == i,
            forall|j: int| 0 <= j < i ==> out@[j]@ == t@[j]@,
        decreases t@.len() - i,
    {
        out.push(copy_fact(&t[i]));
        i += 1;
    }
    assert(views(out@) =~= views(t@));
    out
}

pub fn same_table(a: &Vec<PartialFact>, b: &Vec<PartialFact>) -> (r: bool)
    ensures
        r == (views(a@) == views(b@)),
{
    if a.len() != b.len() {
        assert(views(a@).len() != views(b@).len());
        return false;
    }
    let mut i: usize = 0;
    while i < a.len()
        invariant
            a@.len() == b@.len(),
            i <= a@.len(),
            forall|j: int| 0 <= j < i ==> a@[j]@ == b@[j]@,
        decreases a@.len() - i,
    {
        if !same_fact(&a[i], &b[i]) {
            assert(views(a@)[i as int] != views(b@)[i as int]);
            return false;
        }
        i += 1;
    }
    assert(views(a@) =~= views(b@));
    true
}

/// Applies one rule to the table.
pub fn apply_rule(rule: Rule, table: Vec<PartialFact>) -> (r: Result<Vec<PartialFact>, ShapeError>)
    ensures
        match r {
            Ok(t) => spec_apply(rule, views(table@)) == Ok::<Seq<FactView>, ShapeError>(views(t@)),
            Err(e) => spec_apply(rule, views(table@)) == Err::<Seq<FactView>, ShapeError>(e),
        },
{
    let mut t = table;
    match rule {
        Rule::Equals { a, b } => {
            if a >= t.len() || b >= t.len() {
                return Err(ShapeError::DanglingReference);
            }
            let u = match t[a].unify(&t[b]) {
                Ok(u) => u,
                Err(e) => {
                    return Err(e);
                },
            };
            let u2 = copy_fact(&u);
            t.set(a, u);
            t.set(b, u2);
            assert(views(t@) =~= views(table@).update(a as int, u2@).update(b as int, u2@));
            Ok(t)
        },
        Rule::Reshape { input, shape, output } => {
            if input >= t.len() || shape >= t.len() || output >= t.len() {
                return Err(ShapeError::DanglingReference);
            }
            let (i, o) = match Reshape::new().rules(&t[input], &t[shape], &t[output]) {
                Ok(facts) => facts,
                Err(e) => {
                    return Err(e);
                },
            };
            let ghost iv = i@;
            let ghost ov = o@;
            t.set(input, i);
            t.set(output, o);
            assert(views(t@) =~= views(table@).update(input as int, iv).update(output as int, ov));
            Ok(t)
        },
    }
}

/// One pass over the rules.
#[verifier::loop_isolation(false)]
pub fn pass(rules: &Vec<Rule>, table: Vec<PartialFact>) -> (r: Result<Vec<PartialFact>, ShapeError>)
    ensures
        match r {
            Ok(t) => spec_pass(rules@, views(table@)) == Ok::<Seq<FactView>, ShapeError>(views(t@))
                && all_refine(views(t@), views(table@)),
            Err(e) => spec_pass(rules@, views(table@)) == Err::<Seq<FactView>, ShapeError>(e),
        },
{
    let ghost start = views(table@);
    let mut t = table;
    let mut i: usize = 0;
    while i < rules.len()
        invariant
            i <= rules@.len(),
            spec_pass(rules@.take(i as int), start) == Ok::<Seq<FactView>, ShapeError>(views(t@)),
        decreases rules@.len() - i,
    {
        proof {
            assert(rules@.take(i + 1).drop_last() =~= rules@.take(i as int));
        }
        match apply_rule(rules[i], t) {
            Ok(next) => {
                t = next;
            },
            Err(e) => {
                proof {
                    lemma_pass_fails_on(rules@, start, i + 1);
                }
                return Err(e);
            },
        }
        i += 1;
    }
    proof {
        assert(rules@.take(i as int) =~= rules@);
        lemma_pass_refines(rules@, start);
    }
    Ok(t)
}

/// A pass that fails on the first rules fails in the same way on all of them.
pub proof fn lemma_pass_fails_on(rules: Seq<Rule>, t: Seq<FactView>, n: int)
    requires
        0 <= n <= rules.len(),
        spec_pass(rules.take(n), t) is Err,
    ensures
        spec_pass(rules, t) == spec_pass(rules.take(n), t),
    decreases rules.len() - n,
{
    if n == rules.len() {
        assert(rules.take(n) =~= rules);
    } else {
        assert(rules.take(n + 1).drop_last() =~= rules.take(n));
        lemma_pass_fails_on(rules, t, n + 1);
    }
}

/// Whether `t` is what some number of passes makes of `start` and what one
/// more pass leaves as it is.
pub open spec fn reaches_fixpoint(rules: Seq<Rule>, start: Seq<FactView>, t: Seq<FactView>) -> bool {
    &&& exists|n: nat| #[trigger] spec_passes(rules, start, n) == Ok::<Seq<FactView>, ShapeError>(t)
    &&& spec_pass(rules, t) == Ok::<Seq<FactView>, ShapeError>(t)
}

/// Whether some number of passes from `start` on ends in the error `e`.
pub open spec fn fails_with(rules: Seq<Rule>, start: Seq<FactView>, e: ShapeError) -> bool {
    exists|n: nat| #[trigger] spec_passes(rules, start, n) == Err::<Seq<FactView>, ShapeError>(e)
}

/// Whether the passes from `start` on reach a table that they leave as it is,
/// in which `place` is the first fact that is not resolved and `field` the
/// first property that it lacks.
pub open spec fn stuck_at(rules: Seq<Rule>, start: Seq<FactView>, place: usize, field: Field) -> bool {
    exists|t: Seq<FactView>|
        {
            &&& #[trigger] reaches_fixpoint(rules, start, t)
            &&& place == spec_first_unresolved(t, 0)
            &&& place < t.len()
            &&& spec_first_gap(t[place as int]) == Some(field)
        }
}

/// What the resolved facts state, place by place.
pub open spec fn resolved_views(v: Seq<ResolvedFact>) -> Seq<FactView> {
    Seq::new(v.len(), |i: int| v[i]@)
}

/// A table that a pass leaves as it is stays as it is under more passes.
pub proof fn lemma_fixpoint_stays(rules: Seq<Rule>, start: Seq<FactView>, t: Seq<FactView>, n: nat, m: nat)
    requires
        spec_passes(rules, start, n) == Ok::<Seq<FactView>, ShapeError>(t),
        spec_pass(rules, t) == Ok::<Seq<FactView>, ShapeError>(t),
    ensures
        spec_passes(rules, start, n + m) == Ok::<Seq<FactView>, ShapeError>(t),
    decreases m,
{
    if m > 0 {
        lemma_fixpoint_stays(rules, start, t, n, (m - 1) as nat);
    }
}

/// The passes reach at most one table that they leave as it is.
pub proof fn lemma_fixpoint_is_unique(
    rules: Seq<Rule>,
    start: Seq<FactView>,
    a: Seq<FactView>,
    b: Seq<FactView>,
)
    requires
        reaches_fixpoint(rules, start, a),
        reaches_fixpoint(rules, start, b),
    ensures
        a == b,
{
    let n = choose|n: nat| #[trigger] spec_passes(rules, start, n) == Ok::<Seq<FactView>, ShapeError>(a);
    let m = choose|m: nat| #[trigger] spec_passes(rules, start, m) == Ok::<Seq<FactView>, ShapeError>(b);
    if n <= m {
        lemma_fixpoint_stays(rules, start, a, n, (m - n) as nat);
    } else {
        lemma_fixpoint_stays(rules, start, b, m, (n - m) as nat);
    }
}

/// Passes over the rules until a pass changes no fact. The result is the first
/// table that a pass leaves as it is; every fact of it refines the fact given
/// at its place. The error is that of the first pass that fails.
#[verifier::loop_isolation(false)]
pub fn solve(rules: &Vec<Rule>, table: Vec<PartialFact>) -> (r: Result<Vec<PartialFact>, ShapeError>)
    ensures
        match r {
            Ok(t) => reaches_fixpoint(rules@, views(table@), views(t@)) && all_refine(
                views(t@),
                views(table@),
            ),
            Err(e) => fails_with(rules@, views(table@), e),
        },
{
    let ghost start = views(table@);
    let ghost mut n: nat = 0;
    let mut t = table;
    loop
        invariant
            spec_passes(rules@, start, n) == Ok::<Seq<FactView>, ShapeError>(views(t@)),
        decreases total_open_rank(views(t@)), total_unknowns(views(t@)),
    {
        let before = copy_table(&t);
        let ghost bv = views(t@);
        match pass(rules, t) {
            Err(e) => {
                proof {
                    assert(spec_passes(rules@, start, n + 1) == Err::<Seq<FactView>, ShapeError>(e));
                }
                return Err(e);
            },
            Ok(after) => {
                proof {
                    assert(spec_passes(rules@, start, n + 1) == Ok::<Seq<FactView>, ShapeError>(
                        views(after@),
                    ));
                    lemma_table_progress(views(after@), bv);
                }
                if same_table(&before, &after) {
                    proof {
                        lemma_passes_refine(rules@, start, n);
                    }
                    return Ok(after);
                }
                t = after;
                proof {
                    n = n + 1;
                }
            },
        }
    }
}

/// The first unknown dimension of a list from `from` on, or the length of the
/// list if every dimension is known.
pub open spec fn spec_first_none(dims: Seq<Option<SymDim>>, from: int) -> int
    decreases dims.len() - from,
{
    if from < 0 || from >= dims.len() {
        dims.len() as int
    } else if dims[from] is None {
        from
    } else {
        spec_first_none(dims, from + 1)
    }
}

/// The first property that keeps a fact from being resolved: the type, then the
/// rank, then the dimensions in order.
pub open spec fn spec_first_gap(f: FactView) -> Option<Field> {
    if f.datum_type is None {
        Some(Field::DatumType)
    } else {
        match f.shape {
            None => Some(Field::Rank),
            Some(dims) => if spec_first_none(dims, 0) < dims.len() {
                Some(Field::Dim(spec_first_none(dims, 0) as usize))
            } else {
                None
            },
        }
    }
}

/// The first place from `from` on whose fact is not resolved, or the length of
/// the table.
pub open spec fn spec_first_unresolved(t: Seq<FactView>, from: int) -> int
    decreases t.len() - from,
{
    if from < 0 || from >= t.len() {
        t.len() as int
    } else if !is_resolved(t[from]) {
        from
    } else {
        spec_first_unresolved(t, from + 1)
    }
}

pub proof fn lemma_first_none(dims: Seq<Option<SymDim>>, from: int)
    requires
        0 <= from <= dims.len(),
    ensures
        from <= spec_first_none(dims, from) <= dims.len(),
        forall|i: int| from <= i < spec_first_none(dims, from) ==> (#[trigger] dims[i]) is Some,
        spec_first_none(dims, from) < dims.len() ==> dims[spec_first_none(dims, from)] is None,
    decreases dims.len() - from,
{
    if from < dims.len() && dims[from] is Some {
        lemma_first_none(dims, from + 1);
    }
}

/// A fact is resolved exactly when nothing keeps it from being so.
pub proof fn lemma_gap_or_resolved(f: FactView)
    ensures
        spec_first_gap(f) is None <==> is_resolved(f),
{
    if let Some(dims) = f.shape {
        lemma_first_none(dims, 0);
    }
}

#[verifier::loop_isolation(false)]
pub fn first_gap(f: &PartialFact) -> (r: Option<Field>)
    ensures
        r == spec_first_gap(f@),
        r is None <==> is_resolved(f@),
{
    proof {
        lemma_gap_or_resolved(f@);
    }
    if f.datum_type.is_none() {
        return Some(Field::DatumType);
    }
    match &f.shape {
        None => Some(Field::Rank),
        Some(dims) => {
            let mut i: usize = 0;
            while i < dims.len()
                invariant
                    i <= dims@.len(),
                    spec_first_none(dims@, 0) == spec_first_none(dims@, i as int),
                decreases dims@.len() - i,
            {
                if dims[i].is_none() {
                    return Some(Field::Dim(i));
                }
                i += 1;
            }
            None
        },
    }
}

/// The resolved facts of a table, or the first place that is not resolved with
/// the first property that it lacks.
pub fn resolve_all(table: &Vec<PartialFact>) -> (r: Result<Vec<ResolvedFact>, InferenceError>)
    ensures
        match r {
            Ok(v) => {
                &&& spec_first_unresolved(views(table@), 0) == table@.len()
                &&& v@.len() == table@.len()
                &&& forall|i: int| 0 <= i < v@.len() ==> (#[trigger] v@[i])@ == table@[i]@
            },
            Err(e) => {
                let place = spec_first_unresolved(views(table@), 0);
                &&& 0 <= place < table@.len()
                &&& spec_first_gap(table@[place]@) is Some
                &&& e == (InferenceError::UnderConstrained {
                    place: place as usize,
                    field: spec_first_gap(table@[place]@)->Some_0,
                })
            },
        },
{
    let mut out: Vec<ResolvedFact> = Vec::new();
    let mut i: usize = 0;
    while i < table.len()
        invariant
            i <= table@.len(),
            out@.len() == i,
            spec_first_unresolved(views(table@), 0) == spec_first_unresolved(views(table@), i as int),
            forall|j: int| 0 <= j < i ==> (#[trigger] out@[j])@ == table@[j]@,
        decreases table@.len() - i,
    {
        assert(views(table@)[i as int] == table@[i as int]@);
        match table[i].try_resolve() {
            Some(f) => {
                out.push(f);
            },
            None => {
                match first_gap(&table[i]) {
                    Some(field) => {
                        return Err(InferenceError::UnderConstrained { place: i, field });
                    },
                    None => {
                        assert(false);
                    },
                }
            },
        }
        i += 1;
    }
    Ok(out)
}

/// Solves the rules and resolves every fact of the table: gives the facts of
/// the table that the passes reach and leave as it is, where all of them are
/// resolved.
pub fn solve_fully(rules: &Vec<Rule>, table: Vec<PartialFact>) -> (r: Result<
    Vec<ResolvedFact>,
    InferenceError,
>)
    ensures
        match r {
            Ok(v) => reaches_fixpoint(rules@, views(table@), resolved_views(v@)),
            Err(InferenceError::Rule(e)) => fails_with(rules@, views(table@), e),
            Err(InferenceError::UnderConstrained { place, field }) => stuck_at(
                rules@,
                views(table@),
                place,
                field,
            ),
        },
{
    match solve(rules, table) {
        Err(e) => Err(InferenceError::Rule(e)),
        Ok(solved) => {
            match resolve_all(&solved) {
                Ok(v) => {
                    assert(resolved_views(v@) =~= views(solved@)) by {
                        assert forall|i: int| 0 <= i < v@.len() implies resolved_views(v@)[i]
                            == views(solved@)[i] by {
                            assert(v@[i]@ == solved@[i]@);
                        }
                    }
                    Ok(v)
                },
                Err(e) => {
                    assert(reaches_fixpoint(rules@, views(table@), views(solved@)));
                    let ghost place = spec_first_unresolved(views(solved@), 0);
                    assert(views(solved@)[place] == solved@[place]@);
                    Err(e)
                },
            }
        },
    }
}

} // verus!
