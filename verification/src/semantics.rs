//! The meaning of a query, independent of any cache.
//!
//! `eval_val` evaluates a query straight from the rule table and the current
//! input cells, with a fuel bound on the nesting depth; `eval_to` says that a
//! query has a well-founded value under the current inputs. The engine's
//! central contract is that `evaluate` returns `Ok(v)` exactly when
//! `eval_to(.., v)` holds: memoization never changes what a query means.

use vstd::prelude::*;

use crate::query::{apply_op, Cell, Dep, Rule};

verus! {

/// The cell stored under key `i`, `None` where no write ever created one.
pub open spec fn cell_at(cells: Seq<Option<Cell>>, i: int) -> Option<Cell> {
    if 0 <= i < cells.len() {
        cells[i]
    } else {
        None
    }
}

/// The value of one dependency: an input cell is read directly, a query is
/// evaluated with the given fuel.
pub open spec fn eval_dep(rules: Seq<Rule>, cells: Seq<Option<Cell>>, d: Dep, fuel: nat) -> Option<
    i64,
>
    decreases fuel, 1int, 0int,
{
    match d {
        Dep::Input(i) => match cell_at(cells, i as int) {
            Some(c) => Some(c.value),
            None => None,
        },
        Dep::Query(q) => eval_val(rules, cells, q as int, fuel),
    }
}

/// The values of a list of dependencies, in order; `None` as soon as any one
/// of them has none.
pub open spec fn eval_deps(
    rules: Seq<Rule>,
    cells: Seq<Option<Cell>>,
    deps: Seq<Dep>,
    fuel: nat,
) -> Option<Seq<i64>>
    decreases fuel, 2int, deps.len(),
{
    if deps.len() == 0 {
        Some(Seq::empty())
    } else {
        match (eval_dep(rules, cells, deps[0], fuel), eval_deps(
            rules,
            cells,
            deps.drop_first(),
            fuel,
        )) {
            (Some(v), Some(rest)) => Some(seq![v] + rest),
            _ => None,
        }
    }
}

/// The value of query `k` under the current inputs, evaluated to nesting
/// depth `fuel`: its dependencies' values, combined by its operation. `None`
/// where the query is unregistered, reads a missing input, overflows, or
/// needs more fuel.
pub open spec fn eval_val(rules: Seq<Rule>, cells: Seq<Option<Cell>>, k: int, fuel: nat) -> Option<
    i64,
>
    decreases fuel, 0int, 0int,
{
    if fuel == 0 {
        None
    } else if !(0 <= k < rules.len()) {
        None
    } else {
        match eval_deps(rules, cells, rules[k].children@, (fuel - 1) as nat) {
            None => None,
            Some(vals) => apply_op(rules[k].op, vals),
        }
    }
}

/// Query `k` has the well-founded value `v` under the current inputs: some
/// finite nesting depth suffices to evaluate it.
pub open spec fn eval_to(rules: Seq<Rule>, cells: Seq<Option<Cell>>, k: int, v: i64) -> bool {
    exists|fuel: nat| eval_val(rules, cells, k, fuel) == Some(v)
}

/// Query `b` is read directly by query `a`.
pub open spec fn is_edge(rules: Seq<Rule>, a: usize, b: usize) -> bool {
    &&& 0 <= (a as int) < rules.len()
    &&& exists|i: int|
        0 <= i < rules[a as int].children@.len() && rules[a as int].children@[i] == Dep::Query(b)
}

/// `p` walks the dependency graph: each key on it directly reads the next.
pub open spec fn chain_wf(rules: Seq<Rule>, p: Seq<usize>) -> bool {
    forall|j: int| 0 <= j < p.len() - 1 ==> #[trigger] is_edge(rules, p[j], p[j + 1])
}

/// Evaluation is monotone in fuel: once a value appears, more fuel returns
/// the same value.
pub proof fn lemma_eval_val_mono(
    rules: Seq<Rule>,
    cells: Seq<Option<Cell>>,
    k: int,
    f1: nat,
    f2: nat,
)
    requires
        f1 <= f2,
        eval_val(rules, cells, k, f1) is Some,
    ensures
        eval_val(rules, cells, k, f2) == eval_val(rules, cells, k, f1),
    decreases f1, 0int, 0int,
{
    lemma_eval_deps_mono(rules, cells, rules[k].children@, (f1 - 1) as nat, (f2 - 1) as nat);
}

/// `lemma_eval_val_mono`, for one dependency.
pub proof fn lemma_eval_dep_mono(
    rules: Seq<Rule>,
    cells: Seq<Option<Cell>>,
    d: Dep,
    f1: nat,
    f2: nat,
)
    requires
        f1 <= f2,
        eval_dep(rules, cells, d, f1) is Some,
    ensures
        eval_dep(rules, cells, d, f2) == eval_dep(rules, cells, d, f1),
    decreases f1, 1int, 0int,
{
    match d {
        Dep::Input(_) => {},
        Dep::Query(q) => {
            lemma_eval_val_mono(rules, cells, q as int, f1, f2);
        },
    }
}

/// `lemma_eval_val_mono`, for a dependency list.
pub proof fn lemma_eval_deps_mono(
    rules: Seq<Rule>,
    cells: Seq<Option<Cell>>,
    deps: Seq<Dep>,
    f1: nat,
    f2: nat,
)
    requires
        f1 <= f2,
        eval_deps(rules, cells, deps, f1) is Some,
    ensures
        eval_deps(rules, cells, deps, f2) == eval_deps(rules, cells, deps, f1),
    decreases f1, 2int, deps.len(),
{
    if deps.len() > 0 {
        lemma_eval_dep_mono(rules, cells, deps[0], f1, f2);
        lemma_eval_deps_mono(rules, cells, deps.drop_first(), f1, f2);
    }
}

/// When a dependency list evaluates, it evaluates elementwise: the result has
/// one value per dependency, each the dependency's own value at that fuel.
pub proof fn lemma_eval_deps_each(
    rules: Seq<Rule>,
    cells: Seq<Option<Cell>>,
    deps: Seq<Dep>,
    fuel: nat,
)
    requires
        eval_deps(rules, cells, deps, fuel) is Some,
    ensures
        eval_deps(rules, cells, deps, fuel).unwrap().len() == deps.len(),
        forall|j: int|
            0 <= j < deps.len() ==> eval_dep(rules, cells, deps[j], fuel) == Some(
                eval_deps(rules, cells, deps, fuel).unwrap()[j],
            ),
    decreases deps.len(),
{
    if deps.len() > 0 {
        lemma_eval_deps_each(rules, cells, deps.drop_first(), fuel);
        let vals = eval_deps(rules, cells, deps, fuel).unwrap();
        let rest = eval_deps(rules, cells, deps.drop_first(), fuel).unwrap();
        assert forall|j: int| 0 <= j < deps.len() implies eval_dep(rules, cells, deps[j], fuel)
            == Some(vals[j]) by {
            if j > 0 {
                assert(deps.drop_first()[j - 1] == deps[j]);
                assert(vals[j] == rest[j - 1]);
            }
        }
    }
}

/// Extending a dependency list by one dependency that evaluates extends its
/// value list by that dependency's value.
pub proof fn lemma_eval_deps_snoc(
    rules: Seq<Rule>,
    cells: Seq<Option<Cell>>,
    deps: Seq<Dep>,
    d: Dep,
    fuel: nat,
)
    requires
        eval_deps(rules, cells, deps, fuel) is Some,
        eval_dep(rules, cells, d, fuel) is Some,
    ensures
        eval_deps(rules, cells, deps.push(d), fuel) == Some(
            eval_deps(rules, cells, deps, fuel).unwrap().push(
                eval_dep(rules, cells, d, fuel).unwrap(),
            ),
        ),
    decreases deps.len(),
{
    let w = eval_dep(rules, cells, d, fuel).unwrap();
    let snoc = deps.push(d);
    assert(snoc.len() == deps.len() + 1);
    if deps.len() == 0 {
        assert(snoc[0] == d);
        assert(snoc.drop_first() =~= Seq::<Dep>::empty());
        assert(eval_deps(rules, cells, snoc.drop_first(), fuel) == Some(Seq::<i64>::empty()));
        assert(eval_deps(rules, cells, snoc, fuel) == Some(seq![w] + Seq::<i64>::empty()));
        assert(eval_deps(rules, cells, deps, fuel) == Some(Seq::<i64>::empty()));
        assert(seq![w] + Seq::<i64>::empty() =~= Seq::<i64>::empty().push(w));
    } else {
        lemma_eval_deps_snoc(rules, cells, deps.drop_first(), d, fuel);
        assert(snoc.drop_first() =~= deps.drop_first().push(d));
        assert(snoc[0] == deps[0]);
        let v = eval_dep(rules, cells, deps[0], fuel).unwrap();
        let rest = eval_deps(rules, cells, deps.drop_first(), fuel).unwrap();
        assert(eval_deps(rules, cells, snoc.drop_first(), fuel) == Some(rest.push(w)));
        assert(eval_deps(rules, cells, snoc, fuel) == Some(seq![v] + rest.push(w)));
        assert(eval_deps(rules, cells, deps, fuel) == Some(seq![v] + rest));
        assert(seq![v] + rest.push(w) =~= (seq![v] + rest).push(w));
    }
}

/// A query has at most one well-founded value: what `evaluate` returns is
/// determined by the rule table and the inputs alone, so any evaluation
/// order, and any interleaving of independent evaluations, agrees on it.
pub proof fn lemma_eval_to_unique(
    rules: Seq<Rule>,
    cells: Seq<Option<Cell>>,
    k: int,
    v1: i64,
    v2: i64,
)
    requires
        eval_to(rules, cells, k, v1),
        eval_to(rules, cells, k, v2),
    ensures
        v1 == v2,
{
    let f1 = choose|f: nat| eval_val(rules, cells, k, f) == Some(v1);
    let f2 = choose|f: nat| eval_val(rules, cells, k, f) == Some(v2);
    if f1 <= f2 {
        lemma_eval_val_mono(rules, cells, k, f1, f2);
    } else {
        lemma_eval_val_mono(rules, cells, k, f2, f1);
    }
}

/// Walking one dependency edge costs one unit of fuel: if `a` evaluates at
/// some fuel, its child `b` evaluates at the predecessor fuel.
proof fn lemma_edge_val(rules: Seq<Rule>, cells: Seq<Option<Cell>>, a: usize, b: usize, fuel: nat)
    requires
        is_edge(rules, a, b),
        eval_val(rules, cells, a as int, fuel) is Some,
    ensures
        fuel >= 1,
        eval_val(rules, cells, b as int, (fuel - 1) as nat) is Some,
{
    let children = rules[a as int].children@;
    let i = choose|i: int| 0 <= i < children.len() && children[i] == Dep::Query(b);
    lemma_eval_deps_each(rules, cells, children, (fuel - 1) as nat);
}

/// Walking a chain of dependency edges costs its length in fuel.
proof fn lemma_chain_val(rules: Seq<Rule>, cells: Seq<Option<Cell>>, p: Seq<usize>, fuel: nat)
    requires
        chain_wf(rules, p),
        p.len() >= 1,
        eval_val(rules, cells, p[0] as int, fuel) is Some,
    ensures
        fuel >= p.len() - 1,
        eval_val(rules, cells, p.last() as int, (fuel - (p.len() - 1)) as nat) is Some,
    decreases p.len(),
{
    if p.len() > 1 {
        lemma_edge_val(rules, cells, p[0], p[1], fuel);
        let q = p.drop_first();
        assert(chain_wf(rules, q)) by {
            assert forall|j: int| 0 <= j < q.len() - 1 implies #[trigger] is_edge(
                rules,
                q[j],
                q[j + 1],
            ) by {
                assert(q[j] == p[j + 1] && q[j + 1] == p[j + 2]);
            }
        }
        lemma_chain_val(rules, cells, q, (fuel - 1) as nat);
        assert(q.last() == p.last());
    }
}

/// A key on a dependency cycle has no value at any fuel: every unrolling of
/// the cycle consumes fuel and never bottoms out.
proof fn lemma_cycle_val_none(rules: Seq<Rule>, cells: Seq<Option<Cell>>, p: Seq<usize>, fuel: nat)
    requires
        chain_wf(rules, p),
        p.len() >= 2,
        p[0] == p.last(),
    ensures
        eval_val(rules, cells, p[0] as int, fuel) is None,
    decreases fuel,
{
    if eval_val(rules, cells, p[0] as int, fuel) is Some {
        lemma_chain_val(rules, cells, p, fuel);
        lemma_cycle_val_none(rules, cells, p, (fuel - (p.len() - 1)) as nat);
    }
}

/// A query that transitively reads itself has no well-founded value: given a
/// cyclic chain through the dependency graph, the key it starts from cannot
/// evaluate to anything, at any depth. This is why a detected cycle is a
/// fatal error and never a cached result.
pub proof fn lemma_cycle_has_no_value(
    rules: Seq<Rule>,
    cells: Seq<Option<Cell>>,
    p: Seq<usize>,
    v: i64,
)
    requires
        chain_wf(rules, p),
        p.len() >= 2,
        p[0] == p.last(),
    ensures
        !eval_to(rules, cells, p[0] as int, v),
{
    if eval_to(rules, cells, p[0] as int, v) {
        let f = choose|f: nat| eval_val(rules, cells, p[0] as int, f) == Some(v);
        lemma_cycle_val_none(rules, cells, p, f);
    }
}

} // verus!
