//! The optimizer: iterations that build a linear system, solve it and move the variables.

use crate::factor_graph::factor::Factor;
use crate::factor_graph::variable::{lemma_content_len, lemma_variable_equal, FixedType, Variable};
use crate::factor_graph::{lemma_range_within, same_place, same_places, FactorGraph, GraphView};
use crate::optimizer::linear_system::{
    any_contributes, assembled, calculate_H_b, lies_within, link_contributes, misfits, negate_b,
    turned, LinearSystem,
};
use crate::optimizer::solver::{checked, SolverError, SparseCholeskySolver};
use vstd::prelude::*;

pub mod linear_system;
pub mod solver;

verus! {

/// The arithmetic that the optimizer needs. Every scalar that crosses this trait is a
/// double-precision number held as its bit pattern.
///
/// The optimizer promises what each method's `requires` says, and takes whatever comes
/// back: it checks the sizes of the results itself. What it states of its own results, it
/// states of what the arithmetic answered.
pub trait Numerics {
    /// Linearizes one factor at the current values of the variables that it touches.
    ///
    /// With `J` the Jacobian of the factor's residual `e`, one block of columns for the
    /// variable that the factor leaves and, unless the factor is a prior, one behind it
    /// for the variable that it leads to, and with `W` the factor's information matrix,
    /// the results are `J^T W J`, column by column, and `J^T W e`.
    fn linearize(&self, factor: &Factor, source: &Variable, target: &Variable) -> (products: (
        Vec<u64>,
        Vec<u64>,
    ))
        requires
            factor.wf(),
            factor@.joins(source.kind(), target.kind()),
    ;

    /// Solves `H x = b` for the symmetric matrix `H` that is the sum of the system's
    /// blocks and the vector `b` that is the sum of its segments. There is no solution
    /// where `H` is not positive definite.
    fn solve(&self, system: &LinearSystem) -> (solution: Option<Vec<u64>>)
        requires
            system.wf(),
    ;

    /// Moves a variable's value along a correction from the tangent space at that value,
    /// and returns the new value.
    fn retract(&self, variable: &Variable, correction: &Vec<u64>) -> (value: Vec<u64>)
        requires
            correction@.len() == variable.kind().spec_local_dim(),
    ;
}

/// Why an iteration was given up.
#[derive(Debug, Clone, Copy, PartialEq, Eq, Structural)]
pub enum OptimizeError {
    /// The linearization of a factor has not the size of the factor's Jacobian.
    Linearization,
    /// The linear system has no solution.
    Solver(SolverError),
    /// The new value of a variable has not as many scalars as the variable's kind asks
    /// for.
    Retraction,
}

/// How a graph may differ from what it was before it was optimized: in the values of
/// variables that are not fixed, and in nothing else.
pub open spec fn retracted(before: GraphView, after: GraphView) -> bool {
    &&& after.adjacency == before.adjacency
    &&& after.dim == before.dim
    &&& after.ids == before.ids
    &&& same_places(after.variables, before.variables)
    &&& forall|i: int|
        0 <= i < before.variables.len() && (#[trigger] before.variables[i]).fixed_type().is_fixed()
            ==> after.variables[i] == before.variables[i]
}

/// Whether one of the variables is not fixed.
pub open spec fn any_free(variables: Seq<Variable>) -> bool {
    exists|i: int| 0 <= i < variables.len() && !(#[trigger] variables[i]).fixed_type().is_fixed()
}

/// Whether a factor of the graph touches a variable that is not fixed, so that the
/// linear system needs the factor's linearization.
pub open spec fn needs_linearization(graph: GraphView) -> bool {
    any_contributes(graph.variables, graph.links(), graph.links().len() as int)
}

/// What an optimization does not change: whether a variable is free, and whether a factor
/// needs its linearization.
pub proof fn lemma_retracted_needs(before: GraphView, after: GraphView)
    requires
        retracted(before, after),
    ensures
        any_free(after.variables) ==> any_free(before.variables),
        needs_linearization(after) ==> needs_linearization(before),
{
    if any_free(after.variables) {
        let i = choose|i: int|
            0 <= i < after.variables.len() && !(#[trigger] after.variables[i]).fixed_type().is_fixed();
        assert(same_place(after.variables[i], before.variables[i]));
        assert(!before.variables[i].fixed_type().is_fixed());
    }
    if needs_linearization(after) {
        let links = after.links();
        let n = choose|n: int|
            n < links.len() && #[trigger] link_contributes(after.variables, links, n);
        assert(before.links() == links);
        assert(same_place(after.variables[links[n].0 as int], before.variables[links[n].0 as int]));
        assert(same_place(after.variables[links[n].1 as int], before.variables[links[n].1 as int]));
        assert(link_contributes(before.variables, links, n));
    }
}

/// A graph that was not touched differs in nothing.
pub proof fn lemma_retracted_reflexive(graph: GraphView)
    ensures
        retracted(graph, graph),
{
}

/// What holds of each of two optimizations in a row holds of both together.
pub proof fn lemma_retracted_transitive(first: GraphView, second: GraphView, third: GraphView)
    requires
        retracted(first, second),
        retracted(second, third),
    ensures
        retracted(first, third),
{
    assert forall|i: int| 0 <= i < third.variables.len() implies same_place(
        #[trigger] third.variables[i],
        first.variables[i],
    ) by {
        assert(same_place(third.variables[i], second.variables[i]));
        assert(same_place(second.variables[i], first.variables[i]));
    }
    assert forall|i: int|
        0 <= i < first.variables.len() && (#[trigger] first.variables[i]).fixed_type().is_fixed() implies third.variables[i]
        == first.variables[i] by {
        assert(same_place(second.variables[i], first.variables[i]));
        assert(second.variables[i].fixed_type().is_fixed());
    }
}

/// A graph whose variables are all fixed is after its optimization what it was before.
pub proof fn lemma_all_fixed(before: GraphView, after: GraphView)
    requires
        retracted(before, after),
        forall|i: int|
            0 <= i < before.variables.len() ==> (#[trigger] before.variables[i]).fixed_type().is_fixed(),
    ensures
        after == before,
{
    assert(after.variables =~= before.variables);
    assert(after =~= before);
}

/// The part of a solution that belongs to a variable: the scalars in the variable's rows,
/// and nothing for a fixed variable.
pub fn correction_for(var: &Variable, solution: &Vec<u64>) -> (correction: Option<Vec<u64>>)
    requires
        lies_within(*var, solution@.len() as int),
    ensures
        correction is None <==> var.fixed_type().is_fixed(),
        correction is Some ==> correction->0@ == solution@.subrange(
            var.fixed_type().start(),
            var.fixed_type().end(),
        ),
{
    match var.get_fixed_type() {
        FixedType::Fixed => None,
        FixedType::NonFixed(range) => {
            let mut correction: Vec<u64> = Vec::new();
            let mut i: usize = range.start;
            while i < range.end
                invariant
                    range.start <= i <= range.end,
                    range.end <= solution@.len(),
                    correction@ == solution@.subrange(range.start as int, i as int),
                decreases range.end - i,
            {
                correction.push(solution[i]);
                assert(correction@ =~= solution@.subrange(range.start as int, i + 1));
                i += 1;
            }
            Some(correction)
        },
    }
}

/// What becomes of a variable when the arithmetic has made a value for it: the variable
/// gets the value, if that has as many scalars as the variable's kind asks for, and
/// keeps its own with an error otherwise. Its identifier, kind and place stay.
pub open spec fn applied(
    before: Variable,
    value: Seq<u64>,
    after: Variable,
    result: Result<(), OptimizeError>,
) -> bool {
    &&& same_place(after, before)
    &&& if value.len() == before.kind().spec_content_len() {
        result == Ok::<(), OptimizeError>(()) && after.content() == value
    } else {
        result == Err::<(), OptimizeError>(OptimizeError::Retraction) && after == before
    }
}

/// Gives a variable the value that the arithmetic made for it, if that has as many
/// scalars as the variable's kind asks for. Otherwise the variable keeps its value.
pub fn apply_value(var: &mut Variable, value: Vec<u64>) -> (result: Result<(), OptimizeError>)
    ensures
        applied(*old(var), value@, *final(var), result),
{
    if value.len() != var.get_type().content_len() {
        return Err(OptimizeError::Retraction);
    }
    let ghost scalars = value@;
    var.set_content(value);
    assert(scalars.subrange(0, scalars.len() as int) =~= scalars);
    Ok(())
}

/// What `update_var` does to a variable that is not fixed: the arithmetic is asked to
/// move the variable's value along the variable's part of the solution, and the variable
/// gets what `apply_value` makes of the answer.
pub open spec fn moved<N: Numerics>(
    numerics: &N,
    before: Variable,
    solution: Seq<u64>,
    after: Variable,
    result: Result<(), OptimizeError>,
) -> bool {
    exists|correction: Vec<u64>, value: Vec<u64>|
        correction@ == solution.subrange(before.fixed_type().start(), before.fixed_type().end())
            && #[trigger] call_ensures(N::retract, (numerics, &before, &correction), value)
            && applied(before, value@, after, result)
}

/// Gives a variable its new value: a fixed variable keeps its value; one that is not
/// fixed gets what the arithmetic makes of its value and its part of the solution. If
/// that has the wrong size, the variable keeps its value and the answer is an error.
pub fn update_var<N: Numerics>(var: &mut Variable, solution: &Vec<u64>, numerics: &N) -> (updated:
    Result<(), OptimizeError>)
    requires
        lies_within(*old(var), solution@.len() as int),
    ensures
        same_place(*final(var), *old(var)),
        old(var).fixed_type().is_fixed() ==> updated is Ok && *final(var) == *old(var),
        !old(var).fixed_type().is_fixed() ==> moved(
            numerics,
            *old(var),
            solution@,
            *final(var),
            updated,
        ),
        updated is Err ==> updated == Err::<(), OptimizeError>(OptimizeError::Retraction)
            && *final(var) == *old(var),
{
    let correction = match correction_for(var, solution) {
        None => {
            return Ok(());
        },
        Some(correction) => correction,
    };
    let ghost before = *var;
    let updated_content = numerics.retract(var, &correction);
    let ghost value = updated_content;
    let result = apply_value(var, updated_content);
    proof {
        assert(call_ensures(N::retract, (numerics, &before, &correction), value));
        assert(applied(before, value@, *var, result));
    }
    result
}

/// What becomes of a graph when the arithmetic has answered for the linear system of an
/// iteration. Without a solution of the system's size the graph stays, and the error
/// says why. With one, each variable that is not fixed is moved along its part of the
/// solution as `moved` says, and nothing else changes; but if a new value has the wrong
/// size, the graph stays as a whole.
pub open spec fn solved<N: Numerics>(
    numerics: &N,
    before: GraphView,
    answer: Option<Vec<u64>>,
    after: GraphView,
    result: Result<(), OptimizeError>,
) -> bool {
    match checked(before.dim, answer) {
        Err(error) => result == Err::<(), OptimizeError>(OptimizeError::Solver(error)) && after
            == before,
        Ok(solution) => {
            ||| {
                &&& result == Ok::<(), OptimizeError>(())
                &&& retracted(before, after)
                &&& forall|i: int|
                    0 <= i < before.variables.len() && !(#[trigger] before.variables[i]).fixed_type().is_fixed()
                        ==> moved(
                        numerics,
                        before.variables[i],
                        solution@,
                        after.variables[i],
                        Ok::<(), OptimizeError>(()),
                    )
            }
            ||| {
                &&& result == Err::<(), OptimizeError>(OptimizeError::Retraction)
                &&& after == before
                &&& exists|i: int|
                    0 <= i < before.variables.len() && !(#[trigger] before.variables[i]).fixed_type().is_fixed()
                        && moved(
                        numerics,
                        before.variables[i],
                        solution@,
                        before.variables[i],
                        Err::<(), OptimizeError>(OptimizeError::Retraction),
                    )
            }
        },
    }
}

/// What one iteration does to a graph.
///
/// Either the arithmetic answers a linearization of the wrong size for a factor that
/// touches a variable which is not fixed: then the graph stays. Or the factors make a
/// linear system with the arithmetic, as `assembled` says; the arithmetic is asked to
/// solve the system with the negative right-hand side; and the graph becomes what
/// `solved` says.
pub open spec fn iterated<N: Numerics>(
    numerics: &N,
    before: GraphView,
    after: GraphView,
    result: Result<(), OptimizeError>,
) -> bool {
    ||| {
        &&& result == Err::<(), OptimizeError>(OptimizeError::Linearization)
        &&& after == before
        &&& exists|n: int| #[trigger]
            link_contributes(before.variables, before.links(), n) && misfits(
                numerics,
                before.variables,
                before.links(),
                n,
            )
    }
    ||| exists|assembly: LinearSystem, system: LinearSystem, answer: Option<Vec<u64>>|
        #![trigger turned(assembly, system), call_ensures(N::solve, (numerics, &system), answer)]
        assembled(numerics, before, assembly) && turned(assembly, system) && call_ensures(
            N::solve,
            (numerics, &system),
            answer,
        ) && solved(numerics, before, answer, after, result)
}

/// One iteration: builds the linear system `H x = -b`, solves it, and moves every variable
/// that is not fixed along its part of the solution. An iteration that is given up leaves the
/// graph as it was.
///
/// It is given up for a linearization only where a factor touches a variable that is not
/// fixed, and for a new value only where a variable is not fixed; the solver is asked in
/// any case.
pub fn update_once<N: Numerics>(factor_graph: &mut FactorGraph, numerics: &N) -> (updated: Result<
    (),
    OptimizeError,
>)
    requires
        old(factor_graph).wf(),
    ensures
        final(factor_graph).wf(),
        iterated(numerics, old(factor_graph)@, final(factor_graph)@, updated),
        retracted(old(factor_graph)@, final(factor_graph)@),
        updated is Err ==> *final(factor_graph) == *old(factor_graph),
        updated == Err::<(), OptimizeError>(OptimizeError::Linearization) ==> needs_linearization(
            old(factor_graph)@,
        ),
        updated == Err::<(), OptimizeError>(OptimizeError::Retraction) ==> any_free(
            old(factor_graph)@.variables,
        ),
{
    let ghost before = factor_graph@;
    let mut system = match calculate_H_b(factor_graph, numerics) {
        None => {
            return Err(OptimizeError::Linearization);
        },
        Some(system) => system,
    };
    let ghost assembly = system;
    negate_b(&mut system);
    let outcome = SparseCholeskySolver::solve(numerics, &system);
    let ghost answer = choose|answer: Option<Vec<u64>>|
        #[trigger] call_ensures(N::solve, (numerics, &system), answer) && outcome == checked(
            system.dim,
            answer,
        );
    let solution = match outcome {
        Err(error) => {
            proof {
                assert(solved(
                    numerics,
                    before,
                    answer,
                    before,
                    Err::<(), OptimizeError>(OptimizeError::Solver(error)),
                ));
                assert(turned(assembly, system) && call_ensures(
                    N::solve,
                    (numerics, &system),
                    answer,
                ));
            }
            return Err(OptimizeError::Solver(error));
        },
        Ok(solution) => solution,
    };
    let count = factor_graph.node_count();
    // The new variables are made beside the graph, so that an error leaves it untouched.
    let mut updated_vars: Vec<Variable> = Vec::new();
    let mut i: usize = 0;
    while i < count
        invariant
            factor_graph.wf(),
            factor_graph@ == before,
            *factor_graph == *old(factor_graph),
            count == before.variables.len(),
            solution@.len() == before.dim,
            checked(before.dim, answer) == Ok::<Vec<u64>, SolverError>(solution),
            assembled(numerics, before, assembly),
            turned(assembly, system),
            call_ensures(N::solve, (numerics, &system), answer),
            i <= count,
            updated_vars@.len() == i,
            forall|j: int|
                0 <= j < i ==> same_place(#[trigger] updated_vars@[j], before.variables[j]) && (
                before.variables[j].fixed_type().is_fixed() ==> updated_vars@[j]
                    == before.variables[j]) && (!before.variables[j].fixed_type().is_fixed()
                    ==> moved(
                    numerics,
                    before.variables[j],
                    solution@,
                    updated_vars@[j],
                    Ok::<(), OptimizeError>(()),
                )),
        decreases count - i,
    {
        let mut var = factor_graph.get_var(i).clone_value();
        proof {
            if !var.fixed_type().is_fixed() {
                lemma_range_within(before.variables, before.dim as int, i as int);
            }
        }
        match update_var(&mut var, &solution, numerics) {
            Err(error) => {
                proof {
                    assert(!before.variables[i as int].fixed_type().is_fixed());
                    assert(moved(
                        numerics,
                        before.variables[i as int],
                        solution@,
                        before.variables[i as int],
                        Err::<(), OptimizeError>(OptimizeError::Retraction),
                    ));
                    assert(solved(
                        numerics,
                        before,
                        answer,
                        before,
                        Err::<(), OptimizeError>(OptimizeError::Retraction),
                    ));
                }
                return Err(error);
            },
            Ok(()) => {},
        }
        updated_vars.push(var);
        i += 1;
    }
    let mut k: usize = 0;
    while k < count
        invariant
            factor_graph.wf(),
            count == before.variables.len(),
            updated_vars@.len() == count,
            k <= count,
            factor_graph@.adjacency == before.adjacency,
            factor_graph@.dim == before.dim,
            factor_graph@.ids == before.ids,
            factor_graph@.variables.len() == count,
            forall|j: int|
                0 <= j < count ==> same_place(#[trigger] updated_vars@[j], before.variables[j]) && (
                before.variables[j].fixed_type().is_fixed() ==> updated_vars@[j]
                    == before.variables[j]),
            forall|j: int| 0 <= j < k ==> #[trigger] factor_graph@.variables[j] == updated_vars@[j],
            forall|j: int| k <= j < count ==> #[trigger] factor_graph@.variables[j] == before.variables[j],
        decreases count - k,
    {
        let ghost earlier = factor_graph@.variables;
        assert(same_place(updated_vars@[k as int], before.variables[k as int]));
        factor_graph.set_content(k, updated_vars[k].get_content());
        proof {
            let now = factor_graph@.variables[k as int];
            lemma_content_len(updated_vars@[k as int]);
            assert(now.content() =~= updated_vars@[k as int].content());
            lemma_variable_equal(now, updated_vars@[k as int]);
            assert forall|j: int| 0 <= j < k + 1 implies #[trigger] factor_graph@.variables[j]
                == updated_vars@[j] by {
                if j < k {
                    assert(factor_graph@.variables[j] == earlier[j]);
                }
            }
            assert forall|j: int| k + 1 <= j < count implies #[trigger] factor_graph@.variables[j]
                == before.variables[j] by {
                assert(factor_graph@.variables[j] == earlier[j]);
            }
        }
        k += 1;
    }
    proof {
        let after = factor_graph@;
        assert forall|j: int| 0 <= j < count implies same_place(
            #[trigger] after.variables[j],
            before.variables[j],
        ) by {
            assert(same_place(updated_vars@[j], before.variables[j]));
        }
        assert forall|j: int|
            0 <= j < before.variables.len() && (#[trigger] before.variables[j]).fixed_type().is_fixed() implies after.variables[j]
            == before.variables[j] by {
            assert(same_place(updated_vars@[j], before.variables[j]));
            assert(after.variables[j] == updated_vars@[j]);
        }
        assert forall|j: int|
            0 <= j < before.variables.len() && !(#[trigger] before.variables[j]).fixed_type().is_fixed() implies moved(
            numerics,
            before.variables[j],
            solution@,
            after.variables[j],
            Ok::<(), OptimizeError>(()),
        ) by {
            assert(same_place(updated_vars@[j], before.variables[j]));
            assert(after.variables[j] == updated_vars@[j]);
        }
        assert(solved(numerics, before, answer, after, Ok::<(), OptimizeError>(())));
    }
    Ok(())
}

/// What a number of complete iterations make of a graph: the graph itself, if there is
/// none, and else what the last makes of what the others make.
pub open spec fn ran<N: Numerics>(
    numerics: &N,
    before: GraphView,
    after: GraphView,
    iterations: nat,
) -> bool
    decreases iterations,
{
    if iterations == 0 {
        after == before
    } else {
        exists|middle: GraphView|
            ran(numerics, before, middle, (iterations - 1) as nat) && #[trigger] iterated(
                numerics,
                middle,
                after,
                Ok::<(), OptimizeError>(()),
            )
    }
}

/// Optimizes a factor graph with the given number of Gauss-Newton iterations.
///
/// The graph keeps its variables, their places and its factors; only values of variables
/// that are not fixed change. Without iterations nothing changes at all. An iteration
/// that is given up ends the optimization, with the graph as the last complete iteration
/// left it: for a linearization only where a factor touches a variable that is not fixed,
/// for a new value only where a variable is not fixed.
pub fn optimize<N: Numerics>(graph: &mut FactorGraph, iterations: usize, numerics: &N) -> (done:
    Result<(), OptimizeError>)
    requires
        old(graph).wf(),
    ensures
        final(graph).wf(),
        done is Ok ==> ran(numerics, old(graph)@, final(graph)@, iterations as nat),
        done is Err ==> exists|complete: nat|
            complete < iterations && #[trigger] ran(numerics, old(graph)@, final(graph)@, complete)
                && iterated(numerics, final(graph)@, final(graph)@, done),
        retracted(old(graph)@, final(graph)@),
        iterations == 0 ==> done is Ok && *final(graph) == *old(graph),
        done == Err::<(), OptimizeError>(OptimizeError::Linearization) ==> needs_linearization(
            old(graph)@,
        ),
        done == Err::<(), OptimizeError>(OptimizeError::Retraction) ==> any_free(
            old(graph)@.variables,
        ),
{
    let mut i: usize = 0;
    while i < iterations
        invariant
            i <= iterations,
            graph.wf(),
            ran(numerics, old(graph)@, graph@, i as nat),
            retracted(old(graph)@, graph@),
            i == 0 ==> *graph == *old(graph),
        decreases iterations - i,
    {
        let ghost before = graph@;
        match update_once(graph, numerics) {
            Err(error) => {
                proof {
                    lemma_retracted_needs(old(graph)@, before);
                    assert(ran(numerics, old(graph)@, graph@, i as nat));
                }
                return Err(error);
            },
            Ok(()) => {},
        }
        proof {
            lemma_retracted_transitive(old(graph)@, before, graph@);
            assert(ran(numerics, old(graph)@, before, i as nat) && iterated(
                numerics,
                before,
                graph@,
                Ok::<(), OptimizeError>(()),
            ));
        }
        i += 1;
    }
    Ok(())
}

} // verus!
