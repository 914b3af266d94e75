//! The recursive search driver: unit propagation, termination checks, the
//! branching heuristic, and depth-first backtracking over both polarities.
use vstd::prelude::*;

use crate::formula::Formula;
use crate::sem::{
    assign_clauses, assign_fold, batch_covers, clause_hit, consistent, distinct_seq, formula_sat,
    has_empty, is_unit_of, lit_sat, min_len, neg, node_sat, occurs_in, of_trail, prop_batch,
    respects, sat_cap, sub_clause, survives_into, total_size, unassigned, valid_lit, valid_trail,
    Interp,
};
use crate::sem::{
    lemma_assign_equiv, lemma_assign_fresh, lemma_assign_occurs, lemma_assign_provenance,
    lemma_assign_size_strict, lemma_assign_valid, lemma_flip_branch, lemma_fold_occurs,
    lemma_fold_provenance, lemma_lit_neg, lemma_of_trail_respects,
};
use crate::stats::State;

verus! {

/// For a satisfiable node, the trail that satisfies it; `None` for a node
/// with no model.
pub type SatResult = Option<Vec<crate::Assignment>>;

/// Whether some clause of `v` is empty.
fn find_empty_clause(v: &Vec<Vec<isize>>) -> (r: bool)
    ensures
        r == has_empty(v.deep_view()),
{
    let mut i: usize = 0;
    while i < v.len()
        invariant
            i <= v.len(),
            forall|k: int| 0 <= k < i ==> (#[trigger] v.deep_view()[k]).len() != 0,
        decreases v.len() - i,
    {
        if v[i].len() == 0 {
            proof {
                assert(v.deep_view()[i as int].len() == 0);
            }
            return true;
        }
        proof {
            assert(v.deep_view()[i as int].len() == v@[i as int]@.len());
        }
        i += 1;
    }
    false
}

/// Decide the node `formula`: explore the tree of assignments depth first,
/// pruning by unit propagation and branching by the MOM heuristic, the
/// chosen literal's true branch before its false branch.
///
/// A `Some` result carries a consistent, duplicate-free trail extending
/// the node's own, built only from literals whose variables the node's
/// clauses mention; every clause holds one of its literals, and the
/// assignment read off it satisfies the node. A `None` result means no
/// total assignment satisfies the node. The node counter grows by at least
/// one per call, the propagation counter never shrinks, and on a node that
/// one propagation pass settles — the clauses all resolved, or an empty
/// clause left — the result and both counters are pinned exactly.
pub fn solve(state: &mut State, formula: Formula) -> (r: SatResult)
    requires
        formula.inv(),
    ensures
        match r {
            Some(asgn) => {
                &&& formula.trail().is_prefix_of(asgn@)
                &&& valid_trail(asgn@)
                &&& consistent(asgn@)
                &&& distinct_seq(asgn@)
                &&& forall|m: int|
                    formula.trail().len() <= m < asgn@.len() ==> occurs_in(
                        formula.cls(),
                        #[trigger] asgn@[m],
                    )
                &&& forall|i: int|
                    0 <= i < formula.cls().len() ==> clause_hit(asgn@, #[trigger] formula.cls()[i])
                &&& node_sat(of_trail(asgn@), formula.trail(), formula.cls())
            },
            None => forall|a: Interp| !node_sat(a, formula.trail(), formula.cls()),
        },
        final (state).node_counter >= old(state).node_counter,
        final (state).node_counter >= sat_cap(old(state).node_counter, 1),
        final (state).unit_propagation_counter >= old(state).unit_propagation_counter,
        ({
            let u = prop_batch(formula.cls());
            assign_fold(formula.cls(), u).len() == 0 ==> r is Some && r->Some_0@ == formula.trail()
                + u && final (state).node_counter == sat_cap(old(state).node_counter, 1) && final (
            state).unit_propagation_counter == sat_cap(
                old(state).unit_propagation_counter,
                u.len(),
            )
        }),
        ({
            let u = prop_batch(formula.cls());
            assign_fold(formula.cls(), u).len() > 0 && has_empty(assign_fold(formula.cls(), u))
                ==> r is None && final (state).node_counter == sat_cap(old(state).node_counter, 1)
                && final (state).unit_propagation_counter == sat_cap(
                old(state).unit_propagation_counter,
                u.len(),
            )
        }),
    decreases total_size(formula.cls()),
{
    let ghost tr0 = formula.trail();
    let ghost cls0 = formula.cls();
    let ghost u0 = prop_batch(cls0);
    let ghost cs1g = assign_fold(cls0, u0);
    state.node_counter = state.node_counter.saturating_add(1);
    let mut f = formula;
    f.unit_propagate(state);
    let ghost tr1 = f.trail();
    let ghost cls1 = f.cls();
    proof {
        assert(tr1 == tr0 + u0);
        assert(cls1 == cs1g);
        assert(state.node_counter == sat_cap(old(state).node_counter, 1));
        assert(state.unit_propagation_counter == sat_cap(
            old(state).unit_propagation_counter,
            u0.len(),
        ));
        // batch literals occur in the entry clauses, and stand on the trail
        assert forall|m: int| tr0.len() <= m < tr1.len() implies occurs_in(
            cls0,
            #[trigger] tr1[m],
        ) by {
            assert(tr1[m] == u0[m - tr0.len()]);
            assert(is_unit_of(cls0, u0[m - tr0.len()]));
            let k = choose|k: int|
                0 <= k < cls0.len() && (#[trigger] cls0[k]).len() == 1 && cls0[k][0] == u0[m
                    - tr0.len()];
            assert(0 <= k < cls0.len() && 0 <= 0 < cls0[k].len() && cls0[k][0] == tr1[m]);
        }
    }
    if f.clauses().len() == 0 {
        proof {
            assert(cls1.len() == 0);
            assert(!has_empty(cls1));
            assert(consistent(tr1));
            lemma_of_trail_respects(tr1);
            let a = of_trail(tr1);
            assert(formula_sat(a, cls1));
            assert(node_sat(a, tr1, cls1));
            assert(node_sat(a, tr0, cls0));
            assert(tr0.is_prefix_of(tr1)) by {
                assert(tr0 =~= tr1.subrange(0, tr0.len() as int));
            }
            lemma_fold_provenance(cls0, u0);
            assert forall|i: int| 0 <= i < cls0.len() implies clause_hit(
                tr1,
                #[trigger] cls0[i],
            ) by {
                if batch_covers(u0, cls0[i]) {
                    let m = choose|m: int|
                        0 <= m < u0.len() && cls0[i].contains(#[trigger] u0[m]);
                    assert(tr1[tr0.len() + m] == u0[m]);
                    assert(tr1.contains(u0[m]));
                    let k = choose|k: int| 0 <= k < cls0[i].len() && cls0[i][k] == u0[m];
                    assert(0 <= k < cls0[i].len() && tr1.contains(cls0[i][k]));
                } else {
                    assert(survives_into(cs1g, cls0[i]));
                    let j = choose|j: int|
                        0 <= j < cs1g.len() && sub_clause(#[trigger] cs1g[j], cls0[i]);
                    assert(false);
                }
            }
        }
        return Some(f.into_trail());
    }
    if find_empty_clause(f.clauses()) {
        proof {
            crate::sem::lemma_has_empty_unsat(cls1);
            assert forall|a: Interp| !node_sat(a, tr0, cls0) by {
                assert(!node_sat(a, tr1, cls1));
            }
            assert(cls1.len() > 0 && has_empty(cs1g));
        }
        return None;
    }
    let literal = f.mom();
    proof {
        let iw = choose|iw: int|
            0 <= iw < cls1.len() && (#[trigger] cls1[iw]).len() == min_len(cls1)
                && cls1[iw].contains(literal);
        let jw = choose|jw: int| 0 <= jw < cls1[iw].len() && cls1[iw][jw] == literal;
        assert(unassigned(tr1, literal));
        lemma_assign_valid(cls1, literal);
        lemma_assign_fresh(tr1, cls1, literal);
        lemma_assign_size_strict(cls1, literal, iw);
        assert(occurs_in(cls1, literal)) by {
            assert(0 <= iw < cls1.len() && 0 <= jw < cls1[iw].len() && cls1[iw][jw] == literal);
        }
        assert(consistent(tr1.push(literal)) && distinct_seq(tr1.push(literal))) by {
            let t = tr1.push(literal);
            assert forall|p: int, q: int|
                0 <= p < t.len() && 0 <= q < t.len() implies (#[trigger] t[p]) as int != -((
            #[trigger] t[q]) as int) && (p < q ==> t[p] != t[q]) by {
                if p < tr1.len() && q < tr1.len() {
                    assert(t[p] == tr1[p] && t[q] == tr1[q]);
                } else if p < tr1.len() {
                    assert(t[p] == tr1[p] && t[q] == literal);
                } else if q < tr1.len() {
                    assert(t[p] == literal && t[q] == tr1[q]);
                } else {
                    assert(t[p] == literal && t[q] == literal);
                }
            }
        }
    }
    let branch = f.with_true(literal);
    let r1 = solve(state, branch);
    if r1.is_some() {
        proof {
            let asgn = r1->Some_0;
            let a = of_trail(asgn@);
            assert(node_sat(a, branch.trail(), branch.cls()));
            assert(branch.trail()[tr1.len() as int] == literal);
            assert(lit_sat(a, literal as int));
            lemma_assign_equiv(a, cls1, literal);
            assert(respects(a, tr1)) by {
                assert forall|q: int| 0 <= q < tr1.len() implies lit_sat(
                    a,
                    (#[trigger] tr1[q]) as int,
                ) by {
                    assert(branch.trail()[q] == tr1[q]);
                }
            }
            assert(node_sat(a, tr1, cls1));
            assert(node_sat(a, tr0, cls0));
            assert(branch.trail().is_prefix_of(asgn@));
            assert(tr0.is_prefix_of(asgn@)) by {
                assert(tr0 =~= asgn@.subrange(0, tr0.len() as int));
            }
            assert forall|m: int|
                0 <= m < branch.trail().len() implies asgn@[m] == branch.trail()[m] by {
                assert(branch.trail() =~= asgn@.subrange(0, branch.trail().len() as int));
            }
            lemma_solve_witness(tr0, cls0, u0, cls1, literal, branch.cls(), asgn@);
        }
        return r1;
    }
    let nlit = -literal;
    proof {
        assert(valid_lit(nlit));
        let iw = choose|iw: int|
            0 <= iw < cls1.len() && (#[trigger] cls1[iw]).len() == min_len(cls1)
                && cls1[iw].contains(literal);
        assert(neg(nlit) == literal);
        lemma_assign_valid(cls1, nlit);
        lemma_assign_fresh(tr1, cls1, nlit);
        lemma_assign_size_strict(cls1, nlit, iw);
        assert(consistent(tr1.push(nlit)) && distinct_seq(tr1.push(nlit))) by {
            let jw = choose|jw: int| 0 <= jw < cls1[iw].len() && cls1[iw][jw] == literal;
            assert(unassigned(tr1, literal));
            let t = tr1.push(nlit);
            assert forall|p: int, q: int|
                0 <= p < t.len() && 0 <= q < t.len() implies (#[trigger] t[p]) as int != -((
            #[trigger] t[q]) as int) && (p < q ==> t[p] != t[q]) by {
                if p < tr1.len() && q < tr1.len() {
                    assert(t[p] == tr1[p] && t[q] == tr1[q]);
                } else if p < tr1.len() {
                    assert(t[p] == tr1[p] && t[q] == nlit);
                } else if q < tr1.len() {
                    assert(t[p] == nlit && t[q] == tr1[q]);
                } else {
                    assert(t[p] == nlit && t[q] == nlit);
                }
            }
        }
    }
    let branch2 = f.with_true(nlit);
    let r2 = solve(state, branch2);
    proof {
        if r2 is Some {
            let asgn = r2->Some_0;
            {
                let a = of_trail(asgn@);
                assert(node_sat(a, branch2.trail(), branch2.cls()));
                assert(branch2.trail()[tr1.len() as int] == nlit);
                assert(lit_sat(a, nlit as int));
                lemma_assign_equiv(a, cls1, nlit);
                assert(respects(a, tr1)) by {
                    assert forall|q: int| 0 <= q < tr1.len() implies lit_sat(
                        a,
                        (#[trigger] tr1[q]) as int,
                    ) by {
                        assert(branch2.trail()[q] == tr1[q]);
                    }
                }
                assert(node_sat(a, tr1, cls1));
                assert(node_sat(a, tr0, cls0));
                assert(branch2.trail().is_prefix_of(asgn@));
                assert(tr0.is_prefix_of(asgn@)) by {
                    assert(tr0 =~= asgn@.subrange(0, tr0.len() as int));
                }
                assert forall|m: int|
                    0 <= m < branch2.trail().len() implies asgn@[m] == branch2.trail()[m] by {
                    assert(branch2.trail() =~= asgn@.subrange(0, branch2.trail().len() as int));
                }
                // the false branch's literal has a clause occurrence too:
                // were its negation absent everywhere, flipping its variable
                // would turn this model into one of the true branch, which
                // came back unsatisfiable
                assert(occurs_in(cls1, nlit)) by {
                    if !occurs_in(cls1, nlit) {
                        assert forall|i: int, j: int|
                            0 <= i < cls1.len() && 0 <= j < cls1[i].len() implies (
                        #[trigger] cls1[i][j]) as int != -(literal as int) by {
                            if cls1[i][j] as int == -(literal as int) {
                                assert(cls1[i][j] == nlit);
                                assert(occurs_in(cls1, nlit));
                            }
                        }
                        assert(node_sat(a, tr1.push(neg(literal)), assign_clauses(
                            cls1,
                            neg(literal),
                        ))) by {
                            assert(nlit == neg(literal));
                            assert(branch2.trail() == tr1.push(nlit));
                        }
                        lemma_flip_branch(a, tr1, cls1, literal);
                        assert(node_sat(
                            crate::sem::flip_at(a, literal),
                            branch.trail(),
                            branch.cls(),
                        ));
                        assert(false);
                    }
                }
                lemma_solve_witness(tr0, cls0, u0, cls1, nlit, branch2.cls(), asgn@);
            }
        } else {
            {
                assert forall|a: Interp| !node_sat(a, tr0, cls0) by {
                    if node_sat(a, tr0, cls0) {
                        assert(node_sat(a, tr1, cls1));
                        lemma_lit_neg(a, literal);
                        if lit_sat(a, literal as int) {
                            lemma_assign_equiv(a, cls1, literal);
                            assert(respects(a, branch.trail())) by {
                                let t = branch.trail();
                                assert forall|q: int| 0 <= q < t.len() implies lit_sat(
                                    a,
                                    (#[trigger] t[q]) as int,
                                ) by {
                                    if q < tr1.len() {
                                        assert(t[q] == tr1[q]);
                                    } else {
                                        assert(t[q] == literal);
                                    }
                                }
                            }
                            assert(node_sat(a, branch.trail(), branch.cls()));
                            assert(false);
                        } else {
                            assert(lit_sat(a, nlit as int));
                            lemma_assign_equiv(a, cls1, nlit);
                            assert(respects(a, branch2.trail())) by {
                                let t = branch2.trail();
                                assert forall|q: int| 0 <= q < t.len() implies lit_sat(
                                    a,
                                    (#[trigger] t[q]) as int,
                                ) by {
                                    if q < tr1.len() {
                                        assert(t[q] == tr1[q]);
                                    } else {
                                        assert(t[q] == nlit);
                                    }
                                }
                            }
                            assert(node_sat(a, branch2.trail(), branch2.cls()));
                            assert(false);
                        }
                    }
                }
            }
        }
    }
    r2
}

/// The witness clauses of a branching node follow from the child's: the
/// appended literals occur in the entry clauses, and every entry clause
/// holds a literal of the final trail.
proof fn lemma_solve_witness(
    tr0: Seq<isize>,
    cls0: Seq<Seq<isize>>,
    u0: Seq<isize>,
    cls1: Seq<Seq<isize>>,
    v: isize,
    branch_cls: Seq<Seq<isize>>,
    asgn: Seq<isize>,
)
    requires
        u0 == prop_batch(cls0),
        cls1 == assign_fold(cls0, u0),
        branch_cls == assign_clauses(cls1, v),
        crate::sem::propagated_batch(cls0, u0),
        occurs_in(cls1, v),
        asgn.len() >= tr0.len() + u0.len() + 1,
        forall|m: int| 0 <= m < tr0.len() ==> asgn[m] == tr0[m],
        forall|m: int| tr0.len() <= m < tr0.len() + u0.len() ==> asgn[m] == u0[m - tr0.len()],
        asgn[tr0.len() + u0.len() as int] == v,
        forall|m: int|
            tr0.len() + u0.len() + 1 <= m < asgn.len() ==> occurs_in(
                branch_cls,
                #[trigger] asgn[m],
            ),
        forall|i: int| 0 <= i < branch_cls.len() ==> clause_hit(asgn, #[trigger] branch_cls[i]),
    ensures
        forall|m: int| tr0.len() <= m < asgn.len() ==> occurs_in(cls0, #[trigger] asgn[m]),
        forall|i: int| 0 <= i < cls0.len() ==> clause_hit(asgn, #[trigger] cls0[i]),
{
    assert forall|m: int| tr0.len() <= m < asgn.len() implies occurs_in(
        cls0,
        #[trigger] asgn[m],
    ) by {
        if m < tr0.len() + u0.len() {
            assert(asgn[m] == u0[m - tr0.len()]);
            assert(is_unit_of(cls0, u0[m - tr0.len()]));
            let k = choose|k: int|
                0 <= k < cls0.len() && (#[trigger] cls0[k]).len() == 1 && cls0[k][0] == u0[m
                    - tr0.len()];
            assert(0 <= k < cls0.len() && 0 <= 0 < cls0[k].len() && cls0[k][0] == asgn[m]);
        } else if m == tr0.len() + u0.len() {
            assert(asgn[m] == v);
            lemma_fold_occurs(cls0, u0, v);
        } else {
            assert(occurs_in(branch_cls, asgn[m]));
            lemma_assign_occurs(cls1, v, asgn[m]);
            lemma_fold_occurs(cls0, u0, asgn[m]);
        }
    }
    lemma_fold_provenance(cls0, u0);
    lemma_assign_provenance(cls1, v);
    assert forall|i: int| 0 <= i < cls0.len() implies clause_hit(asgn, #[trigger] cls0[i]) by {
        if batch_covers(u0, cls0[i]) {
            let m = choose|m: int| 0 <= m < u0.len() && cls0[i].contains(#[trigger] u0[m]);
            assert(asgn[tr0.len() + m] == u0[m]);
            assert(asgn.contains(u0[m]));
            let k = choose|k: int| 0 <= k < cls0[i].len() && cls0[i][k] == u0[m];
            assert(0 <= k < cls0[i].len() && asgn.contains(cls0[i][k]));
        } else {
            assert(survives_into(cls1, cls0[i]));
            let j1 = choose|j1: int| 0 <= j1 < cls1.len() && sub_clause(#[trigger] cls1[j1], cls0[i]);
            if cls1[j1].contains(v) {
                let k = choose|k: int| 0 <= k < cls1[j1].len() && cls1[j1][k] == v;
                assert(cls0[i].contains(cls1[j1][k]));
                let k2 = choose|k2: int| 0 <= k2 < cls0[i].len() && cls0[i][k2] == v;
                assert(asgn[tr0.len() + u0.len() as int] == v);
                assert(asgn.contains(v));
                assert(0 <= k2 < cls0[i].len() && asgn.contains(cls0[i][k2]));
            } else {
                let j2 = choose|j2: int|
                    0 <= j2 < branch_cls.len() && sub_clause(#[trigger] branch_cls[j2], cls1[j1]);
                assert(clause_hit(asgn, branch_cls[j2]));
                let k = choose|k: int|
                    0 <= k < branch_cls[j2].len() && asgn.contains(#[trigger] branch_cls[j2][k]);
                assert(cls1[j1].contains(branch_cls[j2][k]));
                let k2 = choose|k2: int|
                    0 <= k2 < cls1[j1].len() && cls1[j1][k2] == branch_cls[j2][k];
                assert(cls0[i].contains(cls1[j1][k2]));
                let k3 = choose|k3: int|
                    0 <= k3 < cls0[i].len() && cls0[i][k3] == cls1[j1][k2];
                assert(0 <= k3 < cls0[i].len() && asgn.contains(cls0[i][k3]));
            }
        }
    }
}

} // verus!
