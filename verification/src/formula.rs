//! The search-node state: the assignment trail and the clauses still open,
//! with the operations that force a literal true.
use vstd::prelude::*;

use crate::sem::{
    assign_clauses, assign_fold, batch_from, consistent, distinct_seq, fresh, has_empty,
    is_unit_of, neg, node_sat, prop_batch, propagated_batch, sat_cap, strip_lit, total_size,
    unassigned, valid_clause, valid_clauses, valid_lit, valid_trail, Interp,
};
use crate::sem::lemma_fold_snoc;
use crate::sem::{lemma_assign_append, lemma_assign_contains, lemma_assign_fresh,
    lemma_assign_has_empty, lemma_assign_singleton, lemma_assign_size, lemma_assign_valid,
    lemma_force_unit_equiv, lemma_strip_append, lemma_strip_singleton};
use crate::sem::{lemma_min_append, lemma_min_props, lemma_occ_append, lemma_occ_le,
    lemma_occ_pos, lemma_occ_witness, min_len, occ_count};
use crate::counts::{counts_get, counts_insert, counts_max, counts_new, counts_of};
use crate::stats::State;

verus! {

/// One node of the search tree: the literals assigned true so far, and the
/// clauses not yet resolved by them.
#[derive(Debug, Clone)]
pub struct Formula {
    pub(crate) assignments: Vec<isize>,
    pub(crate) clauses: Vec<Vec<isize>>,
}

impl Formula {
    /// The assignment trail, oldest first.
    pub open(crate) spec fn trail(self) -> Seq<isize> {
        self.assignments@
    }

    /// The open clauses.
    pub open(crate) spec fn cls(self) -> Seq<Seq<isize>> {
        self.clauses.deep_view()
    }

    /// Well-formedness of a search node: every literal is representable,
    /// no open clause mentions a decided variable, and the trail is free of
    /// contradictions unless an empty clause already witnesses a dead end.
    pub open(crate) spec fn inv(self) -> bool {
        &&& valid_trail(self.trail())
        &&& distinct_seq(self.trail())
        &&& valid_clauses(self.cls())
        &&& fresh(self.trail(), self.cls())
        &&& (consistent(self.trail()) || has_empty(self.cls()))
    }

    /// A root node: the given clauses, nothing assigned yet.
    pub fn from_clauses(clauses: Vec<Vec<isize>>) -> (r: Formula)
        ensures
            r.trail() == Seq::<isize>::empty(),
            r.cls() == clauses.deep_view(),
    {
        Formula { assignments: Vec::new(), clauses }
    }


    /// Read access to the trail.
    pub fn assignments(&self) -> (r: &Vec<isize>)
        ensures
            r@ == self.trail(),
    {
        &self.assignments
    }

    /// Read access to the open clauses.
    pub fn clauses(&self) -> (r: &Vec<Vec<isize>>)
        ensures
            r.deep_view() == self.cls(),
    {
        &self.clauses
    }

    /// Give up the node and keep only its trail.
    pub fn into_trail(self) -> (r: Vec<isize>)
        ensures
            r@ == self.trail(),
    {
        self.assignments
    }

    /// Whether every literal of every clause is nonzero and representable;
    /// on a root node this is exactly `inv`.
    pub fn literals_ok(&self) -> (r: bool)
        ensures
            r == valid_clauses(self.cls()),
    {
        let mut i: usize = 0;
        while i < self.clauses.len()
            invariant
                i <= self.clauses.len(),
                forall|k: int| 0 <= k < i ==> crate::sem::valid_clause(#[trigger] self.cls()[k]),
            decreases self.clauses.len() - i,
        {
            let c = &self.clauses[i];
            let mut j: usize = 0;
            while j < c.len()
                invariant
                    j <= c.len(),
                    c@ == self.cls()[i as int],
                    i < self.clauses.len(),
                    forall|k: int| 0 <= k < j ==> valid_lit(#[trigger] c@[k]),
                decreases c.len() - j,
            {
                let x = c[j];
                if x == 0 || x == isize::MIN {
                    proof {
                        assert(!crate::sem::valid_clause(self.cls()[i as int]));
                    }
                    return false;
                }
                j += 1;
            }
            i += 1;
        }
        true
    }

    /// Force `literal` true in place: append it to the trail, drop every
    /// clause that contains it, and strike its negation from the rest.
    pub fn assign_true(&mut self, literal: isize)
        requires
            valid_lit(literal),
        ensures
            final (self).trail() == old(self).trail().push(literal),
            final (self).cls() == assign_clauses(old(self).cls(), literal),
    {
        self.assignments.push(literal);
        let inverse = -literal;
        let ghost cs0 = self.clauses.deep_view();
        let mut kept: Vec<Vec<isize>> = Vec::new();
        let mut i: usize = 0;
        while i < self.clauses.len()
            invariant
                i <= self.clauses.len(),
                self.clauses.deep_view() == cs0,
                valid_lit(literal),
                inverse as int == -(literal as int),
                kept.deep_view() == assign_clauses(cs0.take(i as int), literal),
            decreases self.clauses.len() - i,
        {
            let ghost kept0 = kept.deep_view();
            let c = &self.clauses[i];
            proof {
                assert(c@ == cs0[i as int]);
            }
            if !vec_contains(c, literal) {
                let mut stripped: Vec<isize> = Vec::new();
                let mut j: usize = 0;
                while j < c.len()
                    invariant
                        j <= c.len(),
                        inverse as int == -(literal as int),
                        stripped@ == strip_lit(c@.take(j as int), inverse),
                    decreases c.len() - j,
                {
                    let x = c[j];
                    if x != inverse {
                        stripped.push(x);
                    }
                    proof {
                        assert(c@.take(j as int + 1) =~= c@.take(j as int) + seq![c@[j as int]]);
                        lemma_strip_append(c@.take(j as int), seq![c@[j as int]], inverse);
                        lemma_strip_singleton(c@[j as int], inverse);
                        if x != inverse {
                            assert(strip_lit(c@.take(j as int), inverse) + seq![x]
                                =~= strip_lit(c@.take(j as int), inverse).push(x));
                        } else {
                            assert(strip_lit(c@.take(j as int), inverse)
                                + Seq::<isize>::empty() =~= strip_lit(c@.take(j as int), inverse));
                        }
                    }
                    j += 1;
                }
                proof {
                    assert(c@.take(c@.len() as int) =~= c@);
                    assert(inverse == neg(literal));
                }
                kept.push(stripped);
                proof {
                    assert(kept.deep_view() =~= kept0.push(stripped.deep_view()));
                    assert(stripped.deep_view() =~= stripped@);
                }
            }
            proof {
                assert(cs0.take(i as int + 1) =~= cs0.take(i as int) + seq![cs0[i as int]]);
                lemma_assign_append(cs0.take(i as int), seq![cs0[i as int]], literal);
                lemma_assign_singleton(cs0[i as int], literal);
                if !cs0[i as int].contains(literal) {
                    assert(kept.deep_view() =~= assign_clauses(cs0.take(i as int), literal) + seq![
                        strip_lit(cs0[i as int], neg(literal)),
                    ]);
                } else {
                    assert(kept.deep_view() =~= assign_clauses(cs0.take(i as int), literal)
                        + Seq::<Seq<isize>>::empty());
                }
            }
            i += 1;
        }
        proof {
            assert(cs0.take(cs0.len() as int) =~= cs0);
        }
        self.clauses = kept;
    }

    /// One batched unit-propagation pass: collect the literal of every
    /// clause of length one, without duplicates, count them, then force each
    /// in turn. Clauses that only now become unit are left for the next
    /// pass. The pass neither gains nor loses models.
    pub fn unit_propagate(&mut self, state: &mut State)
        requires
            old(self).inv(),
        ensures
            final (self).inv(),
            old(self).trail().is_prefix_of(final (self).trail()),
            total_size(final (self).cls()) <= total_size(old(self).cls()),
            forall|a: Interp|
                node_sat(a, final (self).trail(), final (self).cls()) == node_sat(
                    a,
                    old(self).trail(),
                    old(self).cls(),
                ),
            forall|a: Interp|
                node_sat(a, old(self).trail(), old(self).cls()) ==> crate::sem::respects(
                    a,
                    final (self).trail(),
                ),
            final (self).trail() == old(self).trail() + prop_batch(old(self).cls()),
            final (self).cls() == assign_fold(old(self).cls(), prop_batch(old(self).cls())),
            propagated_batch(old(self).cls(), prop_batch(old(self).cls())),
            final (state).node_counter == old(state).node_counter,
            final (state).unit_propagation_counter == sat_cap(
                old(state).unit_propagation_counter,
                prop_batch(old(self).cls()).len(),
            ),
    {
        let ghost tr_init = self.trail();
        let ghost cls_init = self.cls();
        let mut units: Vec<isize> = Vec::new();
        let mut i: usize = 0;
        proof {
            assert(cls_init.skip(0) =~= cls_init);
            assert(units@ =~= Seq::<isize>::empty());
            assert(Seq::<isize>::empty() + batch_from(cls_init, units@) =~= batch_from(
                cls_init,
                units@,
            ));
        }
        while i < self.clauses.len()
            invariant
                i <= self.clauses.len(),
                self.trail() == tr_init,
                self.cls() == cls_init,
                prop_batch(cls_init) == units@ + batch_from(cls_init.skip(i as int), units@),
                distinct_seq(units@),
                forall|m: int| 0 <= m < units@.len() ==> is_unit_of(cls_init, #[trigger] units@[m]),
                forall|k: int|
                    0 <= k < i && (#[trigger] cls_init[k]).len() == 1 ==> units@.contains(
                        cls_init[k][0],
                    ),
            decreases self.clauses.len() - i,
        {
            let c = &self.clauses[i];
            let ghost units_pre = units@;
            proof {
                assert(c@ == cls_init[i as int]);
                assert(cls_init.skip(i as int)[0] == cls_init[i as int]);
                assert(cls_init.skip(i as int).drop_first() =~= cls_init.skip(i as int + 1));
            }
            if c.len() == 1 {
                let u = c[0];
                if !vec_contains(&units, u) {
                    let ghost units0 = units@;
                    units.push(u);
                    proof {
                        assert(batch_from(cls_init.skip(i as int), units0) == seq![u]
                            + batch_from(cls_init.skip(i as int + 1), units0.push(u)));
                        assert(units@ =~= units0.push(u));
                        assert(units0 + (seq![u] + batch_from(
                            cls_init.skip(i as int + 1),
                            units@,
                        )) =~= units@ + batch_from(cls_init.skip(i as int + 1), units@));
                        assert(is_unit_of(cls_init, u)) by {
                            assert(cls_init[i as int].len() == 1 && cls_init[i as int][0] == u);
                        }
                        assert forall|m: int, n: int|
                            0 <= m < n < units@.len() implies units@[m] != units@[n] by {
                            if n == units0.len() {
                                assert(units@[m] == units0[m]);
                                if units0[m] == u {
                                    assert(units0.contains(u));
                                }
                            }
                        }
                        assert(units@.contains(u)) by {
                            assert(units@[units0.len() as int] == u);
                        }
                        assert forall|k: int|
                            0 <= k < i + 1 && (#[trigger] cls_init[k]).len() == 1 implies units@
                            .contains(cls_init[k][0]) by {
                            if k < i {
                                let w = choose|w: int|
                                    0 <= w < units0.len() && units0[w] == cls_init[k][0];
                                assert(units@[w] == cls_init[k][0]);
                            } else {
                                assert(units@[units0.len() as int] == u);
                            }
                        }
                    }
                } else {
                    proof {
                        assert(units@.contains(cls_init[i as int][0]));
                        assert(batch_from(cls_init.skip(i as int), units@) == batch_from(
                            cls_init.skip(i as int + 1),
                            units@,
                        ));
                    }
                }
            } else {
                proof {
                    assert(cls_init[i as int].len() != 1);
                    assert(batch_from(cls_init.skip(i as int), units@) == batch_from(
                        cls_init.skip(i as int + 1),
                        units@,
                    ));
                }
            }
            i += 1;
        }
        let ghost u_seq = units@;
        proof {
            assert(cls_init.skip(cls_init.len() as int) =~= Seq::<Seq<isize>>::empty());
            assert(batch_from(Seq::<Seq<isize>>::empty(), u_seq) == Seq::<isize>::empty());
            assert(u_seq + Seq::<isize>::empty() =~= u_seq);
            assert(prop_batch(cls_init) == u_seq);
        }
        proof {
            assert(forall|x: isize| is_unit_of(cls_init, x) ==> u_seq.contains(x)) by {
                assert forall|x: isize| is_unit_of(cls_init, x) implies u_seq.contains(x) by {
                    let k = choose|k: int|
                        0 <= k < cls_init.len() && (#[trigger] cls_init[k]).len() == 1
                            && cls_init[k][0] == x;
                }
            }
            assert(propagated_batch(cls_init, u_seq));
            assert forall|m: int| 0 <= m < u_seq.len() implies valid_lit(#[trigger] u_seq[m]) by {
                let k = choose|k: int|
                    0 <= k < cls_init.len() && (#[trigger] cls_init[k]).len() == 1
                        && cls_init[k][0] == u_seq[m];
                assert(valid_clause(cls_init[k]));
            }
        }
        state.unit_propagation_counter = state.unit_propagation_counter.saturating_add(
            units.len(),
        );
        let ghost up_after = state.unit_propagation_counter;
        let ghost nc_after = state.node_counter;
        let mut j: usize = 0;
        proof {
            assert(tr_init + u_seq.take(0) =~= tr_init);
            assert(u_seq.take(0) =~= Seq::<isize>::empty());
            assert(assign_fold(cls_init, Seq::<isize>::empty()) == cls_init);
            assert forall|m: int| 0 <= m < u_seq.len() implies unassigned(
                tr_init,
                #[trigger] u_seq[m],
            ) by {
                let k = choose|k: int|
                    0 <= k < cls_init.len() && (#[trigger] cls_init[k]).len() == 1
                        && cls_init[k][0] == u_seq[m];
                assert(unassigned(tr_init, cls_init[k][0]));
            }
            assert forall|m: int|
                0 <= m < u_seq.len() implies has_empty(cls_init) || (cls_init.contains(seq![
                u_seq[m],
            ]) && (forall|q: int|
                0 <= q < tr_init.len() ==> (#[trigger] tr_init[q]) as int != -((u_seq[m]) as int))) by {
                let k = choose|k: int|
                    0 <= k < cls_init.len() && (#[trigger] cls_init[k]).len() == 1
                        && cls_init[k][0] == u_seq[m];
                assert(cls_init[k] =~= seq![u_seq[m]]);
                assert(cls_init.contains(seq![u_seq[m]]));
                assert(unassigned(tr_init, cls_init[k][0]));
            }
        }
        while j < units.len()
            invariant
                j <= units.len(),
                units@ == u_seq,
                forall|m: int| 0 <= m < u_seq.len() ==> valid_lit(#[trigger] u_seq[m]),
                distinct_seq(u_seq),
                state.unit_propagation_counter == up_after,
                state.node_counter == nc_after,
                valid_trail(self.trail()),
                valid_clauses(self.cls()),
                fresh(self.trail(), self.cls()),
                consistent(self.trail()) || has_empty(self.cls()),
                self.trail() == tr_init + u_seq.take(j as int),
                self.cls() == assign_fold(cls_init, u_seq.take(j as int)),
                forall|m: int| 0 <= m < u_seq.len() ==> unassigned(tr_init, #[trigger] u_seq[m]),
                total_size(self.cls()) <= total_size(cls_init),
                forall|a: Interp|
                    node_sat(a, self.trail(), self.cls()) == node_sat(a, tr_init, cls_init),
                forall|m: int|
                    j <= m < u_seq.len() ==> has_empty(self.cls()) || (self.cls().contains(seq![
                        u_seq[m],
                    ]) && (forall|q: int|
                        0 <= q < self.trail().len() ==> (#[trigger] self.trail()[q]) as int != -((
                        u_seq[m]) as int))),
            decreases units.len() - j,
        {
            let u = units[j];
            let ghost tr_cur = self.trail();
            let ghost cls_cur = self.cls();
            proof {
                lemma_force_unit_equiv(tr_cur, cls_cur, u);
                lemma_assign_valid(cls_cur, u);
                lemma_assign_fresh(tr_cur, cls_cur, u);
                lemma_assign_size(cls_cur, u);
            }
            self.assign_true(u);
            proof {
                let tr_new = self.trail();
                let cls_new = self.cls();
                assert(tr_new =~= tr_init + u_seq.take(j as int + 1)) by {
                    assert(u_seq.take(j as int + 1) =~= u_seq.take(j as int).push(u));
                }
                assert(cls_new == assign_fold(cls_init, u_seq.take(j as int + 1))) by {
                    lemma_fold_snoc(cls_init, u_seq.take(j as int), u);
                    assert(u_seq.take(j as int + 1) =~= u_seq.take(j as int).push(u));
                }
                // models are preserved through this step and hence since entry
                assert forall|a: Interp|
                    node_sat(a, tr_new, cls_new) == node_sat(a, tr_init, cls_init) by {
                    assert(node_sat(a, tr_new, cls_new) == node_sat(a, tr_cur, cls_cur));
                }
                // the trail stays consistent unless an empty clause appeared
                if has_empty(cls_cur) {
                    lemma_assign_has_empty(cls_cur, u);
                } else {
                    assert(consistent(tr_cur));
                    assert(forall|q: int|
                        0 <= q < tr_cur.len() ==> (#[trigger] tr_cur[q]) as int != -(u as int));
                    assert forall|p: int, q: int|
                        0 <= p < tr_new.len() && 0 <= q < tr_new.len() implies (
                    #[trigger] tr_new[p]) as int != -((#[trigger] tr_new[q]) as int) by {
                        if p < tr_cur.len() && q < tr_cur.len() {
                            assert(tr_new[p] == tr_cur[p] && tr_new[q] == tr_cur[q]);
                        } else if p < tr_cur.len() {
                            assert(tr_new[p] == tr_cur[p] && tr_new[q] == u);
                        } else if q < tr_cur.len() {
                            assert(tr_new[p] == u && tr_new[q] == tr_cur[q]);
                        } else {
                            assert(tr_new[p] == u && tr_new[q] == u);
                        }
                    }
                }
                // the still-pending units either survive as unit clauses or an
                // empty clause has already closed the node
                assert forall|m: int|
                    j + 1 <= m < u_seq.len() implies has_empty(cls_new) || (cls_new.contains(seq![
                    u_seq[m],
                ]) && (forall|q: int|
                    0 <= q < tr_new.len() ==> (#[trigger] tr_new[q]) as int != -((
                    u_seq[m]) as int))) by {
                    if has_empty(cls_cur) {
                        lemma_assign_has_empty(cls_cur, u);
                    } else {
                        let x = u_seq[m];
                        assert(cls_cur.contains(seq![x]));
                        assert(x != u);
                        assert(!seq![x].contains(u)) by {
                            if seq![x].contains(u) {
                                let w = choose|w: int| 0 <= w < 1 && seq![x][w] == u;
                            }
                        }
                        lemma_assign_contains(cls_cur, u, seq![x]);
                        lemma_strip_singleton(x, neg(u));
                        if x == neg(u) {
                            let e = strip_lit(seq![x], neg(u));
                            let w = choose|w: int| 0 <= w < cls_new.len() && cls_new[w] == e;
                            assert(cls_new[w].len() == 0);
                            assert(has_empty(cls_new));
                        } else {
                            assert(cls_new.contains(seq![x]));
                            assert forall|q: int|
                                0 <= q < tr_new.len() implies (#[trigger] tr_new[q]) as int != -((
                            x) as int) by {
                                if q < tr_cur.len() {
                                    assert(tr_new[q] == tr_cur[q]);
                                } else {
                                    assert(tr_new[q] == u);
                                    assert(neg(u) as int == -(u as int));
                                    assert(x as int != -(u as int));
                                }
                            }
                        }
                    }
                }
            }
            j += 1;
        }
        proof {
            assert(u_seq.take(u_seq.len() as int) =~= u_seq);
            assert(tr_init.is_prefix_of(self.trail())) by {
                assert(self.trail().take(tr_init.len() as int) =~= tr_init);
            }
            // the final trail never repeats a literal: the old trail did not,
            // the batch does not, and the batch was unassigned throughout
            let tr_new = self.trail();
            assert forall|p: int, q: int|
                0 <= p < q < tr_new.len() implies tr_new[p] != tr_new[q] by {
                if q < tr_init.len() {
                    assert(tr_new[p] == tr_init[p] && tr_new[q] == tr_init[q]);
                } else if p < tr_init.len() {
                    assert(tr_new[p] == tr_init[p] && tr_new[q] == u_seq[q - tr_init.len()]);
                    assert(unassigned(tr_init, u_seq[q - tr_init.len()]));
                } else {
                    assert(tr_new[p] == u_seq[p - tr_init.len()] && tr_new[q] == u_seq[q
                        - tr_init.len()]);
                }
            }
        }
    }

    /// The MOM branching heuristic: a literal occurring in as many clauses
    /// of minimal length as any literal does. Which of several equally
    /// frequent literals comes back is left open.
    pub fn mom(&self) -> (r: isize)
        requires
            self.cls().len() > 0,
            !has_empty(self.cls()),
            valid_clauses(self.cls()),
        ensures
            valid_lit(r),
            exists|i: int|
                0 <= i < self.cls().len() && (#[trigger] self.cls()[i]).len() == min_len(
                    self.cls(),
                ) && self.cls()[i].contains(r),
            forall|x: isize|
                occ_count(self.cls(), min_len(self.cls()), x) <= occ_count(
                    self.cls(),
                    min_len(self.cls()),
                    r,
                ),
    {
        let ghost cs = self.cls();
        let mut best: usize = self.clauses[0].len();
        proof {
            assert(self.clauses@[0]@ == cs[0]);
            assert(cs.take(1) =~= seq![cs[0]]);
            assert(min_len(cs.take(1)) == cs[0].len());
        }
        let mut i: usize = 1;
        while i < self.clauses.len()
            invariant
                1 <= i <= self.clauses.len(),
                cs == self.cls(),
                cs.len() == self.clauses.len(),
                best as nat == min_len(cs.take(i as int)),
            decreases self.clauses.len() - i,
        {
            let l = self.clauses[i].len();
            proof {
                assert(self.clauses@[i as int]@ == cs[i as int]);
                assert(cs.take(i as int + 1) =~= cs.take(i as int) + seq![cs[i as int]]);
                lemma_min_append(cs.take(i as int), cs[i as int]);
            }
            if l < best {
                best = l;
            }
            i += 1;
        }
        proof {
            assert(cs.take(cs.len() as int) =~= cs);
            lemma_min_props(cs);
        }
        let ghost w = min_len(cs);
        let mut counts = counts_new();
        let mut i2: usize = 0;
        while i2 < self.clauses.len()
            invariant
                i2 <= self.clauses.len(),
                cs == self.cls(),
                cs.len() == self.clauses.len(),
                best as nat == w,
                w == min_len(cs),
                forall|x: isize| #![trigger counts_of(counts).dom().contains(x)]
                    (counts_of(counts).dom().contains(x) <==> occ_count(cs.take(i2 as int), w, x)
                        > 0) && (counts_of(counts).dom().contains(x) ==> counts_of(counts)[x]
                        == occ_count(cs.take(i2 as int), w, x)),
            decreases self.clauses.len() - i2,
        {
            let c = &self.clauses[i2];
            proof {
                assert(c@ == cs[i2 as int]);
            }
            if c.len() == best {
                let mut j: usize = 0;
                while j < c.len()
                    invariant
                        j <= c.len(),
                        i2 < self.clauses.len(),
                        cs.len() == self.clauses.len(),
                        c@ == cs[i2 as int],
                        best as nat == w,
                        forall|x: isize| #![trigger counts_of(counts).dom().contains(x)]
                            if c@.take(j as int).contains(x) {
                                counts_of(counts).dom().contains(x) && counts_of(counts)[x]
                                    == occ_count(cs.take(i2 as int), w, x) + 1
                            } else {
                                (counts_of(counts).dom().contains(x) <==> occ_count(
                                    cs.take(i2 as int),
                                    w,
                                    x,
                                ) > 0) && (counts_of(counts).dom().contains(x) ==> counts_of(
                                    counts,
                                )[x] == occ_count(cs.take(i2 as int), w, x))
                            },
                    decreases c.len() - j,
                {
                    let x = c[j];
                    let seen = contains_up_to(c, j, x);
                    if !seen {
                        proof {
                            lemma_occ_le(cs.take(i2 as int), w, x);
                            assert(counts_of(counts).dom().contains(x) ==> counts_of(counts)[x]
                                <= i2);
                        }
                        match counts_get(&counts, x) {
                            Option::Some(v) => {
                                counts_insert(&mut counts, x, v + 1);
                            },
                            Option::None => {
                                counts_insert(&mut counts, x, 1);
                            },
                        }
                    }
                    proof {
                        assert(c@.take(j as int + 1) =~= c@.take(j as int).push(c@[j as int]));
                        assert forall|y: isize| #![trigger counts_of(counts).dom().contains(y)]
                            if c@.take(j as int + 1).contains(y) {
                                counts_of(counts).dom().contains(y) && counts_of(counts)[y]
                                    == occ_count(cs.take(i2 as int), w, y) + 1
                            } else {
                                (counts_of(counts).dom().contains(y) <==> occ_count(
                                    cs.take(i2 as int),
                                    w,
                                    y,
                                ) > 0) && (counts_of(counts).dom().contains(y) ==> counts_of(
                                    counts,
                                )[y] == occ_count(cs.take(i2 as int), w, y))
                            } by {
                            if y == x {
                                assert(c@.take(j as int + 1).contains(x)) by {
                                    assert(c@.take(j as int + 1)[j as int] == x);
                                }
                                if seen {
                                    assert(counts_of(counts).dom().contains(x));
                                }
                            } else {
                                assert(c@.take(j as int + 1).contains(y) == c@.take(
                                    j as int,
                                ).contains(y)) by {
                                    if c@.take(j as int).contains(y) {
                                        let q = choose|q: int|
                                            0 <= q < j && (#[trigger] c@.take(j as int)[q]) == y;
                                        assert(c@.take(j as int + 1)[q] == y);
                                    }
                                    if c@.take(j as int + 1).contains(y) {
                                        let q = choose|q: int|
                                            0 <= q < j + 1 && (#[trigger] c@.take(j as int + 1)[q])
                                                == y;
                                        assert(q < j);
                                        assert(c@.take(j as int)[q] == y);
                                    }
                                }
                            }
                        }
                    }
                    j += 1;
                }
                proof {
                    assert(c@.take(c@.len() as int) =~= c@);
                    assert(cs.take(i2 as int + 1) =~= cs.take(i2 as int) + seq![cs[i2 as int]]);
                    assert forall|y: isize| #![trigger counts_of(counts).dom().contains(y)]
                        (counts_of(counts).dom().contains(y) <==> occ_count(
                            cs.take(i2 as int + 1),
                            w,
                            y,
                        ) > 0) && (counts_of(counts).dom().contains(y) ==> counts_of(counts)[y]
                        == occ_count(cs.take(i2 as int + 1), w, y)) by {
                        lemma_occ_append(cs.take(i2 as int), cs[i2 as int], w, y);
                    }
                }
            } else {
                proof {
                    assert(cs.take(i2 as int + 1) =~= cs.take(i2 as int) + seq![cs[i2 as int]]);
                    assert forall|y: isize| #![trigger counts_of(counts).dom().contains(y)]
                        (counts_of(counts).dom().contains(y) <==> occ_count(
                            cs.take(i2 as int + 1),
                            w,
                            y,
                        ) > 0) && (counts_of(counts).dom().contains(y) ==> counts_of(counts)[y]
                        == occ_count(cs.take(i2 as int + 1), w, y)) by {
                        lemma_occ_append(cs.take(i2 as int), cs[i2 as int], w, y);
                    }
                }
            }
            i2 += 1;
        }
        proof {
            assert(cs.take(cs.len() as int) =~= cs);
        }
        match counts_max(counts) {
            Option::Some((k, _v)) => {
                proof {
                    assert(counts_of(counts).dom().contains(k));
                    lemma_occ_pos(cs, w, k);
                    let iw = choose|iw: int|
                        0 <= iw < cs.len() && (#[trigger] cs[iw]).len() == w && cs[iw].contains(
                            k,
                        );
                    let m = choose|m: int| 0 <= m < cs[iw].len() && cs[iw][m] == k;
                    assert(valid_lit(k));
                    assert forall|x: isize|
                        occ_count(cs, w, x) <= occ_count(cs, w, k) by {
                        if occ_count(cs, w, x) > 0 {
                            assert(counts_of(counts).dom().contains(x));
                        }
                    }
                }
                k
            },
            Option::None => {
                proof {
                    let mw = choose|mw: int|
                        0 <= mw < cs.len() && (#[trigger] cs[mw]).len() == min_len(cs);
                    assert(cs[mw].len() != 0);
                    let x0 = cs[mw][0];
                    assert(cs[mw].contains(x0));
                    lemma_occ_witness(cs, w, x0, mw);
                    assert(counts_of(counts).dom().contains(x0));
                    assert(false);
                }
                vstd::pervasive::unreached()
            },
        }
    }

    /// An independent copy of the node with `literal` forced true; the node
    /// itself is untouched, as the shared borrow already guarantees.
    pub fn with_true(&self, literal: isize) -> (r: Formula)
        requires
            valid_lit(literal),
        ensures
            r.trail() == self.trail().push(literal),
            r.cls() == assign_clauses(self.cls(), literal),
    {
        let mut copy = Formula {
            assignments: clone_lits(&self.assignments),
            clauses: clone_clauses(&self.clauses),
        };
        copy.assign_true(literal);
        copy
    }
}

impl Default for Formula {
    /// An empty root node: no clauses, nothing assigned.
    fn default() -> (r: Formula)
        ensures
            r.trail() == Seq::<isize>::empty(),
            r.cls() == Seq::<Seq<isize>>::empty(),
    {
        let r = Formula { assignments: Vec::new(), clauses: Vec::new() };
        proof {
            assert(r.cls() =~= Seq::<Seq<isize>>::empty());
        }
        r
    }
}

/// Whether a clause holds the literal `x`.
pub(crate) fn vec_contains(c: &Vec<isize>, x: isize) -> (r: bool)
    ensures
        r == c@.contains(x),
{
    let r = contains_up_to(c, c.len(), x);
    proof {
        assert(c@.take(c@.len() as int) =~= c@);
    }
    r
}

/// Whether the first `end` literals of a clause hold `x`.
pub(crate) fn contains_up_to(c: &Vec<isize>, end: usize, x: isize) -> (r: bool)
    requires
        end <= c.len(),
    ensures
        r == c@.take(end as int).contains(x),
{
    let mut i: usize = 0;
    while i < end
        invariant
            i <= end <= c.len(),
            forall|k: int| 0 <= k < i ==> c@[k] != x,
        decreases end - i,
    {
        if c[i] == x {
            proof {
                assert(c@.take(end as int)[i as int] == x);
            }
            return true;
        }
        i += 1;
    }
    proof {
        if c@.take(end as int).contains(x) {
            let k = choose|k: int| 0 <= k < end && c@.take(end as int)[k] == x;
            assert(c@[k] == x);
        }
    }
    false
}

fn clone_lits(v: &Vec<isize>) -> (r: Vec<isize>)
    ensures
        r@ == v@,
{
    let mut r: Vec<isize> = Vec::new();
    let mut i: usize = 0;
    while i < v.len()
        invariant
            i <= v.len(),
            r@ == v@.take(i as int),
        decreases v.len() - i,
    {
        r.push(v[i]);
        proof {
            assert(v@.take(i as int + 1) =~= v@.take(i as int).push(v@[i as int]));
        }
        i += 1;
    }
    proof {
        assert(v@.take(v@.len() as int) =~= v@);
    }
    r
}

fn clone_clauses(v: &Vec<Vec<isize>>) -> (r: Vec<Vec<isize>>)
    ensures
        r.deep_view() == v.deep_view(),
{
    let mut r: Vec<Vec<isize>> = Vec::new();
    let mut i: usize = 0;
    while i < v.len()
        invariant
            i <= v.len(),
            r.deep_view() == v.deep_view().take(i as int),
        decreases v.len() - i,
    {
        let ghost r0 = r.deep_view();
        let copy = clone_lits(&v[i]);
        r.push(copy);
        proof {
            assert(copy.deep_view() =~= copy@);
            assert(r.deep_view() =~= r0.push(copy.deep_view()));
            assert(v.deep_view().take(i as int + 1) =~= v.deep_view().take(i as int).push(
                v.deep_view()[i as int],
            ));
            assert(v.deep_view()[i as int] == v@[i as int].deep_view());
            assert(v@[i as int].deep_view() =~= v@[i as int]@);
        }
        i += 1;
    }
    proof {
        assert(v.deep_view().take(v.deep_view().len() as int) =~= v.deep_view());
    }
    r
}

} // verus!
