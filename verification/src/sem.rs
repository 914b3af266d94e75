//! The meaning of literals, clauses and clause sets, and the lemmas about
//! forcing a literal true that the solver's proofs rest on.
use vstd::prelude::*;

verus! {

/// A total truth assignment: one boolean for every variable, indexed by the
/// variable's positive literal value.
pub type Interp = spec_fn(int) -> bool;

/// True of a literal that can stand in a clause: nonzero, and negatable
/// without overflow.
pub open spec fn valid_lit(l: isize) -> bool {
    l != 0 && l != isize::MIN
}

/// The negation of a literal.
pub open spec fn neg(l: isize) -> isize {
    (-(l as int)) as isize
}

pub open spec fn valid_clause(c: Seq<isize>) -> bool {
    forall|i: int| 0 <= i < c.len() ==> valid_lit(#[trigger] c[i])
}

pub open spec fn valid_clauses(cs: Seq<Seq<isize>>) -> bool {
    forall|i: int| 0 <= i < cs.len() ==> valid_clause(#[trigger] cs[i])
}

pub open spec fn valid_trail(tr: Seq<isize>) -> bool {
    forall|i: int| 0 <= i < tr.len() ==> valid_lit(#[trigger] tr[i])
}

/// A literal holds under an interpretation: a positive literal takes the
/// variable's value, a negative literal its negation.
pub open spec fn lit_sat(a: Interp, l: int) -> bool {
    if l > 0 {
        a(l)
    } else {
        !a(-l)
    }
}

/// A clause is a disjunction: some literal of it holds.
pub open spec fn clause_sat(a: Interp, c: Seq<isize>) -> bool {
    exists|i: int| 0 <= i < c.len() && lit_sat(a, (#[trigger] c[i]) as int)
}

/// A clause set is a conjunction: every clause holds.
pub open spec fn formula_sat(a: Interp, cs: Seq<Seq<isize>>) -> bool {
    forall|i: int| 0 <= i < cs.len() ==> clause_sat(a, #[trigger] cs[i])
}

/// Every literal of the trail holds under the interpretation.
pub open spec fn respects(a: Interp, tr: Seq<isize>) -> bool {
    forall|i: int| 0 <= i < tr.len() ==> lit_sat(a, (#[trigger] tr[i]) as int)
}

/// A search node holds under `a`: the trail so far, and the still-open
/// clauses.
pub open spec fn node_sat(a: Interp, tr: Seq<isize>, cs: Seq<Seq<isize>>) -> bool {
    respects(a, tr) && formula_sat(a, cs)
}

/// Some total assignment satisfies every clause.
pub open spec fn satisfiable(cs: Seq<Seq<isize>>) -> bool {
    exists|a: Interp| formula_sat(a, cs)
}

/// No two trail entries are each other's negation.
pub open spec fn consistent(tr: Seq<isize>) -> bool {
    forall|i: int, j: int|
        0 <= i < tr.len() && 0 <= j < tr.len() ==> (#[trigger] tr[i]) as int != -((
        #[trigger] tr[j]) as int)
}

/// Neither polarity of the literal `x` stands on the trail.
pub open spec fn unassigned(tr: Seq<isize>, x: isize) -> bool {
    forall|k: int|
        0 <= k < tr.len() ==> (#[trigger] tr[k]) as int != x as int && tr[k] as int != -(x as int)
}

/// No open clause mentions a variable that the trail has decided.
pub open spec fn fresh(tr: Seq<isize>, cs: Seq<Seq<isize>>) -> bool {
    forall|i: int, j: int|
        0 <= i < cs.len() && 0 <= j < (#[trigger] cs[i]).len() ==> unassigned(
            tr,
            #[trigger] cs[i][j],
        )
}

pub open spec fn has_empty(cs: Seq<Seq<isize>>) -> bool {
    exists|i: int| 0 <= i < cs.len() && (#[trigger] cs[i]).len() == 0
}

/// Remove every occurrence of `m` from a clause.
pub open spec fn strip_lit(c: Seq<isize>, m: isize) -> Seq<isize>
    decreases c.len(),
{
    if c.len() == 0 {
        Seq::empty()
    } else if c[0] == m {
        strip_lit(c.drop_first(), m)
    } else {
        seq![c[0]] + strip_lit(c.drop_first(), m)
    }
}

/// The clause set after forcing `l` true: clauses holding `l` are satisfied
/// and dropped, and the negation of `l` is struck from the rest.
pub open spec fn assign_clauses(cs: Seq<Seq<isize>>, l: isize) -> Seq<Seq<isize>>
    decreases cs.len(),
{
    if cs.len() == 0 {
        Seq::empty()
    } else {
        let rest = assign_clauses(cs.drop_first(), l);
        if cs[0].contains(l) {
            rest
        } else {
            seq![strip_lit(cs[0], neg(l))] + rest
        }
    }
}

/// The number of literal occurrences over all clauses.
pub open spec fn total_size(cs: Seq<Seq<isize>>) -> nat
    decreases cs.len(),
{
    if cs.len() == 0 {
        0
    } else {
        cs[0].len() + total_size(cs.drop_first())
    }
}

/// The interpretation read off a trail: a variable is true exactly when its
/// positive literal stands on the trail.
pub open spec fn of_trail(tr: Seq<isize>) -> Interp {
    |v: int| exists|i: int| 0 <= i < tr.len() && (#[trigger] tr[i]) as int == v
}

/// For a representable literal the two polarities are complementary.
pub proof fn lemma_lit_neg(a: Interp, l: isize)
    requires
        valid_lit(l),
    ensures
        lit_sat(a, -(l as int)) == !lit_sat(a, l as int),
{
}

pub proof fn lemma_strip_len(c: Seq<isize>, m: isize)
    ensures
        strip_lit(c, m).len() <= c.len(),
        c.contains(m) ==> strip_lit(c, m).len() < c.len(),
    decreases c.len(),
{
    if c.len() > 0 {
        lemma_strip_len(c.drop_first(), m);
        if c.contains(m) && c[0] != m {
            let k = choose|k: int| 0 <= k < c.len() && c[k] == m;
            assert(c.drop_first()[k - 1] == m);
        }
    }
}

pub proof fn lemma_strip_contains(c: Seq<isize>, m: isize, x: isize)
    ensures
        strip_lit(c, m).contains(x) <==> (c.contains(x) && x != m),
    decreases c.len(),
{
    if c.len() > 0 {
        lemma_strip_contains(c.drop_first(), m, x);
        let s = strip_lit(c, m);
        if c.contains(x) && x != m {
            if c[0] != x {
                let k = choose|k: int| 0 <= k < c.len() && c[k] == x;
                assert(c.drop_first()[k - 1] == x);
                assert(strip_lit(c.drop_first(), m).contains(x));
                if c[0] != m {
                    let j = choose|j: int|
                        0 <= j < strip_lit(c.drop_first(), m).len() && strip_lit(
                            c.drop_first(),
                            m,
                        )[j] == x;
                    assert(s[j + 1] == x);
                }
            } else {
                if c[0] != m {
                    assert(s[0] == x);
                }
            }
        }
        if s.contains(x) {
            let j = choose|j: int| 0 <= j < s.len() && s[j] == x;
            if c[0] != m && j == 0 {
                assert(c.contains(x)) by { assert(c[0] == x) };
            } else {
                let inner = strip_lit(c.drop_first(), m);
                if c[0] == m {
                    assert(inner.contains(x)) by { assert(inner[j] == x) };
                } else {
                    assert(inner.contains(x)) by { assert(inner[j - 1] == x) };
                }
                let k = choose|k: int| 0 <= k < inner.len() && inner[k] == x;
                let k2 = choose|k2: int| 0 <= k2 < c.drop_first().len() && c.drop_first()[k2] == x;
                assert(c[k2 + 1] == x);
            }
        }
    }
}

/// Striking a literal that is false under `a` does not change whether the
/// clause holds.
pub proof fn lemma_strip_sat(a: Interp, c: Seq<isize>, m: isize)
    requires
        !lit_sat(a, m as int),
    ensures
        clause_sat(a, strip_lit(c, m)) == clause_sat(a, c),
    decreases c.len(),
{
    if c.len() > 0 {
        lemma_strip_sat(a, c.drop_first(), m);
        let s = strip_lit(c, m);
        let inner = strip_lit(c.drop_first(), m);
        if clause_sat(a, c) {
            let i = choose|i: int| 0 <= i < c.len() && lit_sat(a, c[i] as int);
            if i == 0 {
                assert(c[0] != m);
                assert(s[0] == c[0]);
                assert(clause_sat(a, s));
            } else {
                assert(c.drop_first()[i - 1] == c[i]);
                assert(clause_sat(a, c.drop_first()));
                let j = choose|j: int| 0 <= j < inner.len() && lit_sat(a, inner[j] as int);
                if c[0] == m {
                    assert(s[j] == inner[j]);
                } else {
                    assert(s[j + 1] == inner[j]);
                }
                assert(clause_sat(a, s));
            }
        }
        if clause_sat(a, s) {
            let j = choose|j: int| 0 <= j < s.len() && lit_sat(a, s[j] as int);
            if c[0] != m && j == 0 {
                assert(lit_sat(a, c[0] as int));
                assert(clause_sat(a, c));
            } else {
                if c[0] == m {
                    assert(inner[j] == s[j]);
                } else {
                    assert(inner[j - 1] == s[j]);
                }
                assert(clause_sat(a, inner));
                let k = choose|k: int| 0 <= k < inner.len() && lit_sat(a, inner[k] as int);
                assert(clause_sat(a, c.drop_first()));
                let k2 = choose|k2: int|
                    0 <= k2 < c.drop_first().len() && lit_sat(a, c.drop_first()[k2] as int);
                assert(c[k2 + 1] == c.drop_first()[k2]);
                assert(clause_sat(a, c));
            }
        }
    }
}

/// Under any interpretation that makes `l` true, forcing `l` preserves
/// exactly the clauses' joint truth.
pub proof fn lemma_assign_equiv(a: Interp, cs: Seq<Seq<isize>>, l: isize)
    requires
        valid_lit(l),
        lit_sat(a, l as int),
    ensures
        formula_sat(a, assign_clauses(cs, l)) == formula_sat(a, cs),
    decreases cs.len(),
{
    if cs.len() > 0 {
        lemma_assign_equiv(a, cs.drop_first(), l);
        let rest = assign_clauses(cs.drop_first(), l);
        let whole = assign_clauses(cs, l);
        assert(lit_sat(a, neg(l) as int) == !lit_sat(a, l as int)) by {
            lemma_lit_neg(a, l);
        }
        lemma_strip_sat(a, cs[0], neg(l));
        assert(formula_sat(a, cs) == (clause_sat(a, cs[0]) && formula_sat(a, cs.drop_first())))
            by {
            if clause_sat(a, cs[0]) && formula_sat(a, cs.drop_first()) {
                assert forall|i: int| 0 <= i < cs.len() implies clause_sat(a, #[trigger] cs[i]) by {
                    if i > 0 {
                        assert(clause_sat(a, cs.drop_first()[i - 1]));
                    }
                }
            } else if formula_sat(a, cs) {
                assert forall|i: int|
                    0 <= i < cs.drop_first().len() implies clause_sat(
                    a,
                    #[trigger] cs.drop_first()[i],
                ) by {
                    assert(clause_sat(a, cs[i + 1]));
                }
            }
        }
        if cs[0].contains(l) {
            assert(clause_sat(a, cs[0])) by {
                let k = choose|k: int| 0 <= k < cs[0].len() && cs[0][k] == l;
                assert(lit_sat(a, cs[0][k] as int));
            }
            assert(whole == rest);
        } else {
            let stripped = strip_lit(cs[0], neg(l));
            assert(whole == seq![stripped] + rest);
            assert(formula_sat(a, whole) == (clause_sat(a, stripped) && formula_sat(a, rest)))
                by {
                if clause_sat(a, stripped) && formula_sat(a, rest) {
                    assert forall|i: int| 0 <= i < whole.len() implies clause_sat(
                        a,
                        #[trigger] whole[i],
                    ) by {
                        if i > 0 {
                            assert(whole[i] == rest[i - 1]);
                        }
                    }
                } else if formula_sat(a, whole) {
                    assert(clause_sat(a, whole[0]));
                    assert forall|i: int| 0 <= i < rest.len() implies clause_sat(
                        a,
                        #[trigger] rest[i],
                    ) by {
                        assert(whole[i + 1] == rest[i]);
                    }
                }
            }
        }
    }
}

/// Every clause that survives forcing `l` is a surviving original clause
/// with the negation of `l` struck out.
pub proof fn lemma_assign_elements(cs: Seq<Seq<isize>>, l: isize)
    ensures
        forall|j: int|
            0 <= j < assign_clauses(cs, l).len() ==> exists|i: int|
                0 <= i < cs.len() && !(#[trigger] cs[i]).contains(l) && #[trigger] assign_clauses(
                    cs,
                    l,
                )[j] == strip_lit(cs[i], neg(l)),
    decreases cs.len(),
{
    if cs.len() > 0 {
        lemma_assign_elements(cs.drop_first(), l);
        let rest = assign_clauses(cs.drop_first(), l);
        let whole = assign_clauses(cs, l);
        assert forall|j: int| 0 <= j < whole.len() implies exists|i: int|
            0 <= i < cs.len() && !(#[trigger] cs[i]).contains(l) && #[trigger] whole[j]
                == strip_lit(cs[i], neg(l)) by {
            if cs[0].contains(l) {
                let i0 = choose|i0: int|
                    0 <= i0 < cs.drop_first().len() && !(#[trigger] cs.drop_first()[i0]).contains(
                        l,
                    ) && rest[j] == strip_lit(cs.drop_first()[i0], neg(l));
                assert(cs[i0 + 1] == cs.drop_first()[i0]);
                assert(!cs[i0 + 1].contains(l) && whole[j] == strip_lit(cs[i0 + 1], neg(l)));
            } else {
                if j == 0 {
                    assert(!cs[0].contains(l) && whole[0] == strip_lit(cs[0], neg(l)));
                } else {
                    assert(whole[j] == rest[j - 1]);
                    let i0 = choose|i0: int|
                        0 <= i0 < cs.drop_first().len() && !(
                        #[trigger] cs.drop_first()[i0]).contains(l) && rest[j - 1] == strip_lit(
                            cs.drop_first()[i0],
                            neg(l),
                        );
                    assert(cs[i0 + 1] == cs.drop_first()[i0]);
                    assert(!cs[i0 + 1].contains(l) && whole[j] == strip_lit(cs[i0 + 1], neg(l)));
                }
            }
        }
    }
}

/// A surviving original clause reappears, stripped, after forcing `l`.
pub proof fn lemma_assign_contains(cs: Seq<Seq<isize>>, l: isize, c: Seq<isize>)
    requires
        cs.contains(c),
        !c.contains(l),
    ensures
        assign_clauses(cs, l).contains(strip_lit(c, neg(l))),
    decreases cs.len(),
{
    let whole = assign_clauses(cs, l);
    let rest = assign_clauses(cs.drop_first(), l);
    let k = choose|k: int| 0 <= k < cs.len() && cs[k] == c;
    if k == 0 {
        assert(whole[0] == strip_lit(c, neg(l)));
    } else {
        assert(cs.drop_first()[k - 1] == c);
        assert(cs.drop_first().contains(c));
        lemma_assign_contains(cs.drop_first(), l, c);
        let j = choose|j: int| 0 <= j < rest.len() && rest[j] == strip_lit(c, neg(l));
        if cs[0].contains(l) {
            assert(whole[j] == strip_lit(c, neg(l)));
        } else {
            assert(whole[j + 1] == strip_lit(c, neg(l)));
        }
    }
}

pub proof fn lemma_assign_size(cs: Seq<Seq<isize>>, l: isize)
    ensures
        total_size(assign_clauses(cs, l)) <= total_size(cs),
    decreases cs.len(),
{
    if cs.len() > 0 {
        lemma_assign_size(cs.drop_first(), l);
        if !cs[0].contains(l) {
            lemma_strip_len(cs[0], neg(l));
            lemma_size_prepend(strip_lit(cs[0], neg(l)), assign_clauses(cs.drop_first(), l));
        }
    }
}

proof fn lemma_size_prepend(c: Seq<isize>, cs: Seq<Seq<isize>>)
    ensures
        total_size(seq![c] + cs) == c.len() + total_size(cs),
{
    let s = seq![c] + cs;
    assert(s[0] == c);
    assert(s.drop_first() =~= cs);
}

/// Forcing a literal whose variable occurs somewhere strictly shrinks the
/// clause set.
pub proof fn lemma_assign_size_strict(cs: Seq<Seq<isize>>, l: isize, k: int)
    requires
        valid_lit(l),
        0 <= k < cs.len(),
        cs[k].contains(l) || cs[k].contains(neg(l)),
    ensures
        total_size(assign_clauses(cs, l)) < total_size(cs),
    decreases cs.len(),
{
    lemma_assign_size(cs.drop_first(), l);
    if k == 0 {
        if cs[0].contains(l) {
            assert(cs[0].len() >= 1) by {
                let j = choose|j: int| 0 <= j < cs[0].len() && cs[0][j] == l;
            }
        } else {
            lemma_strip_len(cs[0], neg(l));
            lemma_size_prepend(strip_lit(cs[0], neg(l)), assign_clauses(cs.drop_first(), l));
        }
    } else {
        assert(cs.drop_first()[k - 1] == cs[k]);
        lemma_assign_size_strict(cs.drop_first(), l, k - 1);
        if !cs[0].contains(l) {
            lemma_strip_len(cs[0], neg(l));
            lemma_size_prepend(strip_lit(cs[0], neg(l)), assign_clauses(cs.drop_first(), l));
        }
    }
}

pub proof fn lemma_strip_append(xs: Seq<isize>, ys: Seq<isize>, m: isize)
    ensures
        strip_lit(xs + ys, m) == strip_lit(xs, m) + strip_lit(ys, m),
    decreases xs.len(),
{
    if xs.len() == 0 {
        assert(xs + ys =~= ys);
        assert(strip_lit(xs, m) + strip_lit(ys, m) =~= strip_lit(ys, m));
    } else {
        lemma_strip_append(xs.drop_first(), ys, m);
        let s = xs + ys;
        assert(s[0] == xs[0]);
        assert(s.drop_first() =~= xs.drop_first() + ys);
        if xs[0] != m {
            assert(seq![xs[0]] + (strip_lit(xs.drop_first(), m) + strip_lit(ys, m)) =~= (seq![
                xs[0],
            ] + strip_lit(xs.drop_first(), m)) + strip_lit(ys, m));
        }
    }
}

pub proof fn lemma_strip_singleton(x: isize, m: isize)
    ensures
        strip_lit(seq![x], m) == if x == m {
            Seq::<isize>::empty()
        } else {
            seq![x]
        },
{
    let c = seq![x];
    assert(c.drop_first() =~= Seq::<isize>::empty());
    assert(strip_lit(Seq::<isize>::empty(), m) == Seq::<isize>::empty());
    if x != m {
        assert(seq![x] + Seq::<isize>::empty() =~= seq![x]);
    }
}

pub proof fn lemma_assign_append(xs: Seq<Seq<isize>>, ys: Seq<Seq<isize>>, l: isize)
    ensures
        assign_clauses(xs + ys, l) == assign_clauses(xs, l) + assign_clauses(ys, l),
    decreases xs.len(),
{
    if xs.len() == 0 {
        assert(xs + ys =~= ys);
        assert(assign_clauses(xs, l) + assign_clauses(ys, l) =~= assign_clauses(ys, l));
    } else {
        lemma_assign_append(xs.drop_first(), ys, l);
        let s = xs + ys;
        assert(s[0] == xs[0]);
        assert(s.drop_first() =~= xs.drop_first() + ys);
        if !xs[0].contains(l) {
            let c = strip_lit(xs[0], neg(l));
            assert(seq![c] + (assign_clauses(xs.drop_first(), l) + assign_clauses(ys, l)) =~= (
            seq![c] + assign_clauses(xs.drop_first(), l)) + assign_clauses(ys, l));
        }
    }
}

pub proof fn lemma_assign_singleton(c: Seq<isize>, l: isize)
    ensures
        assign_clauses(seq![c], l) == if c.contains(l) {
            Seq::<Seq<isize>>::empty()
        } else {
            seq![strip_lit(c, neg(l))]
        },
{
    let cs = seq![c];
    assert(cs.drop_first() =~= Seq::<Seq<isize>>::empty());
    assert(assign_clauses(Seq::<Seq<isize>>::empty(), l) == Seq::<Seq<isize>>::empty());
    if !c.contains(l) {
        assert(seq![strip_lit(c, neg(l))] + Seq::<Seq<isize>>::empty() =~= seq![
            strip_lit(c, neg(l)),
        ]);
    }
}

pub proof fn lemma_assign_valid(cs: Seq<Seq<isize>>, l: isize)
    requires
        valid_clauses(cs),
    ensures
        valid_clauses(assign_clauses(cs, l)),
{
    lemma_assign_elements(cs, l);
    let w = assign_clauses(cs, l);
    assert forall|j: int| 0 <= j < w.len() implies valid_clause(#[trigger] w[j]) by {
        let i = choose|i: int|
            0 <= i < cs.len() && !(#[trigger] cs[i]).contains(l) && w[j] == strip_lit(
                cs[i],
                neg(l),
            );
        assert forall|k: int| 0 <= k < w[j].len() implies valid_lit(#[trigger] w[j][k]) by {
            assert(w[j].contains(w[j][k]));
            lemma_strip_contains(cs[i], neg(l), w[j][k]);
            let m = choose|m: int| 0 <= m < cs[i].len() && cs[i][m] == w[j][k];
        }
    }
}

/// After forcing `l`, no surviving clause holds `l` or its negation.
pub proof fn lemma_assign_no_occurrence(cs: Seq<Seq<isize>>, l: isize)
    requires
        valid_lit(l),
    ensures
        forall|j: int, k: int|
            0 <= j < assign_clauses(cs, l).len() && 0 <= k < (#[trigger] assign_clauses(
                cs,
                l,
            )[j]).len() ==> assign_clauses(cs, l)[j][k] != l && (#[trigger] assign_clauses(
                cs,
                l,
            )[j][k]) as int != -(l as int),
{
    lemma_assign_elements(cs, l);
    let w = assign_clauses(cs, l);
    assert forall|j: int, k: int|
        0 <= j < w.len() && 0 <= k < (#[trigger] w[j]).len() implies w[j][k] != l && (
    #[trigger] w[j][k]) as int != -(l as int) by {
        let i = choose|i: int|
            0 <= i < cs.len() && !(#[trigger] cs[i]).contains(l) && w[j] == strip_lit(
                cs[i],
                neg(l),
            );
        assert(w[j].contains(w[j][k]));
        lemma_strip_contains(cs[i], neg(l), w[j][k]);
        assert(w[j][k] != neg(l));
        assert(neg(l) as int == -(l as int));
    }
}

pub proof fn lemma_assign_fresh(tr: Seq<isize>, cs: Seq<Seq<isize>>, l: isize)
    requires
        fresh(tr, cs),
        valid_lit(l),
    ensures
        fresh(tr.push(l), assign_clauses(cs, l)),
{
    lemma_assign_elements(cs, l);
    lemma_assign_no_occurrence(cs, l);
    let w = assign_clauses(cs, l);
    let tr2 = tr.push(l);
    assert forall|j: int, k: int|
        0 <= j < w.len() && 0 <= k < (#[trigger] w[j]).len() implies unassigned(
        tr2,
        #[trigger] w[j][k],
    ) by {
        let i = choose|i: int|
            0 <= i < cs.len() && !(#[trigger] cs[i]).contains(l) && w[j] == strip_lit(
                cs[i],
                neg(l),
            );
        assert(w[j].contains(w[j][k]));
        lemma_strip_contains(cs[i], neg(l), w[j][k]);
        let m = choose|m: int| 0 <= m < cs[i].len() && cs[i][m] == w[j][k];
        assert(unassigned(tr, cs[i][m]));
        let x = w[j][k];
        assert forall|q: int| 0 <= q < tr2.len() implies (#[trigger] tr2[q]) as int != x as int
            && tr2[q] as int != -(x as int) by {
            if q < tr.len() {
                assert(tr2[q] == tr[q]);
            } else {
                assert(tr2[q] == l);
                assert(x as int != -(l as int));
                assert(x != l);
            }
        }
    }
}

pub proof fn lemma_assign_has_empty(cs: Seq<Seq<isize>>, l: isize)
    requires
        has_empty(cs),
    ensures
        has_empty(assign_clauses(cs, l)),
{
    let i = choose|i: int| 0 <= i < cs.len() && (#[trigger] cs[i]).len() == 0;
    assert(cs.contains(cs[i]));
    lemma_assign_contains(cs, l, cs[i]);
    let e = strip_lit(cs[i], neg(l));
    assert(cs[i] =~= Seq::<isize>::empty());
    assert(e.len() == 0);
    let w = assign_clauses(cs, l);
    let j = choose|j: int| 0 <= j < w.len() && w[j] == e;
}

/// Forcing the literal of a unit clause neither gains nor loses models;
/// forcing any literal on a node that already holds an empty clause leaves
/// it without models either way.
pub proof fn lemma_force_unit_equiv(tr: Seq<isize>, cs: Seq<Seq<isize>>, u: isize)
    requires
        valid_lit(u),
        has_empty(cs) || cs.contains(seq![u]),
    ensures
        forall|a: Interp|
            node_sat(a, tr.push(u), assign_clauses(cs, u)) == node_sat(a, tr, cs),
{
    let tr2 = tr.push(u);
    let w = assign_clauses(cs, u);
    if has_empty(cs) {
        lemma_has_empty_unsat(cs);
        lemma_assign_has_empty(cs, u);
        lemma_has_empty_unsat(w);
        assert forall|a: Interp| node_sat(a, tr2, w) == node_sat(a, tr, cs) by {
            assert(!formula_sat(a, cs));
            assert(!formula_sat(a, w));
        }
    } else {
        let c = seq![u];
        let i = choose|i: int| 0 <= i < cs.len() && cs[i] == c;
        assert forall|a: Interp| node_sat(a, tr2, w) == node_sat(a, tr, cs) by {
            if node_sat(a, tr, cs) {
                assert(clause_sat(a, cs[i]));
                let j = choose|j: int| 0 <= j < c.len() && lit_sat(a, (c[j]) as int);
                assert(j == 0 && c[0] == u);
                assert(lit_sat(a, u as int));
                lemma_assign_equiv(a, cs, u);
                assert forall|m: int| 0 <= m < tr2.len() implies lit_sat(
                    a,
                    (#[trigger] tr2[m]) as int,
                ) by {
                    if m < tr.len() {
                        assert(tr2[m] == tr[m]);
                    } else {
                        assert(tr2[m] == u);
                    }
                }
            }
            if node_sat(a, tr2, w) {
                assert(tr2[tr.len() as int] == u);
                assert(lit_sat(a, u as int));
                lemma_assign_equiv(a, cs, u);
                assert forall|m: int| 0 <= m < tr.len() implies lit_sat(
                    a,
                    (#[trigger] tr[m]) as int,
                ) by {
                    assert(tr2[m] == tr[m]);
                }
            }
        }
    }
}

pub proof fn lemma_fold_snoc(cs: Seq<Seq<isize>>, u: Seq<isize>, x: isize)
    ensures
        assign_fold(cs, u.push(x)) == assign_clauses(assign_fold(cs, u), x),
    decreases u.len(),
{
    if u.len() == 0 {
        assert(u.push(x)[0] == x);
        assert(u.push(x).drop_first() =~= Seq::<isize>::empty());
        assert(assign_fold(assign_clauses(cs, x), Seq::<isize>::empty()) == assign_clauses(
            cs,
            x,
        ));
    } else {
        assert(u.push(x)[0] == u[0]);
        assert(u.push(x).drop_first() =~= u.drop_first().push(x));
        lemma_fold_snoc(assign_clauses(cs, u[0]), u.drop_first(), x);
    }
}

pub proof fn lemma_strip_absent(c: Seq<isize>, m: isize)
    requires
        !c.contains(m),
    ensures
        strip_lit(c, m) == c,
    decreases c.len(),
{
    if c.len() > 0 {
        assert(c[0] != m) by {
            if c[0] == m {
                assert(c.contains(m));
            }
        }
        assert(!c.drop_first().contains(m)) by {
            if c.drop_first().contains(m) {
                let k = choose|k: int| 0 <= k < c.drop_first().len() && c.drop_first()[k] == m;
                assert(c[k + 1] == m);
            }
        }
        lemma_strip_absent(c.drop_first(), m);
        assert(seq![c[0]] + c.drop_first() =~= c);
    }
}

/// Forcing a literal only ever removes literal occurrences.
pub proof fn lemma_assign_occurs(cs: Seq<Seq<isize>>, l: isize, x: isize)
    requires
        occurs_in(assign_clauses(cs, l), x),
    ensures
        occurs_in(cs, x),
{
    lemma_assign_elements(cs, l);
    let w = assign_clauses(cs, l);
    let (j, k): (int, int) = choose|j: int, k: int|
        0 <= j < w.len() && 0 <= k < w[j].len() && #[trigger] w[j][k] == x;
    let i = choose|i: int|
        0 <= i < cs.len() && !(#[trigger] cs[i]).contains(l) && w[j] == strip_lit(cs[i], neg(l));
    assert(w[j].contains(x));
    lemma_strip_contains(cs[i], neg(l), x);
    let m = choose|m: int| 0 <= m < cs[i].len() && cs[i][m] == x;
    assert(occurs_in(cs, x)) by {
        assert(0 <= i < cs.len() && 0 <= m < cs[i].len() && cs[i][m] == x);
    }
}

pub proof fn lemma_fold_occurs(cs: Seq<Seq<isize>>, u: Seq<isize>, x: isize)
    requires
        occurs_in(assign_fold(cs, u), x),
    ensures
        occurs_in(cs, x),
    decreases u.len(),
{
    if u.len() > 0 {
        lemma_fold_occurs(assign_clauses(cs, u[0]), u.drop_first(), x);
        lemma_assign_occurs(cs, u[0], x);
    }
}

pub proof fn lemma_fold_has_empty(cs: Seq<Seq<isize>>, u: Seq<isize>)
    requires
        has_empty(cs),
    ensures
        has_empty(assign_fold(cs, u)),
    decreases u.len(),
{
    if u.len() > 0 {
        lemma_assign_has_empty(cs, u[0]);
        lemma_fold_has_empty(assign_clauses(cs, u[0]), u.drop_first());
    }
}

/// After forcing `l`, every original clause either held `l` itself or
/// survives with no literal gained.
pub proof fn lemma_assign_provenance(cs: Seq<Seq<isize>>, l: isize)
    ensures
        forall|i: int|
            0 <= i < cs.len() ==> (#[trigger] cs[i]).contains(l) || exists|j: int|
                0 <= j < assign_clauses(cs, l).len() && sub_clause(
                    #[trigger] assign_clauses(cs, l)[j],
                    cs[i],
                ),
{
    let w = assign_clauses(cs, l);
    assert forall|i: int| 0 <= i < cs.len() implies (#[trigger] cs[i]).contains(l) || exists|
        j: int,
    |
        0 <= j < w.len() && sub_clause(#[trigger] w[j], cs[i]) by {
        if !cs[i].contains(l) {
            assert(cs.contains(cs[i]));
            lemma_assign_contains(cs, l, cs[i]);
            let d = strip_lit(cs[i], neg(l));
            let j = choose|j: int| 0 <= j < w.len() && w[j] == d;
            assert(sub_clause(w[j], cs[i])) by {
                assert forall|k: int| 0 <= k < d.len() implies cs[i].contains(#[trigger] d[k]) by {
                    assert(d.contains(d[k]));
                    lemma_strip_contains(cs[i], neg(l), d[k]);
                }
            }
        }
    }
}

/// After a whole propagation batch, every original clause either held one
/// of the forced literals or survives with no literal gained.
pub proof fn lemma_fold_provenance(cs: Seq<Seq<isize>>, u: Seq<isize>)
    ensures
        forall|i: int|
            0 <= i < cs.len() ==> batch_covers(u, #[trigger] cs[i]) || survives_into(
                assign_fold(cs, u),
                cs[i],
            ),
    decreases u.len(),
{
    let w = assign_fold(cs, u);
    if u.len() == 0 {
        assert(w == cs);
        assert forall|i: int| 0 <= i < cs.len() implies batch_covers(u, #[trigger] cs[i])
            || survives_into(w, cs[i]) by {
            assert(w[i] == cs[i]);
            assert(sub_clause(w[i], cs[i])) by {
                assert forall|k: int| 0 <= k < w[i].len() implies cs[i].contains(
                    #[trigger] w[i][k],
                ) by {
                    assert(cs[i][k] == w[i][k]);
                }
            }
            assert(survives_into(w, cs[i])) by {
                assert(0 <= i < w.len() && sub_clause(w[i], cs[i]));
            }
        }
    } else {
        let cs1 = assign_clauses(cs, u[0]);
        lemma_assign_provenance(cs, u[0]);
        lemma_fold_provenance(cs1, u.drop_first());
        assert(w == assign_fold(cs1, u.drop_first()));
        assert forall|i: int| 0 <= i < cs.len() implies batch_covers(u, #[trigger] cs[i])
            || survives_into(w, cs[i]) by {
            if cs[i].contains(u[0]) {
                assert(batch_covers(u, cs[i])) by {
                    assert(0 <= 0 < u.len() && cs[i].contains(u[0]));
                }
            } else {
                let j1 = choose|j1: int|
                    0 <= j1 < cs1.len() && sub_clause(#[trigger] cs1[j1], cs[i]);
                if batch_covers(u.drop_first(), cs1[j1]) {
                    let m = choose|m: int|
                        0 <= m < u.drop_first().len() && cs1[j1].contains(
                            #[trigger] u.drop_first()[m],
                        );
                    let k = choose|k: int|
                        0 <= k < cs1[j1].len() && cs1[j1][k] == u.drop_first()[m];
                    assert(cs[i].contains(cs1[j1][k]));
                    assert(u[m + 1] == u.drop_first()[m]);
                    assert(batch_covers(u, cs[i])) by {
                        assert(0 <= m + 1 < u.len() && cs[i].contains(u[m + 1]));
                    }
                } else {
                    assert(survives_into(w, cs1[j1]));
                    let j2 = choose|j2: int|
                        0 <= j2 < w.len() && sub_clause(#[trigger] w[j2], cs1[j1]);
                    assert(sub_clause(w[j2], cs[i])) by {
                        assert forall|k: int| 0 <= k < w[j2].len() implies cs[i].contains(
                            #[trigger] w[j2][k],
                        ) by {
                            assert(cs1[j1].contains(w[j2][k]));
                            let k2 = choose|k2: int|
                                0 <= k2 < cs1[j1].len() && cs1[j1][k2] == w[j2][k];
                            assert(cs[i].contains(cs1[j1][k2]));
                        }
                    }
                    assert(survives_into(w, cs[i])) by {
                        assert(0 <= j2 < w.len() && sub_clause(w[j2], cs[i]));
                    }
                }
            }
        }
    }
}

/// A pass over a clause set with no unit clause forces nothing and leaves
/// the clauses as they were.
pub proof fn lemma_no_units_no_change(cs: Seq<Seq<isize>>)
    requires
        forall|i: int| 0 <= i < cs.len() ==> (#[trigger] cs[i]).len() != 1,
    ensures
        prop_batch(cs) == Seq::<isize>::empty(),
        assign_fold(cs, prop_batch(cs)) == cs,
{
    lemma_no_units_batch_from(cs, Seq::empty());
}

proof fn lemma_no_units_batch_from(cs: Seq<Seq<isize>>, seen: Seq<isize>)
    requires
        forall|i: int| 0 <= i < cs.len() ==> (#[trigger] cs[i]).len() != 1,
    ensures
        batch_from(cs, seen) == Seq::<isize>::empty(),
    decreases cs.len(),
{
    if cs.len() > 0 {
        assert forall|i: int| 0 <= i < cs.drop_first().len() implies (
        #[trigger] cs.drop_first()[i]).len() != 1 by {
            assert(cs.drop_first()[i] == cs[i + 1]);
        }
        lemma_no_units_batch_from(cs.drop_first(), seen);
    }
}

pub proof fn lemma_prefix_contains(a: Seq<isize>, b: Seq<isize>, x: isize)
    requires
        a.is_prefix_of(b),
        a.contains(x),
    ensures
        b.contains(x),
{
    let i = choose|i: int| 0 <= i < a.len() && a[i] == x;
    assert(b[i] == x);
}

/// The variable a literal speaks of.
pub open spec fn var_of(v: isize) -> int {
    if v > 0 {
        v as int
    } else {
        -(v as int)
    }
}

/// The interpretation `a` with the variable of `v` turned to make `v`
/// true.
pub open spec fn flip_at(a: Interp, v: isize) -> Interp {
    |w: int| if w == var_of(v) {
        v > 0
    } else {
        a(w)
    }
}

/// When the negation of the chosen literal stands in no clause, any model
/// of the false branch turns into a model of the true branch by flipping
/// the one variable.
pub proof fn lemma_flip_branch(a: Interp, tr: Seq<isize>, cs: Seq<Seq<isize>>, v: isize)
    requires
        valid_lit(v),
        unassigned(tr, v),
        forall|i: int, j: int|
            0 <= i < cs.len() && 0 <= j < cs[i].len() ==> (#[trigger] cs[i][j]) as int != -(
            v as int),
        node_sat(a, tr.push(neg(v)), assign_clauses(cs, neg(v))),
    ensures
        node_sat(flip_at(a, v), tr.push(v), assign_clauses(cs, v)),
{
    let b = flip_at(a, v);
    let w = assign_clauses(cs, v);
    let w2 = assign_clauses(cs, neg(v));
    // literals of another variable keep their truth under the flip
    assert forall|x: isize| valid_lit(x) && x != v && x as int != -(v as int) implies lit_sat(
        b,
        x as int,
    ) == lit_sat(a, x as int) by {
        assert(x as int != var_of(v) && -(x as int) != var_of(v));
    }
    assert(lit_sat(b, v as int)) by {
        if v > 0 {
            assert(b(v as int) == true);
        } else {
            assert(b(-(v as int)) == (v > 0));
        }
    }
    assert(respects(b, tr.push(v))) by {
        let t = tr.push(v);
        assert forall|q: int| 0 <= q < t.len() implies lit_sat(b, (#[trigger] t[q]) as int) by {
            if q < tr.len() {
                assert(t[q] == tr[q]);
                assert(tr.push(neg(v))[q] == tr[q]);
                assert(lit_sat(a, tr[q] as int));
                assert(tr[q] as int != v as int && tr[q] as int != -(v as int));
                assert(var_of(tr[q]) != var_of(v) && -(tr[q] as int) != var_of(v)) by {
                    assert(neg(v) as int == -(v as int));
                }
                assert(lit_sat(b, tr[q] as int) == lit_sat(a, tr[q] as int)) by {
                    if tr[q] > 0 {
                        assert(tr[q] as int != var_of(v));
                    } else {
                        assert(-(tr[q] as int) != var_of(v));
                    }
                }
            } else {
                assert(t[q] == v);
            }
        }
    }
    lemma_assign_elements(cs, v);
    assert forall|j: int| 0 <= j < w.len() implies clause_sat(b, #[trigger] w[j]) by {
        let i = choose|i: int|
            0 <= i < cs.len() && !(#[trigger] cs[i]).contains(v) && w[j] == strip_lit(
                cs[i],
                neg(v),
            );
        let c = cs[i];
        assert(!c.contains(neg(v))) by {
            if c.contains(neg(v)) {
                let k = choose|k: int| 0 <= k < c.len() && c[k] == neg(v);
                assert(c[k] as int == -(v as int));
            }
        }
        lemma_strip_absent(c, neg(v));
        assert(w[j] == c);
        // the clause survives the false branch unchanged, so `a` meets it
        assert(!c.contains(v)) by {}
        assert(neg(neg(v)) == v);
        assert(cs.contains(c));
        lemma_assign_contains(cs, neg(v), c);
        lemma_strip_absent(c, v);
        assert(w2.contains(c));
        let j2 = choose|j2: int| 0 <= j2 < w2.len() && w2[j2] == c;
        assert(clause_sat(a, c));
        let k = choose|k: int| 0 <= k < c.len() && lit_sat(a, (c[k]) as int);
        assert(c[k] != v && c[k] as int != -(v as int)) by {
            if c[k] == v {
                assert(c.contains(v));
            }
        }
        assert(lit_sat(b, c[k] as int) == lit_sat(a, c[k] as int)) by {
            if c[k] > 0 {
                assert(c[k] as int != var_of(v));
            } else {
                assert(-(c[k] as int) != var_of(v)) by {
                    assert(c[k] as int != -(v as int) && c[k] != v);
                    if v > 0 {
                        assert(var_of(v) == v as int);
                    } else {
                        assert(var_of(v) == -(v as int));
                    }
                }
            }
        }
        assert(lit_sat(b, c[k] as int));
    }
}

/// A clause set with an empty clause holds under no interpretation: it is
/// unsatisfiable however the other clauses look.
pub proof fn lemma_has_empty_unsat(cs: Seq<Seq<isize>>)
    requires
        has_empty(cs),
    ensures
        forall|a: Interp| !formula_sat(a, cs),
        !satisfiable(cs),
{
    let i = choose|i: int| 0 <= i < cs.len() && (#[trigger] cs[i]).len() == 0;
    assert forall|a: Interp| !formula_sat(a, cs) by {
        assert(!clause_sat(a, cs[i]));
    }
}

/// A clause set with no clauses is satisfiable, by any assignment at all.
pub proof fn lemma_empty_formula_satisfiable(cs: Seq<Seq<isize>>)
    requires
        cs.len() == 0,
    ensures
        forall|a: Interp| formula_sat(a, cs),
        satisfiable(cs),
{
    let a: Interp = |v: int| true;
    assert(formula_sat(a, cs));
}

/// At a root node, with nothing assigned yet, a model of the node is
/// exactly a model of its clauses.
pub proof fn lemma_root_node_models(cs: Seq<Seq<isize>>)
    ensures
        forall|a: Interp| node_sat(a, Seq::<isize>::empty(), cs) == formula_sat(a, cs),
{
}

/// The literal `x` is forced by a unit clause of `cs`.
pub open spec fn is_unit_of(cs: Seq<Seq<isize>>, x: isize) -> bool {
    exists|i: int| 0 <= i < cs.len() && (#[trigger] cs[i]).len() == 1 && cs[i][0] == x
}

pub open spec fn distinct_seq(u: Seq<isize>) -> bool {
    forall|m: int, n: int| 0 <= m < n < u.len() ==> u[m] != u[n]
}

/// `u` is one propagation batch over `cs`: the unit-clause literals of
/// `cs`, each exactly once, in some order.
pub open spec fn propagated_batch(cs: Seq<Seq<isize>>, u: Seq<isize>) -> bool {
    &&& distinct_seq(u)
    &&& forall|m: int| 0 <= m < u.len() ==> is_unit_of(cs, #[trigger] u[m])
    &&& forall|x: isize| is_unit_of(cs, x) ==> u.contains(x)
}

/// The distinct unit literals of `cs` in first-occurrence order, those
/// already in `seen` skipped.
pub open spec fn batch_from(cs: Seq<Seq<isize>>, seen: Seq<isize>) -> Seq<isize>
    decreases cs.len(),
{
    if cs.len() == 0 {
        Seq::empty()
    } else if cs[0].len() == 1 && !seen.contains(cs[0][0]) {
        seq![cs[0][0]] + batch_from(cs.drop_first(), seen.push(cs[0][0]))
    } else {
        batch_from(cs.drop_first(), seen)
    }
}

/// The batch one propagation pass forces: each distinct unit literal of
/// `cs` exactly once, in first-occurrence order.
pub open spec fn prop_batch(cs: Seq<Seq<isize>>) -> Seq<isize> {
    batch_from(cs, Seq::empty())
}

/// The clause set after forcing each literal of `u` in turn.
pub open spec fn assign_fold(cs: Seq<Seq<isize>>, u: Seq<isize>) -> Seq<Seq<isize>>
    decreases u.len(),
{
    if u.len() == 0 {
        cs
    } else {
        assign_fold(assign_clauses(cs, u[0]), u.drop_first())
    }
}

/// The literal `x` stands in some clause.
pub open spec fn occurs_in(cs: Seq<Seq<isize>>, x: isize) -> bool {
    exists|i: int, j: int| 0 <= i < cs.len() && 0 <= j < cs[i].len() && #[trigger] cs[i][j] == x
}

/// Some literal of the clause stands on the trail.
pub open spec fn clause_hit(tr: Seq<isize>, c: Seq<isize>) -> bool {
    exists|i: int| 0 <= i < c.len() && tr.contains(#[trigger] c[i])
}

/// Every literal of `d` is a literal of `c`.
pub open spec fn sub_clause(d: Seq<isize>, c: Seq<isize>) -> bool {
    forall|i: int| 0 <= i < d.len() ==> c.contains(#[trigger] d[i])
}

/// Some literal of the batch `u` stands in the clause `c`.
pub open spec fn batch_covers(u: Seq<isize>, c: Seq<isize>) -> bool {
    exists|m: int| 0 <= m < u.len() && c.contains(#[trigger] u[m])
}

/// Some clause of `cs2` holds only literals of `c`.
pub open spec fn survives_into(cs2: Seq<Seq<isize>>, c: Seq<isize>) -> bool {
    exists|j: int| 0 <= j < cs2.len() && sub_clause(#[trigger] cs2[j], c)
}

/// Addition on a counter that sticks at the top of the type.
pub open spec fn sat_cap(c: usize, n: nat) -> usize {
    if c + n > usize::MAX {
        usize::MAX
    } else {
        (c + n) as usize
    }
}

/// The length of the shortest clause.
pub open spec fn min_len(cs: Seq<Seq<isize>>) -> nat
    recommends
        cs.len() > 0,
    decreases cs.len(),
{
    if cs.len() <= 1 {
        cs[0].len()
    } else {
        let m = min_len(cs.drop_first());
        if cs[0].len() <= m {
            cs[0].len()
        } else {
            m
        }
    }
}

/// How many clauses of length `w` hold the literal `x`.
pub open spec fn occ_count(cs: Seq<Seq<isize>>, w: nat, x: isize) -> nat
    decreases cs.len(),
{
    if cs.len() == 0 {
        0
    } else {
        (if cs[0].len() == w && cs[0].contains(x) {
            1nat
        } else {
            0nat
        }) + occ_count(cs.drop_first(), w, x)
    }
}

pub proof fn lemma_min_append(xs: Seq<Seq<isize>>, c: Seq<isize>)
    requires
        xs.len() > 0,
    ensures
        min_len(xs + seq![c]) == if c.len() < min_len(xs) {
            c.len()
        } else {
            min_len(xs)
        },
    decreases xs.len(),
{
    let s = xs + seq![c];
    assert(s[0] == xs[0]);
    if xs.len() == 1 {
        assert(s.drop_first() =~= seq![c]);
        assert(min_len(seq![c]) == c.len());
    } else {
        assert(s.drop_first() =~= xs.drop_first() + seq![c]);
        lemma_min_append(xs.drop_first(), c);
    }
}

/// The minimum is attained and bounds every clause length.
pub proof fn lemma_min_props(cs: Seq<Seq<isize>>)
    requires
        cs.len() > 0,
    ensures
        exists|i: int| 0 <= i < cs.len() && (#[trigger] cs[i]).len() == min_len(cs),
        forall|i: int| 0 <= i < cs.len() ==> min_len(cs) <= (#[trigger] cs[i]).len(),
    decreases cs.len(),
{
    if cs.len() == 1 {
        assert(cs[0].len() == min_len(cs));
    } else {
        lemma_min_props(cs.drop_first());
        let m = min_len(cs.drop_first());
        if cs[0].len() <= m {
            assert(cs[0].len() == min_len(cs));
            assert forall|i: int| 0 <= i < cs.len() implies min_len(cs) <= (
            #[trigger] cs[i]).len() by {
                if i > 0 {
                    assert(m <= cs.drop_first()[i - 1].len());
                }
            }
        } else {
            let j = choose|j: int|
                0 <= j < cs.drop_first().len() && (#[trigger] cs.drop_first()[j]).len() == m;
            assert(cs[j + 1].len() == m == min_len(cs));
            assert forall|i: int| 0 <= i < cs.len() implies min_len(cs) <= (
            #[trigger] cs[i]).len() by {
                if i > 0 {
                    assert(m <= cs.drop_first()[i - 1].len());
                }
            }
        }
    }
}

pub proof fn lemma_occ_append(xs: Seq<Seq<isize>>, c: Seq<isize>, w: nat, x: isize)
    ensures
        occ_count(xs + seq![c], w, x) == occ_count(xs, w, x) + (if c.len() == w && c.contains(x) {
            1nat
        } else {
            0nat
        }),
    decreases xs.len(),
{
    let s = xs + seq![c];
    if xs.len() == 0 {
        assert(s =~= seq![c]);
        assert(s.drop_first() =~= Seq::<Seq<isize>>::empty());
        assert(occ_count(Seq::<Seq<isize>>::empty(), w, x) == 0);
    } else {
        assert(s[0] == xs[0]);
        assert(s.drop_first() =~= xs.drop_first() + seq![c]);
        lemma_occ_append(xs.drop_first(), c, w, x);
    }
}

pub proof fn lemma_occ_le(cs: Seq<Seq<isize>>, w: nat, x: isize)
    ensures
        occ_count(cs, w, x) <= cs.len(),
    decreases cs.len(),
{
    if cs.len() > 0 {
        lemma_occ_le(cs.drop_first(), w, x);
    }
}

/// A positive tally names a clause of that length holding the literal.
pub proof fn lemma_occ_pos(cs: Seq<Seq<isize>>, w: nat, x: isize)
    requires
        occ_count(cs, w, x) > 0,
    ensures
        exists|i: int|
            0 <= i < cs.len() && (#[trigger] cs[i]).len() == w && cs[i].contains(x),
    decreases cs.len(),
{
    if cs[0].len() == w && cs[0].contains(x) {
    } else {
        lemma_occ_pos(cs.drop_first(), w, x);
        let i = choose|i: int|
            0 <= i < cs.drop_first().len() && (#[trigger] cs.drop_first()[i]).len() == w
                && cs.drop_first()[i].contains(x);
        assert(cs[i + 1] == cs.drop_first()[i]);
    }
}

/// A clause of the counted length holding the literal makes the tally
/// positive.
pub proof fn lemma_occ_witness(cs: Seq<Seq<isize>>, w: nat, x: isize, k: int)
    requires
        0 <= k < cs.len(),
        cs[k].len() == w,
        cs[k].contains(x),
    ensures
        occ_count(cs, w, x) > 0,
    decreases cs.len(),
{
    if k > 0 {
        assert(cs.drop_first()[k - 1] == cs[k]);
        lemma_occ_witness(cs.drop_first(), w, x, k - 1);
    }
}

/// A consistent, representable trail is satisfied by the interpretation
/// read off it.
pub proof fn lemma_of_trail_respects(tr: Seq<isize>)
    requires
        consistent(tr),
        valid_trail(tr),
    ensures
        respects(of_trail(tr), tr),
{
    let a = of_trail(tr);
    assert forall|i: int| 0 <= i < tr.len() implies lit_sat(a, (#[trigger] tr[i]) as int) by {
        let l = tr[i] as int;
        if l > 0 {
            assert(a(l)) by {
                assert(0 <= i < tr.len() && tr[i] as int == l);
            }
        } else {
            assert(!a(-l)) by {
                if a(-l) {
                    let j = choose|j: int| 0 <= j < tr.len() && (#[trigger] tr[j]) as int == -l;
                    assert(tr[j] as int == -(tr[i] as int));
                }
            }
        }
    }
}

} // verus!
