use vstd::prelude::*;

use crate::clause::{kept_by, Clause};
use crate::dpll::{is_unit_clause, open_vars_only};
use crate::literal::Literal;
use crate::model::{truth, TruthAssign};

verus! {

broadcast use crate::literal::lemma_var_fits;

/// A state of unit propagation: the clauses and the partial model.
pub type PropState = (Seq<Clause>, Seq<TruthAssign>);

/// The literal holds under the partial model.
pub open spec fn true_in(m: Seq<TruthAssign>, l: Literal) -> bool {
    l.var() < m.len() && m[l.var() as int] == truth(l.positive())
}

/// The literal's variable is in the model and unassigned.
pub open spec fn open_in(m: Seq<TruthAssign>) -> spec_fn(Literal) -> bool {
    |l: Literal| l.var() < m.len() && m[l.var() as int] == TruthAssign::Unassigned
}

/// `m2` keeps every value that `m1` holds.
pub open spec fn refines(m1: Seq<TruthAssign>, m2: Seq<TruthAssign>) -> bool {
    &&& m1.len() == m2.len()
    &&& forall|i: int| 0 <= i < m1.len() && #[trigger] m1[i] != TruthAssign::Unassigned ==> m2[i] == m1[i]
}

/// What the clause `c` is once the model `m` holds: a live clause with a true
/// literal is satisfied; otherwise its unassigned literals remain, in order,
/// and it is falsified when none does.
pub open spec fn reduces_to(c: Clause, m: Seq<TruthAssign>, d: Clause) -> bool {
    if !c.live() {
        d.same(c)
    } else if exists|i: int| 0 <= i < c.lits().len() && true_in(m, #[trigger] c.lits()[i]) {
        d.deleted() && d.valid() && d.lits().len() == 0
    } else {
        &&& !d.deleted()
        &&& d.lits() == c.lits().filter(open_in(m))
        &&& d.valid() == (d.lits().len() > 0)
    }
}

/// One step of unit propagation: the literal of a unit clause, on an
/// unassigned variable, is assigned in the model and in every clause.
pub open spec fn unit_step(s1: PropState, s2: PropState) -> bool {
    exists|j: int|
        0 <= j < s1.0.len() && #[trigger] is_unit_clause(s1.0[j]) && {
            let l = s1.0[j].lits()[0];
            &&& l.var() < s1.1.len()
            &&& s1.1[l.var() as int] == TruthAssign::Unassigned
            &&& s2.1 == s1.1.update(l.var() as int, truth(l.positive()))
            &&& s2.0.len() == s1.0.len()
            &&& forall|k: int| 0 <= k < s1.0.len() ==> s1.0[k].assigns(#[trigger] s2.0[k], l.var() as usize, l.positive())
        }
}

/// The next unit step falsifies a clause: some unit clause's literal is on an
/// unassigned variable, and assigning it leaves some clause falsified.
pub open spec fn falsifying_next(s: PropState) -> bool {
    exists|j: int|
        0 <= j < s.0.len() && #[trigger] is_unit_clause(s.0[j]) && {
            let l = s.0[j].lits()[0];
            &&& l.var() < s.1.len()
            &&& s.1[l.var() as int] == TruthAssign::Unassigned
            &&& exists|k: int| 0 <= k < s.0.len() && (#[trigger] s.0[k]).falsified_by(l.var() as usize, l.positive())
        }
}

/// A sequence of states, each one unit step after the one before.
pub open spec fn is_run(r: Seq<PropState>) -> bool {
    &&& r.len() >= 1
    &&& forall|i: int| 0 <= i < r.len() - 1 ==> unit_step(#[trigger] r[i], r[i + 1])
}

/// No unit clause is left and no clause is falsified.
pub open spec fn settled(s: PropState) -> bool {
    forall|j: int| 0 <= j < s.0.len() ==> !is_unit_clause(#[trigger] s.0[j]) && s.0[j].valid()
}

proof fn lemma_filter_twice(s: Seq<Literal>, p: spec_fn(Literal) -> bool, q: spec_fn(Literal) -> bool, r: spec_fn(Literal) -> bool)
    requires
        forall|i: int| 0 <= i < s.len() ==> r(#[trigger] s[i]) == (p(s[i]) && q(s[i])),
    ensures
        s.filter(p).filter(q) == s.filter(r),
    decreases s.len(),
{
    if s.len() == 0 {
        assert(s.filter(p) =~= Seq::<Literal>::empty());
        assert(s.filter(r) =~= Seq::<Literal>::empty());
        assert(s.filter(p).filter(q) =~= Seq::<Literal>::empty());
    } else {
        let t = s.drop_last();
        let x = s.last();
        assert(s =~= t.push(x));
        assert forall|i: int| 0 <= i < t.len() implies r(#[trigger] t[i]) == (p(t[i]) && q(t[i])) by {
            assert(t[i] == s[i]);
        }
        lemma_filter_twice(t, p, q, r);
        t.lemma_filter_push(x, p);
        t.lemma_filter_push(x, r);
        t.filter(p).lemma_filter_push(x, q);
        assert(r(s[s.len() - 1]) == (p(x) && q(x)));
    }
}

proof fn lemma_filter_keeps_all(s: Seq<Literal>, p: spec_fn(Literal) -> bool)
    requires
        forall|i: int| 0 <= i < s.len() ==> p(#[trigger] s[i]),
    ensures
        s.filter(p) == s,
    decreases s.len(),
{
    if s.len() == 0 {
        assert(s.filter(p) =~= s);
    } else {
        let t = s.drop_last();
        assert(s =~= t.push(s.last()));
        assert forall|i: int| 0 <= i < t.len() implies p(#[trigger] t[i]) by {
            assert(t[i] == s[i]);
        }
        lemma_filter_keeps_all(t, p);
        t.lemma_filter_push(s.last(), p);
        assert(p(s[s.len() - 1]));
    }
}

proof fn lemma_filter_drops_all(s: Seq<Literal>, p: spec_fn(Literal) -> bool)
    requires
        forall|i: int| 0 <= i < s.len() ==> !p(#[trigger] s[i]),
    ensures
        s.filter(p).len() == 0,
    decreases s.len(),
{
    if s.len() == 0 {
        assert(s.filter(p) =~= Seq::<Literal>::empty());
    } else {
        let t = s.drop_last();
        assert(s =~= t.push(s.last()));
        assert forall|i: int| 0 <= i < t.len() implies !p(#[trigger] t[i]) by {
            assert(t[i] == s[i]);
        }
        lemma_filter_drops_all(t, p);
        t.lemma_filter_push(s.last(), p);
        assert(!p(s[s.len() - 1]));
    }
}

/// One more assignment of an unassigned variable keeps each clause at what
/// the larger model makes of it.
proof fn lemma_reduce_step(c: Clause, m: Seq<TruthAssign>, d: Clause, variable: usize, sign: bool, d2: Clause)
    requires
        reduces_to(c, m, d),
        variable < m.len(),
        m[variable as int] == TruthAssign::Unassigned,
        d.assigns(d2, variable, sign),
        c.live() ==> forall|i: int| 0 <= i < c.lits().len() ==> (#[trigger] c.lits()[i]).var() < m.len(),
    ensures
        reduces_to(c, m.update(variable as int, truth(sign)), d2),
{
    broadcast use vstd::seq_lib::group_filter_ensures;

    let m2 = m.update(variable as int, truth(sign));
    if !c.live() {
    } else if exists|i: int| 0 <= i < c.lits().len() && true_in(m, #[trigger] c.lits()[i]) {
        let i = choose|i: int| 0 <= i < c.lits().len() && true_in(m, #[trigger] c.lits()[i]);
        assert(true_in(m2, c.lits()[i]));
    } else {
        let rem = c.lits().filter(open_in(m));
        assert forall|i: int| 0 <= i < c.lits().len() && !open_in(m)(#[trigger] c.lits()[i]) implies !true_in(m2, c.lits()[i]) && !open_in(m2)(c.lits()[i]) by {
            assert(!true_in(m, c.lits()[i]));
            assert(c.lits()[i].var() != variable);
        }
        if rem.len() == 0 {
            assert forall|i: int| 0 <= i < c.lits().len() implies !open_in(m)(#[trigger] c.lits()[i]) by {
                if open_in(m)(c.lits()[i]) {
                    assert(rem.contains(c.lits()[i]));
                }
            }
            assert(!exists|i: int| 0 <= i < c.lits().len() && true_in(m2, #[trigger] c.lits()[i]));
            assert forall|i: int| 0 <= i < c.lits().len() implies !open_in(m2)(#[trigger] c.lits()[i]) by {}
            lemma_filter_drops_all(c.lits(), open_in(m2));
            assert(c.lits().filter(open_in(m2)) =~= d2.lits());
        } else if d.has_lit(variable, sign) {
            let k = choose|k: int| 0 <= k < d.lits().len() && crate::clause::is_lit(#[trigger] d.lits()[k], variable, sign);
            assert(rem.contains(d.lits()[k]));
            c.lits().lemma_filter_contains_rev(open_in(m), d.lits()[k]);
            let i = choose|i: int| 0 <= i < c.lits().len() && c.lits()[i] == d.lits()[k];
            assert(true_in(m2, c.lits()[i]));
        } else {
            assert forall|i: int| 0 <= i < c.lits().len() implies !true_in(m2, #[trigger] c.lits()[i]) by {
                if true_in(m2, c.lits()[i]) && open_in(m)(c.lits()[i]) {
                    assert(c.lits().filter(open_in(m)).contains(c.lits()[i]));
                    let k = choose|k: int| 0 <= k < rem.len() && rem[k] == c.lits()[i];
                    assert(crate::clause::is_lit(d.lits()[k], variable, sign));
                }
            }
            let q = kept_by(variable, sign);
            assert forall|i: int| 0 <= i < c.lits().len() implies open_in(m2)(#[trigger] c.lits()[i]) == (open_in(m)(c.lits()[i]) && q(c.lits()[i])) by {
                if open_in(m)(c.lits()[i]) && c.lits()[i].var() == variable && c.lits()[i].positive() == sign {
                    assert(true_in(m2, c.lits()[i]));
                }
            }
            lemma_filter_twice(c.lits(), open_in(m), q, open_in(m2));
        }
    }
}

/// A state to start propagation from: live clauses mention only unassigned
/// variables, and none of them is empty.
pub open spec fn start_ok(s: PropState) -> bool {
    &&& open_vars_only(s.0, s.1)
    &&& forall|j: int| 0 <= j < s.0.len() && (#[trigger] s.0[j]).live() ==> s.0[j].lits().len() > 0
}

/// Along a run, each clause is what the current model makes of the clause it
/// started as.
proof fn lemma_run_reduces(r: Seq<PropState>, i: int)
    requires
        is_run(r),
        start_ok(r[0]),
        0 <= i < r.len(),
    ensures
        refines(r[0].1, r[i].1),
        r[i].0.len() == r[0].0.len(),
        forall|j: int| 0 <= j < r[0].0.len() ==> reduces_to(r[0].0[j], r[i].1, #[trigger] r[i].0[j]),
    decreases i,
{
    broadcast use vstd::seq_lib::group_filter_ensures;

    let cs = r[0].0;
    let m = r[0].1;
    if i == 0 {
        assert forall|j: int| 0 <= j < cs.len() implies reduces_to(cs[j], m, #[trigger] r[0].0[j]) by {
            let c = cs[j];
            if c.live() {
                assert forall|k: int| 0 <= k < c.lits().len() implies open_in(m)(#[trigger] c.lits()[k]) by {
                    assert(c.lits()[k].var() < m.len());
                }
                assert(!exists|k: int| 0 <= k < c.lits().len() && true_in(m, #[trigger] c.lits()[k]));
                lemma_filter_keeps_all(c.lits(), open_in(m));
            }
        }
    } else {
        lemma_run_reduces(r, i - 1);
        let prev = r[i - 1];
        assert(unit_step(r[i - 1], r[i]));
        let j0 = choose|j: int|
            0 <= j < prev.0.len() && #[trigger] is_unit_clause(prev.0[j]) && {
                let l = prev.0[j].lits()[0];
                &&& l.var() < prev.1.len()
                &&& prev.1[l.var() as int] == TruthAssign::Unassigned
                &&& r[i].1 == prev.1.update(l.var() as int, truth(l.positive()))
                &&& r[i].0.len() == prev.0.len()
                &&& forall|k: int| 0 <= k < prev.0.len() ==> prev.0[k].assigns(#[trigger] r[i].0[k], l.var() as usize, l.positive())
            };
        let l = prev.0[j0].lits()[0];
        assert forall|j: int| 0 <= j < cs.len() implies reduces_to(cs[j], r[i].1, #[trigger] r[i].0[j]) by {
            assert(reduces_to(cs[j], prev.1, prev.0[j]));
            assert forall|k: int| cs[j].live() && 0 <= k < cs[j].lits().len() implies (#[trigger] cs[j].lits()[k]).var() < prev.1.len() by {}
            lemma_reduce_step(cs[j], prev.1, prev.0[j], l.var() as usize, l.positive(), r[i].0[j]);
        }
    }
}

/// Every value that one run assigns, a settled run from the same start
/// assigns too.
proof fn lemma_run_below_settled(r1: Seq<PropState>, i: int, r2: Seq<PropState>)
    requires
        is_run(r1),
        is_run(r2),
        r1[0] == r2[0],
        start_ok(r1[0]),
        settled(r2.last()),
        0 <= i < r1.len(),
    ensures
        refines(r1[i].1, r2.last().1),
    decreases i,
{
    broadcast use vstd::seq_lib::group_filter_ensures;

    let cs = r1[0].0;
    let b = r2.last().1;
    lemma_run_reduces(r2, r2.len() - 1);
    if i > 0 {
        lemma_run_below_settled(r1, i - 1, r2);
        lemma_run_reduces(r1, i - 1);
        let prev = r1[i - 1];
        let m = prev.1;
        assert(unit_step(r1[i - 1], r1[i]));
        let j0 = choose|j: int|
            0 <= j < prev.0.len() && #[trigger] is_unit_clause(prev.0[j]) && {
                let l = prev.0[j].lits()[0];
                &&& l.var() < prev.1.len()
                &&& prev.1[l.var() as int] == TruthAssign::Unassigned
                &&& r1[i].1 == prev.1.update(l.var() as int, truth(l.positive()))
                &&& r1[i].0.len() == prev.0.len()
                &&& forall|k: int| 0 <= k < prev.0.len() ==> prev.0[k].assigns(#[trigger] r1[i].0[k], l.var() as usize, l.positive())
            };
        let l = prev.0[j0].lits()[0];
        let c = cs[j0];
        let d = prev.0[j0];
        let db = r2.last().0[j0];
        assert(reduces_to(c, m, d));
        assert(reduces_to(c, b, db));
        assert(c.live());
        let rem = c.lits().filter(open_in(m));
        assert(!exists|k: int| 0 <= k < c.lits().len() && true_in(m, #[trigger] c.lits()[k]));
        assert(d.lits() == rem);
        assert(rem.len() == 1 && rem[0] == l);
        // The literals of `c` other than `l` are false under `m`, hence under `b`.
        assert forall|k: int| 0 <= k < c.lits().len() && c.lits()[k] != l implies !true_in(b, #[trigger] c.lits()[k]) && !open_in(b)(c.lits()[k]) by {
            let x = c.lits()[k];
            if open_in(m)(x) {
                assert(rem.contains(x));
            }
            assert(!true_in(m, x));
            assert(m[x.var() as int] != TruthAssign::Unassigned);
            assert(b[x.var() as int] == m[x.var() as int]);
        }
        if !true_in(b, l) {
            assert(!exists|k: int| 0 <= k < c.lits().len() && true_in(b, #[trigger] c.lits()[k]));
            let remb = c.lits().filter(open_in(b));
            assert forall|k: int| 0 <= k < c.lits().len() implies open_in(b)(#[trigger] c.lits()[k]) == (open_in(m)(c.lits()[k]) && open_in(b)(c.lits()[k])) by {
                let x = c.lits()[k];
                if open_in(b)(x) && !open_in(m)(x) {
                    assert(b[x.var() as int] == m[x.var() as int]);
                }
            }
            lemma_filter_twice(c.lits(), open_in(m), open_in(b), open_in(b));
            assert(remb.len() <= 1);
            assert(db.valid());
            assert(!is_unit_clause(db));
        }
        assert(true_in(b, l));
        let m2 = r1[i].1;
        assert forall|k: int| 0 <= k < m2.len() && #[trigger] m2[k] != TruthAssign::Unassigned implies b[k] == m2[k] by {
            if k != l.var() {
                assert(m2[k] == m[k]);
            }
        }
    }
}

/// Confluence of unit propagation: two runs from the same start that both end
/// with no unit clause and no falsified clause end with the same model and
/// the same clauses, whatever order they assigned the unit literals in.
pub proof fn lemma_propagation_confluent(r1: Seq<PropState>, r2: Seq<PropState>)
    requires
        is_run(r1),
        is_run(r2),
        r1[0] == r2[0],
        start_ok(r1[0]),
        settled(r1.last()),
        settled(r2.last()),
    ensures
        r1.last().1 == r2.last().1,
        r1.last().0.len() == r2.last().0.len(),
        forall|j: int| 0 <= j < r1.last().0.len() ==> (#[trigger] r1.last().0[j]).same(r2.last().0[j]),
{
    let a = r1.last().1;
    let b = r2.last().1;
    lemma_run_below_settled(r1, r1.len() - 1, r2);
    lemma_run_below_settled(r2, r2.len() - 1, r1);
    assert forall|i: int| 0 <= i < a.len() implies a[i] == b[i] by {
        if a[i] == TruthAssign::Unassigned && b[i] != TruthAssign::Unassigned {
            assert(a[i] == b[i]);
        }
    }
    assert(a =~= b);
    lemma_run_reduces(r1, r1.len() - 1);
    lemma_run_reduces(r2, r2.len() - 1);
    assert forall|j: int| 0 <= j < r1.last().0.len() implies (#[trigger] r1.last().0[j]).same(r2.last().0[j]) by {
        assert(reduces_to(r1[0].0[j], a, r1.last().0[j]));
        assert(reduces_to(r1[0].0[j], a, r2.last().0[j]));
        assert(r1.last().0[j].lits() =~= r2.last().0[j].lits());
    }
}

} // verus!
