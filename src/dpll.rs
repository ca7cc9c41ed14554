use vstd::prelude::*;

use crate::clause::{lemma_assign_keeps_lits, lemma_assign_keeps_truth, lemma_assign_strikes_variable, lit_holds, Clause};
use crate::literal::Literal;
use crate::model::{truth, Model, TruthAssign};
use crate::propagation::{falsifying_next, is_run, unit_step, PropState};

verus! {

/// The total assignment `a` agrees with every value the partial model `m` holds.
pub open spec fn extends(a: Seq<bool>, m: Seq<TruthAssign>) -> bool {
    &&& a.len() == m.len()
    &&& forall|i: int|
        0 <= i < m.len() && #[trigger] m[i] != TruthAssign::Unassigned ==> m[i] == truth(a[i])
}

/// Every clause of `cs` holds under `a`.
pub open spec fn satisfies(a: Seq<bool>, cs: Seq<Clause>) -> bool {
    forall|j: int| 0 <= j < cs.len() ==> #[trigger] cs[j].holds(a)
}

/// Every variable of the model holds a value.
pub open spec fn total(m: Seq<TruthAssign>) -> bool {
    forall|i: int| 0 <= i < m.len() ==> #[trigger] m[i] != TruthAssign::Unassigned
}

/// The total assignment that a total model stands for.
pub open spec fn assignment_of(m: Seq<TruthAssign>) -> Seq<bool> {
    Seq::new(m.len(), |i: int| m[i] == TruthAssign::True)
}

/// Every literal of every clause names a variable below `n`.
pub open spec fn in_range(cs: Seq<Clause>, n: nat) -> bool {
    forall|j: int, k: int|
        0 <= j < cs.len() && 0 <= k < cs[j].lits().len() ==> (#[trigger] cs[j].lits()[k]).var() < n
}

/// The variable occurs in one of the clauses.
pub open spec fn occurs_in(cs: Seq<Clause>, v: int) -> bool {
    exists|j: int, k: int|
        0 <= j < cs.len() && 0 <= k < cs[j].lits().len() && (#[trigger] cs[j].lits()[k]).var() == v
}

/// Some total assignment over `n` variables satisfies every clause.
pub open spec fn satisfiable(cs: Seq<Clause>, n: nat) -> bool {
    exists|a: Seq<bool>| a.len() == n && satisfies(a, cs)
}

/// The live clauses mention only variables that the model leaves unassigned.
pub open spec fn open_vars_only(cs: Seq<Clause>, m: Seq<TruthAssign>) -> bool {
    forall|j: int, k: int|
        0 <= j < cs.len() && cs[j].live() && 0 <= k < cs[j].lits().len() ==> {
            &&& (#[trigger] cs[j].lits()[k]).var() < m.len()
            &&& m[cs[j].lits()[k].var() as int] == TruthAssign::Unassigned
        }
}

/// The number of unassigned variables of a model.
pub open spec fn unassigned_count(m: Seq<TruthAssign>) -> nat
    decreases m.len(),
{
    if m.len() == 0 {
        0
    } else {
        unassigned_count(m.drop_last()) + if m.last() == TruthAssign::Unassigned {
            1nat
        } else {
            0nat
        }
    }
}

proof fn lemma_count_update(m: Seq<TruthAssign>, i: int, t: TruthAssign)
    requires
        0 <= i < m.len(),
        m[i] == TruthAssign::Unassigned,
        t != TruthAssign::Unassigned,
    ensures
        unassigned_count(m.update(i, t)) + 1 == unassigned_count(m),
    decreases m.len(),
{
    let u = m.update(i, t);
    if i == m.len() - 1 {
        assert(u.drop_last() =~= m.drop_last());
    } else {
        assert(u.drop_last() =~= m.drop_last().update(i, t));
        lemma_count_update(m.drop_last(), i, t);
    }
}

/// The two sequences hold the same clauses, one for one.
pub open spec fn same_clauses(cs: Seq<Clause>, ds: Seq<Clause>) -> bool {
    cs.len() == ds.len() && forall|j: int| 0 <= j < cs.len() ==> (#[trigger] cs[j]).same(ds[j])
}

/// Copies of the clauses, one for one.
fn clone_all(clauses: &[Clause]) -> (r: Vec<Clause>)
    ensures
        r@.len() == clauses@.len(),
        forall|j: int| 0 <= j < clauses@.len() ==> (#[trigger] r@[j]).same(clauses@[j]),
{
    let mut r: Vec<Clause> = Vec::new();
    let mut i: usize = 0;
    while i < clauses.len()
        invariant
            i <= clauses@.len(),
            r@.len() == i,
            forall|j: int| 0 <= j < i ==> (#[trigger] r@[j]).same(clauses@[j]),
        decreases clauses@.len() - i,
    {
        r.push(clauses[i].clone());
        i = i + 1;
    }
    r
}

proof fn lemma_same_satisfies(cs: Seq<Clause>, ds: Seq<Clause>, a: Seq<bool>)
    requires
        cs.len() == ds.len(),
        forall|j: int| 0 <= j < cs.len() ==> (#[trigger] ds[j]).same(cs[j]),
    ensures
        satisfies(a, ds) == satisfies(a, cs),
{
    if satisfies(a, cs) {
        assert forall|j: int| 0 <= j < ds.len() implies #[trigger] ds[j].holds(a) by {
            assert(cs[j].holds(a));
        }
    }
    if satisfies(a, ds) {
        assert forall|j: int| 0 <= j < cs.len() implies #[trigger] cs[j].holds(a) by {
            assert(ds[j].holds(a));
        }
    }
}

proof fn lemma_assign_all_occurs(cs: Seq<Clause>, ds: Seq<Clause>, variable: usize, sign: bool)
    requires
        cs.len() == ds.len(),
        forall|j: int| 0 <= j < cs.len() ==> cs[j].assigns(#[trigger] ds[j], variable, sign),
    ensures
        forall|v: int| occurs_in(ds, v) ==> occurs_in(cs, v),
{
    assert forall|v: int| occurs_in(ds, v) implies occurs_in(cs, v) by {
        let (j, k) = choose|j: int, k: int|
            0 <= j < ds.len() && 0 <= k < ds[j].lits().len() && (#[trigger] ds[j].lits()[k]).var() == v;
        lemma_assign_keeps_lits(cs[j], ds[j], variable, sign);
        assert(cs[j].lits().contains(ds[j].lits()[k]));
        let i = choose|i: int| 0 <= i < cs[j].lits().len() && cs[j].lits()[i] == ds[j].lits()[k];
        assert(cs[j].lits()[i].var() == v);
    }
}

/// Changing a variable that no clause mentions keeps every clause's truth.
proof fn lemma_flip_free(a: Seq<bool>, cs: Seq<Clause>, v: int, b: bool)
    requires
        !occurs_in(cs, v),
        0 <= v < a.len(),
        satisfies(a, cs),
    ensures
        satisfies(a.update(v, b), cs),
{
    let a2 = a.update(v, b);
    assert forall|j: int| 0 <= j < cs.len() implies #[trigger] cs[j].holds(a2) by {
        assert(cs[j].holds(a));
        if !cs[j].deleted() {
            let k = choose|k: int| 0 <= k < cs[j].lits().len() && lit_holds(a, #[trigger] cs[j].lits()[k]);
            assert(cs[j].lits()[k].var() != v);
            assert(lit_holds(a2, cs[j].lits()[k]));
        }
    }
}

/// The model already holds the opposite of `sign` for `variable`.
pub open spec fn conflicts(m: Seq<TruthAssign>, variable: usize, sign: bool) -> bool {
    variable < m.len() && m[variable as int] == truth(!sign)
}

/// Applies `variable := sign` to every clause. Fails when the model holds the
/// opposite value, or when a clause becomes falsified.
fn apply_unit_rule(clauses: &[Clause], model: &Model, variable: usize, sign: bool) -> (r: Option<
    Vec<Clause>,
>)
    ensures
        conflicts(model@, variable, sign) ==> r.is_none(),
        r.is_none() <==> conflicts(model@, variable, sign) || exists|i: int|
            0 <= i < clauses@.len() && (#[trigger] clauses@[i]).falsified_by(variable, sign),
        r.is_none() ==> conflicts(model@, variable, sign) || forall|a: Seq<bool>|
            variable < a.len() && a[variable as int] == sign ==> !satisfies(a, clauses@),
        r matches Some(cs) ==> {
            &&& cs@.len() == clauses@.len()
            &&& forall|j: int|
                0 <= j < cs@.len() ==> clauses@[j].assigns(#[trigger] cs@[j], variable, sign)
            &&& forall|j: int| 0 <= j < cs@.len() ==> (#[trigger] cs@[j]).valid()
        },
{
    if model.has_assigned(variable) {
        match model.sign(variable) {
            Some(s) => {
                if s != sign {
                    return None;
                }
            },
            None => {},
        }
    }
    let mut out: Vec<Clause> = Vec::new();
    let mut i: usize = 0;
    while i < clauses.len()
        invariant
            i <= clauses@.len(),
            out@.len() == i,
            forall|j: int| 0 <= j < i ==> clauses@[j].assigns(#[trigger] out@[j], variable, sign),
            forall|j: int| 0 <= j < i ==> (#[trigger] out@[j]).valid(),
            forall|j: int| 0 <= j < i ==> !(#[trigger] clauses@[j]).falsified_by(variable, sign),
            !conflicts(model@, variable, sign),
        decreases clauses@.len() - i,
    {
        let mut c = clauses[i].clone();
        let ghost before = c;
        c.assign(variable, sign);
        proof {
            assert(clauses@[i as int].lits() == before.lits());
            assert(clauses@[i as int].without_opposite(variable, sign) == before.without_opposite(variable, sign));
        }
        if !c.is_valid() {
            proof {
                assert(clauses@[i as int].falsified_by(variable, sign));
                assert forall|a: Seq<bool>|
                    variable < a.len() && a[variable as int] == sign implies !satisfies(
                    a,
                    clauses@,
                ) by {
                    lemma_assign_keeps_truth(before, c, variable, sign, a);
                    assert(!clauses@[i as int].holds(a));
                }
            }
            return None;
        }
        out.push(c);
        i = i + 1;
    }
    Some(out)
}

/// Under an assignment that gives `variable` the value `sign`, the clauses
/// and what `variable := sign` makes of them have the same truth.
proof fn lemma_assign_all_keeps_truth(
    cs: Seq<Clause>,
    ds: Seq<Clause>,
    variable: usize,
    sign: bool,
    a: Seq<bool>,
)
    requires
        cs.len() == ds.len(),
        forall|j: int| 0 <= j < cs.len() ==> cs[j].assigns(#[trigger] ds[j], variable, sign),
        variable < a.len(),
        a[variable as int] == sign,
    ensures
        satisfies(a, ds) == satisfies(a, cs),
{
    assert forall|j: int| 0 <= j < cs.len() implies #[trigger] ds[j].holds(a) == cs[j].holds(a) by {
        lemma_assign_keeps_truth(cs[j], ds[j], variable, sign, a);
    }
    if satisfies(a, cs) {
        assert forall|j: int| 0 <= j < ds.len() implies #[trigger] ds[j].holds(a) by {
            assert(cs[j].holds(a));
        }
    }
    if satisfies(a, ds) {
        assert forall|j: int| 0 <= j < cs.len() implies #[trigger] cs[j].holds(a) by {
            assert(ds[j].holds(a));
        }
    }
}

/// After `variable := sign` lands in both the clauses and the model, the live
/// clauses still mention unassigned variables only.
proof fn lemma_assign_all_open_vars(
    cs: Seq<Clause>,
    ds: Seq<Clause>,
    m: Seq<TruthAssign>,
    variable: usize,
    sign: bool,
)
    requires
        cs.len() == ds.len(),
        forall|j: int| 0 <= j < cs.len() ==> cs[j].assigns(#[trigger] ds[j], variable, sign),
        open_vars_only(cs, m),
        variable < m.len(),
    ensures
        open_vars_only(ds, m.update(variable as int, truth(sign))),
{
    let m2 = m.update(variable as int, truth(sign));
    assert forall|j: int, k: int|
        0 <= j < ds.len() && ds[j].live() && 0 <= k < ds[j].lits().len() implies {
        &&& (#[trigger] ds[j].lits()[k]).var() < m2.len()
        &&& m2[ds[j].lits()[k].var() as int] == TruthAssign::Unassigned
    } by {
        lemma_assign_strikes_variable(cs[j], ds[j], variable, sign);
        assert(cs[j].lits().contains(ds[j].lits()[k]));
        let i = choose|i: int| 0 <= i < cs[j].lits().len() && cs[j].lits()[i] == ds[j].lits()[k];
        assert(cs[j].lits()[i].var() < m.len());
    }
}

/// The clause is live and holds exactly one literal.
pub open spec fn is_unit_clause(c: Clause) -> bool {
    c.live() && c.lits().len() == 1
}

/// The literal of the first unit clause, if there is one.
fn find_unit(clauses: &[Clause]) -> (r: Option<Literal>)
    ensures
        r.is_none() <==> forall|j: int| 0 <= j < clauses@.len() ==> !is_unit_clause(#[trigger] clauses@[j]),
        r matches Some(l) ==> exists|j: int|
            0 <= j < clauses@.len() && is_unit_clause(#[trigger] clauses@[j]) && clauses@[j].lits()[0] == l
                && forall|i: int| 0 <= i < j ==> !is_unit_clause(#[trigger] clauses@[i]),
{
    let mut i: usize = 0;
    while i < clauses.len()
        invariant
            i <= clauses@.len(),
            forall|j: int| 0 <= j < i ==> !is_unit_clause(#[trigger] clauses@[j]),
        decreases clauses@.len() - i,
    {
        if clauses[i].is_unit() {
            let l = *clauses[i].get(0).unwrap();
            return Some(l);
        }
        i = i + 1;
    }
    None
}

/// The index of the first live clause, if there is one.
pub open spec fn first_live(cs: Seq<Clause>, j: int) -> bool {
    0 <= j < cs.len() && cs[j].live() && forall|i: int| 0 <= i < j ==> !(#[trigger] cs[i]).live()
}

/// Chooses the variable to branch on: the first variable of the first live
/// clause; when no clause is live, the lowest unassigned variable. Returns
/// `None` when the first live clause is empty, or when no clause is live and
/// the model is total.
fn select_variable(num_variables: usize, clauses: &[Clause], model: &Model) -> (r: Option<usize>)
    requires
        model@.len() == num_variables,
        open_vars_only(clauses@, model@),
    ensures
        r matches Some(v) ==> v < num_variables && model@[v as int] == TruthAssign::Unassigned,
        r.is_none() ==> (exists|j: int|
            0 <= j < clauses@.len() && (#[trigger] clauses@[j]).live() && clauses@[j].lits().len() == 0)
            || ((forall|j: int| 0 <= j < clauses@.len() ==> !(#[trigger] clauses@[j]).live()) && total(
            model@,
        )),
        forall|j: int|
            first_live(clauses@, j) ==> r == if clauses@[j].lits().len() > 0 {
                Some(clauses@[j].lits()[0].var() as usize)
            } else {
                None::<usize>
            },
        (forall|j: int| 0 <= j < clauses@.len() ==> !(#[trigger] clauses@[j]).live()) ==> {
            &&& r.is_none() <==> total(model@)
            &&& r matches Some(v) ==> {
                &&& v < num_variables
                &&& model@[v as int] == TruthAssign::Unassigned
                &&& forall|i: int| 0 <= i < v ==> #[trigger] model@[i] != TruthAssign::Unassigned
            }
        },
{
    let mut j: usize = 0;
    while j < clauses.len()
        invariant
            j <= clauses@.len(),
            model@.len() == num_variables,
            open_vars_only(clauses@, model@),
            forall|i: int| 0 <= i < j ==> !(#[trigger] clauses@[i]).live(),
        decreases clauses@.len() - j,
    {
        if clauses[j].is_valid() && !clauses[j].has_deleted() {
            assert(first_live(clauses@, j as int));
            match clauses[j].get(0) {
                Some(l) => {
                    assert(clauses@[j as int].lits()[0] == *l);
                    return Some(l.variable());
                },
                None => {
                    return None;
                },
            }
        }
        j = j + 1;
    }
    assert forall|k: int| !#[trigger] first_live(clauses@, k) by {
        if 0 <= k < clauses@.len() {
            assert(!clauses@[k].live());
        }
    }
    let mut i: usize = 0;
    while i < num_variables
        invariant
            i <= num_variables,
            model@.len() == num_variables,
            forall|k: int| !#[trigger] first_live(clauses@, k),
            forall|k: int| 0 <= k < clauses@.len() ==> !(#[trigger] clauses@[k]).live(),
            forall|k: int| 0 <= k < i ==> #[trigger] model@[k] != TruthAssign::Unassigned,
        decreases num_variables - i,
    {
        if !model.has_assigned(i) {
            return Some(i);
        }
        i = i + 1;
    }
    None
}

/// A unit clause that holds forces its one literal.
proof fn lemma_unit_forces(cs: Seq<Clause>, j: int, a: Seq<bool>)
    requires
        0 <= j < cs.len(),
        is_unit_clause(cs[j]),
        satisfies(a, cs),
    ensures
        lit_holds(a, cs[j].lits()[0]),
{
    assert(cs[j].holds(a));
}

/// Giving an unassigned variable a value in the model, and applying the same
/// assignment to the clauses, keeps exactly the satisfying extensions that
/// give the variable that value.
proof fn lemma_extend_model(
    cs: Seq<Clause>,
    ds: Seq<Clause>,
    m: Seq<TruthAssign>,
    variable: usize,
    sign: bool,
    a: Seq<bool>,
)
    requires
        cs.len() == ds.len(),
        forall|j: int| 0 <= j < cs.len() ==> cs[j].assigns(#[trigger] ds[j], variable, sign),
        variable < m.len(),
        m[variable as int] == TruthAssign::Unassigned,
    ensures
        (extends(a, m.update(variable as int, truth(sign))) && satisfies(a, ds)) <==> (extends(
            a,
            m,
        ) && satisfies(a, cs) && a[variable as int] == sign),
{
    let m2 = m.update(variable as int, truth(sign));
    if extends(a, m2) {
        assert(m2[variable as int] == truth(sign));
        assert(a[variable as int] == sign);
        assert forall|i: int|
            0 <= i < m.len() && #[trigger] m[i] != TruthAssign::Unassigned implies m[i] == truth(
            a[i],
        ) by {
            assert(m2[i] == m[i]);
        }
        lemma_assign_all_keeps_truth(cs, ds, variable, sign, a);
    }
    if extends(a, m) && a.len() == m.len() && a[variable as int] == sign {
        assert forall|i: int|
            0 <= i < m2.len() && #[trigger] m2[i] != TruthAssign::Unassigned implies m2[i] == truth(
            a[i],
        ) by {
            if i != variable {
                assert(m2[i] == m[i]);
            }
        }
        lemma_assign_all_keeps_truth(cs, ds, variable, sign, a);
    }
}

/// Unit propagation: assigns the literal of a unit clause, in the model and in
/// every clause, until no unit clause is left. Fails when that falsifies a
/// clause. The result has exactly the satisfying extensions of the input.
fn simplify(clauses: &[Clause], model: &Model) -> (r: Option<(Vec<Clause>, Model)>)
    requires
        open_vars_only(clauses@, model@),
    ensures
        r.is_none() ==> forall|a: Seq<bool>| extends(a, model@) ==> !satisfies(a, clauses@),
        r.is_none() ==> exists|run: Seq<PropState>|
            #[trigger] is_run(run) && same_clauses(run[0].0, clauses@) && run[0].1 == model@
                && falsifying_next(run.last()),
        (forall|j: int| 0 <= j < clauses@.len() ==> (#[trigger] clauses@[j]).valid()) ==> (r matches Some(
            (cs, m),
        ) ==> forall|j: int| 0 <= j < cs@.len() ==> (#[trigger] cs@[j]).valid()),
        r matches Some((cs, m)) ==> {
            &&& m@.len() == model@.len()
            &&& forall|v: int| occurs_in(cs@, v) ==> occurs_in(clauses@, v)
            &&& forall|v: int|
                0 <= v < model@.len() && model@[v] == TruthAssign::Unassigned && !occurs_in(clauses@, v)
                    ==> #[trigger] m@[v] == TruthAssign::Unassigned
            &&& open_vars_only(cs@, m@)
            &&& unassigned_count(m@) <= unassigned_count(model@)
            &&& forall|j: int| 0 <= j < cs@.len() ==> !is_unit_clause(#[trigger] cs@[j])
            &&& forall|a: Seq<bool>|
                (extends(a, m@) && satisfies(a, cs@)) <==> (extends(a, model@) && satisfies(
                    a,
                    clauses@,
                ))
            &&& exists|run: Seq<PropState>| #[trigger] is_run(run) && same_clauses(run[0].0, clauses@) && run[0].1 == model@ && run.last() == (cs@, m@)
        },
{
    let mut cs = clone_all(clauses);
    let mut m = model.clone();
    assert forall|a: Seq<bool>| satisfies(a, cs@) == satisfies(a, clauses@) by {
        lemma_same_satisfies(clauses@, cs@, a);
    }
    assert forall|j: int| 0 <= j < cs@.len() && clauses@[j].valid() implies (#[trigger] cs@[j]).valid() by {
        assert(cs@[j].same(clauses@[j]));
    }
    assert forall|v: int| occurs_in(cs@, v) implies occurs_in(clauses@, v) by {
        let (j, k) = choose|j: int, k: int|
            0 <= j < cs@.len() && 0 <= k < cs@[j].lits().len() && (#[trigger] cs@[j].lits()[k]).var() == v;
        assert(cs@[j].same(clauses@[j]));
        assert(clauses@[j].lits()[k].var() == v);
    }
    let ghost mut run: Seq<PropState> = seq![(cs@, m@)];
    loop
        invariant
            is_run(run),
            same_clauses(run[0].0, clauses@),
            run[0].1 == model@,
            run.last() == (cs@, m@),
            (forall|j: int| 0 <= j < clauses@.len() ==> (#[trigger] clauses@[j]).valid()) ==> forall|j: int|
                0 <= j < cs@.len() ==> (#[trigger] cs@[j]).valid(),
            m@.len() == model@.len(),
            forall|v: int| occurs_in(cs@, v) ==> occurs_in(clauses@, v),
            forall|v: int|
                0 <= v < model@.len() && model@[v] == TruthAssign::Unassigned && !occurs_in(clauses@, v)
                    ==> #[trigger] m@[v] == TruthAssign::Unassigned,
            open_vars_only(cs@, m@),
            unassigned_count(m@) <= unassigned_count(model@),
            forall|a: Seq<bool>|
                (extends(a, m@) && satisfies(a, cs@)) <==> (extends(a, model@) && satisfies(
                    a,
                    clauses@,
                )),
        decreases unassigned_count(m@),
    {
        match find_unit(&cs) {
            None => {
                assert(is_run(run) && same_clauses(run[0].0, clauses@) && run[0].1 == model@ && run.last() == (cs@, m@));
                return Some((cs, m));
            },
            Some(l) => {
                let ghost j = choose|j: int|
                    0 <= j < cs@.len() && is_unit_clause(#[trigger] cs@[j]) && cs@[j].lits()[0] == l;
                assert(cs@[j].lits()[0] == l);
                let variable = l.variable();
                let sign = l.sign();
                match apply_unit_rule(&cs, &m, variable, sign) {
                    None => {
                        proof {
                            let k = choose|k: int| 0 <= k < cs@.len() && (#[trigger] cs@[k]).falsified_by(variable, sign);
                            assert(is_unit_clause(run.last().0[j]));
                            assert(run.last().0[k].falsified_by(variable, sign));
                            assert(falsifying_next(run.last()));
                            assert forall|a: Seq<bool>| extends(a, model@) implies !satisfies(
                                a,
                                clauses@,
                            ) by {
                                if satisfies(a, clauses@) {
                                    lemma_unit_forces(cs@, j, a);
                                }
                            }
                        }
                        return None;
                    },
                    Some(next) => {
                        let ghost m0 = m@;
                        let ghost cs0 = cs@;
                        proof {
                            lemma_assign_all_open_vars(cs0, next@, m0, variable, sign);
                            lemma_count_update(m0, variable as int, truth(sign));
                            lemma_assign_all_occurs(cs0, next@, variable, sign);
                            assert(cs0[j].lits()[0].var() == variable);
                            assert(occurs_in(cs0, variable as int));
                            assert forall|a: Seq<bool>|
                                (extends(a, m0.update(variable as int, truth(sign))) && satisfies(
                                    a,
                                    next@,
                                )) <==> (extends(a, m0) && satisfies(a, cs0)) by {
                                lemma_extend_model(cs0, next@, m0, variable, sign, a);
                                if extends(a, m0) && satisfies(a, cs0) {
                                    lemma_unit_forces(cs0, j, a);
                                }
                            }
                        }
                        let ghost before = (cs@, m@);
                        cs = next;
                        m.assign(variable, sign);
                        proof {
                            assert(is_unit_clause(before.0[j]));
                            assert(unit_step(before, (cs@, m@)));
                            let run2 = run.push((cs@, m@));
                            assert forall|i: int| 0 <= i < run2.len() - 1 implies unit_step(#[trigger] run2[i], run2[i + 1]) by {
                                if i < run.len() - 1 {
                                    assert(run2[i] == run[i] && run2[i + 1] == run[i + 1]);
                                } else {
                                    assert(run2[i] == before);
                                }
                            }
                            run = run2;
                        }
                    },
                }
            },
        }
    }
}

/// Every clause is satisfied.
fn all_satisfied(clauses: &[Clause]) -> (r: bool)
    ensures
        r == forall|j: int| 0 <= j < clauses@.len() ==> (#[trigger] clauses@[j]).valid() && clauses@[j].deleted(),
{
    let mut k: usize = 0;
    while k < clauses.len()
        invariant
            k <= clauses@.len(),
            forall|i: int| 0 <= i < k ==> (#[trigger] clauses@[i]).valid() && clauses@[i].deleted(),
        decreases clauses@.len() - k,
    {
        if !(clauses[k].is_valid() && clauses[k].has_deleted()) {
            return false;
        }
        k = k + 1;
    }
    true
}

/// The DPLL search from a partial model: unit propagation, then a branch on
/// the selected variable, `true` before `false`. Returns a total model that
/// extends `model` and satisfies every clause, or `None` when no extension of
/// `model` does.
fn solve_recursive(num_variables: usize, clauses: &[Clause], model: &Model) -> (r: Option<Model>)
    requires
        model@.len() == num_variables,
        open_vars_only(clauses@, model@),
    ensures
        r matches Some(m) ==> {
            &&& m@.len() == num_variables
            &&& total(m@)
            &&& extends(assignment_of(m@), model@)
            &&& satisfies(assignment_of(m@), clauses@)
            &&& forall|v: int|
                0 <= v < num_variables && model@[v] == TruthAssign::Unassigned && !occurs_in(clauses@, v)
                    ==> #[trigger] m@[v] == TruthAssign::True
        },
        r.is_none() ==> forall|a: Seq<bool>| extends(a, model@) ==> !satisfies(a, clauses@),
    decreases unassigned_count(model@),
{
    let (clauses2, model2) = match simplify(clauses, model) {
        Some(res) => res,
        None => {
            return None;
        },
    };
    match select_variable(num_variables, &clauses2, &model2) {
        Some(variable) => {
            let ghost cs = clauses2@;
            let ghost m = model2@;
            let mut sign = true;
            let mut round: usize = 0;
            while round < 2
                invariant
                    round <= 2,
                    sign == (round == 0),
                    cs == clauses2@,
                    m == model2@,
                    m.len() == num_variables,
                    variable < num_variables,
                    m[variable as int] == TruthAssign::Unassigned,
                    open_vars_only(cs, m),
                    unassigned_count(m) <= unassigned_count(model@),
                    forall|a: Seq<bool>|
                        (extends(a, m) && satisfies(a, cs)) <==> (extends(a, model@) && satisfies(
                            a,
                            clauses@,
                        )),
                    forall|a: Seq<bool>|
                        extends(a, m) && satisfies(a, cs) && a[variable as int] == true ==> round
                            == 0,
                    forall|v: int|
                        0 <= v < num_variables && model@[v] == TruthAssign::Unassigned && !occurs_in(clauses@, v)
                            ==> #[trigger] m[v] == TruthAssign::Unassigned && !occurs_in(cs, v),
                    forall|a: Seq<bool>|
                        extends(a, m) && satisfies(a, cs) && a[variable as int] == false ==> round
                            <= 1,
                decreases 2 - round,
            {
                match apply_unit_rule(&clauses2, &model2, variable, sign) {
                    Some(next) => {
                        let mut model3 = model2.clone();
                        model3.assign(variable, sign);
                        proof {
                            lemma_assign_all_open_vars(cs, next@, m, variable, sign);
                            lemma_count_update(m, variable as int, truth(sign));
                        }
                        match solve_recursive(num_variables, &next, &model3) {
                            Some(res) => {
                                proof {
                                    let a = assignment_of(res@);
                                    lemma_extend_model(cs, next@, m, variable, sign, a);
                                    lemma_assign_all_occurs(cs, next@, variable, sign);
                                    assert forall|v: int|
                                        0 <= v < num_variables && model@[v] == TruthAssign::Unassigned
                                            && !occurs_in(clauses@, v) implies #[trigger] res@[v]
                                        == TruthAssign::True by {
                                        assert(m[v] == TruthAssign::Unassigned && !occurs_in(cs, v));
                                        if v == variable {
                                            if !sign {
                                                let a2 = a.update(v, true);
                                                lemma_flip_free(a, cs, v, true);
                                                assert forall|i: int|
                                                    0 <= i < m.len() && #[trigger] m[i] != TruthAssign::Unassigned
                                                    implies m[i] == truth(a2[i]) by {
                                                    assert(a2[i] == a[i]);
                                                }
                                                assert(extends(a2, m));
                                            }
                                            assert(a[v] == true);
                                            assert(res@[v] != TruthAssign::Unassigned);
                                        } else {
                                            assert(model3@[v] == m[v]);
                                        }
                                    }
                                }
                                return Some(res);
                            },
                            None => {
                                proof {
                                    assert forall|a: Seq<bool>|
                                        extends(a, m) && satisfies(a, cs) implies a[variable as int]
                                        != sign by {
                                        lemma_extend_model(cs, next@, m, variable, sign, a);
                                    }
                                }
                            },
                        }
                    },
                    None => {},
                }
                sign = false;
                round = round + 1;
            }
            None
        },
        None => {
            if !all_satisfied(&clauses2) {
                proof {
                    assert forall|a: Seq<bool>| extends(a, model@) implies !satisfies(
                        a,
                        clauses@,
                    ) by {
                        if extends(a, model2@) && satisfies(a, clauses2@) {
                            let k = choose|k: int|
                                0 <= k < clauses2@.len() && !((#[trigger] clauses2@[k]).valid()
                                    && clauses2@[k].deleted());
                            assert(clauses2@[k].holds(a));
                            if clauses2@[k].valid() {
                                let j = choose|j: int|
                                    0 <= j < clauses2@.len() && (#[trigger] clauses2@[j]).live()
                                        && clauses2@[j].lits().len() == 0;
                                assert(clauses2@[j].holds(a));
                            }
                        }
                    }
                }
                return None;
            }
            proof {
                let a = assignment_of(model2@);
                assert(total(model2@)) by {
                    if clauses2@.len() > 0 {
                        assert(!clauses2@[0].live() || clauses2@[0].lits().len() != 0);
                    }
                    if exists|j: int|
                        0 <= j < clauses2@.len() && (#[trigger] clauses2@[j]).live()
                            && clauses2@[j].lits().len() == 0 {
                        let j = choose|j: int|
                            0 <= j < clauses2@.len() && (#[trigger] clauses2@[j]).live()
                                && clauses2@[j].lits().len() == 0;
                        assert(clauses2@[j].deleted());
                    }
                }
                assert forall|j: int| 0 <= j < clauses2@.len() implies #[trigger] clauses2@[j].holds(
                    a,
                ) by {
                    assert(clauses2@[j].valid() && clauses2@[j].deleted());
                }
                assert(extends(a, model2@));
                assert forall|v: int|
                    0 <= v < num_variables && model@[v] == TruthAssign::Unassigned && !occurs_in(clauses@, v)
                        implies #[trigger] model2@[v] == TruthAssign::True by {
                    assert(model2@[v] != TruthAssign::Unassigned);
                }
            }
            Some(model2)
        },
    }
}

/// With no clauses, every number of variables is satisfiable (so `DPLL::solve`
/// returns a model).
pub proof fn lemma_no_clauses_satisfiable(n: nat)
    ensures
        satisfiable(Seq::<Clause>::empty(), n),
{
    let a = Seq::new(n, |i: int| true);
    assert(a.len() == n && satisfies(a, Seq::<Clause>::empty()));
}

/// A clause with no literals that is not satisfied holds under no assignment,
/// so a formula that has one is unsatisfiable whatever the number of
/// variables (and `DPLL::solve` returns `None`).
pub proof fn lemma_empty_clause_unsatisfiable(cs: Seq<Clause>, j: int, n: nat)
    requires
        0 <= j < cs.len(),
        cs[j].lits().len() == 0,
        !cs[j].deleted(),
    ensures
        !satisfiable(cs, n),
{
    assert forall|a: Seq<bool>| a.len() == n implies !satisfies(a, cs) by {
        assert(!cs[j].holds(a));
    }
}

#[verifier::external_type_specification]
#[verifier::external_body]
pub struct ExInstant(std::time::Instant);

/// Relies on `Duration::default`: the zero duration.
#[verifier::external_body]
fn zero_duration() -> std::time::Duration {
    std::time::Duration::default()
}

/// Relies on `Instant::now`: reads the monotonic clock.
#[verifier::external_body]
fn clock_now() -> std::time::Instant {
    std::time::Instant::now()
}

/// Relies on `Instant::elapsed`: the time passed since `start`.
#[verifier::external_body]
fn elapsed_since(start: &std::time::Instant) -> std::time::Duration {
    start.elapsed()
}

/// The DPLL engine; it keeps the time its last search took.
#[derive(Debug)]
pub struct DPLL {
    time: std::time::Duration,
}

impl DPLL {
    pub fn new() -> DPLL {
        DPLL { time: zero_duration() }
    }

    /// Decides the clauses over the variables `0..num_variables`. Returns a
    /// total model that satisfies every clause exactly when some total
    /// assignment does, and `None` otherwise. A variable that no clause
    /// mentions is true in the model.
    pub fn solve(&mut self, num_variables: usize, clauses: &[Clause]) -> (r: Option<Model>)
        requires
            in_range(clauses@, num_variables as nat),
        ensures
            r.is_some() <==> satisfiable(clauses@, num_variables as nat),
            r matches Some(m) ==> {
                &&& m@.len() == num_variables
                &&& total(m@)
                &&& satisfies(assignment_of(m@), clauses@)
                &&& forall|v: int|
                    0 <= v < num_variables && !occurs_in(clauses@, v) ==> #[trigger] m@[v]
                        == TruthAssign::True
            },
    {
        let start = clock_now();
        let model = Model::new(num_variables);
        proof {
            assert forall|j: int, k: int|
                0 <= j < clauses@.len() && clauses@[j].live() && 0 <= k < clauses@[j].lits().len() implies {
                &&& (#[trigger] clauses@[j].lits()[k]).var() < model@.len()
                &&& model@[clauses@[j].lits()[k].var() as int] == TruthAssign::Unassigned
            } by {}
        }
        let result = solve_recursive(num_variables, clauses, &model);
        self.time = elapsed_since(&start);
        proof {
            if result.is_some() {
                assert(assignment_of(result->0@).len() == num_variables);
            } else {
                assert forall|a: Seq<bool>| a.len() == num_variables implies !satisfies(a, clauses@) by {
                    assert(extends(a, model@));
                }
            }
        }
        result
    }

    /// The duration that the last `solve` measured.
    pub closed spec fn last_time(&self) -> std::time::Duration {
        self.time
    }

    /// The time the last search took.
    pub fn time(&self) -> (r: std::time::Duration)
        ensures
            r == self.last_time(),
    {
        self.time
    }
}

} // verus!
