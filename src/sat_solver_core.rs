use vstd::prelude::*;

use std::collections::HashSet;

verus! {

broadcast use vstd::std_specs::hash::group_hash_axioms;

/// The literal of the opposite sign.
pub open spec fn neg(l: i32) -> i32 {
    (-l) as i32
}

/// A literal names the variable `|l|`; it is positive or negative, never 0,
/// and its negation fits an `i32`.
pub open spec fn proper_lit(l: i32) -> bool {
    l != 0 && l != i32::MIN
}

/// Whether the literal `l` holds when variable `v` has the value `a(v)`.
pub open spec fn lit_true(a: spec_fn(int) -> bool, l: i32) -> bool {
    if l > 0 {
        a(l as int)
    } else {
        !a(-(l as int))
    }
}

/// Some literal of the clause holds under `a`.
pub open spec fn clause_true(a: spec_fn(int) -> bool, c: Seq<i32>) -> bool {
    exists|k: int| 0 <= k < c.len() && lit_true(a, #[trigger] c[k])
}

/// Every clause holds under `a`.
pub open spec fn all_true(a: spec_fn(int) -> bool, cs: Seq<Vec<i32>>) -> bool {
    forall|j: int| 0 <= j < cs.len() ==> clause_true(a, #[trigger] cs[j]@)
}

/// Every literal of the model holds under `a`.
pub open spec fn consistent(a: spec_fn(int) -> bool, s: Set<i32>) -> bool {
    forall|l: i32| s.contains(l) ==> lit_true(a, l)
}

/// Every literal of every clause is proper.
pub open spec fn proper_clauses(cs: Seq<Vec<i32>>) -> bool {
    forall|j: int, k: int| 0 <= j < cs.len() && 0 <= k < cs[j]@.len() ==> proper_lit(#[trigger] cs[j]@[k])
}

/// The model holds proper literals, never a literal together with its negation.
pub open spec fn proper_model(s: Set<i32>) -> bool {
    forall|l: i32| #[trigger] s.contains(l) ==> proper_lit(l) && !s.contains(neg(l))
}

/// `l` occurs in one of the clauses.
pub open spec fn occurs(cs: Seq<Vec<i32>>, l: i32) -> bool {
    exists|j: int, k: int| 0 <= j < cs.len() && 0 <= k < cs[j]@.len() && #[trigger] cs[j]@[k] == l
}

proof fn lemma_neg(a: spec_fn(int) -> bool, l: i32)
    requires
        proper_lit(l),
    ensures
        proper_lit(neg(l)),
        neg(neg(l)) == l,
        lit_true(a, neg(l)) == !lit_true(a, l),
{
}

/// The clause holds a literal of the model.
pub open spec fn meets(c: Seq<i32>, s: Set<i32>) -> bool {
    exists|k: int| 0 <= k < c.len() && s.contains(#[trigger] c[k])
}

/// The clause holds a literal of the model.
fn has_true_literal(model: &HashSet<i32>, clause: &Vec<i32>) -> (r: bool)
    ensures
        r == meets(clause@, model@),
{
    let mut k: usize = 0;
    while k < clause.len()
        invariant
            k <= clause@.len(),
            forall|i: int| 0 <= i < k ==> !model@.contains(#[trigger] clause@[i]),
        decreases clause@.len() - k,
    {
        if model.contains(&clause[k]) {
            return true;
        }
        k = k + 1;
    }
    false
}

/// `d` is `c` with the literals struck out whose negation the model holds.
#[verifier::opaque]
pub open spec fn stripped(d: Seq<i32>, c: Seq<i32>, s: Set<i32>) -> bool {
    &&& forall|k: int| 0 <= k < d.len() ==> c.contains(#[trigger] d[k]) && !s.contains(neg(d[k]))
    &&& forall|k: int| 0 <= k < c.len() && !s.contains(neg(#[trigger] c[k])) ==> d.contains(c[k])
}

/// The clause without the literals that the model makes false.
fn strip_false_literals(model: &HashSet<i32>, clause: &Vec<i32>) -> (r: Vec<i32>)
    requires
        forall|k: int| 0 <= k < clause@.len() ==> proper_lit(#[trigger] clause@[k]),
    ensures
        stripped(r@, clause@, model@),
{
    let mut r: Vec<i32> = Vec::new();
    let mut k: usize = 0;
    while k < clause.len()
        invariant
            k <= clause@.len(),
            forall|i: int| 0 <= i < clause@.len() ==> proper_lit(#[trigger] clause@[i]),
            forall|i: int| 0 <= i < r@.len() ==> clause@.contains(#[trigger] r@[i]) && !model@.contains(neg(r@[i])),
            forall|i: int| 0 <= i < k && !model@.contains(neg(#[trigger] clause@[i])) ==> r@.contains(clause@[i]),
        decreases clause@.len() - k,
    {
        let l = clause[k];
        if !model.contains(&(-l)) {
            let ghost old_r = r@;
            r.push(l);
            assert(r@[r@.len() - 1] == l);
            assert forall|x: i32| old_r.contains(x) implies r@.contains(x) by {
                let j = choose|j: int| 0 <= j < old_r.len() && old_r[j] == x;
                assert(r@[j] == x);
            }
        }
        k = k + 1;
    }
    proof {
        reveal(stripped);
    }
    r
}

proof fn lemma_stripped_truth(a: spec_fn(int) -> bool, d: Seq<i32>, c: Seq<i32>, s: Set<i32>)
    requires
        stripped(d, c, s),
        consistent(a, s),
        forall|k: int| 0 <= k < c.len() ==> proper_lit(#[trigger] c[k]),
    ensures
        clause_true(a, d) == clause_true(a, c),
{
    reveal(stripped);
    if clause_true(a, d) {
        let k = choose|k: int| 0 <= k < d.len() && lit_true(a, #[trigger] d[k]);
        assert(c.contains(d[k]));
    }
    if clause_true(a, c) {
        let k = choose|k: int| 0 <= k < c.len() && lit_true(a, #[trigger] c[k]);
        lemma_neg(a, c[k]);
        if s.contains(neg(c[k])) {
            assert(lit_true(a, neg(c[k])));
        }
        assert(d.contains(c[k]));
    }
}

proof fn lemma_all_true_push(a: spec_fn(int) -> bool, cs: Seq<Vec<i32>>, c: Vec<i32>)
    ensures
        all_true(a, cs.push(c)) == (all_true(a, cs) && clause_true(a, c@)),
{
    let ds = cs.push(c);
    if all_true(a, ds) {
        assert forall|j: int| 0 <= j < cs.len() implies clause_true(a, #[trigger] cs[j]@) by {
            assert(ds[j] == cs[j]);
        }
        assert(ds[cs.len() as int] == c);
    }
    if all_true(a, cs) && clause_true(a, c@) {
        assert forall|j: int| 0 <= j < ds.len() implies clause_true(a, #[trigger] ds[j]@) by {
            if j < cs.len() {
                assert(ds[j] == cs[j]);
            }
        }
    }
}

/// No literal of the clauses, nor its negation, is in the model.
pub open spec fn untouched(cs: Seq<Vec<i32>>, s: Set<i32>) -> bool {
    forall|j: int, k: int|
        0 <= j < cs.len() && 0 <= k < cs[j]@.len() ==> !s.contains(#[trigger] cs[j]@[k]) && !s.contains(
            neg(cs[j]@[k]),
        )
}

/// Every clause is nonempty and untouched by the model: what unit
/// propagation leaves once it has assigned something.
pub open spec fn reduced(cs: Seq<Vec<i32>>, s: Set<i32>) -> bool {
    &&& forall|j: int| 0 <= j < cs.len() ==> (#[trigger] cs[j])@.len() > 0
    &&& untouched(cs, s)
}

/// Drops the clauses that hold a literal of the model and strikes from the
/// others the literals whose negation the model holds.
fn reduce_clauses(clauses: &Vec<Vec<i32>>, model: &HashSet<i32>) -> (r: Vec<Vec<i32>>)
    requires
        proper_clauses(clauses@),
    ensures
        r@.len() <= clauses@.len(),
        (exists|j: int| 0 <= j < clauses@.len() && meets(#[trigger] clauses@[j]@, model@)) ==> r@.len()
            < clauses@.len(),
        proper_clauses(r@),
        forall|l: i32| occurs(r@, l) ==> occurs(clauses@, l),
        forall|a: spec_fn(int) -> bool|
            consistent(a, model@) ==> (all_true(a, r@) == all_true(a, clauses@)),
        untouched(r@, model@),
{
    let mut r: Vec<Vec<i32>> = Vec::new();
    let mut i: usize = 0;
    let ghost mut dropped: bool = false;
    while i < clauses.len()
        invariant
            i <= clauses@.len(),
            proper_clauses(clauses@),
            r@.len() <= i,
            dropped ==> r@.len() < i,
            (exists|j: int| 0 <= j < i && meets(#[trigger] clauses@[j]@, model@)) ==> dropped,
            proper_clauses(r@),
            untouched(r@, model@),
            forall|l: i32| occurs(r@, l) ==> occurs(clauses@, l),
            forall|a: spec_fn(int) -> bool|
                consistent(a, model@) ==> (all_true(a, r@) == all_true(a, clauses@.take(i as int))),
        decreases clauses@.len() - i,
    {
        let ghost ci = clauses@[i as int];
        let ghost prefix = clauses@.take(i as int);
        assert(clauses@.take(i + 1) =~= prefix.push(ci));
        if has_true_literal(model, &clauses[i]) {
            proof {
                dropped = true;
                assert forall|a: spec_fn(int) -> bool| consistent(a, model@) implies (all_true(a, r@) == all_true(a, clauses@.take(i + 1))) by {
                    lemma_all_true_push(a, prefix, ci);
                    let k = choose|k: int| 0 <= k < ci@.len() && model@.contains(#[trigger] ci@[k]);
                    assert(lit_true(a, ci@[k]));
                }
            }
        } else {
            assert forall|k: int| 0 <= k < ci@.len() implies proper_lit(#[trigger] ci@[k]) by {
                assert(proper_lit(clauses@[i as int]@[k]));
            }
            let d = strip_false_literals(model, &clauses[i]);
            let ghost old_r = r@;
            r.push(d);
            proof {
                assert(r@ =~= old_r.push(d));
                reveal(stripped);
                assert forall|j: int, k: int| 0 <= j < r@.len() && 0 <= k < r@[j]@.len() implies proper_lit(#[trigger] r@[j]@[k]) by {
                    if j < old_r.len() {
                        assert(old_r[j]@[k] == r@[j]@[k]);
                    } else {
                        assert(ci@.contains(d@[k]));
                    }
                }
                assert forall|j: int, k: int| 0 <= j < r@.len() && 0 <= k < r@[j]@.len() implies !model@.contains(#[trigger] r@[j]@[k]) && !model@.contains(neg(r@[j]@[k])) by {
                    if j < old_r.len() {
                        assert(old_r[j]@[k] == r@[j]@[k]);
                    } else {
                        assert(ci@.contains(d@[k]));
                        let kk = choose|kk: int| 0 <= kk < ci@.len() && ci@[kk] == d@[k];
                        assert(!model@.contains(ci@[kk]));
                    }
                }
                assert forall|l: i32| occurs(r@, l) implies occurs(clauses@, l) by {
                    let (j, k) = choose|j: int, k: int| 0 <= j < r@.len() && 0 <= k < r@[j]@.len() && #[trigger] r@[j]@[k] == l;
                    if j < old_r.len() {
                        assert(old_r[j]@[k] == l);
                    } else {
                        assert(ci@.contains(d@[k]));
                        let kk = choose|kk: int| 0 <= kk < ci@.len() && ci@[kk] == l;
                        assert(clauses@[i as int]@[kk] == l);
                    }
                }
                assert forall|a: spec_fn(int) -> bool| consistent(a, model@) implies (all_true(a, r@) == all_true(a, clauses@.take(i + 1))) by {
                    lemma_all_true_push(a, prefix, ci);
                    lemma_all_true_push(a, old_r, d);
                    lemma_stripped_truth(a, d@, ci@, model@);
                }
            }
        }
        i = i + 1;
    }
    assert(clauses@.take(clauses@.len() as int) =~= clauses@);
    r
}

/// Some clause is empty.
fn has_empty_clause(clauses: &Vec<Vec<i32>>) -> (r: bool)
    ensures
        r == exists|j: int| 0 <= j < clauses@.len() && (#[trigger] clauses@[j])@.len() == 0,
{
    let mut k: usize = 0;
    while k < clauses.len()
        invariant
            k <= clauses@.len(),
            forall|j: int| 0 <= j < k ==> (#[trigger] clauses@[j])@.len() > 0,
        decreases clauses@.len() - k,
    {
        if clauses[k].len() == 0 {
            return true;
        }
        k = k + 1;
    }
    false
}

/// Unit propagation on integer clauses: adds the literal of every unit clause
/// to the model, drops the clauses the model satisfies and strikes the
/// literals it falsifies, until no new literal is forced. Returns `false` when
/// a unit clause contradicts the model or a clause becomes empty.
///
/// On `true`, the clauses and the model have exactly the satisfying
/// assignments they had before; on `false`, they had none.
pub fn simplify(clauses: &mut Vec<Vec<i32>>, model: &mut HashSet<i32>) -> (r: bool)
    requires
        proper_clauses(old(clauses)@),
        proper_model(old(model)@),
    ensures
        proper_clauses(final(clauses)@),
        proper_model(final(model)@),
        old(model)@.subset_of(final(model)@),
        forall|l: i32| #[trigger] final(model)@.contains(l) ==> old(model)@.contains(l) || occurs(old(clauses)@, l),
        forall|l: i32| occurs(final(clauses)@, l) ==> occurs(old(clauses)@, l),
        r ==> forall|a: spec_fn(int) -> bool|
            (consistent(a, final(model)@) && all_true(a, final(clauses)@)) == (consistent(a, old(model)@)
                && all_true(a, old(clauses)@)),
        !r ==> forall|a: spec_fn(int) -> bool|
            consistent(a, old(model)@) ==> !all_true(a, old(clauses)@),
        r ==> forall|j: int|
            0 <= j < final(clauses)@.len() && (#[trigger] final(clauses)@[j])@.len() == 1
                ==> final(model)@.contains(final(clauses)@[j]@[0]),
        r && final(model)@ != old(model)@ ==> reduced(final(clauses)@, final(model)@),
        r && final(model)@ == old(model)@ ==> final(clauses)@ == old(clauses)@,
{
    let ghost m0 = model@;
    let ghost c0 = clauses@;
    let ghost mut changed: bool = false;
    loop
        invariant
            m0 == old(model)@,
            c0 == old(clauses)@,
            !changed ==> model@ == m0 && clauses@ == c0,
            changed ==> reduced(clauses@, model@) && model@ != m0,
            proper_clauses(clauses@),
            proper_model(model@),
            m0.subset_of(model@),
            forall|l: i32| #[trigger] model@.contains(l) ==> m0.contains(l) || occurs(c0, l),
            forall|l: i32| occurs(clauses@, l) ==> occurs(c0, l),
            forall|a: spec_fn(int) -> bool|
                (consistent(a, model@) && all_true(a, clauses@)) == (consistent(a, m0) && all_true(a, c0)),
        decreases clauses@.len(),
    {
        let ghost m1 = model@;
        let mut grew = false;
        let mut i: usize = 0;
        while i < clauses.len()
            invariant
                i <= clauses@.len(),
                m0 == old(model)@,
                c0 == old(clauses)@,
                proper_clauses(clauses@),
                proper_model(model@),
                m0.subset_of(m1),
                m1.subset_of(model@),
                !changed ==> m1 == m0 && clauses@ == c0,
                changed ==> reduced(clauses@, m1) && m1 != m0,
                forall|j: int| 0 <= j < i && (#[trigger] clauses@[j])@.len() == 1 ==> model@.contains(clauses@[j]@[0]),
                forall|l: i32| #[trigger] model@.contains(l) ==> m0.contains(l) || occurs(c0, l),
                forall|l: i32| occurs(clauses@, l) ==> occurs(c0, l),
                forall|a: spec_fn(int) -> bool|
                    (consistent(a, m1) && all_true(a, clauses@)) == (consistent(a, m0) && all_true(a, c0)),
                forall|a: spec_fn(int) -> bool|
                    (consistent(a, model@) && all_true(a, clauses@)) == (consistent(a, m1) && all_true(a, clauses@)),
                !grew ==> model@ == m1,
                grew ==> exists|l: i32| model@.contains(l) && !m1.contains(l),
                grew ==> exists|j: int| 0 <= j < clauses@.len() && meets(#[trigger] clauses@[j]@, model@),
            decreases clauses@.len() - i,
        {
            if clauses[i].len() == 1 {
                let l = clauses[i][0];
                assert(proper_lit(clauses@[i as int]@[0]));
                if model.contains(&(-l)) {
                    proof {
                        assert forall|a: spec_fn(int) -> bool| consistent(a, m0) implies !all_true(a, c0) by {
                            if all_true(a, c0) {
                                assert(consistent(a, model@) && all_true(a, clauses@));
                                assert(clause_true(a, clauses@[i as int]@));
                                lemma_neg(a, l);
                            }
                        }
                    }
                    return false;
                }
                let ghost before = model@;
                let added = model.insert(l);
                if added {
                    grew = true;
                } else {
                    assert(model@ =~= before);
                }
                proof {
                    assert(occurs(clauses@, l));
                    assert(meets(clauses@[i as int]@, model@));
                    assert forall|x: i32| #[trigger] model@.contains(x) implies proper_lit(x) && !model@.contains(neg(x)) by {
                        lemma_neg(|v: int| true, x);
                        lemma_neg(|v: int| true, l);
                    }
                    assert forall|a: spec_fn(int) -> bool|
                        (consistent(a, model@) && all_true(a, clauses@)) == (consistent(a, before) && all_true(a, clauses@)) by {
                        if consistent(a, before) && all_true(a, clauses@) {
                            assert(clause_true(a, clauses@[i as int]@));
                        }
                    }
                    if exists|j: int| 0 <= j < clauses@.len() && meets(#[trigger] clauses@[j]@, before) {
                        let j = choose|j: int| 0 <= j < clauses@.len() && meets(#[trigger] clauses@[j]@, before);
                        let k = choose|k: int| 0 <= k < clauses@[j]@.len() && before.contains(#[trigger] clauses@[j]@[k]);
                        assert(model@.contains(clauses@[j]@[k]));
                    }
                }
            }
            i = i + 1;
        }
        if !grew {
            return true;
        }
        let next = reduce_clauses(clauses, model);
        proof {
            assert forall|a: spec_fn(int) -> bool|
                (consistent(a, model@) && all_true(a, next@)) == (consistent(a, m0) && all_true(a, c0)) by {}
        }
        *clauses = next;
        if has_empty_clause(clauses) {
            proof {
                let j = choose|j: int| 0 <= j < clauses@.len() && (#[trigger] clauses@[j])@.len() == 0;
                assert forall|a: spec_fn(int) -> bool| consistent(a, m0) implies !all_true(a, c0) by {
                    assert(!clause_true(a, clauses@[j]@));
                }
            }
            return false;
        }
        proof {
            changed = true;
        }
    }
}

/// Every literal of the clause is false under the model: its negation is in
/// the model and it is not.
pub open spec fn falsified(c: Seq<i32>, s: Set<i32>) -> bool {
    forall|k: int| 0 <= k < c.len() ==> s.contains(neg(#[trigger] c[k])) && !s.contains(c[k])
}

/// Whether the model makes the clause false, with every literal assigned.
fn exists_constant_false_clause(model: &HashSet<i32>, clause: &[i32]) -> (r: bool)
    requires
        forall|k: int| 0 <= k < clause@.len() ==> proper_lit(#[trigger] clause@[k]),
    ensures
        r == falsified(clause@, model@),
{
    let mut k: usize = 0;
    while k < clause.len()
        invariant
            k <= clause@.len(),
            forall|i: int| 0 <= i < clause@.len() ==> proper_lit(#[trigger] clause@[i]),
            forall|i: int| 0 <= i < k ==> model@.contains(neg(#[trigger] clause@[i])) && !model@.contains(clause@[i]),
        decreases clause@.len() - k,
    {
        let literal = clause[k];
        if !model.contains(&literal) && !model.contains(&(-literal)) {
            return false;
        }
        if model.contains(&literal) {
            return false;
        }
        k = k + 1;
    }
    true
}

/// Whether the model makes one of the clauses false.
fn exists_constant_false_clauses(model: &HashSet<i32>, clauses: &[Vec<i32>]) -> (r: bool)
    requires
        proper_clauses(clauses@),
    ensures
        r == exists|j: int| 0 <= j < clauses@.len() && falsified(#[trigger] clauses@[j]@, model@),
{
    let mut j: usize = 0;
    while j < clauses.len()
        invariant
            j <= clauses@.len(),
            proper_clauses(clauses@),
            forall|i: int| 0 <= i < j ==> !falsified(#[trigger] clauses@[i]@, model@),
        decreases clauses@.len() - j,
    {
        assert forall|k: int| 0 <= k < clauses@[j as int]@.len() implies proper_lit(#[trigger] clauses@[j as int]@[k]) by {}
        if exists_constant_false_clause(model, clauses[j].as_slice()) {
            return true;
        }
        j = j + 1;
    }
    false
}

/// Variable `v` has a value in the model.
pub open spec fn assigned(s: Set<i32>, v: int) -> bool {
    s.contains(v as i32) || s.contains((-v) as i32)
}

/// The lowest variable of `1..=num_variables` that the model leaves unassigned.
fn select_variable(num_variables: usize, model: &HashSet<i32>) -> (r: Option<i32>)
    requires
        num_variables <= i32::MAX,
    ensures
        r.is_none() ==> forall|v: int| 1 <= v <= num_variables ==> #[trigger] assigned(model@, v),
        r matches Some(v) ==> {
            &&& 1 <= v <= num_variables
            &&& !assigned(model@, v as int)
            &&& forall|u: int| 1 <= u < v ==> #[trigger] assigned(model@, u)
        },
{
    let mut n: usize = 1;
    while n <= num_variables
        invariant
            1 <= n <= num_variables + 1,
            num_variables <= i32::MAX,
            forall|u: int| 1 <= u < n ==> #[trigger] assigned(model@, u),
        decreases num_variables + 1 - n,
    {
        let v = n as i32;
        if !model.contains(&v) && !model.contains(&(-v)) {
            return Some(v);
        }
        n = n + 1;
    }
    None
}

/// Relies on `HashSet::clone`: a set with the same elements.
#[verifier::external_body]
fn clone_model(model: &HashSet<i32>) -> (r: HashSet<i32>)
    ensures
        r@ == model@,
{
    model.clone()
}

/// A copy of the clauses, literal for literal.
fn copy_clauses(clauses: &[Vec<i32>]) -> (r: Vec<Vec<i32>>)
    ensures
        r@.len() == clauses@.len(),
        forall|j: int| 0 <= j < clauses@.len() ==> (#[trigger] r@[j])@ == clauses@[j]@,
{
    let mut r: Vec<Vec<i32>> = Vec::new();
    let mut j: usize = 0;
    while j < clauses.len()
        invariant
            j <= clauses@.len(),
            r@.len() == j,
            forall|i: int| 0 <= i < j ==> (#[trigger] r@[i])@ == clauses@[i]@,
        decreases clauses@.len() - j,
    {
        let mut c: Vec<i32> = Vec::new();
        let mut k: usize = 0;
        while k < clauses[j].len()
            invariant
                j < clauses@.len(),
                k <= clauses@[j as int]@.len(),
                c@ == clauses@[j as int]@.take(k as int),
            decreases clauses@[j as int]@.len() - k,
        {
            c.push(clauses[j][k]);
            k = k + 1;
            assert(c@ =~= clauses@[j as int]@.take(k as int));
        }
        assert(c@ =~= clauses@[j as int]@);
        r.push(c);
        j = j + 1;
    }
    r
}

/// A literal over the variables `1..=n`.
pub open spec fn within(l: i32, n: int) -> bool {
    l != 0 && -n <= l <= n
}

/// Every literal of every clause is over the variables `1..=n`.
pub open spec fn clauses_within(cs: Seq<Vec<i32>>, n: int) -> bool {
    forall|j: int, k: int| 0 <= j < cs.len() && 0 <= k < cs[j]@.len() ==> within(#[trigger] cs[j]@[k], n)
}

/// The assignment that a set of literals stands for: `v` is true when the
/// literal `v` is in the set.
pub open spec fn set_assignment(s: Set<i32>) -> spec_fn(int) -> bool {
    |v: int| s.contains(v as i32)
}

/// The number of variables of `1..=k` that the model leaves unassigned.
spec fn open_count(s: Set<i32>, k: int) -> nat
    decreases k,
{
    if k <= 0 {
        0
    } else {
        open_count(s, k - 1) + if assigned(s, k) {
            0nat
        } else {
            1nat
        }
    }
}

proof fn lemma_open_count_shrinks(s: Set<i32>, t: Set<i32>, k: int, v: int)
    requires
        s.subset_of(t),
    ensures
        open_count(t, k) <= open_count(s, k),
        1 <= v <= k && !assigned(s, v) && assigned(t, v) ==> open_count(t, k) < open_count(s, k),
    decreases k,
{
    if k > 0 {
        lemma_open_count_shrinks(s, t, k - 1, v);
        if assigned(s, k) {
            assert(assigned(t, k));
        }
    }
}

spec fn pow3(e: nat) -> nat
    decreases e,
{
    if e == 0 {
        1
    } else {
        3 * pow3((e - 1) as nat)
    }
}

proof fn lemma_pow3_monotone(d: nat, e: nat)
    requires
        d <= e,
    ensures
        1 <= pow3(d) <= pow3(e),
    decreases e,
{
    if e > 0 {
        lemma_pow3_monotone(0, (e - 1) as nat);
        if d < e {
            lemma_pow3_monotone(d, (e - 1) as nat);
        }
    }
}

/// The search work left on the stack: three to the power of the open
/// variables of each entry.
spec fn stack_weight(st: Seq<(HashSet<i32>, Vec<Vec<i32>>)>, n: int) -> nat
    decreases st.len(),
{
    if st.len() == 0 {
        0
    } else {
        stack_weight(st.drop_last(), n) + pow3(open_count(st.last().0@, n))
    }
}

/// A search state: a proper model and clauses over `1..=n`, whose joint
/// satisfying assignments all satisfy the input clauses `c0`.
spec fn entry_ok(e: (HashSet<i32>, Vec<Vec<i32>>), n: int, c0: Seq<Vec<i32>>) -> bool {
    &&& proper_model(e.0@)
    &&& forall|l: i32| #[trigger] e.0@.contains(l) ==> within(l, n)
    &&& clauses_within(e.1@, n)
    &&& forall|l: i32| occurs(e.1@, l) ==> occurs(c0, l)
    &&& forall|a: spec_fn(int) -> bool| consistent(a, e.0@) && all_true(a, e.1@) ==> all_true(a, c0)
}

spec fn covers(e: (HashSet<i32>, Vec<Vec<i32>>), a: spec_fn(int) -> bool) -> bool {
    consistent(a, e.0@) && all_true(a, e.1@)
}

proof fn lemma_same_views(a: spec_fn(int) -> bool, cs: Seq<Vec<i32>>, ds: Seq<Vec<i32>>)
    requires
        cs.len() == ds.len(),
        forall|j: int| 0 <= j < cs.len() ==> (#[trigger] ds[j])@ == cs[j]@,
    ensures
        all_true(a, ds) == all_true(a, cs),
{
    if all_true(a, cs) {
        assert forall|j: int| 0 <= j < ds.len() implies clause_true(a, #[trigger] ds[j]@) by {
            assert(clause_true(a, cs[j]@));
        }
    }
    if all_true(a, ds) {
        assert forall|j: int| 0 <= j < cs.len() implies clause_true(a, #[trigger] cs[j]@) by {
            assert(clause_true(a, ds[j]@));
        }
    }
}

proof fn lemma_within_proper(cs: Seq<Vec<i32>>, n: int)
    requires
        clauses_within(cs, n),
        n <= i32::MAX,
    ensures
        proper_clauses(cs),
{
    assert forall|j: int, k: int| 0 <= j < cs.len() && 0 <= k < cs[j]@.len() implies proper_lit(#[trigger] cs[j]@[k]) by {
        assert(within(cs[j]@[k], n));
    }
}

/// `s` is the set of literals over `1..=n` that hold under the assignment it
/// stands for: a total model, one literal per variable.
pub open spec fn model_of(s: Set<i32>, n: int) -> bool {
    forall|l: i32| #[trigger] s.contains(l) <==> (within(l, n) && lit_true(set_assignment(s), l))
}

/// A model that assigns every variable of `1..=n` and makes no clause false
/// satisfies every clause and is the literal set of its assignment.
proof fn lemma_total_model(s1: Set<i32>, c1: Seq<Vec<i32>>, n: int)
    requires
        n <= i32::MAX,
        proper_model(s1),
        forall|l: i32| #[trigger] s1.contains(l) ==> within(l, n),
        clauses_within(c1, n),
        forall|v: int| 1 <= v <= n ==> #[trigger] assigned(s1, v),
        !exists|j: int| 0 <= j < c1.len() && falsified(#[trigger] c1[j]@, s1),
    ensures
        consistent(set_assignment(s1), s1),
        all_true(set_assignment(s1), c1),
        model_of(s1, n),
{
    let a = set_assignment(s1);
    assert forall|l: i32| s1.contains(l) implies lit_true(a, l) by {
        if l < 0 {
            assert(!s1.contains(neg(l)));
            assert((-(l as int)) as i32 == neg(l));
        }
    }
    assert forall|j: int| 0 <= j < c1.len() implies clause_true(a, #[trigger] c1[j]@) by {
        assert(!falsified(c1[j]@, s1));
        let k = choose|k: int| 0 <= k < c1[j]@.len() && !(s1.contains(neg(#[trigger] c1[j]@[k])) && !s1.contains(c1[j]@[k]));
        let l = c1[j]@[k];
        assert(within(l, n));
        if l > 0 {
            assert(assigned(s1, l as int));
            assert((-(l as int)) as i32 == neg(l));
        } else {
            assert(assigned(s1, -(l as int)));
            assert((-(l as int)) as i32 == neg(l));
        }
        assert(s1.contains(l));
        assert(lit_true(a, l));
    }
    assert forall|l: i32| #[trigger] s1.contains(l) <==> (within(l, n) && lit_true(a, l)) by {
        if within(l, n) && lit_true(a, l) && l < 0 {
            assert(assigned(s1, -(l as int)));
            assert((-(l as int)) as i32 == neg(l));
        }
    }
}

proof fn lemma_popped_fails(
    st: Seq<(HashSet<i32>, Vec<Vec<i32>>)>,
    c0: Seq<Vec<i32>>,
    a: spec_fn(int) -> bool,
)
    requires
        st.len() > 0,
        all_true(a, c0) ==> exists|k: int| 0 <= k < st.len() && covers(#[trigger] st[k], a),
        !covers(st.last(), a),
    ensures
        all_true(a, c0) ==> exists|k: int| 0 <= k < st.drop_last().len() && covers(#[trigger] st.drop_last()[k], a),
{
    if all_true(a, c0) {
        let k = choose|k: int| 0 <= k < st.len() && covers(#[trigger] st[k], a);
        assert(st.drop_last()[k] == st[k]);
    }
}

/// A branch of a simplified state, with one more literal `x` on an
/// unassigned variable, is a search state again and covers every satisfying
/// assignment of the state that makes `x` true.
proof fn lemma_branch_entry(
    m_before: Set<i32>,
    c_before: Seq<Vec<i32>>,
    s1: Set<i32>,
    c1: Seq<Vec<i32>>,
    e: (HashSet<i32>, Vec<Vec<i32>>),
    x: i32,
    n: int,
    c0: Seq<Vec<i32>>,
)
    requires
        n <= i32::MAX,
        within(x, n),
        !s1.contains(x),
        !s1.contains(neg(x)),
        e.0@ == s1.insert(x),
        e.1@.len() == c1.len(),
        forall|j: int| 0 <= j < c1.len() ==> (#[trigger] e.1@[j])@ == c1[j]@,
        proper_model(s1),
        forall|l: i32| #[trigger] s1.contains(l) ==> within(l, n),
        clauses_within(c1, n),
        forall|a: spec_fn(int) -> bool|
            (consistent(a, s1) && all_true(a, c1)) == (consistent(a, m_before) && all_true(a, c_before)),
        forall|a: spec_fn(int) -> bool| consistent(a, m_before) && all_true(a, c_before) ==> all_true(a, c0),
        forall|l: i32| occurs(c1, l) ==> occurs(c0, l),
    ensures
        entry_ok(e, n, c0),
        forall|a: spec_fn(int) -> bool|
            consistent(a, s1) && all_true(a, c1) && lit_true(a, x) ==> covers(e, a),
        forall|a: spec_fn(int) -> bool| covers(e, a) ==> consistent(a, s1) && all_true(a, c1),
{
    assert forall|l: i32| occurs(e.1@, l) implies occurs(c0, l) by {
        let (j, k) = choose|j: int, k: int| 0 <= j < e.1@.len() && 0 <= k < e.1@[j]@.len() && #[trigger] e.1@[j]@[k] == l;
        assert(c1[j]@[k] == l);
    }
    assert forall|a: spec_fn(int) -> bool| covers(e, a) implies consistent(a, s1) && all_true(a, c1) by {
        lemma_same_views(a, c1, e.1@);
    }
    let s2 = e.0@;
    assert forall|l: i32| #[trigger] s2.contains(l) implies proper_lit(l) && !s2.contains(neg(l)) by {
        lemma_neg(|v: int| true, l);
        lemma_neg(|v: int| true, x);
    }
    assert forall|j: int, k: int| 0 <= j < e.1@.len() && 0 <= k < e.1@[j]@.len() implies within(#[trigger] e.1@[j]@[k], n) by {
        assert(within(c1[j]@[k], n));
    }
    assert forall|a: spec_fn(int) -> bool| consistent(a, s2) && all_true(a, e.1@) implies all_true(a, c0) by {
        lemma_same_views(a, c1, e.1@);
        assert(consistent(a, s1));
    }
    assert forall|a: spec_fn(int) -> bool| consistent(a, s1) && all_true(a, c1) && lit_true(a, x) implies covers(e, a) by {
        lemma_same_views(a, c1, e.1@);
    }
}

/// Variable `v` of `1..=n` has no literal in the clauses.
pub open spec fn free_var(cs: Seq<Vec<i32>>, n: int, v: int) -> bool {
    1 <= v <= n && !occurs(cs, v as i32) && !occurs(cs, (-v) as i32)
}

/// `a` with variable `v` set to true.
spec fn flip(a: spec_fn(int) -> bool, v: int) -> spec_fn(int) -> bool {
    |x: int| if x == v { true } else { a(x) }
}

spec fn covered_above(st: Seq<(HashSet<i32>, Vec<Vec<i32>>)>, k: int, b: spec_fn(int) -> bool) -> bool {
    exists|k2: int| k < k2 < st.len() && covers(#[trigger] st[k2], b)
}

/// An entry that holds `-v` for a free `v` covers an assignment only when an
/// entry above it covers the assignment with `v` true: the `v` branch is
/// searched first.
spec fn twin_ok(st: Seq<(HashSet<i32>, Vec<Vec<i32>>)>, k: int, c0: Seq<Vec<i32>>, n: int) -> bool {
    forall|v: int, a: spec_fn(int) -> bool|
        #![trigger free_var(c0, n, v), covers(st[k], a)]
        free_var(c0, n, v) && st[k].0@.contains((-v) as i32) && covers(st[k], a) ==> covered_above(st, k, flip(a, v))
}

proof fn lemma_flip_lits(a: spec_fn(int) -> bool, v: int, l: i32)
    requires
        proper_lit(l),
        l as int != v,
        l as int != -v,
    ensures
        lit_true(flip(a, v), l) == lit_true(a, l),
{
}

proof fn lemma_flip_clauses(a: spec_fn(int) -> bool, cs: Seq<Vec<i32>>, c0: Seq<Vec<i32>>, n: int, v: int)
    requires
        free_var(c0, n, v),
        forall|l: i32| occurs(cs, l) ==> occurs(c0, l),
        proper_clauses(cs),
    ensures
        all_true(flip(a, v), cs) == all_true(a, cs),
{
    assert forall|j: int, k: int| 0 <= j < cs.len() && 0 <= k < cs[j]@.len() implies lit_true(flip(a, v), #[trigger] cs[j]@[k]) == lit_true(a, cs[j]@[k]) by {
        let l = cs[j]@[k];
        assert(occurs(cs, l));
        if l as int == v {
            assert(l == v as i32);
        }
        if l as int == -v {
            assert(l == (-v) as i32);
        }
        lemma_flip_lits(a, v, l);
    }
    assert forall|j: int| 0 <= j < cs.len() implies clause_true(flip(a, v), #[trigger] cs[j]@) == clause_true(a, cs[j]@) by {
        if clause_true(a, cs[j]@) {
            let k = choose|k: int| 0 <= k < cs[j]@.len() && lit_true(a, #[trigger] cs[j]@[k]);
            assert(lit_true(flip(a, v), cs[j]@[k]));
        }
        if clause_true(flip(a, v), cs[j]@) {
            let k = choose|k: int| 0 <= k < cs[j]@.len() && lit_true(flip(a, v), #[trigger] cs[j]@[k]);
            assert(lit_true(a, cs[j]@[k]));
        }
    }
}

proof fn lemma_twin_after_pop(st: Seq<(HashSet<i32>, Vec<Vec<i32>>)>, c0: Seq<Vec<i32>>, n: int)
    requires
        st.len() > 0,
        forall|k: int| 0 <= k < st.len() ==> #[trigger] twin_ok(st, k, c0, n),
        forall|b: spec_fn(int) -> bool| !covers(st.last(), b),
    ensures
        forall|k: int| 0 <= k < st.len() - 1 ==> #[trigger] twin_ok(st.drop_last(), k, c0, n),
{
    let ns = st.drop_last();
    assert forall|k: int| 0 <= k < st.len() - 1 implies #[trigger] twin_ok(ns, k, c0, n) by {
        assert forall|v: int, a: spec_fn(int) -> bool|
            #![trigger free_var(c0, n, v), covers(ns[k], a)]
            free_var(c0, n, v) && ns[k].0@.contains((-v) as i32) && covers(ns[k], a) implies covered_above(ns, k, flip(a, v)) by {
            assert(ns[k] == st[k]);
            assert(twin_ok(st, k, c0, n));
            assert(covers(st[k], a));
            let k2 = choose|k2: int| k < k2 < st.len() && covers(#[trigger] st[k2], flip(a, v));
            assert(!covers(st.last(), flip(a, v)));
            assert(k2 < st.len() - 1);
            assert(ns[k2] == st[k2]);
        }
    }
}

proof fn lemma_twin_after_branch(
    st: Seq<(HashSet<i32>, Vec<Vec<i32>>)>,
    e1: (HashSet<i32>, Vec<Vec<i32>>),
    e2: (HashSet<i32>, Vec<Vec<i32>>),
    w: int,
    c0: Seq<Vec<i32>>,
    n: int,
)
    requires
        st.len() > 0,
        forall|k: int| 0 <= k < st.len() ==> #[trigger] twin_ok(st, k, c0, n),
        forall|b: spec_fn(int) -> bool| covers(st.last(), b) ==> covers(e1, b) || covers(e2, b),
        forall|b: spec_fn(int) -> bool| covers(e1, b) ==> covers(st.last(), b),
        forall|b: spec_fn(int) -> bool| covers(e2, b) ==> covers(st.last(), b),
        free_var(c0, n, w) ==> forall|b: spec_fn(int) -> bool| covers(e1, b) ==> covers(e2, flip(b, w)),
        forall|v: int|
            free_var(c0, n, v) && v != w && e1.0@.contains((-v) as i32) ==> st.last().0@.contains((-v) as i32),
        forall|v: int| free_var(c0, n, v) && e2.0@.contains((-v) as i32) ==> st.last().0@.contains((-v) as i32),
    ensures
        forall|k: int| 0 <= k < st.len() + 1 ==> #[trigger] twin_ok(st.drop_last().push(e1).push(e2), k, c0, n),
{
    let t = st.len() - 1;
    let ns = st.drop_last().push(e1).push(e2);
    assert(ns[t] == e1 && ns[t + 1] == e2);
    assert forall|k: int| 0 <= k < st.len() + 1 implies #[trigger] twin_ok(ns, k, c0, n) by {
        assert forall|v: int, a: spec_fn(int) -> bool|
            #![trigger free_var(c0, n, v), covers(ns[k], a)]
            free_var(c0, n, v) && ns[k].0@.contains((-v) as i32) && covers(ns[k], a) implies covered_above(ns, k, flip(a, v)) by {
            let fa = flip(a, v);
            if k < t {
                assert(ns[k] == st[k]);
                assert(twin_ok(st, k, c0, n));
                assert(covers(st[k], a));
                let k2 = choose|k2: int| k < k2 < st.len() && covers(#[trigger] st[k2], fa);
                if k2 < t {
                    assert(ns[k2] == st[k2]);
                } else {
                    if covers(e1, fa) {
                        assert(covers(ns[t], fa));
                    } else {
                        assert(covers(ns[t + 1], fa));
                    }
                }
            } else if k == t && v == w {
                assert(covers(ns[t + 1], fa));
            } else {
                assert(st.last().0@.contains((-v) as i32));
                assert(covers(st[t], a));
                assert(twin_ok(st, t, c0, n));
                let k2 = choose|k2: int| t < k2 < st.len() && covers(#[trigger] st[k2], fa);
            }
        }
    }
}

/// Depth-first search with an explicit stack of (model, clauses) states: each
/// state is simplified, pruned when a clause is false, returned when its model
/// is total, and otherwise split on its lowest unassigned variable.
fn solve_norecursive(num_variables: usize, clauses: &[Vec<i32>]) -> (r: Option<HashSet<i32>>)
    requires
        num_variables <= i32::MAX,
        clauses_within(clauses@, num_variables as int),
    ensures
        r.is_none() ==> forall|a: spec_fn(int) -> bool| !all_true(a, clauses@),
        r matches Some(s) ==> {
            &&& model_of(s@, num_variables as int)
            &&& all_true(set_assignment(s@), clauses@)
            &&& forall|v: int| free_var(clauses@, num_variables as int, v) ==> #[trigger] s@.contains(v as i32)
        },
{
    let ghost n = num_variables as int;
    let ghost c0 = clauses@;
    let mut stack: Vec<(HashSet<i32>, Vec<Vec<i32>>)> = Vec::new();
    let first = copy_clauses(clauses);
    stack.push((HashSet::new(), first));
    proof {
        assert(stack@[0].0@ == Set::<i32>::empty());
        assert forall|a: spec_fn(int) -> bool| all_true(a, c0) implies exists|k: int|
            0 <= k < stack@.len() && covers(#[trigger] stack@[k], a) by {
            lemma_same_views(a, c0, stack@[0].1@);
            assert(covers(stack@[0], a));
        }
        assert forall|a: spec_fn(int) -> bool| consistent(a, stack@[0].0@) && all_true(a, stack@[0].1@) implies all_true(a, c0) by {
            lemma_same_views(a, c0, stack@[0].1@);
        }
        assert forall|l: i32| occurs(stack@[0].1@, l) implies occurs(c0, l) by {
            let (j, k) = choose|j: int, k: int| 0 <= j < stack@[0].1@.len() && 0 <= k < stack@[0].1@[j]@.len() && #[trigger] stack@[0].1@[j]@[k] == l;
            assert(c0[j]@[k] == l);
        }
        assert(entry_ok(stack@[0], n, c0));
        assert forall|k: int| 0 <= k < stack@.len() implies #[trigger] twin_ok(stack@, k, c0, n) by {
            assert(k == 0);
        }
    }
    while stack.len() > 0
        invariant
            n == num_variables,
            c0 == clauses@,
            num_variables <= i32::MAX,
            forall|k: int| 0 <= k < stack@.len() ==> entry_ok(#[trigger] stack@[k], n, c0),
            forall|a: spec_fn(int) -> bool| all_true(a, c0) ==> exists|k: int|
                0 <= k < stack@.len() && covers(#[trigger] stack@[k], a),
            forall|k: int| 0 <= k < stack@.len() ==> #[trigger] twin_ok(stack@, k, c0, n),
        decreases stack_weight(stack@, n),
    {
        let ghost st = stack@;
        let top = stack.pop().unwrap();
        let mut model = top.0;
        let mut cs = top.1;
        let ghost m_before = model@;
        let ghost c_before = cs@;
        proof {
            assert(st.last() == top);
            assert(stack@ == st.drop_last());
            assert(entry_ok(st.last(), n, c0));
            lemma_within_proper(cs@, n);
            lemma_pow3_monotone(0, open_count(m_before, n));
            assert forall|k: int| 0 <= k < stack@.len() implies entry_ok(#[trigger] stack@[k], n, c0) by {
                assert(stack@[k] == st[k]);
            }
        }
        if !simplify(&mut cs, &mut model) {
            proof {
                lemma_twin_after_pop(st, c0, n);
                assert forall|a: spec_fn(int) -> bool| all_true(a, c0) implies exists|k: int|
                    0 <= k < stack@.len() && covers(#[trigger] stack@[k], a) by {
                    lemma_popped_fails(st, c0, a);
                }
            }
            continue;
        }
        let ghost s1 = model@;
        let ghost c1 = cs@;
        proof {
            assert forall|j: int, k: int| 0 <= j < c1.len() && 0 <= k < c1[j]@.len() implies within(#[trigger] c1[j]@[k], n) by {
                assert(occurs(c1, c1[j]@[k]));
                let (jj, kk) = choose|jj: int, kk: int| 0 <= jj < c_before.len() && 0 <= kk < c_before[jj]@.len() && #[trigger] c_before[jj]@[kk] == c1[j]@[k];
                assert(within(c_before[jj]@[kk], n));
            }
            assert forall|l: i32| #[trigger] s1.contains(l) implies within(l, n) by {
                if !m_before.contains(l) {
                    let (jj, kk) = choose|jj: int, kk: int| 0 <= jj < c_before.len() && 0 <= kk < c_before[jj]@.len() && #[trigger] c_before[jj]@[kk] == l;
                    assert(within(c_before[jj]@[kk], n));
                }
            }
            lemma_open_count_shrinks(m_before, s1, n, 0);
            assert(forall|l: i32| occurs(c1, l) ==> occurs(c0, l));
            assert forall|u: int| free_var(c0, n, u) && #[trigger] s1.contains((-u) as i32) implies m_before.contains((-u) as i32) by {
                if !m_before.contains((-u) as i32) {
                    assert(occurs(c_before, (-u) as i32));
                }
            }
        }
        if exists_constant_false_clauses(&model, &cs) {
            proof {
                let j = choose|j: int| 0 <= j < c1.len() && falsified(#[trigger] c1[j]@, s1);
                assert forall|b: spec_fn(int) -> bool| !covers(st.last(), b) by {
                    if covers(st.last(), b) {
                        assert(consistent(b, s1) && all_true(b, c1));
                        assert(clause_true(b, c1[j]@));
                        let k = choose|k: int| 0 <= k < c1[j]@.len() && lit_true(b, #[trigger] c1[j]@[k]);
                        lemma_neg(b, c1[j]@[k]);
                        assert(lit_true(b, neg(c1[j]@[k])));
                    }
                }
                lemma_twin_after_pop(st, c0, n);
                assert forall|a: spec_fn(int) -> bool| all_true(a, c0) implies exists|k: int|
                    0 <= k < stack@.len() && covers(#[trigger] stack@[k], a) by {
                    if covers(st.last(), a) {
                        assert(consistent(a, s1) && all_true(a, c1));
                        assert(clause_true(a, c1[j]@));
                        let k = choose|k: int| 0 <= k < c1[j]@.len() && lit_true(a, #[trigger] c1[j]@[k]);
                        lemma_neg(a, c1[j]@[k]);
                        assert(lit_true(a, neg(c1[j]@[k])));
                    }
                    lemma_popped_fails(st, c0, a);
                }
            }
            continue;
        }
        match select_variable(num_variables, &model) {
            None => {
                proof {
                    lemma_total_model(s1, c1, n);
                    let a = set_assignment(s1);
                    assert(consistent(a, m_before) && all_true(a, c_before));
                    assert(covers(st.last(), a));
                    assert forall|u: int| free_var(clauses@, num_variables as int, u) implies #[trigger] s1.contains(u as i32) by {
                        assert(assigned(s1, u));
                        if !s1.contains(u as i32) {
                            assert(s1.contains((-u) as i32));
                            assert(m_before.contains((-u) as i32));
                            assert(twin_ok(st, st.len() - 1, c0, n));
                            assert(covers(st[st.len() - 1], a));
                            assert(free_var(c0, n, u));
                            assert(covered_above(st, st.len() - 1, flip(a, u)));
                        }
                    }
                }
                return Some(model);
            },
            Some(v) => {
                let mut m1 = clone_model(&model);
                m1.insert(-v);
                let c2 = copy_clauses(&cs);
                let ghost neg_entry = (m1, c2);
                stack.push((m1, c2));
                model.insert(v);
                let ghost pos_entry = (model, cs);
                stack.push((model, cs));
                proof {
                    let base = st.drop_last();
                    assert(stack@ =~= base.push(neg_entry).push(pos_entry));
                    assert(base.push(neg_entry).push(pos_entry).drop_last() =~= base.push(neg_entry));
                    assert(base.push(neg_entry).drop_last() =~= base);
                    assert(st.drop_last() =~= base);
                    assert(neg(v) == -v);
                    lemma_open_count_shrinks(s1, neg_entry.0@, n, v as int);
                    lemma_open_count_shrinks(s1, pos_entry.0@, n, v as int);
                    let c = open_count(m_before, n);
                    lemma_pow3_monotone(open_count(neg_entry.0@, n), (c - 1) as nat);
                    lemma_pow3_monotone(open_count(pos_entry.0@, n), (c - 1) as nat);
                    assert(assigned(neg_entry.0@, v as int));
                    assert(assigned(pos_entry.0@, v as int));
                    assert(open_count(neg_entry.0@, n) < c);
                    assert(open_count(pos_entry.0@, n) < c);
                    assert(pow3(c) == 3 * pow3((c - 1) as nat));
                    assert(stack_weight(st, n) == stack_weight(base, n) + pow3(c));
                    assert(stack_weight(base.push(neg_entry), n) == stack_weight(base, n) + pow3(open_count(neg_entry.0@, n)));
                    assert(stack_weight(stack@, n) == stack_weight(base.push(neg_entry), n) + pow3(open_count(pos_entry.0@, n)));
                    assert(stack_weight(stack@, n) < stack_weight(st, n));
                    lemma_branch_entry(m_before, c_before, s1, c1, neg_entry, neg(v), n, c0);
                    lemma_branch_entry(m_before, c_before, s1, c1, pos_entry, v, n, c0);
                    let w = v as int;
                    assert(neg(v) as int == -w);
                    assert forall|b: spec_fn(int) -> bool| covers(st.last(), b) implies covers(neg_entry, b) || covers(pos_entry, b) by {
                        assert(consistent(b, s1) && all_true(b, c1));
                        if !b(w) {
                            assert(lit_true(b, neg(v)));
                        }
                    }
                    assert forall|b: spec_fn(int) -> bool| covers(neg_entry, b) implies covers(st.last(), b) by {
                        assert(consistent(b, s1) && all_true(b, c1));
                    }
                    assert forall|b: spec_fn(int) -> bool| covers(pos_entry, b) implies covers(st.last(), b) by {
                        assert(consistent(b, s1) && all_true(b, c1));
                    }
                    if free_var(c0, n, w) {
                        assert forall|b: spec_fn(int) -> bool| covers(neg_entry, b) implies covers(pos_entry, flip(b, w)) by {
                            let fb = flip(b, w);
                            assert(consistent(b, s1) && all_true(b, c1));
                            lemma_within_proper(c1, n);
                            lemma_flip_clauses(b, c1, c0, n, w);
                            assert forall|l: i32| s1.contains(l) implies lit_true(fb, l) by {
                                assert(proper_lit(l));
                                if l as int == w {
                                    assert(l == v);
                                }
                                if l as int == -w {
                                    assert(l == neg(v));
                                }
                                lemma_flip_lits(b, w, l);
                            }
                            assert(lit_true(fb, v));
                        }
                    }
                    assert forall|u: int| free_var(c0, n, u) && u != w && neg_entry.0@.contains((-u) as i32) implies st.last().0@.contains((-u) as i32) by {
                        assert(s1.contains((-u) as i32));
                    }
                    assert forall|u: int| free_var(c0, n, u) && pos_entry.0@.contains((-u) as i32) implies st.last().0@.contains((-u) as i32) by {
                        assert(s1.contains((-u) as i32));
                    }
                    lemma_twin_after_branch(st, neg_entry, pos_entry, w, c0, n);
                    assert(stack@ == st.drop_last().push(neg_entry).push(pos_entry));
                    assert forall|k: int| 0 <= k < stack@.len() implies entry_ok(#[trigger] stack@[k], n, c0) by {
                        if k < base.len() {
                            assert(stack@[k] == st[k]);
                        }
                    }
                    assert forall|a: spec_fn(int) -> bool| all_true(a, c0) implies exists|k: int|
                        0 <= k < stack@.len() && covers(#[trigger] stack@[k], a) by {
                        let k = choose|k: int| 0 <= k < st.len() && covers(#[trigger] st[k], a);
                        if k < base.len() {
                            assert(stack@[k] == st[k]);
                        } else {
                            assert(consistent(a, s1) && all_true(a, c1));
                            if a(v as int) {
                                assert(lit_true(a, v));
                                assert(covers(stack@[base.len() as int + 1], a));
                            } else {
                                assert(lit_true(a, neg(v)));
                                assert(covers(stack@[base.len() as int], a));
                            }
                        }
                    }
                }
            },
        }
    }
    None
}

/// Depth-first search that extends `model` in place, trying `-v` before `v`
/// for the lowest unassigned variable `v`; the model is restored when a
/// branch fails.
#[allow(dead_code)]
fn solve_recursive(num_variables: usize, clauses: &[Vec<i32>], model: &mut HashSet<i32>) -> (r: bool)
    requires
        num_variables <= i32::MAX,
        clauses_within(clauses@, num_variables as int),
        proper_model(old(model)@),
        forall|l: i32| #[trigger] old(model)@.contains(l) ==> within(l, num_variables as int),
    ensures
        r ==> {
            &&& old(model)@.subset_of(final(model)@)
            &&& model_of(final(model)@, num_variables as int)
            &&& all_true(set_assignment(final(model)@), clauses@)
        },
        !r ==> final(model)@ == old(model)@,
        !r ==> forall|a: spec_fn(int) -> bool| consistent(a, old(model)@) ==> !all_true(a, clauses@),
    decreases open_count(old(model)@, num_variables as int),
{
    let ghost n = num_variables as int;
    let ghost s0 = model@;
    proof {
        lemma_within_proper(clauses@, n);
    }
    if exists_constant_false_clauses(model, clauses) {
        proof {
            let j = choose|j: int| 0 <= j < clauses@.len() && falsified(#[trigger] clauses@[j]@, s0);
            assert forall|a: spec_fn(int) -> bool| consistent(a, s0) implies !all_true(a, clauses@) by {
                if all_true(a, clauses@) {
                    assert(clause_true(a, clauses@[j]@));
                    let k = choose|k: int| 0 <= k < clauses@[j]@.len() && lit_true(a, #[trigger] clauses@[j]@[k]);
                    lemma_neg(a, clauses@[j]@[k]);
                    assert(lit_true(a, neg(clauses@[j]@[k])));
                }
            }
        }
        return false;
    }
    let variable = match select_variable(num_variables, model) {
        None => {
            proof {
                lemma_total_model(s0, clauses@, n);
            }
            return true;
        },
        Some(v) => v,
    };
    let mut round: usize = 0;
    while round < 2
        invariant
            round <= 2,
            n == num_variables,
            num_variables <= i32::MAX,
            1 <= variable <= num_variables,
            !assigned(s0, variable as int),
            s0 == old(model)@,
            model@ == s0,
            clauses_within(clauses@, n),
            proper_model(s0),
            forall|l: i32| #[trigger] s0.contains(l) ==> within(l, n),
            forall|a: spec_fn(int) -> bool|
                consistent(a, s0) && all_true(a, clauses@) && !a(variable as int) ==> round == 0,
            forall|a: spec_fn(int) -> bool|
                consistent(a, s0) && all_true(a, clauses@) && a(variable as int) ==> round <= 1,
        decreases 2 - round,
    {
        let literal = if round == 0 {
            -variable
        } else {
            variable
        };
        model.insert(literal);
        proof {
            assert((-(variable as int)) as i32 == neg(variable));
            assert forall|x: i32| #[trigger] model@.contains(x) implies proper_lit(x) && !model@.contains(neg(x)) by {
                lemma_neg(|v: int| true, x);
                lemma_neg(|v: int| true, literal);
            }
            lemma_open_count_shrinks(s0, model@, n, variable as int);
        }
        if solve_recursive(num_variables, clauses, model) {
            return true;
        }
        proof {
            assert forall|a: spec_fn(int) -> bool|
                consistent(a, s0) && all_true(a, clauses@) && lit_true(a, literal) implies false by {
                assert(consistent(a, s0.insert(literal)));
            }
        }
        model.remove(&literal);
        assert(model@ =~= s0);
        round = round + 1;
    }
    false
}

/// Some assignment of the variables makes every clause true.
pub open spec fn satisfiable(cs: Seq<Vec<i32>>) -> bool {
    exists|a: spec_fn(int) -> bool| all_true(a, cs)
}

/// Decides the clauses over the variables `1..=num_variables` (literal `v` or
/// `-v`). Returns a model exactly when some assignment satisfies every clause:
/// the set of literals that hold under it, one per variable. A variable with
/// no literal in the clauses is true in the model.
pub fn solve(num_variables: usize, clauses: &[Vec<i32>]) -> (r: Option<HashSet<i32>>)
    requires
        num_variables <= i32::MAX,
        clauses_within(clauses@, num_variables as int),
    ensures
        r.is_some() <==> satisfiable(clauses@),
        r matches Some(s) ==> {
            &&& model_of(s@, num_variables as int)
            &&& all_true(set_assignment(s@), clauses@)
            &&& forall|v: int| free_var(clauses@, num_variables as int, v) ==> #[trigger] s@.contains(v as i32)
        },
{
    solve_norecursive(num_variables, clauses)
}

/// With no clauses, the formula is satisfiable (so `solve` returns a model,
/// for every number of variables).
pub proof fn lemma_no_clauses_satisfiable()
    ensures
        satisfiable(Seq::<Vec<i32>>::empty()),
{
    let a = |v: int| true;
    assert(all_true(a, Seq::<Vec<i32>>::empty()));
}

/// An empty clause holds under no assignment, so a formula that has one is
/// unsatisfiable whatever the number of variables (and `solve` returns
/// `None`).
pub proof fn lemma_empty_clause_unsatisfiable(cs: Seq<Vec<i32>>, j: int)
    requires
        0 <= j < cs.len(),
        cs[j]@.len() == 0,
    ensures
        !satisfiable(cs),
{
    assert forall|a: spec_fn(int) -> bool| !all_true(a, cs) by {
        assert(!clause_true(a, cs[j]@));
    }
}

} // verus!
