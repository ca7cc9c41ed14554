use vstd::prelude::*;

use std::collections::HashMap;
use std::hash::Hash;

use vstd::std_specs::hash::obeys_key_model;
use vstd::std_specs::ops::NotSpec;

use crate::clause::Clause;
use crate::dpll::{assignment_of, in_range, satisfiable, satisfies, total, DPLL};
use crate::literal::Literal;
use crate::model::{sign_of, Model, TruthAssign};

verus! {

broadcast use vstd::std_specs::hash::group_hash_axioms;

/// A signed reference to a variable of a `SATSolver`.
#[derive(Clone, Copy)]
pub struct Variable {
    id: usize,
    sign: bool,
}

impl Variable {
    /// The dense id of the variable.
    pub closed spec fn id(self) -> usize {
        self.id
    }

    pub closed spec fn positive(self) -> bool {
        self.sign
    }
}

impl core::ops::Not for Variable {
    type Output = Variable;

    /// The same variable with the opposite polarity.
    fn not(self) -> (r: Variable) {
        Variable { id: self.id, sign: !self.sign }
    }
}

impl vstd::std_specs::ops::NotSpecImpl for Variable {
    open spec fn obeys_not_spec() -> bool {
        true
    }

    open spec fn not_req(self) -> bool {
        true
    }

    closed spec fn not_spec(self) -> Variable {
        Variable { id: self.id, sign: !self.sign }
    }
}

/// The clause is live and holds the literals of the variables, in order.
pub open spec fn stands_for(c: Clause, vs: Seq<Variable>) -> bool {
    &&& c.live()
    &&& c.lits().len() == vs.len()
    &&& forall|k: int|
        0 <= k < vs.len() ==> (#[trigger] c.lits()[k]).var() == vs[k].id() && c.lits()[k].positive()
            == vs[k].positive()
}

/// Negating a variable keeps its id and flips its polarity.
pub broadcast proof fn lemma_variable_not(v: Variable)
    ensures
        #[trigger] v.not_spec().id() == v.id(),
        v.not_spec().positive() == !v.positive(),
{
}

/// The value a model gives the id: `None` when out of range or unassigned.
pub open spec fn model_value(m: Seq<TruthAssign>, id: usize) -> Option<bool> {
    if id < m.len() {
        sign_of(m[id as int])
    } else {
        None
    }
}

/// Some name has the id.
pub open spec fn named<T>(names: Map<T, usize>, id: int) -> bool {
    exists|x: T| #[trigger] names.contains_key(x) && names[x] == id
}

/// A solver over variables named by values of `T`: each new name gets the
/// next dense id, clauses are kept over ids, and the model of the last
/// successful `solve` answers queries by name.
pub struct SATSolver<T> {
    name_to_id: HashMap<T, usize>,
    id_to_name: HashMap<usize, T>,
    num_variables: usize,
    clauses: Vec<Clause>,
    model: Model,
}

impl<T: Clone + Eq + Hash> SATSolver<T> {
    /// The id of each name.
    pub closed spec fn names(&self) -> Map<T, usize> {
        self.name_to_id@
    }

    /// The name kept for each id.
    pub closed spec fn ids(&self) -> Map<usize, T> {
        self.id_to_name@
    }

    /// The number of variables named so far.
    pub closed spec fn num_vars(&self) -> nat {
        self.num_variables as nat
    }

    /// The clauses added so far, over ids.
    pub closed spec fn clause_seq(&self) -> Seq<Clause> {
        self.clauses@
    }

    /// The model of the last successful `solve`.
    pub closed spec fn model_view(&self) -> Seq<TruthAssign> {
        self.model@
    }

    /// The names and ids agree: distinct names have distinct ids, and the ids
    /// in use are exactly `0..num_vars()`.
    pub open spec fn names_ok(&self) -> bool {
        &&& forall|x: T| #[trigger] self.names().contains_key(x) ==> self.names()[x] < self.num_vars()
        &&& forall|x: T, y: T|
            #[trigger] self.names().contains_key(x) && #[trigger] self.names().contains_key(y)
                && self.names()[x] == self.names()[y] ==> x == y
        &&& forall|id: int| 0 <= id < self.num_vars() ==> #[trigger] named(self.names(), id)
        &&& forall|x: T| #[trigger] self.names().contains_key(x) ==> cloned(x, self.ids()[self.names()[x]])
    }

    pub open spec fn wf(&self) -> bool {
        &&& in_range(self.clause_seq(), self.num_vars())
        &&& forall|j: int| 0 <= j < self.clause_seq().len() ==> (#[trigger] self.clause_seq()[j]).live()
        &&& forall|id: usize| #[trigger] self.ids().contains_key(id) <==> id < self.num_vars()
        &&& obeys_key_model::<T>() ==> self.names_ok()
    }

    pub fn new() -> (r: SATSolver<T>)
        ensures
            r.wf(),
            r.num_vars() == 0,
            r.clause_seq().len() == 0,
            r.model_view().len() == 0,
            obeys_key_model::<T>() ==> r.names() == Map::<T, usize>::empty(),
    {
        SATSolver {
            num_variables: 0,
            clauses: Vec::new(),
            name_to_id: HashMap::new(),
            id_to_name: HashMap::new(),
            model: Model::new(0),
        }
    }

    /// The variable named `name`, positive; a new name gets the next id.
    pub fn variable(&mut self, name: T) -> (r: Variable)
        requires
            old(self).wf(),
            old(self).num_vars() < usize::MAX,
        ensures
            final(self).wf(),
            r.positive(),
            final(self).clause_seq() == old(self).clause_seq(),
            final(self).model_view() == old(self).model_view(),
            old(self).num_vars() <= final(self).num_vars() <= old(self).num_vars() + 1,
            obeys_key_model::<T>() ==> {
                &&& old(self).names().contains_key(name) ==> {
                    &&& final(self).names() == old(self).names()
                    &&& final(self).ids() == old(self).ids()
                    &&& final(self).num_vars() == old(self).num_vars()
                    &&& r.id() == old(self).names()[name]
                }
                &&& !old(self).names().contains_key(name) ==> {
                    &&& final(self).names() == old(self).names().insert(name, old(self).num_vars() as usize)
                    &&& final(self).num_vars() == old(self).num_vars() + 1
                    &&& r.id() == old(self).num_vars()
                    &&& final(self).ids() == old(self).ids().insert(r.id(), final(self).ids()[r.id()])
                    &&& cloned(name, final(self).ids()[r.id()])
                }
            },
    {
        let found: Option<usize> = match self.name_to_id.get(&name) {
            Some(id) => Some(*id),
            None => None,
        };
        match found {
            Some(id) => Variable { id, sign: true },
            None => {
                let id = self.num_variables;
                let ghost old_names = self.name_to_id@;
                let stored = name.clone();
                self.id_to_name.insert(id, stored);
                self.name_to_id.insert(name, id);
                self.num_variables = id + 1;
                proof {
                    assert(in_range(self.clause_seq(), self.num_vars()));
                    assert(self.ids() == old(self).ids().insert(id, self.ids()[id]));
                    assert(forall|i: usize| #[trigger] self.ids().contains_key(i) <==> i < self.num_vars());
                    if obeys_key_model::<T>() {
                        assert(old_names == old(self).names());
                        assert(old(self).names_ok());
                        assert(forall|i: int| 0 <= i < old(self).num_vars() ==> #[trigger] named(old_names, i));
                        assert forall|i: int| 0 <= i < self.num_vars() implies #[trigger] named(self.names(), i) by {
                            if i < id {
                                assert(named(old_names, i));
                                let x = choose|x: T| #[trigger] old_names.contains_key(x) && old_names[x] == i;
                                assert(self.names().contains_key(x) && self.names()[x] == i);
                            } else {
                                assert(self.names().contains_key(name) && self.names()[name] == i);
                            }
                        }
                    }
                }
                Variable { id, sign: true }
            },
        }
    }

    /// Adds the clause over the given variables. An empty clause is kept as
    /// an empty live clause, which no assignment satisfies.
    pub fn add_clause(&mut self, clause: &[Variable])
        requires
            old(self).wf(),
            forall|k: int| 0 <= k < clause@.len() ==> (#[trigger] clause@[k]).id() < old(self).num_vars(),
        ensures
            final(self).wf(),
            final(self).names() == old(self).names(),
            final(self).ids() == old(self).ids(),
            final(self).num_vars() == old(self).num_vars(),
            final(self).model_view() == old(self).model_view(),
            final(self).clause_seq() == old(self).clause_seq().push(final(self).clause_seq().last()),
            stands_for(final(self).clause_seq().last(), clause@),
    {
        let mut literals: Vec<Literal> = Vec::new();
        let mut k: usize = 0;
        while k < clause.len()
            invariant
                k <= clause@.len(),
                literals@.len() == k,
                forall|i: int| 0 <= i < k ==> {
                    &&& (#[trigger] literals@[i]).var() == clause@[i].id()
                    &&& literals@[i].positive() == clause@[i].positive()
                },
            decreases clause@.len() - k,
        {
            let v = clause[k];
            literals.push(Literal::new(v.id, v.sign));
            k = k + 1;
        }
        let c = Clause::from_literals(&literals);
        self.clauses.push(c);
        proof {
            assert(self.clause_seq() =~= old(self).clause_seq().push(self.clause_seq().last()));
            assert forall|j: int, i: int|
                0 <= j < self.clause_seq().len() && 0 <= i < self.clause_seq()[j].lits().len() implies (
                #[trigger] self.clause_seq()[j].lits()[i]).var() < self.num_vars() by {
                if j < old(self).clause_seq().len() {
                    assert(self.clause_seq()[j] == old(self).clause_seq()[j]);
                } else {
                    assert(self.clause_seq()[j].lits()[i] == literals@[i]);
                }
            }
            assert(in_range(self.clause_seq(), self.num_vars()));
            assert forall|j: int| 0 <= j < self.clause_seq().len() implies (#[trigger] self.clause_seq()[j]).live() by {
                if j < old(self).clause_seq().len() {
                    assert(self.clause_seq()[j] == old(self).clause_seq()[j]);
                }
            }
            assert(self.ids() == old(self).ids());
            assert(self.names() == old(self).names());
            if obeys_key_model::<T>() {
                assert(old(self).names_ok());
                assert(self.num_vars() == old(self).num_vars());
                assert(forall|x: T| #[trigger] self.names().contains_key(x) ==> self.names()[x] < self.num_vars());
                assert(self.names_ok());
            }
        }
    }

    /// Adds each clause in turn.
    pub fn add_clauses(&mut self, clauses: &[Vec<Variable>])
        requires
            old(self).wf(),
            forall|j: int, k: int|
                0 <= j < clauses@.len() && 0 <= k < clauses@[j]@.len() ==> (#[trigger] clauses@[j]@[k]).id()
                    < old(self).num_vars(),
        ensures
            final(self).wf(),
            final(self).names() == old(self).names(),
            final(self).ids() == old(self).ids(),
            final(self).num_vars() == old(self).num_vars(),
            final(self).model_view() == old(self).model_view(),
            final(self).clause_seq().len() == old(self).clause_seq().len() + clauses@.len(),
            forall|j: int|
                0 <= j < old(self).clause_seq().len() ==> #[trigger] final(self).clause_seq()[j] == old(
                    self,
                ).clause_seq()[j],
            forall|j: int|
                0 <= j < clauses@.len() ==> stands_for(
                    #[trigger] final(self).clause_seq()[old(self).clause_seq().len() + j],
                    clauses@[j]@,
                ),
    {
        let mut i: usize = 0;
        while i < clauses.len()
            invariant
                i <= clauses@.len(),
                self.wf(),
                self.names() == old(self).names(),
                self.ids() == old(self).ids(),
                self.num_vars() == old(self).num_vars(),
                self.model_view() == old(self).model_view(),
                forall|j: int, k: int|
                    0 <= j < clauses@.len() && 0 <= k < clauses@[j]@.len() ==> (#[trigger] clauses@[j]@[k]).id()
                        < old(self).num_vars(),
                self.clause_seq().len() == old(self).clause_seq().len() + i,
                forall|j: int|
                    0 <= j < old(self).clause_seq().len() ==> #[trigger] self.clause_seq()[j] == old(
                        self,
                    ).clause_seq()[j],
                forall|j: int|
                    0 <= j < i ==> stands_for(
                        #[trigger] self.clause_seq()[old(self).clause_seq().len() + j],
                        clauses@[j]@,
                    ),
            decreases clauses@.len() - i,
        {
            let ghost before = self.clause_seq();
            self.add_clause(clauses[i].as_slice());
            proof {
                assert forall|j: int| 0 <= j < i + 1 implies stands_for(
                    #[trigger] self.clause_seq()[old(self).clause_seq().len() + j],
                    clauses@[j]@,
                ) by {
                    if j < i {
                        assert(self.clause_seq()[old(self).clause_seq().len() + j] == before[old(self).clause_seq().len() + j]);
                    }
                }
            }
            i = i + 1;
        }
    }

    /// Decides the clauses added so far over the ids `0..num_vars()`. On
    /// success the model becomes a total one that satisfies every clause; on
    /// failure it is left as it was.
    pub fn solve(&mut self) -> (r: bool)
        requires
            old(self).wf(),
        ensures
            final(self).wf(),
            final(self).names() == old(self).names(),
            final(self).ids() == old(self).ids(),
            final(self).num_vars() == old(self).num_vars(),
            final(self).clause_seq() == old(self).clause_seq(),
            r == satisfiable(old(self).clause_seq(), old(self).num_vars()),
            r ==> {
                &&& final(self).model_view().len() == old(self).num_vars()
                &&& total(final(self).model_view())
                &&& satisfies(assignment_of(final(self).model_view()), old(self).clause_seq())
            },
            !r ==> final(self).model_view() == old(self).model_view(),
    {
        let mut solver = DPLL::new();
        match solver.solve(self.num_variables, self.clauses.as_slice()) {
            Some(model) => {
                self.model = model;
                proof {
                    assert(self.names() == old(self).names());
                    assert(self.ids() == old(self).ids());
                    assert(self.clause_seq() == old(self).clause_seq());
                    assert(self.num_vars() == old(self).num_vars());
                    if obeys_key_model::<T>() {
                        assert(old(self).names_ok());
                        assert(forall|i: int| 0 <= i < old(self).num_vars() ==> #[trigger] named(old(self).names(), i));
                    }
                }
                true
            },
            None => false,
        }
    }

    /// The value of the variable in the model; `None` when it has none.
    pub fn get_model_value(&self, variable: &Variable) -> (r: Option<bool>)
        ensures
            r == model_value(self.model_view(), variable.id()),
    {
        self.get_model_value_from_id(&variable.id)
    }

    /// The value of the variable named `name` in the model; `None` for an
    /// unknown name or an unassigned variable.
    pub fn get_model_value_from_name(&self, name: &T) -> (r: Option<bool>)
        ensures
            obeys_key_model::<T>() ==> r == if self.names().contains_key(*name) {
                model_value(self.model_view(), self.names()[*name])
            } else {
                None
            },
    {
        match self.name_to_id.get(name) {
            Some(id) => self.get_model_value_from_id(id),
            None => None,
        }
    }

    fn get_model_value_from_id(&self, id: &usize) -> (r: Option<bool>)
        ensures
            r == model_value(self.model_view(), *id),
    {
        self.model.sign(*id)
    }

    /// The name of the variable; `None` for an id this solver never gave.
    pub fn get_variable_name(&self, variable: &Variable) -> (r: Option<&T>)
        ensures
            r matches Some(n) ==> self.ids().contains_key(variable.id()) && *n == self.ids()[variable.id()],
            r.is_none() <==> !self.ids().contains_key(variable.id()),
    {
        match self.id_to_name.get(&variable.id) {
            Some(name) => Some(name),
            None => None,
        }
    }
}

} // verus!
