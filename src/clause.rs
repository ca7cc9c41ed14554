use vstd::prelude::*;

use crate::literal::Literal;

verus! {

/// Whether `l` holds under the total assignment `a` (variable `i` is `a[i]`).
pub open spec fn lit_holds(a: Seq<bool>, l: Literal) -> bool {
    l.var() < a.len() && a[l.var() as int] == l.positive()
}

/// Whether `l` is the literal `(variable, sign)`.
pub open spec fn is_lit(l: Literal, variable: usize, sign: bool) -> bool {
    l.var() == variable && l.positive() == sign
}

/// The literals that survive the assignment `variable := sign` in a clause
/// that it does not satisfy: all but `(variable, !sign)`.
pub open spec fn kept_by(variable: usize, sign: bool) -> spec_fn(Literal) -> bool {
    |l: Literal| !is_lit(l, variable, !sign)
}

/// A disjunction of literals, with two status flags: `has_deleted` once it is
/// satisfied by the current partial assignment, and `is_valid` cleared once it
/// has become empty (a conflict).
#[derive(Debug)]
pub struct Clause {
    literals: Vec<Literal>,
    is_valid: bool,
    has_deleted: bool,
}

impl Clause {
    /// The literals that remain.
    pub closed spec fn lits(self) -> Seq<Literal> {
        self.literals@
    }

    /// The clause has not become falsified.
    pub closed spec fn valid(self) -> bool {
        self.is_valid
    }

    /// The clause has been satisfied.
    pub closed spec fn deleted(self) -> bool {
        self.has_deleted
    }

    /// Neither satisfied nor falsified: still constrains the search.
    pub open spec fn live(self) -> bool {
        self.valid() && !self.deleted()
    }

    pub open spec fn has_lit(self, variable: usize, sign: bool) -> bool {
        exists|i: int| 0 <= i < self.lits().len() && is_lit(#[trigger] self.lits()[i], variable, sign)
    }

    /// The truth of the clause under the total assignment `a`: a falsified
    /// clause does not hold, a satisfied one does, a live one holds when one
    /// of its literals does.
    pub open spec fn holds(self, a: Seq<bool>) -> bool {
        self.valid() && (self.deleted() || exists|i: int|
            0 <= i < self.lits().len() && lit_holds(a, #[trigger] self.lits()[i]))
    }

    /// An empty clause that is already satisfied.
    pub fn new() -> (r: Clause)
        ensures
            r.lits().len() == 0,
            r.valid(),
            r.deleted(),
    {
        Clause { literals: Vec::new(), is_valid: true, has_deleted: true }
    }

    /// A live clause over the given literals.
    pub fn from_literals(literals: &Vec<Literal>) -> (r: Clause)
        ensures
            r.lits() == literals@,
            r.valid(),
            !r.deleted(),
    {
        let mut v: Vec<Literal> = Vec::new();
        let mut i: usize = 0;
        while i < literals.len()
            invariant
                i <= literals.len(),
                v@ == literals@.take(i as int),
            decreases literals.len() - i,
        {
            v.push(literals[i]);
            i = i + 1;
            assert(v@ =~= literals@.take(i as int));
        }
        assert(v@ =~= literals@);
        Clause { literals: v, is_valid: true, has_deleted: false }
    }

    pub fn get(&self, index: usize) -> (r: Option<&Literal>)
        ensures
            index < self.lits().len() ==> r == Some(&self.lits()[index as int]),
            index >= self.lits().len() ==> r.is_none(),
    {
        if index < self.literals.len() {
            Some(&self.literals[index])
        } else {
            None
        }
    }

    pub fn get_mut(&mut self, index: usize) -> (r: Option<&mut Literal>)
        ensures
            index < old(self).lits().len() ==> (r matches Some(x) && *x == old(self).lits()[index as int]),
            index >= old(self).lits().len() ==> r is None,
    {
        if index < self.literals.len() {
            Some(&mut self.literals[index])
        } else {
            None
        }
    }

    pub fn is_empty(&self) -> (r: bool)
        ensures
            r == (self.lits().len() == 0),
    {
        self.literals.len() == 0
    }

    pub fn len(&self) -> (r: usize)
        ensures
            r == self.lits().len(),
    {
        self.literals.len()
    }

    pub fn is_valid(&self) -> (r: bool)
        ensures
            r == self.valid(),
    {
        self.is_valid
    }

    pub fn has_deleted(&self) -> (r: bool)
        ensures
            r == self.deleted(),
    {
        self.has_deleted
    }

    /// Exactly one literal remains and the clause is live: that literal is forced.
    pub fn is_unit(&self) -> (r: bool)
        ensures
            r == (self.live() && self.lits().len() == 1),
    {
        self.is_valid && !self.has_deleted && self.literals.len() == 1
    }

    /// The two clauses hold the same literals and the same flags.
    pub open spec fn same(self, other: Clause) -> bool {
        &&& self.lits() == other.lits()
        &&& self.valid() == other.valid()
        &&& self.deleted() == other.deleted()
    }

    /// `next` is what `self` becomes under the assignment `variable := sign`.
    pub open spec fn assigns(self, next: Clause, variable: usize, sign: bool) -> bool {
        &&& !self.live() ==> next.same(self)
        &&& self.live() && self.has_lit(variable, sign) ==> {
            &&& next.deleted()
            &&& next.valid()
            &&& next.lits().len() == 0
        }
        &&& self.live() && !self.has_lit(variable, sign) ==> {
            &&& !next.deleted()
            &&& next.lits() == self.without_opposite(variable, sign)
            &&& next.valid() == (next.lits().len() > 0)
        }
    }

    /// The clause is falsified, or becomes so under `variable := sign`.
    pub open spec fn falsified_by(self, variable: usize, sign: bool) -> bool {
        !self.valid() || (self.live() && !self.has_lit(variable, sign) && self.without_opposite(
            variable,
            sign,
        ).len() == 0)
    }

    /// The literals that remain once `(variable, !sign)` is struck out.
    pub open spec fn without_opposite(self, variable: usize, sign: bool) -> Seq<Literal> {
        self.lits().filter(kept_by(variable, sign))
    }

    /// Applies the assignment `variable := sign`: a clause that contains
    /// `(variable, sign)` becomes satisfied and empty; otherwise every
    /// `(variable, !sign)` is struck out, and a clause left empty is falsified.
    /// A satisfied or falsified clause is left as it is.
    pub fn assign(&mut self, variable: usize, sign: bool)
        ensures
            old(self).assigns(*final(self), variable, sign),
    {
        if self.has_deleted || !self.is_valid {
            return;
        }
        let mut i: usize = 0;
        while i < self.literals.len()
            invariant
                i <= self.literals.len(),
                *self == *old(self),
                self.is_valid,
                !self.has_deleted,
                forall|j: int| 0 <= j < i ==> !is_lit(#[trigger] self.literals@[j], variable, sign),
            decreases self.literals.len() - i,
        {
            let l = self.literals[i];
            if l.variable() == variable && l.sign() == sign {
                assert(is_lit(old(self).lits()[i as int], variable, sign));
                self.literals = Vec::new();
                self.has_deleted = true;
                return;
            }
            i = i + 1;
        }
        let mut kept: Vec<Literal> = Vec::new();
        let mut k: usize = 0;
        while k < self.literals.len()
            invariant
                k <= self.literals.len(),
                *self == *old(self),
                kept@ == self.literals@.take(k as int).filter(kept_by(variable, sign)),
            decreases self.literals.len() - k,
        {
            let l = self.literals[k];
            proof {
                assert(self.literals@.take(k + 1) =~= self.literals@.take(k as int).push(l));
                self.literals@.take(k as int).lemma_filter_push(l, kept_by(variable, sign));
            }
            if !(l.variable() == variable && l.sign() == !sign) {
                kept.push(l);
            }
            k = k + 1;
        }
        assert(self.literals@.take(self.literals@.len() as int) =~= self.literals@);
        self.literals = kept;
        if self.literals.len() == 0 {
            self.is_valid = false;
        }
    }
}

impl Clone for Clause {
    fn clone(&self) -> (r: Clause)
        ensures
            r.same(*self),
    {
        let mut v: Vec<Literal> = Vec::new();
        let mut i: usize = 0;
        while i < self.literals.len()
            invariant
                i <= self.literals.len(),
                v@ == self.literals@.take(i as int),
            decreases self.literals.len() - i,
        {
            v.push(self.literals[i]);
            i = i + 1;
            assert(v@ =~= self.literals@.take(i as int));
        }
        assert(v@ =~= self.literals@);
        Clause { literals: v, is_valid: self.is_valid, has_deleted: self.has_deleted }
    }
}

/// Under any total assignment that gives `variable` the value `sign`, a clause
/// and what it becomes under `variable := sign` have the same truth.
pub proof fn lemma_assign_keeps_truth(c: Clause, d: Clause, variable: usize, sign: bool, a: Seq<bool>)
    requires
        c.assigns(d, variable, sign),
        variable < a.len(),
        a[variable as int] == sign,
    ensures
        d.holds(a) == c.holds(a),
{
    broadcast use vstd::seq_lib::group_filter_ensures;

    if c.live() && !c.has_lit(variable, sign) {
        let f = kept_by(variable, sign);
        if c.holds(a) {
            let i = choose|i: int| 0 <= i < c.lits().len() && lit_holds(a, #[trigger] c.lits()[i]);
            assert(f(c.lits()[i]));
            assert(c.lits().filter(f).contains(c.lits()[i]));
            let j = choose|j: int| 0 <= j < d.lits().len() && d.lits()[j] == c.lits()[i];
            assert(lit_holds(a, d.lits()[j]));
        }
        if d.holds(a) {
            let j = choose|j: int| 0 <= j < d.lits().len() && lit_holds(a, #[trigger] d.lits()[j]);
            assert(c.lits().filter(f).contains(d.lits()[j]));
            c.lits().lemma_filter_contains_rev(f, d.lits()[j]);
        }
    }
}

/// A clause that `variable := sign` leaves live keeps only literals it had,
/// none of them on `variable`.
pub proof fn lemma_assign_strikes_variable(c: Clause, d: Clause, variable: usize, sign: bool)
    requires
        c.assigns(d, variable, sign),
        d.live(),
    ensures
        c.live(),
        forall|j: int| 0 <= j < d.lits().len() ==> {
            &&& c.lits().contains(#[trigger] d.lits()[j])
            &&& d.lits()[j].var() != variable
        },
{
    broadcast use vstd::seq_lib::group_filter_ensures;

    assert forall|j: int| 0 <= j < d.lits().len() implies {
        &&& c.lits().contains(#[trigger] d.lits()[j])
        &&& d.lits()[j].var() != variable
    } by {
        c.lits().lemma_filter_contains_rev(kept_by(variable, sign), d.lits()[j]);
        if d.lits()[j].var() == variable {
            let i = choose|i: int| 0 <= i < c.lits().len() && c.lits()[i] == d.lits()[j];
            if d.lits()[j].positive() == sign {
                assert(is_lit(c.lits()[i], variable, sign));
            }
        }
    }
}

/// What an assignment leaves of a clause holds only literals it had.
pub proof fn lemma_assign_keeps_lits(c: Clause, d: Clause, variable: usize, sign: bool)
    requires
        c.assigns(d, variable, sign),
    ensures
        forall|k: int| 0 <= k < d.lits().len() ==> c.lits().contains(#[trigger] d.lits()[k]),
{
    broadcast use vstd::seq_lib::group_filter_ensures;

    assert forall|k: int| 0 <= k < d.lits().len() implies c.lits().contains(#[trigger] d.lits()[k]) by {
        if !c.live() {
            assert(c.lits()[k] == d.lits()[k]);
        } else if !c.has_lit(variable, sign) {
            c.lits().lemma_filter_contains_rev(kept_by(variable, sign), d.lits()[k]);
        }
    }
}

/// A satisfied clause stays satisfied, whatever is assigned after.
pub proof fn lemma_satisfied_stays(c: Clause, d: Clause, variable: usize, sign: bool)
    requires
        c.deleted(),
        c.assigns(d, variable, sign),
    ensures
        d.deleted(),
        d.same(c),
{
}

} // verus!
