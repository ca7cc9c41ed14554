use vstd::prelude::*;

verus! {

/// The value a model gives one variable.
#[derive(Clone, Copy, Debug, PartialEq, Eq, Structural)]
pub enum TruthAssign {
    Flase,
    True,
    Unassigned,
}

/// A partial assignment over the variables `0..len`.
#[derive(Debug)]
pub struct Model {
    value: Vec<TruthAssign>,
}

impl View for Model {
    type V = Seq<TruthAssign>;

    closed spec fn view(&self) -> Seq<TruthAssign> {
        self.value@
    }
}

/// The model value that stands for `sign`.
pub open spec fn truth(sign: bool) -> TruthAssign {
    if sign {
        TruthAssign::True
    } else {
        TruthAssign::Flase
    }
}

/// The sign a model value gives, if any.
pub open spec fn sign_of(t: TruthAssign) -> Option<bool> {
    match t {
        TruthAssign::Flase => Some(false),
        TruthAssign::True => Some(true),
        TruthAssign::Unassigned => None,
    }
}

impl Model {
    /// A model over `num_variables` variables, none of them assigned.
    pub fn new(num_variables: usize) -> (r: Model)
        ensures
            r@ == Seq::new(num_variables as nat, |i: int| TruthAssign::Unassigned),
    {
        let mut value: Vec<TruthAssign> = Vec::new();
        let mut i: usize = 0;
        while i < num_variables
            invariant
                i <= num_variables,
                value@ == Seq::new(i as nat, |j: int| TruthAssign::Unassigned),
            decreases num_variables - i,
        {
            value.push(TruthAssign::Unassigned);
            i = i + 1;
            assert(value@ =~= Seq::new(i as nat, |j: int| TruthAssign::Unassigned));
        }
        Model { value }
    }

    /// The number of variables the model ranges over.
    pub fn len(&self) -> (r: usize)
        ensures
            r == self@.len(),
    {
        self.value.len()
    }

    /// Whether `index` is a variable of the model that holds a value.
    pub fn has_assigned(&self, index: usize) -> (r: bool)
        ensures
            r == (index < self@.len() && self@[index as int] != TruthAssign::Unassigned),
    {
        if index < self.value.len() {
            self.value[index] != TruthAssign::Unassigned
        } else {
            false
        }
    }

    /// The value of `index`; `None` when it is unassigned or out of range.
    pub fn sign(&self, index: usize) -> (r: Option<bool>)
        ensures
            index < self@.len() ==> r == sign_of(self@[index as int]),
            index >= self@.len() ==> r.is_none(),
    {
        if index < self.value.len() {
            match self.value[index] {
                TruthAssign::Flase => Some(false),
                TruthAssign::True => Some(true),
                TruthAssign::Unassigned => None,
            }
        } else {
            None
        }
    }

    /// Sets `index` to `sign`; returns whether `index` is a variable of the
    /// model (the model is left as it is when not).
    pub fn assign(&mut self, index: usize, sign: bool) -> (r: bool)
        ensures
            r == (index < old(self)@.len()),
            r ==> final(self)@ == old(self)@.update(index as int, truth(sign)),
            !r ==> final(self)@ == old(self)@,
    {
        if index < self.value.len() {
            let t = if sign {
                TruthAssign::True
            } else {
                TruthAssign::Flase
            };
            self.value.set(index, t);
            true
        } else {
            false
        }
    }
}

impl Clone for Model {
    fn clone(&self) -> (r: Model)
        ensures
            r@ == self@,
    {
        let mut value: Vec<TruthAssign> = Vec::new();
        let mut i: usize = 0;
        while i < self.value.len()
            invariant
                i <= self.value.len(),
                value@ == self.value@.take(i as int),
            decreases self.value.len() - i,
        {
            value.push(self.value[i]);
            i = i + 1;
            assert(value@ =~= self.value@.take(i as int));
        }
        assert(value@ =~= self.value@);
        Model { value }
    }
}

} // verus!
