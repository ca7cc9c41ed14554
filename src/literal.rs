use vstd::prelude::*;

use vstd::std_specs::ops::NotSpec;

verus! {

/// A signed reference to a variable: the variable's id and its polarity.
#[derive(Clone, Copy, Debug, PartialEq, Eq, Structural)]
pub struct Literal {
    variable: usize,
    sign: bool,
}

impl Literal {
    /// The variable the literal refers to.
    pub closed spec fn var(self) -> nat {
        self.variable as nat
    }

    /// The literal is the variable itself, not its negation.
    pub closed spec fn positive(self) -> bool {
        self.sign
    }

    pub fn new(variable: usize, sign: bool) -> (r: Literal)
        ensures
            r.var() == variable,
            r.positive() == sign,
    {
        Literal { variable, sign }
    }

    pub fn variable(&self) -> (r: usize)
        ensures
            r == self.var(),
    {
        self.variable
    }

    pub fn sign(&self) -> (r: bool)
        ensures
            r == self.positive(),
    {
        self.sign
    }
}

impl core::ops::Not for Literal {
    type Output = Literal;

    /// The same variable with the opposite polarity.
    fn not(self) -> (r: Literal) {
        Literal { variable: self.variable, sign: !self.sign }
    }
}

impl vstd::std_specs::ops::NotSpecImpl for Literal {
    open spec fn obeys_not_spec() -> bool {
        true
    }

    open spec fn not_req(self) -> bool {
        true
    }

    closed spec fn not_spec(self) -> Literal {
        Literal { variable: self.variable, sign: !self.sign }
    }
}

/// Two literals are equal exactly when their variables and polarities are.
pub proof fn lemma_literal_eq(l1: Literal, l2: Literal)
    ensures
        (l1 == l2) == (l1.var() == l2.var() && l1.positive() == l2.positive()),
{
}

/// A literal's variable is a `usize`.
pub broadcast proof fn lemma_var_fits(l: Literal)
    ensures
        #[trigger] l.var() <= usize::MAX,
{
}

/// Negating a literal keeps its variable and flips its polarity.
pub broadcast proof fn lemma_literal_not(l: Literal)
    ensures
        #[trigger] l.not_spec().var() == l.var(),
        l.not_spec().positive() == !l.positive(),
{
}

} // verus!
