use vstd::prelude::*;

use core::ops::Not;

use crate::clause::{lit_holds, Clause};
use crate::dpll::{assignment_of, satisfiable, satisfies, total};
use crate::model::TruthAssign;
use vstd::std_specs::hash::obeys_key_model;

use crate::sat_solver::{lemma_variable_not, SATSolver, Variable};

verus! {

broadcast use vstd::std_specs::hash::group_hash_axioms;

/// A DIMACS literal `(variable, sign)` holds under `a`.
pub open spec fn dimacs_lit_true(a: spec_fn(int) -> bool, l: (usize, bool)) -> bool {
    a(l.0 as int) == l.1
}

/// Some literal of the clause holds under `a`.
pub open spec fn dimacs_clause_true(a: spec_fn(int) -> bool, c: Seq<(usize, bool)>) -> bool {
    exists|k: int| 0 <= k < c.len() && dimacs_lit_true(a, #[trigger] c[k])
}

/// Every clause has a literal that holds under `a`.
pub open spec fn dimacs_all_true(a: spec_fn(int) -> bool, cs: Seq<Vec<(usize, bool)>>) -> bool {
    forall|j: int| 0 <= j < cs.len() ==> dimacs_clause_true(a, #[trigger] cs[j]@)
}

/// Some assignment of the variables satisfies every clause.
pub open spec fn dimacs_satisfiable(cs: Seq<Vec<(usize, bool)>>) -> bool {
    exists|a: spec_fn(int) -> bool| dimacs_all_true(a, cs)
}

/// The number of literals over all clauses.
pub open spec fn total_lits(cs: Seq<Seq<(usize, bool)>>) -> nat
    decreases cs.len(),
{
    if cs.len() == 0 {
        0
    } else {
        total_lits(cs.drop_last()) + cs.last().len()
    }
}

pub open spec fn clause_views(cs: Seq<Vec<(usize, bool)>>) -> Seq<Seq<(usize, bool)>> {
    cs.map_values(|c: Vec<(usize, bool)>| c@)
}

/// The number of literals over all clauses.
pub open spec fn flat_len(cs: Seq<Vec<(usize, bool)>>) -> nat {
    total_lits(clause_views(cs))
}

/// The clause over ids stands for the DIMACS clause under the name map.
pub open spec fn encodes(c: Clause, d: Seq<(usize, bool)>, names: Map<usize, usize>) -> bool {
    &&& c.live()
    &&& c.lits().len() == d.len()
    &&& forall|k: int| 0 <= k < d.len() ==> names.contains_key(#[trigger] d[k].0)
    &&& forall|k: int|
        0 <= k < d.len() ==> {
            &&& (#[trigger] c.lits()[k]).var() == names[d[k].0]
            &&& c.lits()[k].positive() == d[k].1
        }
}

/// Every name of `m1` keeps its id in `m2`.
pub open spec fn grows(m1: Map<usize, usize>, m2: Map<usize, usize>) -> bool {
    forall|x: usize| #[trigger] m1.contains_key(x) ==> m2.contains_key(x) && m2[x] == m1[x]
}

/// The names `1..=n` with the ids `0..n`.
pub open spec fn first_names(n: int) -> Map<usize, usize> {
    Map::new(|x: usize| 1 <= x <= n, |x: usize| (x - 1) as usize)
}

/// A name with the id, when there is one.
pub open spec fn name_of(names: Map<usize, usize>, id: int) -> usize {
    choose|x: usize| names.contains_key(x) && names[x] == id
}

/// The assignment of DIMACS variables that a model over ids stands for.
pub open spec fn assignment_by_name(names: Map<usize, usize>, a: Seq<bool>) -> spec_fn(int) -> bool {
    |x: int| 0 <= x <= usize::MAX && names.contains_key(x as usize) && names[x as usize] < a.len() && a[names[x as usize] as int]
}

proof fn lemma_flat_len_take(cs: Seq<Vec<(usize, bool)>>, j: int)
    requires
        0 <= j < cs.len(),
    ensures
        flat_len(cs.take(j + 1)) == flat_len(cs.take(j)) + cs[j]@.len(),
        flat_len(cs.take(j + 1)) <= flat_len(cs),
    decreases cs.len(),
{
    assert(clause_views(cs.take(j + 1)).drop_last() =~= clause_views(cs.take(j)));
    if j + 1 < cs.len() {
        lemma_flat_len_take(cs.drop_last(), j);
        assert(cs.drop_last().take(j + 1) =~= cs.take(j + 1));
        assert(clause_views(cs).drop_last() =~= clause_views(cs.drop_last()));
    } else {
        assert(cs.take(j + 1) =~= cs);
    }
}

proof fn lemma_encodes_grows(c: Clause, d: Seq<(usize, bool)>, m1: Map<usize, usize>, m2: Map<usize, usize>)
    requires
        encodes(c, d, m1),
        grows(m1, m2),
    ensures
        encodes(c, d, m2),
{
    assert forall|k: int| 0 <= k < d.len() implies #[trigger] m2.contains_key(d[k].0) && m2[d[k].0] == m1[d[k].0] by {
        assert(c.lits()[k].var() == m1[d[k].0]);
        let x = d[k].0;
        assert(m1.contains_key(x));
        assert(m2.contains_key(x));
    }
}

/// A satisfying assignment of the DIMACS clauses gives one of their clauses
/// over ids, when distinct names have distinct ids.
proof fn lemma_dimacs_to_ids(
    a: spec_fn(int) -> bool,
    ds: Seq<Vec<(usize, bool)>>,
    cs: Seq<Clause>,
    names: Map<usize, usize>,
    n: nat,
)
    requires
        dimacs_all_true(a, ds),
        cs.len() == ds.len(),
        forall|j: int| 0 <= j < ds.len() ==> encodes(#[trigger] cs[j], ds[j]@, names),
        forall|x: usize| #[trigger] names.contains_key(x) ==> names[x] < n,
        forall|x: usize, y: usize|
            #[trigger] names.contains_key(x) && #[trigger] names.contains_key(y) && names[x] == names[y] ==> x == y,
    ensures
        satisfies(Seq::new(n, |id: int| a(name_of(names, id) as int)), cs),
{
    let b = Seq::new(n, |id: int| a(name_of(names, id) as int));
    assert forall|j: int| 0 <= j < cs.len() implies #[trigger] cs[j].holds(b) by {
        assert(dimacs_clause_true(a, ds[j]@));
        let k = choose|k: int| 0 <= k < ds[j]@.len() && dimacs_lit_true(a, #[trigger] ds[j]@[k]);
        let v = ds[j]@[k].0;
        assert(encodes(cs[j], ds[j]@, names));
        assert(cs[j].lits()[k].var() == names[v]);
        let id = names[v] as int;
        assert(names.contains_key(v) && names[v] == id);
        let x = name_of(names, id);
        assert(names.contains_key(x) && names[x] == id);
        assert(x == v);
        assert(lit_holds(b, cs[j].lits()[k]));
    }
}

/// A satisfying model over ids gives a satisfying assignment of the DIMACS
/// clauses.
proof fn lemma_ids_to_dimacs(
    b: Seq<bool>,
    ds: Seq<Vec<(usize, bool)>>,
    cs: Seq<Clause>,
    names: Map<usize, usize>,
)
    requires
        satisfies(b, cs),
        cs.len() == ds.len(),
        forall|j: int| 0 <= j < ds.len() ==> encodes(#[trigger] cs[j], ds[j]@, names),
    ensures
        dimacs_all_true(assignment_by_name(names, b), ds),
{
    let a = assignment_by_name(names, b);
    assert forall|j: int| 0 <= j < ds.len() implies dimacs_clause_true(a, #[trigger] ds[j]@) by {
        assert(cs[j].holds(b));
        assert(encodes(cs[j], ds[j]@, names));
        let k = choose|k: int| 0 <= k < cs[j].lits().len() && lit_holds(b, #[trigger] cs[j].lits()[k]);
        assert(dimacs_lit_true(a, ds[j]@[k]));
    }
}

/// Whether `char::is_whitespace` holds of the character.
pub uninterp spec fn white(c: char) -> bool;

/// Relies on `char::is_whitespace`: the Unicode White_Space property, a
/// function of the character alone.
#[verifier::external_body]
fn is_white(c: char) -> (r: bool)
    ensures
        r == white(c),
{
    c.is_whitespace()
}

/// The words of `s` from position `i` on, split at whitespace, given the word
/// `cur` read so far and the words `acc` before it.
pub open spec fn words_from(s: Seq<char>, i: int, cur: Seq<char>, acc: Seq<Seq<char>>) -> Seq<Seq<char>>
    decreases s.len() - i,
{
    if i >= s.len() {
        if cur.len() > 0 {
            acc.push(cur)
        } else {
            acc
        }
    } else if white(s[i]) {
        words_from(s, i + 1, Seq::empty(), if cur.len() > 0 {
            acc.push(cur)
        } else {
            acc
        })
    } else {
        words_from(s, i + 1, cur.push(s[i]), acc)
    }
}

/// The whitespace-separated words of a line.
pub open spec fn words(s: Seq<char>) -> Seq<Seq<char>> {
    words_from(s, 0, Seq::empty(), Seq::empty())
}

pub open spec fn word_views(ws: Seq<Vec<char>>) -> Seq<Seq<char>> {
    ws.map_values(|w: Vec<char>| w@)
}

/// Splits the line into its whitespace-separated words.
fn split_words(line: &str) -> (r: Vec<Vec<char>>)
    ensures
        word_views(r@) == words(line@),
{
    let n = line.unicode_len();
    let mut acc: Vec<Vec<char>> = Vec::new();
    let mut cur: Vec<char> = Vec::new();
    let mut i: usize = 0;
    assert(word_views(acc@) =~= Seq::<Seq<char>>::empty());
    while i < n
        invariant
            n == line@.len(),
            i <= n,
            words(line@) == words_from(line@, i as int, cur@, word_views(acc@)),
        decreases n - i,
    {
        let c = line.get_char(i);
        if is_white(c) {
            if cur.len() > 0 {
                let ghost before = word_views(acc@);
                acc.push(cur);
                assert(word_views(acc@) =~= before.push(cur@));
            }
            cur = Vec::new();
            assert(cur@ =~= Seq::<char>::empty());
        } else {
            cur.push(c);
        }
        i = i + 1;
    }
    if cur.len() > 0 {
        let ghost before = word_views(acc@);
        acc.push(cur);
        assert(word_views(acc@) =~= before.push(cur@));
    }
    acc
}

pub open spec fn is_digit(c: char) -> bool {
    '0' <= c <= '9'
}

/// The value of a string of decimal digits.
pub open spec fn digits_value(s: Seq<char>) -> nat
    decreases s.len(),
{
    if s.len() == 0 {
        0
    } else {
        digits_value(s.drop_last()) * 10 + (s.last() as nat - '0' as nat) as nat
    }
}

/// A nonempty string of decimal digits.
pub open spec fn all_digits(s: Seq<char>) -> bool {
    s.len() > 0 && forall|i: int| 0 <= i < s.len() ==> is_digit(#[trigger] s[i])
}

/// The value of an unsigned decimal with an optional `+`.
pub open spec fn unsigned_value(s: Seq<char>) -> Option<nat> {
    let t = if s.len() > 0 && s[0] == '+' {
        s.drop_first()
    } else {
        s
    };
    if all_digits(t) {
        Some(digits_value(t))
    } else {
        None
    }
}

/// The value of a decimal with an optional `+` or `-`.
pub open spec fn signed_value(s: Seq<char>) -> Option<int> {
    if s.len() > 0 && s[0] == '-' {
        if all_digits(s.drop_first()) {
            Some(-digits_value(s.drop_first()))
        } else {
            None
        }
    } else {
        match unsigned_value(s) {
            Some(v) => Some(v as int),
            None => None,
        }
    }
}

proof fn lemma_digits_prefix(t: Seq<char>, i: int)
    requires
        0 <= i <= t.len(),
        forall|k: int| 0 <= k < t.len() ==> is_digit(#[trigger] t[k]),
    ensures
        digits_value(t.take(i)) <= digits_value(t),
    decreases t.len() - i,
{
    if i < t.len() {
        lemma_digits_prefix(t, i + 1);
        assert(t.take(i + 1).drop_last() =~= t.take(i));
    } else {
        assert(t.take(i) =~= t);
    }
}

/// The value of the digits `w[start..]` when they are all decimal digits, at
/// least one, with a value of at most `limit`.
fn parse_digits(w: &Vec<char>, start: usize, limit: u64) -> (r: Option<u64>)
    requires
        start <= w@.len(),
    ensures
        ({
            let t = w@.skip(start as int);
            r == if all_digits(t) && digits_value(t) <= limit {
                Some(digits_value(t) as u64)
            } else {
                None::<u64>
            }
        }),
{
    let ghost t = w@.skip(start as int);
    if start >= w.len() {
        return None;
    }
    let mut value: u64 = 0;
    let mut i: usize = start;
    while i < w.len()
        invariant
            start <= i <= w@.len(),
            t == w@.skip(start as int),
            forall|k: int| 0 <= k < i - start ==> is_digit(#[trigger] t[k]),
            value == digits_value(t.take(i - start)),
            value <= limit,
        decreases w@.len() - i,
    {
        let c = w[i];
        if !('0' <= c && c <= '9') {
            assert(!is_digit(t[i - start]));
            return None;
        }
        let d = (c as u32 - '0' as u32) as u64;
        assert(t.take(i - start + 1).drop_last() =~= t.take(i - start));
        if d > limit || value > (limit - d) / 10 {
            proof {
                if d <= limit {
                    assert(value * 10 + d > limit) by (nonlinear_arith)
                        requires value > (limit - d) / 10, d <= limit;
                }
                if forall|k: int| 0 <= k < t.len() ==> is_digit(#[trigger] t[k]) {
                    lemma_digits_prefix(t, i - start + 1);
                }
            }
            return None;
        }
        assert(value * 10 + d <= limit) by (nonlinear_arith)
            requires value <= (limit - d) / 10, d <= limit;
        value = value * 10 + d;
        i = i + 1;
    }
    assert(t.take(t.len() as int) =~= t);
    Some(value)
}

/// The unsigned value of the word, when it is one that fits a `usize`.
fn parse_unsigned(w: &Vec<char>) -> (r: Option<usize>)
    ensures
        r == match unsigned_value(w@) {
            Some(v) => if v <= usize::MAX {
                Some(v as usize)
            } else {
                None::<usize>
            },
            None => None::<usize>,
        },
{
    let start: usize = if w.len() > 0 && w[0] == '+' {
        1
    } else {
        0
    };
    assert(w@.skip(1) =~= w@.drop_first());
    assert(w@.skip(0) =~= w@);
    match parse_digits(w, start, usize::MAX as u64) {
        Some(v) => Some(v as usize),
        None => None,
    }
}

/// The largest variable a literal may name: its negation must fit an `i64`.
pub open spec fn max_variable() -> nat {
    if usize::MAX < i64::MAX {
        usize::MAX as nat
    } else {
        i64::MAX as nat
    }
}

/// The literal a word stands for: a nonzero decimal `v` names variable `|v|`,
/// positive when `v > 0`.
pub open spec fn lit_value(w: Seq<char>) -> Option<(usize, bool)> {
    match signed_value(w) {
        Some(v) => if v != 0 && -max_variable() <= v <= max_variable() {
            Some((if v < 0 {
                -v
            } else {
                v
            } as usize, v > 0))
        } else {
            None
        },
        None => None,
    }
}

/// The literal of the word.
fn parse_literal(w: &Vec<char>) -> (r: Option<(usize, bool)>)
    ensures
        r == lit_value(w@),
{
    let limit: u64 = if (usize::MAX as u64) < (i64::MAX as u64) {
        usize::MAX as u64
    } else {
        i64::MAX as u64
    };
    assert(w@.skip(1) =~= w@.drop_first());
    assert(w@.skip(0) =~= w@);
    if w.len() > 0 && w[0] == '-' {
        match parse_digits(w, 1, limit) {
            Some(v) => {
                if v == 0 {
                    None
                } else {
                    Some((v as usize, false))
                }
            },
            None => None,
        }
    } else {
        let start: usize = if w.len() > 0 && w[0] == '+' {
            1
        } else {
            0
        };
        match parse_digits(w, start, limit) {
            Some(v) => {
                if v == 0 {
                    None
                } else {
                    Some((v as usize, true))
                }
            },
            None => None,
        }
    }
}

/// The clause of a line after the header: nonzero literals, then a final `0`.
pub open spec fn clause_of(ws: Seq<Seq<char>>) -> Option<Seq<(usize, bool)>> {
    if ws.len() >= 2 && ws.last() == seq!['0'] && forall|i: int|
        0 <= i < ws.len() - 1 ==> (#[trigger] lit_value(ws[i])).is_some() {
        Some(Seq::new((ws.len() - 1) as nat, |i: int| lit_value(ws[i])->0))
    } else {
        None
    }
}

/// The clause of the words of a line.
fn parse_clause(ws: &Vec<Vec<char>>) -> (r: Option<Vec<(usize, bool)>>)
    ensures
        match clause_of(word_views(ws@)) {
            Some(c) => r matches Some(v) && v@ == c,
            None => r.is_none(),
        },
{
    let ghost wv = word_views(ws@);
    let n = ws.len();
    if n < 2 {
        return None;
    }
    let last = &ws[n - 1];
    if !(last.len() == 1 && last[0] == '0') {
        proof {
            if wv.last() == seq!['0'] {
                assert(wv.last().len() == 1 && wv.last()[0] == '0');
            }
        }
        return None;
    }
    assert(wv.last() =~= seq!['0']);
    let mut clause: Vec<(usize, bool)> = Vec::new();
    let mut i: usize = 0;
    while i < n - 1
        invariant
            n == ws@.len(),
            n >= 2,
            wv == word_views(ws@),
            i <= n - 1,
            clause@.len() == i,
            forall|k: int| 0 <= k < i ==> (#[trigger] lit_value(wv[k])).is_some() && clause@[k] == lit_value(wv[k])->0,
        decreases n - 1 - i,
    {
        match parse_literal(&ws[i]) {
            Some(l) => {
                clause.push(l);
            },
            None => {
                assert(lit_value(wv[i as int]).is_none());
                return None;
            },
        }
        i = i + 1;
    }
    assert(clause@ =~= Seq::new((wv.len() - 1) as nat, |k: int| lit_value(wv[k])->0));
    Some(clause)
}

/// The declared numbers of variables and clauses of a `p cnf` header line.
pub open spec fn header_of(ws: Seq<Seq<char>>) -> Option<(usize, usize)> {
    if ws.len() == 4 && ws[0] == seq!['p'] && ws[1] == seq!['c', 'n', 'f'] {
        match (unsigned_value(ws[2]), unsigned_value(ws[3])) {
            (Some(a), Some(b)) => if a <= usize::MAX && b <= usize::MAX {
                Some((a as usize, b as usize))
            } else {
                None
            },
            _ => None,
        }
    } else {
        None
    }
}

fn parse_header(ws: &Vec<Vec<char>>) -> (r: Option<(usize, usize)>)
    ensures
        r == header_of(word_views(ws@)),
{
    let ghost wv = word_views(ws@);
    if ws.len() != 4 {
        return None;
    }
    if !(ws[0].len() == 1 && ws[0][0] == 'p') {
        proof {
            if wv[0] == seq!['p'] {
                assert(wv[0].len() == 1 && wv[0][0] == 'p');
            }
        }
        return None;
    }
    assert(wv[0] =~= seq!['p']);
    if !(ws[1].len() == 3 && ws[1][0] == 'c' && ws[1][1] == 'n' && ws[1][2] == 'f') {
        proof {
            if wv[1] == seq!['c', 'n', 'f'] {
                assert(wv[1].len() == 3 && wv[1][0] == 'c' && wv[1][1] == 'n' && wv[1][2] == 'f');
            }
        }
        return None;
    }
    assert(wv[1] =~= seq!['c', 'n', 'f']);
    match (parse_unsigned(&ws[2]), parse_unsigned(&ws[3])) {
        (Some(a), Some(b)) => Some((a, b)),
        _ => None,
    }
}

/// What the reader has seen after some lines: whether the header came, the
/// declared counts, and the clauses read.
pub struct ReadState {
    pub header: bool,
    pub vars: usize,
    pub declared: usize,
    pub cls: Seq<Seq<(usize, bool)>>,
}

/// One line: before the header, a comment (first word starting with `c`) is
/// skipped and anything but a header fails; after it, every line is a clause.
pub open spec fn read_line(st: ReadState, ws: Seq<Seq<char>>) -> Option<ReadState> {
    if st.header {
        match clause_of(ws) {
            Some(c) => Some(ReadState { cls: st.cls.push(c), ..st }),
            None => None,
        }
    } else if ws.len() > 0 && ws[0].len() > 0 && ws[0][0] == 'c' {
        Some(st)
    } else {
        match header_of(ws) {
            Some((a, b)) => Some(ReadState { header: true, vars: a, declared: b, cls: st.cls }),
            None => None,
        }
    }
}

/// The state after reading the lines, each given by its words, in order, or
/// `None` at the first line that fails.
pub open spec fn read_lines(lines: Seq<Seq<Seq<char>>>) -> Option<ReadState>
    decreases lines.len(),
{
    if lines.len() == 0 {
        Some(ReadState { header: false, vars: 0, declared: 0, cls: Seq::empty() })
    } else {
        match read_lines(lines.drop_last()) {
            Some(st) => read_line(st, lines.last()),
            None => None,
        }
    }
}

/// A DIMACS text: the header came, the number of clause lines is the declared
/// one, every declared variable has an `i64` literal, and the variables and
/// literals together number less than `usize::MAX`.
pub open spec fn parse_dimacs(lines: Seq<Seq<Seq<char>>>) -> Option<ReadState> {
    match read_lines(lines) {
        Some(st) => if st.header && st.declared == st.cls.len() && st.vars <= i64::MAX && st.vars
            + total_lits(st.cls) < usize::MAX {
            Some(st)
        } else {
            None
        },
        None => None,
    }
}

/// The words of each line.
pub open spec fn line_words(lines: Seq<String>) -> Seq<Seq<Seq<char>>> {
    lines.map_values(|l: String| words(l@))
}

/// The words of each line, as given.
pub open spec fn word_lines(lines: Seq<Vec<Vec<char>>>) -> Seq<Seq<Seq<char>>> {
    lines.map_values(|l: Vec<Vec<char>>| word_views(l@))
}

proof fn lemma_read_fails_on(lines: Seq<Seq<Seq<char>>>, i: int)
    requires
        0 <= i <= lines.len(),
        read_lines(lines.take(i)).is_none(),
    ensures
        read_lines(lines).is_none(),
    decreases lines.len() - i,
{
    if i < lines.len() {
        assert(lines.take(i + 1).drop_last() =~= lines.take(i));
        lemma_read_fails_on(lines, i + 1);
    } else {
        assert(lines.take(i) =~= lines);
    }
}

/// A DIMACS text that does not follow the format.
#[derive(Clone, Debug, PartialEq, Eq, Structural)]
pub struct DimacsParseError;

/// A CNF formula as a DIMACS file gives it: the declared numbers of
/// variables and clauses, and each clause as `(variable, sign)` pairs.
#[derive(Debug)]
pub struct DIMACS {
    num_variables: usize,
    num_clauses: usize,
    clauses: Vec<Vec<(usize, bool)>>,
}

impl DIMACS {
    pub closed spec fn num_vars(&self) -> nat {
        self.num_variables as nat
    }

    pub closed spec fn num_cls(&self) -> nat {
        self.num_clauses as nat
    }

    pub closed spec fn clause_seq(&self) -> Seq<Vec<(usize, bool)>> {
        self.clauses@
    }

    /// No clause is empty, no literal names variable 0, every variable of
    /// `1..=num_vars()` has an `i64` literal, and the variables and literals
    /// together number less than `usize::MAX`.
    pub open spec fn wf(&self) -> bool {
        &&& self.num_vars() <= i64::MAX
        &&& self.num_vars() + flat_len(self.clause_seq()) < usize::MAX
        &&& forall|j: int|
            0 <= j < self.clause_seq().len() ==> {
                &&& (#[trigger] self.clause_seq()[j])@.len() > 0
                &&& forall|k: int| 0 <= k < self.clause_seq()[j]@.len() ==> (#[trigger] self.clause_seq()[j]@[k]).0 >= 1
            }
    }

    /// An empty formula over no variables.
    pub fn new() -> (r: DIMACS)
        ensures
            r.wf(),
            r.num_vars() == 0,
            r.num_cls() == 0,
            r.clause_seq().len() == 0,
    {
        DIMACS { num_variables: 0, num_clauses: 0, clauses: Vec::new() }
    }

    /// Reads a DIMACS text, one line per element: comment lines, then the
    /// header `p cnf <variables> <clauses>`, then exactly the declared number
    /// of clause lines, each one or more nonzero literals ended by `0`.
    pub fn from(lines: &Vec<String>) -> (r: Result<DIMACS, DimacsParseError>)
        ensures
            match parse_dimacs(line_words(lines@)) {
                Some(st) => r matches Ok(d) && {
                    &&& d.num_vars() == st.vars
                    &&& d.num_cls() == st.declared
                    &&& clause_views(d.clause_seq()) == st.cls
                    &&& d.wf()
                },
                None => r.is_err(),
            },
    {
        let mut split: Vec<Vec<Vec<char>>> = Vec::new();
        let mut i: usize = 0;
        while i < lines.len()
            invariant
                i <= lines@.len(),
                word_lines(split@) == line_words(lines@).take(i as int),
            decreases lines@.len() - i,
        {
            let ws = split_words(lines[i].as_str());
            let ghost before = word_lines(split@);
            split.push(ws);
            assert(word_lines(split@) =~= before.push(word_views(ws@)));
            i = i + 1;
            assert(line_words(lines@).take(i as int) =~= line_words(lines@).take(i - 1).push(words(lines@[i - 1]@)));
        }
        assert(line_words(lines@).take(lines@.len() as int) =~= line_words(lines@));
        DIMACS::from_words(&split)
    }

    /// Reads a DIMACS text given as the words of each line, as `from` does
    /// after splitting the lines at whitespace.
    pub fn from_words(lines: &Vec<Vec<Vec<char>>>) -> (r: Result<DIMACS, DimacsParseError>)
        ensures
            match parse_dimacs(word_lines(lines@)) {
                Some(st) => r matches Ok(d) && {
                    &&& d.num_vars() == st.vars
                    &&& d.num_cls() == st.declared
                    &&& clause_views(d.clause_seq()) == st.cls
                    &&& d.wf()
                },
                None => r.is_err(),
            },
    {
        let ghost lv = word_lines(lines@);
        let mut has_read_header = false;
        let mut num_variables: usize = 0;
        let mut num_clauses: usize = 0;
        let mut clauses: Vec<Vec<(usize, bool)>> = Vec::new();
        let mut total: u128 = 0;
        let mut i: usize = 0;
        assert(lv.take(0) =~= Seq::<Seq<Seq<char>>>::empty());
        assert(clause_views(clauses@) =~= Seq::<Seq<(usize, bool)>>::empty());
        while i < lines.len()
            invariant
                i <= lines@.len(),
                lv == word_lines(lines@),
                read_lines(lv.take(i as int)) == Some(
                    ReadState { header: has_read_header, vars: num_variables, declared: num_clauses, cls: clause_views(clauses@) },
                ),
                total == total_lits(clause_views(clauses@)),
                clauses@.len() <= i,
                total <= clauses@.len() * (usize::MAX as int),
                forall|j: int| 0 <= j < clauses@.len() ==> {
                    &&& (#[trigger] clauses@[j])@.len() > 0
                    &&& forall|k: int| 0 <= k < clauses@[j]@.len() ==> (#[trigger] clauses@[j]@[k]).0 >= 1
                },
            decreases lines@.len() - i,
        {
            let ws = &lines[i];
            let ghost wv = word_views(ws@);
            assert(lv.take(i + 1).drop_last() =~= lv.take(i as int));
            assert(lv.take(i + 1).last() == wv);
            if has_read_header {
                match parse_clause(ws) {
                    Some(c) => {
                        let ghost before = clause_views(clauses@);
                        let ghost cv = c@;
                        proof {
                            assert forall|k: int| 0 <= k < cv.len() implies cv[k].0 >= 1 by {
                                assert(lit_value(wv[k]).is_some());
                            }
                        }
                        let len = c.len();
                        proof {
                            assert(total + len <= (clauses@.len() + 1) * (usize::MAX as int)) by (nonlinear_arith)
                                requires total <= clauses@.len() * (usize::MAX as int), len <= usize::MAX;
                            assert(clauses@.len() + 1 <= usize::MAX);
                            assert((clauses@.len() + 1) * (usize::MAX as int) <= (usize::MAX as int) * (usize::MAX as int)) by (nonlinear_arith)
                                requires clauses@.len() + 1 <= usize::MAX;
                        }
                        total = total + len as u128;
                        clauses.push(c);
                        proof {
                            assert(clause_views(clauses@) =~= before.push(cv));
                            assert(clause_views(clauses@).drop_last() =~= before);
                            assert forall|j: int| 0 <= j < clauses@.len() implies {
                                &&& (#[trigger] clauses@[j])@.len() > 0
                                &&& forall|k: int| 0 <= k < clauses@[j]@.len() ==> (#[trigger] clauses@[j]@[k]).0 >= 1
                            } by {
                                if j == clauses@.len() - 1 {
                                    assert(clauses@[j]@ == cv);
                                }
                            }
                        }
                    },
                    None => {
                        proof {
                            lemma_read_fails_on(lv, i + 1);
                        }
                        return Err(DimacsParseError);
                    },
                }
            } else {
                if ws.len() == 0 {
                    proof {
                        lemma_read_fails_on(lv, i + 1);
                    }
                    return Err(DimacsParseError);
                }
                if ws[0].len() > 0 && ws[0][0] == 'c' {
                    assert(wv[0].len() > 0 && wv[0][0] == 'c');
                } else {
                    match parse_header(ws) {
                        Some((a, b)) => {
                            num_variables = a;
                            num_clauses = b;
                            has_read_header = true;
                        },
                        None => {
                            proof {
                                lemma_read_fails_on(lv, i + 1);
                            }
                            return Err(DimacsParseError);
                        },
                    }
                }
            }
            i = i + 1;
        }
        assert(lv.take(lines@.len() as int) =~= lv);
        assert(total + usize::MAX <= u128::MAX) by (nonlinear_arith)
            requires
                total <= clauses@.len() * (usize::MAX as int),
                clauses@.len() <= usize::MAX,
                usize::MAX <= u64::MAX,
        ;
        if !has_read_header || num_clauses != clauses.len() || num_variables as u64 > i64::MAX as u64
            || num_variables as u128 + total >= usize::MAX as u128 {
            return Err(DimacsParseError);
        }
        Ok(DIMACS { num_variables, num_clauses, clauses })
    }

    /// Solves the formula through a `SATSolver` whose names are the DIMACS
    /// variables, `1..=num_vars()` first. Returns `v` or `-v` for each
    /// variable `v` of `1..=num_vars()`, in order, then `0`, exactly when the
    /// clauses are satisfiable.
    pub fn solve(&mut self) -> (r: Option<Vec<i64>>)
        requires
            old(self).wf(),
        ensures
            *final(self) == *old(self),
            r.is_some() <==> dimacs_satisfiable(old(self).clause_seq()),
            r matches Some(sol) ==> {
                &&& sol@.len() == old(self).num_vars() + 1
                &&& sol@[old(self).num_vars() as int] == 0
                &&& exists|a: spec_fn(int) -> bool| {
                    &&& dimacs_all_true(a, old(self).clause_seq())
                    &&& forall|t: int|
                        0 <= t < old(self).num_vars() ==> #[trigger] sol@[t] as int == if a(t + 1) {
                            t + 1
                        } else {
                            -(t + 1)
                        }
                }
            },
    {
        let mut solver: SATSolver<usize> = SATSolver::new();
        let mut i: usize = 1;
        while i <= self.num_variables
            invariant
                1 <= i <= self.num_variables + 1,
                self.num_variables + flat_len(self.clauses@) < usize::MAX,
                solver.wf(),
                solver.num_vars() == i - 1,
                solver.clause_seq().len() == 0,
                solver.names() == first_names(i - 1),
            decreases self.num_variables + 1 - i,
        {
            let _ = solver.variable(i);
            i = i + 1;
            assert(solver.names() =~= first_names(i - 1));
        }
        let ghost base = solver.names();
        let mut j: usize = 0;
        while j < self.clauses.len()
            invariant
                j <= self.clauses@.len(),
                self.wf(),
                self.num_variables + flat_len(self.clauses@) < usize::MAX,
                solver.wf(),
                self.num_variables <= solver.num_vars() <= self.num_variables + flat_len(self.clauses@.take(j as int)),
                base == first_names(self.num_variables as int),
                grows(base, solver.names()),
                solver.clause_seq().len() == j,
                forall|jj: int| 0 <= jj < j ==> encodes(#[trigger] solver.clause_seq()[jj], self.clauses@[jj]@, solver.names()),
            decreases self.clauses@.len() - j,
        {
            let clause = &self.clauses[j];
            let mut vs: Vec<Variable> = Vec::new();
            let mut k: usize = 0;
            proof {
                lemma_flat_len_take(self.clauses@, j as int);
            }
            while k < clause.len()
                invariant
                    j < self.clauses@.len(),
                    *clause == self.clauses@[j as int],
                    k <= clause@.len(),
                    self.num_variables + flat_len(self.clauses@) < usize::MAX,
                    flat_len(self.clauses@.take(j + 1)) == flat_len(self.clauses@.take(j as int)) + clause@.len(),
                    flat_len(self.clauses@.take(j + 1)) <= flat_len(self.clauses@),
                    solver.wf(),
                    self.num_variables <= solver.num_vars() <= self.num_variables + flat_len(self.clauses@.take(j as int)) + k,
                    base == first_names(self.num_variables as int),
                    grows(base, solver.names()),
                    solver.clause_seq().len() == j,
                    forall|jj: int| 0 <= jj < j ==> encodes(#[trigger] solver.clause_seq()[jj], self.clauses@[jj]@, solver.names()),
                    vs@.len() == k,
                    forall|kk: int| 0 <= kk < k ==> solver.names().contains_key(#[trigger] clause@[kk].0),
                    forall|kk: int|
                        0 <= kk < k ==> ((#[trigger] vs@[kk]).id() == solver.names()[clause@[kk].0]
                            && vs@[kk].positive() == clause@[kk].1 && vs@[kk].id() < solver.num_vars()),
                decreases clause@.len() - k,
            {
                let (v, sign) = clause[k];
                let ghost names0 = solver.names();
                let ghost num0 = solver.num_vars();
                let ghost seq0 = solver.clause_seq();
                let x = solver.variable(v);
                let lit = if sign {
                    x
                } else {
                    x.not()
                };
                let ghost vs0 = vs@;
                vs.push(lit);
                proof {
                    lemma_variable_not(x);
                    assert(obeys_key_model::<usize>());
                    assert(solver.names_ok());
                    assert(grows(names0, solver.names()));
                    assert forall|jj: int| 0 <= jj < j implies encodes(#[trigger] solver.clause_seq()[jj], self.clauses@[jj]@, solver.names()) by {
                        assert(solver.clause_seq()[jj] == seq0[jj]);
                        lemma_encodes_grows(seq0[jj], self.clauses@[jj]@, names0, solver.names());
                    }
                    assert(solver.names().contains_key(v) && solver.names()[v] == x.id());
                    assert(lit.id() == x.id());
                    assert(x.id() < solver.num_vars());
                    assert forall|kk: int| 0 <= kk < k + 1 implies solver.names().contains_key(#[trigger] clause@[kk].0) by {
                        let y = clause@[kk].0;
                        if kk < k {
                            assert(names0.contains_key(y));
                        }
                    }
                    assert forall|kk: int| 0 <= kk < k + 1 implies ((#[trigger] vs@[kk]).id() == solver.names()[clause@[kk].0]
                        && vs@[kk].positive() == clause@[kk].1 && vs@[kk].id() < solver.num_vars()) by {
                        let y = clause@[kk].0;
                        if kk < k {
                            assert(vs@[kk] == vs0[kk]);
                            assert(vs0[kk].id() == names0[y]);
                            assert(names0.contains_key(y));
                            assert(solver.names().contains_key(y));
                        } else {
                            assert(vs@[kk] == lit);
                        }
                    }
                }
                k = k + 1;
            }
            proof {
                assert(self.clause_seq()[j as int]@.len() > 0);
                assert(vs@.len() > 0);
            }
            let ghost seq1 = solver.clause_seq();
            solver.add_clause(vs.as_slice());
            proof {
                assert forall|jj: int| 0 <= jj < j + 1 implies encodes(#[trigger] solver.clause_seq()[jj], self.clauses@[jj]@, solver.names()) by {
                    if jj < j {
                        assert(solver.clause_seq()[jj] == seq1[jj]);
                    } else {
                        let c = solver.clause_seq().last();
                        assert(solver.clause_seq()[jj] == c);
                        assert(clause@ == self.clauses@[jj]@);
                        assert forall|t: int| 0 <= t < clause@.len() implies solver.names().contains_key(
                            #[trigger] clause@[t].0,
                        ) by {
                        }
                        assert forall|t: int| 0 <= t < clause@.len() implies ((#[trigger] c.lits()[t]).var()
                            == solver.names()[clause@[t].0] && c.lits()[t].positive() == clause@[t].1) by {
                            let y = clause@[t].0;
                            assert(c.lits()[t].var() == vs@[t].id());
                            assert(solver.names().contains_key(y));
                        }
                        assert(encodes(solver.clause_seq()[jj], self.clauses@[jj]@, solver.names()));
                    }
                }
            }
            j = j + 1;
        }
        assert(self.clauses@.take(self.clauses@.len() as int) =~= self.clauses@);
        let ghost names = solver.names();
        let ghost cs = solver.clause_seq();
        let ghost n = solver.num_vars();
        if !solver.solve() {
            proof {
                assert forall|a: spec_fn(int) -> bool| !dimacs_all_true(a, self.clauses@) by {
                    if dimacs_all_true(a, self.clauses@) {
                        assert(obeys_key_model::<usize>());
                        lemma_dimacs_to_ids(a, self.clauses@, cs, names, n);
                        let b = Seq::new(n, |id: int| a(name_of(names, id) as int));
                        assert(b.len() == n && satisfies(b, cs));
                        assert(satisfiable(cs, n));
                    }
                }
            }
            return None;
        }
        let ghost m = solver.model_view();
        let ghost a = assignment_by_name(names, assignment_of(m));
        proof {
            lemma_ids_to_dimacs(assignment_of(m), self.clauses@, cs, names);
        }
        let mut solution: Vec<i64> = Vec::new();
        let mut i: usize = 1;
        while i <= self.num_variables
            invariant
                1 <= i <= self.num_variables + 1,
                self.num_variables <= i64::MAX,
                self.num_variables < usize::MAX,
                solver.names() == names,
                solver.model_view() == m,
                m.len() == n,
                total(m),
                grows(base, names),
                base == first_names(self.num_variables as int),
                forall|x: usize| #[trigger] names.contains_key(x) ==> names[x] < n,
                a == assignment_by_name(names, assignment_of(m)),
                solution@.len() == i - 1,
                forall|t: int| 0 <= t < i - 1 ==> #[trigger] solution@[t] as int == if a(t + 1) {
                    t + 1
                } else {
                    -(t + 1)
                },
            decreases self.num_variables + 1 - i,
        {
            assert(base.contains_key(i));
            let value = solver.get_model_value_from_name(&i);
            assert(m[names[i] as int] != TruthAssign::Unassigned);
            let b = value.unwrap();
            if b {
                solution.push(i as i64);
            } else {
                solution.push(-(i as i64));
            }
            i = i + 1;
        }
        solution.push(0);
        proof {
            assert(solution@[self.num_variables as int] == 0);
            assert forall|t: int| 0 <= t < self.num_variables implies #[trigger] solution@[t] as int == if a(t + 1) {
                t + 1
            } else {
                -(t + 1)
            } by {
                assert(solution@[t] == solution@.drop_last()[t]);
            }
        }
        Some(solution)
    }
}

} // verus!
