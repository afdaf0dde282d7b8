use vstd::prelude::*;
use crate::equation::{LinearProblem, OracleVerdict};
use crate::error::Error;

verus! {

#[verifier::external_type_specification]
#[verifier::external_body]
pub struct ExSolver(z3::Solver);

#[verifier::external_type_specification]
#[verifier::external_body]
pub struct ExModel(z3::Model);

#[verifier::external_type_specification]
#[verifier::external_body]
pub struct ExInt(z3::ast::Int);

#[verifier::external_type_specification]
#[verifier::external_body]
pub struct ExBool(z3::ast::Bool);

/// A solver term and its value under an assignment of the variables,
/// variable `r` taking value `env[r]`.
pub struct Term {
    pub ast: z3::ast::Int,
    pub value: Ghost<spec_fn(Seq<int>) -> int>,
}

/// A solver constraint and when it holds under an assignment.
pub struct Fact {
    pub ast: z3::ast::Bool,
    pub holds: Ghost<spec_fn(Seq<int>) -> bool>,
}

/// A solver and the meaning of every constraint asserted in it, in order.
pub struct Session {
    pub solver: z3::Solver,
    pub facts: Ghost<Seq<spec_fn(Seq<int>) -> bool>>,
}

/// What a satisfiability check reports.
enum Answer {
    Sat,
    Unsat,
    Unknown,
}

/// The sum of the terms' values.
pub open spec fn sum_values(ts: Seq<Term>, env: Seq<int>) -> int
    decreases ts.len(),
{
    if ts.len() == 0 { 0 } else { sum_values(ts.drop_last(), env) + (ts.last().value@)(env) }
}

/// Every fact holds under `env`.
pub open spec fn all_hold(facts: Seq<spec_fn(Seq<int>) -> bool>, env: Seq<int>) -> bool {
    forall|j: int| 0 <= j < facts.len() ==> #[trigger] (facts[j])(env)
}

/// Relies on z3::Solver::new: a solver without assertions.
#[verifier::external_body]
fn new_session() -> (s: Session)
    ensures
        s.facts@ == Seq::<spec_fn(Seq<int>) -> bool>::empty(),
{
    Session { solver: z3::Solver::new(), facts: Ghost(Seq::empty()) }
}

/// Relies on z3::ast::Int::new_const with an integer symbol: the integer
/// variable named `index`. Z3 takes integer symbols below 2^30 only.
#[verifier::external_body]
fn term_var(index: u32) -> (t: Term)
    requires
        index < 1073741824,
    ensures
        forall|env: Seq<int>| #[trigger] (t.value@)(env) == env[index as int],
{
    Term { ast: z3::ast::Int::new_const(index), value: Ghost(|env: Seq<int>| env[index as int]) }
}

/// Relies on z3::ast::Int::from_u64: the numeral `u`.
#[verifier::external_body]
fn term_numeral(u: u64) -> (t: Term)
    ensures
        forall|env: Seq<int>| #[trigger] (t.value@)(env) == u as int,
{
    Term { ast: z3::ast::Int::from_u64(u), value: Ghost(|env: Seq<int>| u as int) }
}

/// Relies on z3::ast::Int::unary_minus: the negation.
#[verifier::external_body]
fn term_neg(a: &Term) -> (t: Term)
    ensures
        forall|env: Seq<int>| #[trigger] (t.value@)(env) == -(a.value@)(env),
{
    let f = a.value;
    Term { ast: a.ast.unary_minus(), value: Ghost(|env: Seq<int>| -(f@)(env)) }
}

/// Relies on z3::ast::Int::mul: the product of two terms.
#[verifier::external_body]
fn term_mul(a: &Term, b: &Term) -> (t: Term)
    ensures
        forall|env: Seq<int>| #[trigger] (t.value@)(env) == (a.value@)(env) * (b.value@)(env),
{
    let (f, g) = (a.value, b.value);
    Term { ast: z3::ast::Int::mul(&[a.ast.clone(), b.ast.clone()]), value: Ghost(|env: Seq<int>| (f@)(env) * (g@)(env)) }
}

/// Relies on z3::ast::Int::add: the sum of the terms; it asserts that there
/// are at most `u32::MAX` of them.
#[verifier::external_body]
fn term_sum(terms: &Vec<Term>) -> (t: Term)
    requires
        1 <= terms.len() <= u32::MAX,
    ensures
        forall|env: Seq<int>| #[trigger] (t.value@)(env) == sum_values(terms@, env),
{
    let asts: Vec<z3::ast::Int> = terms.iter().map(|t| t.ast.clone()).collect();
    let ts = Ghost(terms@);
    Term { ast: z3::ast::Int::add(&asts), value: Ghost(|env: Seq<int>| sum_values(ts@, env)) }
}

/// Relies on z3::ast::Int::ge: the constraint `a >= b`.
#[verifier::external_body]
fn fact_ge(a: &Term, b: &Term) -> (c: Fact)
    ensures
        forall|env: Seq<int>| #[trigger] (c.holds@)(env) == ((a.value@)(env) >= (b.value@)(env)),
{
    let (f, g) = (a.value, b.value);
    Fact { ast: a.ast.ge(b.ast.clone()), holds: Ghost(|env: Seq<int>| (f@)(env) >= (g@)(env)) }
}

/// Relies on z3::Solver::assert: adds the constraint to the solver.
#[verifier::external_body]
fn session_assert(s: &mut Session, c: &Fact)
    ensures
        final(s).facts@ == old(s).facts@.push(c.holds@),
{
    s.solver.assert(&c.ast);
    s.facts = Ghost(s.facts@.push(c.holds@));
}

/// Relies on z3::Solver::check: whether the assertions are satisfiable;
/// Unsat means that no assignment meets all of them.
#[verifier::external_body]
fn session_check(s: &Session) -> (a: Answer)
    ensures
        a is Unsat ==> forall|env: Seq<int>| !#[trigger] all_hold(s.facts@, env),
{
    match s.solver.check() {
        z3::SatResult::Sat => Answer::Sat,
        z3::SatResult::Unsat => Answer::Unsat,
        z3::SatResult::Unknown => Answer::Unknown,
    }
}

/// Relies on z3::Solver::get_model: the model of the last check, if any.
#[verifier::external_body]
fn session_model(s: &Session) -> (m: Option<z3::Model>) {
    s.solver.get_model()
}

/// Relies on z3::Model::eval, with model completion: the value of `x`.
#[verifier::external_body]
fn model_eval(m: &z3::Model, x: &Term) -> (v: Option<z3::ast::Int>) {
    m.eval(&x.ast, true)
}

/// Relies on z3::ast::Int::as_u64: the numeral's value, if it is one that
/// fits in 64 bits.
#[verifier::external_body]
fn int_as_u64(x: &z3::ast::Int) -> (v: Option<u64>) {
    x.as_u64()
}

/// A numeral for a coefficient.
fn term_of(k: i128) -> (t: Term)
    requires
        -(u64::MAX as int) <= k <= u64::MAX,
    ensures
        forall|env: Seq<int>| #[trigger] (t.value@)(env) == k,
{
    if k >= 0 {
        term_numeral(k as u64)
    } else {
        term_neg(&term_numeral((-k) as u64))
    }
}

impl LinearProblem {
    /// Dimensions fit the variables and items, and every number is within
    /// 64 bits in absolute value.
    pub open spec fn well_formed(&self) -> bool {
        &&& self.coefficients.len() == self.variables.len()
        &&& forall|r: int| 0 <= r < self.coefficients.len() ==> (#[trigger] self.coefficients[r]).len() == self.constants.len()
        &&& forall|r: int, i: int| 0 <= r < self.coefficients.len() && 0 <= i < self.constants.len() ==>
            -(u64::MAX as int) <= #[trigger] self.coefficients[r][i] <= u64::MAX
        &&& forall|i: int| 0 <= i < self.constants.len() ==> -(u64::MAX as int) <= #[trigger] self.constants[i] <= u64::MAX
    }
}

/// `sum over r < n of coefficients[r][i] * env[r]`.
pub open spec fn row_value(p: LinearProblem, env: Seq<int>, i: int, n: int) -> int
    decreases n,
{
    if n <= 0 { 0 } else { row_value(p, env, i, n - 1) + p.coefficients[n - 1][i] as int * env[n - 1] }
}

impl LinearProblem {
    /// The assignment `env` meets the problem: every variable non-negative and
    /// every item constraint satisfied.
    pub open spec fn admits(&self, env: Seq<int>) -> bool {
        &&& forall|r: int| 0 <= r < self.variables.len() ==> #[trigger] env[r] >= 0
        &&& forall|i: int| 0 <= i < self.constants.len() ==>
            self.constants[i] + #[trigger] row_value(*self, env, i, self.variables.len() as int) >= 0
    }
}

/// A solver holding exactly the state equation: under any assignment of the
/// variables, its constraints all hold if and only if the problem admits
/// that assignment.
pub fn pose(p: &LinearProblem) -> (s: Session)
    requires
        p.well_formed(),
        p.variables.len() < 1073741824,
    ensures
        forall|env: Seq<int>| env.len() == p.variables.len() ==> (#[trigger] all_hold(s.facts@, env) <==> p.admits(env)),
{
    let n = p.variables.len();
    let mut s = new_session();
    let zero = term_numeral(0);
    let mut vars: Vec<Term> = Vec::new();
    let mut r: usize = 0;
    while r < n
        invariant
            n == p.variables.len(),
            n < 1073741824,
            r <= n,
            vars.len() == r,
            s.facts@.len() == r,
            forall|env: Seq<int>| #[trigger] (zero.value@)(env) == 0,
            forall|q: int, env: Seq<int>| 0 <= q < r ==> #[trigger] (vars@[q].value@)(env) == env[q],
            forall|q: int, env: Seq<int>| 0 <= q < r ==> #[trigger] (s.facts@[q])(env) == (env[q] >= 0),
        decreases n - r,
    {
        let v = term_var(r as u32);
        let f = fact_ge(&v, &zero);
        session_assert(&mut s, &f);
        vars.push(v);
        r = r + 1;
    }
    let m = p.constants.len();
    let mut i: usize = 0;
    while i < m
        invariant
            p.well_formed(),
            n == p.variables.len(),
            m == p.constants.len(),
            n < 1073741824,
            vars.len() == n,
            i <= m,
            s.facts@.len() == n + i,
            forall|env: Seq<int>| #[trigger] (zero.value@)(env) == 0,
            forall|q: int, env: Seq<int>| 0 <= q < n ==> #[trigger] (vars@[q].value@)(env) == env[q],
            forall|q: int, env: Seq<int>| 0 <= q < n ==> #[trigger] (s.facts@[q])(env) == (env[q] >= 0),
            forall|j: int, env: Seq<int>| 0 <= j < i ==> #[trigger] (s.facts@[n + j])(env)
                == (p.constants[j] + row_value(*p, env, j, n as int) >= 0),
        decreases m - i,
    {
        let mut terms: Vec<Term> = Vec::new();
        let t0 = term_of(p.constants[i]);
        let ghost v0 = t0.value@;
        terms.push(t0);
        proof {
            assert forall|env: Seq<int>| #[trigger] sum_values(terms@, env) == p.constants[i as int] + row_value(*p, env, i as int, 0) by {
                assert(terms@.drop_last() =~= Seq::<Term>::empty());
                assert(terms@.last().value@ == v0);
                assert((v0)(env) == p.constants[i as int]);
                assert(sum_values(terms@.drop_last(), env) == 0);
                assert(sum_values(terms@, env) == sum_values(terms@.drop_last(), env) + (terms@.last().value@)(env));
            }
        }
        let mut r: usize = 0;
        while r < n
            invariant
                p.well_formed(),
                n == p.variables.len(),
                m == p.constants.len(),
                n < 1073741824,
                vars.len() == n,
                i < m,
                r <= n,
                1 <= terms.len() <= r + 1,
                forall|q: int, env: Seq<int>| 0 <= q < n ==> #[trigger] (vars@[q].value@)(env) == env[q],
                forall|env: Seq<int>| #[trigger] sum_values(terms@, env) == p.constants[i as int] + row_value(*p, env, i as int, r as int),
            decreases n - r,
        {
            let k = p.coefficients[r][i];
            let ghost before = terms@;
            if k != 0 {
                let c = term_of(k);
                let t = term_mul(&c, &vars[r]);
                let ghost tv = t.value@;
                let ghost cv = c.value@;
                let ghost xv = vars@[r as int].value@;
                terms.push(t);
                proof {
                    assert forall|env: Seq<int>| #[trigger] sum_values(terms@, env) == p.constants[i as int] + row_value(*p, env, i as int, r + 1) by {
                        assert(terms@.drop_last() =~= before);
                        assert(terms@.last().value@ == tv);
                        assert((tv)(env) == (cv)(env) * (xv)(env));
                        assert((cv)(env) == k);
                        assert((xv)(env) == env[r as int]);
                        assert(sum_values(before, env) == p.constants[i as int] + row_value(*p, env, i as int, r as int));
                        assert(k == p.coefficients[r as int][i as int]);
                    }
                }
            } else {
                assert forall|env: Seq<int>| #[trigger] sum_values(terms@, env) == p.constants[i as int] + row_value(*p, env, i as int, r + 1) by {
                    assert(sum_values(terms@, env) == p.constants[i as int] + row_value(*p, env, i as int, r as int));
                    assert(p.coefficients[r as int][i as int] == 0);
                    assert(row_value(*p, env, i as int, r + 1) == row_value(*p, env, i as int, r as int) + p.coefficients[r as int][i as int] as int * env[r as int]);
                }
            }
            r = r + 1;
        }
        let total = term_sum(&terms);
        let f = fact_ge(&total, &zero);
        let ghost before = s.facts@;
        session_assert(&mut s, &f);
        proof {
            assert forall|q: int, env: Seq<int>| 0 <= q < n implies #[trigger] (s.facts@[q])(env) == (env[q] >= 0) by {
                assert(s.facts@[q] == before[q]);
            }
            assert forall|j: int, env: Seq<int>| 0 <= j < i + 1 implies #[trigger] (s.facts@[n + j])(env)
                == (p.constants[j] + row_value(*p, env, j, n as int) >= 0) by {
                if j < i {
                    assert(s.facts@[n + j] == before[n + j]);
                }
            }
        }
        i = i + 1;
    }
    proof {
        assert forall|env: Seq<int>| env.len() == p.variables.len() implies (#[trigger] all_hold(s.facts@, env) <==> p.admits(env)) by {
            if all_hold(s.facts@, env) {
                assert forall|q: int| 0 <= q < n implies #[trigger] env[q] >= 0 by {
                    assert((s.facts@[q])(env));
                }
                assert forall|j: int| 0 <= j < m implies p.constants[j] + #[trigger] row_value(*p, env, j, n as int) >= 0 by {
                    assert((s.facts@[n + j])(env));
                }
            }
            if p.admits(env) {
                assert forall|j: int| 0 <= j < s.facts@.len() implies #[trigger] (s.facts@[j])(env) by {
                    if j < n {
                        assert(env[j] >= 0);
                    } else {
                        let jj = j - n;
                        assert(s.facts@[n + jj] == s.facts@[j]);
                        assert(p.constants[jj] + row_value(*p, env, jj, n as int) >= 0);
                    }
                }
            }
        }
    }
    s
}

/// Hands the state equation to the SMT solver, posed by `pose`: a model is
/// read back as one 64-bit value per variable, and a value that cannot be
/// read so is an oracle fault. With 2^30 variables or more, more than the
/// solver can name, the verdict is Unknown without asking it.
pub fn ask_oracle(p: &LinearProblem) -> (r: Result<OracleVerdict, Error>)
    requires
        p.well_formed(),
    ensures
        p.variables.len() >= 1073741824 ==> r matches Ok(OracleVerdict::Unknown),
        match r {
            Ok(OracleVerdict::Sat(x)) => x.len() == p.variables.len(),
            Ok(OracleVerdict::Unsat) => forall|env: Seq<int>| env.len() == p.variables.len() ==> !#[trigger] p.admits(env),
            Ok(_) => true,
            Err(e) => e == Error::OracleFault,
        },
{
    let n = p.variables.len();
    if n >= 1073741824 {
        return Ok(OracleVerdict::Unknown);
    }
    let s = pose(p);
    match session_check(&s) {
        Answer::Unsat => {
            assert forall|env: Seq<int>| env.len() == p.variables.len() implies !#[trigger] p.admits(env) by {
                assert(!all_hold(s.facts@, env));
            }
            Ok(OracleVerdict::Unsat)
        },
        Answer::Unknown => Ok(OracleVerdict::Unknown),
        Answer::Sat => {
            let model = match session_model(&s) {
                Some(m) => m,
                None => { return Err(Error::OracleFault); },
            };
            let mut counts: Vec<u64> = Vec::new();
            let mut r: usize = 0;
            while r < n
                invariant
                    n == p.variables.len(),
                    n < 1073741824,
                    r <= n,
                    counts.len() == r,
                decreases n - r,
            {
                let v = term_var(r as u32);
                let value = match model_eval(&model, &v) {
                    Some(x) => int_as_u64(&x),
                    None => None,
                };
                match value {
                    Some(k) => counts.push(k),
                    None => { return Err(Error::OracleFault); },
                }
                r = r + 1;
            }
            Ok(OracleVerdict::Sat(counts))
        },
    }
}

} // verus!
