use vstd::prelude::*;
use crate::error::Error;
use crate::plan::Craftability;
use crate::system::{System, Recipe, amount, keys_unique, names_view};

verus! {

/// The integer state equation of a system: one variable per recipe (its
/// firing count, named after the recipe) and one constraint per item,
/// `constants[i] + sum over r of coefficients[r][i] * x_r >= 0`, besides
/// `x_r >= 0` for each variable.
#[derive(Debug, Clone)]
pub struct LinearProblem {
    /// Variable names, indexed by recipe id.
    pub variables: Vec<Vec<u8>>,
    /// The delta vector of each recipe, indexed by recipe id, then item id.
    pub coefficients: Vec<Vec<i128>>,
    /// Inventory minus request, indexed by item id.
    pub constants: Vec<i128>,
}

/// What the arithmetic oracle says of a problem.
#[derive(Debug, Clone)]
pub enum OracleVerdict {
    Unsat,
    Unknown,
    /// A model: the value of each variable, indexed by recipe id.
    Sat(Vec<u64>),
}

/// The net effect of one firing of `r` on item `i`: outputs minus inputs.
pub open spec fn delta(r: Recipe, i: usize) -> int {
    amount(r.outputs@, i) - amount(r.inputs@, i)
}

/// `sum over r < n of coefficients[r][i] * x[r]`.
pub open spec fn row_sum(coefficients: Seq<Vec<i128>>, x: Seq<u64>, i: int, n: int) -> int
    decreases n,
{
    if n <= 0 {
        0
    } else {
        row_sum(coefficients, x, i, n - 1) + coefficients[n - 1][i] as int * x[n - 1] as int
    }
}

impl LinearProblem {
    /// `x` gives each variable a value and meets every item constraint.
    pub open spec fn is_model(&self, x: Seq<u64>) -> bool {
        &&& x.len() == self.variables.len()
        &&& forall|i: int| 0 <= i < self.constants.len() ==>
            self.constants[i] + #[trigger] row_sum(self.coefficients@, x, i, x.len() as int) >= 0
    }
}

/// An item absent from a set has amount zero in it.
proof fn lemma_amount_absent(s: Seq<(usize, u64)>, i: usize)
    requires
        forall|a: int| 0 <= a < s.len() ==> #[trigger] s[a].0 != i,
    ensures
        amount(s, i) == 0,
    decreases s.len(),
{
    if s.len() > 0 {
        lemma_amount_absent(s.drop_last(), i);
    }
}

/// In a set with unique keys an amount is one entry's amount, or zero.
proof fn lemma_amount_bounded(s: Seq<(usize, u64)>, i: usize)
    requires
        keys_unique(s),
    ensures
        0 <= amount(s, i) <= u64::MAX,
    decreases s.len(),
{
    if s.len() > 0 {
        let p = s.drop_last();
        assert(keys_unique(p));
        lemma_amount_bounded(p, i);
        if s.last().0 == i {
            assert forall|a: int| 0 <= a < p.len() implies #[trigger] p[a].0 != i by {
                assert(s[a].0 != s[s.len() - 1].0);
            }
            lemma_amount_absent(p, i);
        }
    }
}

/// The delta vector of a recipe over `n_items` items.
fn recipe_delta(r: &Recipe, n_items: usize) -> (v: Vec<i128>)
    requires
        r.wf(n_items as nat),
    ensures
        v.len() == n_items,
        forall|i: int| 0 <= i < n_items ==> #[trigger] v[i] == delta(*r, i as usize),
        forall|i: int| 0 <= i < n_items ==> -(u64::MAX as int) <= #[trigger] v[i] <= u64::MAX,
{
    let mut v: Vec<i128> = Vec::new();
    while v.len() < n_items
        invariant
            v.len() <= n_items,
            forall|i: int| 0 <= i < v.len() ==> #[trigger] v[i] == 0,
        decreases n_items - v.len(),
    {
        v.push(0);
    }
    let ins = &r.inputs;
    let outs = &r.outputs;
    let mut t: usize = 0;
    while t < ins.len()
        invariant
            t <= ins.len(),
            v.len() == n_items,
            r.wf(n_items as nat),
            ins == &r.inputs,
            forall|i: int| 0 <= i < n_items ==> #[trigger] v[i] == -amount(ins@.take(t as int), i as usize),
        decreases ins.len() - t,
    {
        let (i, a) = ins[t];
        assert(ins@.take(t + 1).drop_last() == ins@.take(t as int));
        assert(keys_unique(ins@.take(t + 1)));
        proof { lemma_amount_bounded(ins@.take(t + 1), i); }
        v.set(i, v[i] - a as i128);
        t = t + 1;
    }
    assert(ins@.take(ins.len() as int) == ins@);
    let mut t: usize = 0;
    while t < outs.len()
        invariant
            t <= outs.len(),
            v.len() == n_items,
            r.wf(n_items as nat),
            ins == &r.inputs,
            outs == &r.outputs,
            forall|i: int| 0 <= i < n_items ==> #[trigger] v[i] == amount(outs@.take(t as int), i as usize) - amount(ins@, i as usize),
        decreases outs.len() - t,
    {
        let (j, a) = outs[t];
        assert(outs@.take(t + 1).drop_last() == outs@.take(t as int));
        assert(keys_unique(outs@.take(t + 1)));
        proof {
            lemma_amount_bounded(outs@.take(t + 1), j);
            lemma_amount_bounded(ins@, j);
        }
        v.set(j, v[j] + a as i128);
        t = t + 1;
    }
    assert(outs@.take(outs.len() as int) == outs@);
    assert forall|i: int| 0 <= i < n_items implies -(u64::MAX as int) <= #[trigger] v[i] <= u64::MAX by {
        lemma_amount_bounded(ins@, i as usize);
        lemma_amount_bounded(outs@, i as usize);
    }
    v
}

impl System {
    /// Compiles the system into its integer state equation.
    pub fn state_equation(&self) -> (p: LinearProblem)
        requires
            self.wf(),
        ensures
            names_view(p.variables@) == names_view(self.recipe_names@),
            p.coefficients.len() == self.recipes.len(),
            p.constants.len() == self.item_names.len(),
            forall|r: int| 0 <= r < self.recipes.len() ==> (#[trigger] p.coefficients[r]).len() == self.item_names.len(),
            forall|r: int, i: int| 0 <= r < self.recipes.len() && 0 <= i < self.item_names.len()
                ==> (#[trigger] p.coefficients[r][i]) == delta(self.recipes[r], i as usize),
            forall|i: int| 0 <= i < self.item_names.len()
                ==> #[trigger] p.constants[i] == self.inventory[i] - self.requests[i],
            p.well_formed(),
    {
        let n = self.item_names.len();
        let mut constants: Vec<i128> = Vec::new();
        let mut i: usize = 0;
        while i < n
            invariant
                self.wf(),
                n == self.item_names.len(),
                i <= n,
                constants.len() == i,
                forall|j: int| 0 <= j < i ==> #[trigger] constants[j] == self.inventory[j] - self.requests[j],
            decreases n - i,
        {
            constants.push(self.inventory[i] as i128 - self.requests[i] as i128);
            i = i + 1;
        }
        let mut coefficients: Vec<Vec<i128>> = Vec::new();
        let mut variables: Vec<Vec<u8>> = Vec::new();
        let mut r: usize = 0;
        while r < self.recipes.len()
            invariant
                self.wf(),
                n == self.item_names.len(),
                r <= self.recipes.len(),
                coefficients.len() == r,
                variables.len() == r,
                forall|q: int| 0 <= q < r ==> #[trigger] variables[q]@ == self.recipe_names[q]@,
                forall|q: int| 0 <= q < r ==> (#[trigger] coefficients[q]).len() == n,
                forall|q: int, j: int| 0 <= q < r && 0 <= j < n
                    ==> (#[trigger] coefficients[q][j]) == delta(self.recipes[q], j as usize),
                forall|q: int, j: int| 0 <= q < r && 0 <= j < n
                    ==> -(u64::MAX as int) <= (#[trigger] coefficients[q][j]) <= u64::MAX,
                constants.len() == n,
                forall|j: int| 0 <= j < n ==> -(u64::MAX as int) <= #[trigger] constants[j] <= u64::MAX,
            decreases self.recipes.len() - r,
        {
            assert(self.recipes[r as int].wf(n as nat));
            coefficients.push(recipe_delta(&self.recipes[r], n));
            variables.push(self.recipe_names[r].clone());
            r = r + 1;
        }
        assert(names_view(variables@) =~= names_view(self.recipe_names@));
        assert(variables.len() == names_view(variables@).len());
        LinearProblem { variables, coefficients, constants }
    }

    /// Solves the system: compiles its state equation, asks the SMT solver,
    /// and turns the answer into a verdict. A plan is only ever returned by
    /// the reconstruction on the solver's model, so it is sound whatever the
    /// solver answered.
    pub fn solve(&self) -> (r: Result<Craftability, Error>)
        requires
            self.wf(),
            forall|t: int| 0 <= t < self.sorted_recipe_ids.len() ==> #[trigger] self.sorted_recipe_ids[t] < self.recipes.len(),
        ensures
            r matches Ok(v) ==> self.sound_verdict(v),
            r matches Ok(Craftability::Uncraftable) ==> forall|env: Seq<int>|
                env.len() == self.recipes.len() ==> !#[trigger] self.admits_counts(env),
            r matches Err(e) ==> e == Error::OracleFault,
    {
        let p = self.state_equation();
        let verdict = crate::oracle::ask_oracle(&p)?;
        proof {
            assert(p.variables.len() == names_view(p.variables@).len());
            if verdict is Unsat {
                assert forall|env: Seq<int>| env.len() == self.recipes.len() implies !#[trigger] self.admits_counts(env) by {
                    assert forall|i: int| 0 <= i < self.item_names.len() implies #[trigger] crate::oracle::row_value(p, env, i, self.recipes.len() as int)
                        == self.delta_sum(env, i, self.recipes.len() as int) by {
                        lemma_row_value_delta(*self, p, env, i, self.recipes.len() as int);
                    }
                    assert(!p.admits(env));
                }
            }
        }
        self.decide(verdict)
    }

    /// `sum over r < n of delta(recipes[r], i) * env[r]`.
    pub open spec fn delta_sum(&self, env: Seq<int>, i: int, n: int) -> int
        decreases n,
    {
        if n <= 0 { 0 } else { self.delta_sum(env, i, n - 1) + delta(self.recipes[n - 1], i as usize) * env[n - 1] }
    }

    /// Firing each recipe `r` `env[r]` times (all counts non-negative)
    /// leaves every item's stock, after its request, non-negative: the
    /// integer state equation.
    pub open spec fn admits_counts(&self, env: Seq<int>) -> bool {
        &&& forall|r: int| 0 <= r < self.recipes.len() ==> #[trigger] env[r] >= 0
        &&& forall|i: int| 0 <= i < self.item_names.len() ==>
            self.inventory[i] - self.requests[i] + #[trigger] self.delta_sum(env, i, self.recipes.len() as int) >= 0
    }

    /// A verdict of Craftable carries a plan that the reconstruction gives
    /// for some firing counts, one per recipe.
    pub open spec fn sound_verdict(&self, v: Craftability) -> bool {
        v matches Craftability::Craftable(plan) ==> exists|x: Seq<u64>, fired: Seq<usize>|
            x.len() == self.recipes.len() && self.reconstruction(x) == Some(fired) && self.plan_matches(x, plan@, fired)
    }

    /// Turns the oracle's verdict on the state equation into a verdict on the
    /// system: Unsat is Uncraftable, Unknown is Unknown, and a model is
    /// handed to `reconstruct`; a model of the wrong size is an oracle fault.
    pub fn decide(&self, verdict: OracleVerdict) -> (r: Result<Craftability, Error>)
        requires
            self.wf(),
            forall|t: int| 0 <= t < self.sorted_recipe_ids.len() ==> #[trigger] self.sorted_recipe_ids[t] < self.recipes.len(),
        ensures
            match verdict {
                OracleVerdict::Unsat => r matches Ok(Craftability::Uncraftable),
                OracleVerdict::Unknown => r matches Ok(Craftability::Unknown),
                OracleVerdict::Sat(x) => if x.len() != self.recipes.len() {
                    r == Err::<Craftability, Error>(Error::OracleFault)
                } else {
                    match self.reconstruction(x@) {
                        Some(fired) => r matches Ok(Craftability::Craftable(plan)) && self.plan_matches(x@, plan@, fired),
                        None => r matches Ok(Craftability::Unknown),
                    }
                },
            },
    {
        match verdict {
            OracleVerdict::Unsat => Ok(Craftability::Uncraftable),
            OracleVerdict::Unknown => Ok(Craftability::Unknown),
            OracleVerdict::Sat(x) => {
                if x.len() != self.recipes.len() {
                    Err(Error::OracleFault)
                } else {
                    Ok(self.reconstruct(&x))
                }
            },
        }
    }
}

/// The rows of the compiled problem are the system's delta sums.
proof fn lemma_row_value_delta(sys: System, p: LinearProblem, env: Seq<int>, i: int, n: int)
    requires
        0 <= n <= sys.recipes.len(),
        0 <= i < sys.item_names.len(),
        p.coefficients.len() == sys.recipes.len(),
        forall|r: int, j: int| 0 <= r < sys.recipes.len() && 0 <= j < sys.item_names.len()
            ==> (#[trigger] p.coefficients[r][j]) == delta(sys.recipes[r], j as usize),
    ensures
        crate::oracle::row_value(p, env, i, n) == sys.delta_sum(env, i, n),
    decreases n,
{
    if n > 0 {
        lemma_row_value_delta(sys, p, env, i, n - 1);
        assert(p.coefficients[n - 1][i] == delta(sys.recipes[n - 1], i as usize));
    }
}

/// A zero model contributes nothing to any row.
proof fn lemma_row_sum_zero(coefficients: Seq<Vec<i128>>, x: Seq<u64>, i: int, n: int)
    requires
        n <= x.len(),
        forall|r: int| 0 <= r < x.len() ==> #[trigger] x[r] == 0,
    ensures
        row_sum(coefficients, x, i, n) == 0,
    decreases n,
{
    if n > 0 {
        lemma_row_sum_zero(coefficients, x, i, n - 1);
        assert(x[n - 1] == 0);
    }
}

/// Where every inventory meets its request, firing nothing is a model of
/// the state equation.
pub proof fn lemma_zero_is_model(sys: System, p: LinearProblem, x: Seq<u64>)
    requires
        p.variables.len() == x.len(),
        p.constants.len() == sys.item_names.len(),
        sys.inventory.len() == sys.item_names.len(),
        sys.requests.len() == sys.item_names.len(),
        forall|i: int| 0 <= i < sys.item_names.len() ==> #[trigger] p.constants[i] == sys.inventory[i] - sys.requests[i],
        forall|r: int| 0 <= r < x.len() ==> #[trigger] x[r] == 0,
        forall|i: int| 0 <= i < sys.inventory.len() ==> #[trigger] sys.inventory[i] >= sys.requests[i],
    ensures
        p.is_model(x),
{
    assert forall|i: int| 0 <= i < p.constants.len() implies
        p.constants[i] + #[trigger] row_sum(p.coefficients@, x, i, x.len() as int) >= 0 by {
        lemma_row_sum_zero(p.coefficients@, x, i, x.len() as int);
        assert(sys.inventory[i] >= sys.requests[i]);
    }
}

} // verus!
