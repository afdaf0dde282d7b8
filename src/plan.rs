use vstd::prelude::*;
use crate::system::{System, Recipe, keys_below};

verus! {

/// One entry of a plan: fire recipe `recipe` (called `name`) `count` times.
#[derive(Debug, Clone)]
pub struct Firing {
    pub recipe: usize,
    pub name: Vec<u8>,
    pub count: u64,
}

/// The verdict on a system.
#[derive(Debug, Clone)]
pub enum Craftability {
    /// The requests can be met by firing the plan's recipes in its order.
    Craftable(Vec<Firing>),
    /// No firing counts meet the requests.
    Uncraftable,
    /// The oracle gave up, or no stock-safe schedule was found in the order.
    Unknown,
}

/// Takes `amt * k` of each input out of `stock`, in the set's order; `None`
/// as soon as a stock is smaller than what is taken.
pub open spec fn consume(stock: Seq<u64>, ins: Seq<(usize, u64)>, k: u64) -> Option<Seq<u64>>
    decreases ins.len(),
{
    if ins.len() == 0 {
        Some(stock)
    } else {
        match consume(stock, ins.drop_last(), k) {
            Some(s) => {
                let (i, a) = ins.last();
                let need = a as int * k as int;
                if i < s.len() && need <= s[i as int] {
                    Some(s.update(i as int, (s[i as int] - need) as u64))
                } else {
                    None
                }
            },
            None => None,
        }
    }
}

/// Adds `amt * k` of each output to `stock`; `None` when a stock would
/// leave the 64-bit range.
pub open spec fn produce(stock: Seq<u64>, outs: Seq<(usize, u64)>, k: u64) -> Option<Seq<u64>>
    decreases outs.len(),
{
    if outs.len() == 0 {
        Some(stock)
    } else {
        match produce(stock, outs.drop_last(), k) {
            Some(s) => {
                let (j, a) = outs.last();
                let sum = s[j as int] + a as int * k as int;
                if j < s.len() && sum <= u64::MAX {
                    Some(s.update(j as int, sum as u64))
                } else {
                    None
                }
            },
            None => None,
        }
    }
}

/// Fires a recipe `k` times on `stock`: all inputs are taken, then all
/// outputs are added.
pub open spec fn fire(stock: Seq<u64>, r: Recipe, k: u64) -> Option<Seq<u64>> {
    match consume(stock, r.inputs@, k) {
        Some(s) => produce(s, r.outputs@, k),
        None => None,
    }
}

/// Fires the recipes of `order`, each as often as `counts` says, skipping
/// those with a zero count. The result is the final stock and the ids of the
/// recipes that were fired, in order.
pub open spec fn simulate(recipes: Seq<Recipe>, stock: Seq<u64>, order: Seq<usize>, counts: Seq<u64>) -> Option<(Seq<u64>, Seq<usize>)>
    decreases order.len(),
{
    if order.len() == 0 {
        Some((stock, Seq::empty()))
    } else {
        match simulate(recipes, stock, order.drop_last(), counts) {
            Some((s, fired)) => {
                let r = order.last();
                let k = counts[r as int];
                if k == 0 {
                    Some((s, fired))
                } else {
                    match fire(s, recipes[r as int], k) {
                        Some(s2) => Some((s2, fired.push(r))),
                        None => None,
                    }
                }
            },
            None => None,
        }
    }
}

/// Every stock meets its request.
pub open spec fn meets(stock: Seq<u64>, requests: Seq<u64>) -> bool {
    forall|i: int| 0 <= i < requests.len() ==> #[trigger] stock[i] >= requests[i]
}

/// Replays a plan given as (recipe id, count) pairs on `stock`, firing each
/// entry in turn; `None` as soon as a firing would take more than a stock holds.
pub open spec fn replay(recipes: Seq<Recipe>, stock: Seq<u64>, plan: Seq<(usize, u64)>) -> Option<Seq<u64>>
    decreases plan.len(),
{
    if plan.len() == 0 {
        Some(stock)
    } else {
        match replay(recipes, stock, plan.drop_last()) {
            Some(s) => fire(s, recipes[plan.last().0 as int], plan.last().1),
            None => None,
        }
    }
}

/// The (recipe id, count) pairs of a plan.
pub open spec fn plan_pairs(plan: Seq<Firing>) -> Seq<(usize, u64)> {
    plan.map_values(|f: Firing| (f.recipe, f.count))
}

/// Takes the inputs of `r`, `k` times, out of `stock`.
fn consume_exec(stock: &mut Vec<u64>, ins: &Vec<(usize, u64)>, k: u64) -> (ok: bool)
    requires
        keys_below(ins@, old(stock).len() as nat),
    ensures
        ok == consume(old(stock)@, ins@, k).is_some(),
        ok ==> final(stock)@ == consume(old(stock)@, ins@, k).unwrap(),
        final(stock).len() == old(stock).len(),
{
    let mut t: usize = 0;
    while t < ins.len()
        invariant
            t <= ins.len(),
            keys_below(ins@, old(stock).len() as nat),
            stock.len() == old(stock).len(),
            consume(old(stock)@, ins@.take(t as int), k) == Some(stock@),
        decreases ins.len() - t,
    {
        let (i, a) = ins[t];
        assert(ins@.take(t + 1).drop_last() == ins@.take(t as int));
        proof {
            assert(ins@[t as int].0 < stock.len());
            assert((a as int) * (k as int) <= u64::MAX * u64::MAX) by (nonlinear_arith)
                requires a <= u64::MAX, k <= u64::MAX;
        }
        let need: u128 = (a as u128) * (k as u128);
        if need > stock[i] as u128 {
            assert(consume(old(stock)@, ins@.take(t + 1), k).is_none());
            proof { lemma_consume_none_extends(old(stock)@, ins@, k, t + 1); }
            assert(ins@.take(ins.len() as int) == ins@);
            return false;
        }
        stock.set(i, stock[i] - (need as u64));
        t = t + 1;
    }
    assert(ins@.take(ins.len() as int) == ins@);
    true
}

/// Once consuming a prefix fails, consuming any longer prefix fails too.
proof fn lemma_consume_none_extends(stock: Seq<u64>, ins: Seq<(usize, u64)>, k: u64, n: int)
    requires
        0 <= n <= ins.len(),
        consume(stock, ins.take(n), k).is_none(),
    ensures
        consume(stock, ins, k).is_none(),
    decreases ins.len() - n,
{
    if n < ins.len() {
        assert(ins.take(n + 1).drop_last() == ins.take(n));
        lemma_consume_none_extends(stock, ins, k, n + 1);
    } else {
        assert(ins.take(n) == ins);
    }
}

/// Once producing a prefix fails, producing any longer prefix fails too.
proof fn lemma_produce_none_extends(stock: Seq<u64>, outs: Seq<(usize, u64)>, k: u64, n: int)
    requires
        0 <= n <= outs.len(),
        produce(stock, outs.take(n), k).is_none(),
    ensures
        produce(stock, outs, k).is_none(),
    decreases outs.len() - n,
{
    if n < outs.len() {
        assert(outs.take(n + 1).drop_last() == outs.take(n));
        lemma_produce_none_extends(stock, outs, k, n + 1);
    } else {
        assert(outs.take(n) == outs);
    }
}

/// Adds the outputs of a recipe, `k` times, to `stock`.
fn produce_exec(stock: &mut Vec<u64>, outs: &Vec<(usize, u64)>, k: u64) -> (ok: bool)
    requires
        keys_below(outs@, old(stock).len() as nat),
    ensures
        ok == produce(old(stock)@, outs@, k).is_some(),
        ok ==> final(stock)@ == produce(old(stock)@, outs@, k).unwrap(),
        final(stock).len() == old(stock).len(),
{
    let mut t: usize = 0;
    while t < outs.len()
        invariant
            t <= outs.len(),
            keys_below(outs@, old(stock).len() as nat),
            stock.len() == old(stock).len(),
            produce(old(stock)@, outs@.take(t as int), k) == Some(stock@),
        decreases outs.len() - t,
    {
        let (j, a) = outs[t];
        assert(outs@.take(t + 1).drop_last() == outs@.take(t as int));
        proof {
            assert(outs@[t as int].0 < stock.len());
            assert((a as int) * (k as int) <= u64::MAX * u64::MAX) by (nonlinear_arith)
                requires a <= u64::MAX, k <= u64::MAX;
        }
        let add: u128 = (a as u128) * (k as u128);
        if add > (u64::MAX - stock[j]) as u128 {
            assert(produce(old(stock)@, outs@.take(t + 1), k).is_none());
            proof { lemma_produce_none_extends(old(stock)@, outs@, k, t + 1); }
            return false;
        }
        stock.set(j, stock[j] + (add as u64));
        t = t + 1;
    }
    assert(outs@.take(outs.len() as int) == outs@);
    true
}

impl System {
    /// The recipe ids that the reconstruction fires, in order: present when
    /// simulating the sorted order succeeds and its final stock meets every request.
    pub open spec fn reconstruction(&self, counts: Seq<u64>) -> Option<Seq<usize>> {
        match simulate(self.recipes@, self.inventory@, self.sorted_recipe_ids@, counts) {
            Some((s, fired)) => if meets(s, self.requests@) { Some(fired) } else { None },
            None => None,
        }
    }

    /// `plan` fires the recipes `fired`, in order, each `counts` times, under
    /// its own name.
    pub open spec fn plan_matches(&self, counts: Seq<u64>, plan: Seq<Firing>, fired: Seq<usize>) -> bool {
        &&& plan.len() == fired.len()
        &&& forall|t: int| 0 <= t < plan.len() ==> {
            &&& (#[trigger] plan[t]).recipe == fired[t]
            &&& plan[t].count == counts[fired[t] as int]
            &&& plan[t].name@ == self.recipe_names[fired[t] as int]@
        }
    }

    /// Fires the recipes of `sorted_recipe_ids` on a copy of the inventory,
    /// each as often as `counts` says (by recipe id). The verdict is
    /// Craftable with the recipes fired, in order, when no stock runs short
    /// or leaves the 64-bit range and the final stock meets every request;
    /// otherwise it is Unknown.
    pub fn reconstruct(&self, counts: &Vec<u64>) -> (v: Craftability)
        requires
            self.wf(),
            counts.len() == self.recipes.len(),
            forall|t: int| 0 <= t < self.sorted_recipe_ids.len() ==> #[trigger] self.sorted_recipe_ids[t] < self.recipes.len(),
        ensures
            match self.reconstruction(counts@) {
                Some(fired) => v matches Craftability::Craftable(plan) && self.plan_matches(counts@, plan@, fired),
                None => v matches Craftability::Unknown,
            },
    {
        let mut stock = self.inventory.clone();
        assert(stock@ == self.inventory@);
        let mut plan: Vec<Firing> = Vec::new();
        let ghost fired: Seq<usize> = Seq::empty();
        let order = &self.sorted_recipe_ids;
        let mut t: usize = 0;
        while t < order.len()
            invariant
                self.wf(),
                counts.len() == self.recipes.len(),
                forall|u: int| 0 <= u < order.len() ==> #[trigger] order[u] < self.recipes.len(),
                order == &self.sorted_recipe_ids,
                t <= order.len(),
                stock.len() == self.item_names.len(),
                simulate(self.recipes@, self.inventory@, order@.take(t as int), counts@) == Some((stock@, fired)),
                plan.len() == fired.len(),
                forall|u: int| 0 <= u < plan.len() ==> {
                    &&& (#[trigger] plan[u]).recipe == fired[u]
                    &&& plan[u].count == counts[fired[u] as int]
                    &&& plan[u].name@ == self.recipe_names[fired[u] as int]@
                },
            decreases order.len() - t,
        {
            let r = order[t];
            assert(order@.take(t + 1).drop_last() == order@.take(t as int));
            assert(order@.take(t + 1).last() == r);
            let k = counts[r];
            if k != 0 {
                let recipe = &self.recipes[r];
                assert(recipe.wf(self.item_names.len() as nat));
                if !consume_exec(&mut stock, &recipe.inputs, k) {
                    proof { lemma_simulate_none_extends(self.recipes@, self.inventory@, order@, counts@, t + 1); }
                    assert(order@.take(order.len() as int) == order@);
                    return Craftability::Unknown;
                }
                if !produce_exec(&mut stock, &recipe.outputs, k) {
                    proof { lemma_simulate_none_extends(self.recipes@, self.inventory@, order@, counts@, t + 1); }
                    assert(order@.take(order.len() as int) == order@);
                    return Craftability::Unknown;
                }
                plan.push(Firing { recipe: r, name: self.recipe_names[r].clone(), count: k });
                proof { fired = fired.push(r); }
            }
            t = t + 1;
        }
        assert(order@.take(order.len() as int) == order@);
        let mut i: usize = 0;
        while i < stock.len()
            invariant
                i <= stock.len(),
                stock.len() == self.requests.len(),
                simulate(self.recipes@, self.inventory@, self.sorted_recipe_ids@, counts@) == Some((stock@, fired)),
                forall|j: int| 0 <= j < i ==> stock@[j] >= self.requests@[j],
            decreases stock.len() - i,
        {
            if stock[i] < self.requests[i] {
                assert(!meets(stock@, self.requests@));
                assert(self.reconstruction(counts@).is_none());
                return Craftability::Unknown;
            }
            i = i + 1;
        }
        assert(self.plan_matches(counts@, plan@, fired));
        Craftability::Craftable(plan)
    }
}

/// What a simulation fires, replayed as a plan, ends in the same stock.
proof fn lemma_simulate_replay(recipes: Seq<Recipe>, stock: Seq<u64>, order: Seq<usize>, counts: Seq<u64>)
    ensures
        match simulate(recipes, stock, order, counts) {
            Some((s, fired)) => replay(recipes, stock, fired.map_values(|r: usize| (r, counts[r as int]))) == Some(s),
            None => true,
        },
    decreases order.len(),
{
    if order.len() > 0 {
        lemma_simulate_replay(recipes, stock, order.drop_last(), counts);
        match simulate(recipes, stock, order.drop_last(), counts) {
            Some((s, fired)) => {
                let r = order.last();
                let f = fired.push(r);
                assert(f.map_values(|r: usize| (r, counts[r as int])).drop_last()
                    =~= fired.map_values(|r: usize| (r, counts[r as int])));
            },
            None => {},
        }
    }
}

/// With every count zero, the simulation fires nothing and leaves the stock
/// as it is.
proof fn lemma_simulate_zero(recipes: Seq<Recipe>, stock: Seq<u64>, order: Seq<usize>, counts: Seq<u64>)
    requires
        forall|t: int| 0 <= t < order.len() ==> (#[trigger] order[t] as int) < counts.len(),
        forall|r: int| 0 <= r < counts.len() ==> #[trigger] counts[r] == 0,
    ensures
        simulate(recipes, stock, order, counts) == Some((stock, Seq::<usize>::empty())),
    decreases order.len(),
{
    if order.len() > 0 {
        let o = order.drop_last();
        assert forall|t: int| 0 <= t < o.len() implies (#[trigger] o[t] as int) < counts.len() by {
            assert(o[t] == order[t]);
        }
        lemma_simulate_zero(recipes, stock, o, counts);
        assert(counts[order.last() as int] == 0);
    }
}

/// Soundness: replaying a plan that the reconstruction returns on the initial
/// inventory never takes more of an item than its stock holds, and after all
/// firings every stock meets its request.
pub proof fn lemma_plan_sound(sys: System, counts: Seq<u64>, plan: Seq<Firing>, fired: Seq<usize>)
    requires
        sys.reconstruction(counts) == Some(fired),
        sys.plan_matches(counts, plan, fired),
    ensures
        replay(sys.recipes@, sys.inventory@, plan_pairs(plan)) matches Some(s) && meets(s, sys.requests@),
{
    lemma_simulate_replay(sys.recipes@, sys.inventory@, sys.sorted_recipe_ids@, counts);
    assert(plan_pairs(plan) =~= fired.map_values(|r: usize| (r, counts[r as int])));
}

/// Soundness of verdicts: a Craftable verdict whose plan the reconstruction
/// gave, as `solve` and `run` promise, replays on the initial inventory
/// without any stock running short, and ends with every request met.
pub proof fn lemma_verdict_sound(sys: System, plan: Vec<Firing>)
    requires
        sys.sound_verdict(Craftability::Craftable(plan)),
    ensures
        replay(sys.recipes@, sys.inventory@, plan_pairs(plan@)) matches Some(s) && meets(s, sys.requests@),
{
    let (x, fired) = choose|x: Seq<u64>, fired: Seq<usize>|
        x.len() == sys.recipes.len() && sys.reconstruction(x) == Some(fired) && sys.plan_matches(x, plan@, fired);
    lemma_plan_sound(sys, x, plan@, fired);
}

/// Determinism: for one system and one model of the oracle, the plan is
/// determined, entry by entry.
pub proof fn lemma_plan_deterministic(sys: System, counts: Seq<u64>, first: Seq<Firing>, second: Seq<Firing>, fired: Seq<usize>)
    requires
        sys.reconstruction(counts) == Some(fired),
        sys.plan_matches(counts, first, fired),
        sys.plan_matches(counts, second, fired),
    ensures
        first.len() == second.len(),
        forall|t: int| 0 <= t < first.len() ==> (#[trigger] first[t]).recipe == second[t].recipe && first[t].count == second[t].count && first[t].name@ == second[t].name@,
{
}

/// Trivially craftable: where every inventory meets its request and the
/// model fires nothing, the reconstruction succeeds with an empty plan.
pub proof fn lemma_trivially_craftable(sys: System, counts: Seq<u64>)
    requires
        sys.wf(),
        counts.len() == sys.recipes.len(),
        forall|t: int| 0 <= t < sys.sorted_recipe_ids.len() ==> #[trigger] sys.sorted_recipe_ids[t] < sys.recipes.len(),
        forall|r: int| 0 <= r < counts.len() ==> #[trigger] counts[r] == 0,
        forall|i: int| 0 <= i < sys.inventory.len() ==> #[trigger] sys.inventory[i] >= sys.requests[i],
    ensures
        sys.reconstruction(counts) == Some(Seq::<usize>::empty()),
{
    lemma_simulate_zero(sys.recipes@, sys.inventory@, sys.sorted_recipe_ids@, counts);
    assert(meets(sys.inventory@, sys.requests@));
}

/// Once the simulation of a prefix of the order fails, that of any longer
/// prefix fails too.
proof fn lemma_simulate_none_extends(recipes: Seq<Recipe>, stock: Seq<u64>, order: Seq<usize>, counts: Seq<u64>, n: int)
    requires
        0 <= n <= order.len(),
        simulate(recipes, stock, order.take(n), counts).is_none(),
    ensures
        simulate(recipes, stock, order, counts).is_none(),
    decreases order.len() - n,
{
    if n < order.len() {
        assert(order.take(n + 1).drop_last() == order.take(n));
        lemma_simulate_none_extends(recipes, stock, order, counts, n + 1);
    } else {
        assert(order.take(n) == order);
    }
}

} // verus!
