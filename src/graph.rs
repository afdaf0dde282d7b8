use vstd::prelude::*;
use crate::error::Error;
use crate::system::{System, has_key};
use pathfinding::directed::topological_sort::topological_sort;

verus! {

/// The adjacency lists of a graph on nodes `0 .. adj.len()`.
pub open spec fn adj_view(adj: Seq<Vec<usize>>) -> Seq<Seq<usize>> {
    adj.map_values(|l: Vec<usize>| l@)
}

/// `order` lists every node of `g` once, and each edge goes forward in it.
pub open spec fn is_topological_order(g: Seq<Seq<usize>>, order: Seq<usize>) -> bool {
    &&& order.len() == g.len()
    &&& order.no_duplicates()
    &&& forall|a: int| 0 <= a < order.len() ==> (#[trigger] order[a] as int) < g.len()
    &&& forall|v: usize| (v as int) < g.len() ==> #[trigger] order.contains(v)
    &&& forall|a: int, b: int| 0 <= a < order.len() && 0 <= b < order.len()
            && (#[trigger] g[order[a] as int]).contains(#[trigger] order[b]) ==> a < b
}

/// Node `v` lies on a cycle: a path of at least one edge leads from `v`
/// back to `v`.
pub open spec fn on_cycle(g: Seq<Seq<usize>>, v: usize) -> bool {
    exists|path: Seq<usize>| {
        &&& path.len() >= 2
        &&& path[0] == v
        &&& path.last() == v
        &&& forall|k: int| 0 <= k < path.len() - 1 ==> (path[k] as int) < g.len() && #[trigger] g[path[k] as int].contains(path[k + 1])
    }
}

/// Relies on pathfinding::directed::topological_sort::topological_sort, seeded
/// with every node: its depth-first search returns every node once, each
/// before its successors, and fails only on meeting a node on the current
/// search path again: that node lies on a cycle, which no graph with a
/// topological order allows.
#[verifier::external_body]
fn topological_sort_nodes(adj: &Vec<Vec<usize>>) -> (r: Result<Vec<usize>, usize>)
    requires
        forall|u: int, k: int| 0 <= u < adj.len() && 0 <= k < adj[u].len() ==> (#[trigger] adj[u][k] as int) < adj.len(),
    ensures
        match r {
            Ok(order) => is_topological_order(adj_view(adj@), order@),
            Err(n) => n < adj.len() && on_cycle(adj_view(adj@), n)
                && !exists|o: Seq<usize>| is_topological_order(adj_view(adj@), o),
        },
{
    let roots: Vec<usize> = (0..adj.len()).collect();
    topological_sort(&roots, |n: &usize| adj[*n].clone())
}

/// The edges of the dependency graph of `sys`. Item `i` is node `i`, recipe
/// `r` is node `n + r` for `n` items. An item points to each recipe that
/// consumes it, a recipe to each item that it produces.
pub open spec fn edge(sys: System, u: int, v: int) -> bool {
    let n = sys.item_names.len() as int;
    let m = sys.recipes.len() as int;
    ||| (0 <= u < n && n <= v < n + m && has_key(sys.recipes[v - n].inputs@, u as usize))
    ||| (n <= u < n + m && 0 <= v < n && has_key(sys.recipes[u - n].outputs@, v as usize))
}

/// The adjacency lists hold exactly the edges of the dependency graph.
pub open spec fn is_dependency_graph(sys: System, g: Seq<Seq<usize>>) -> bool {
    &&& g.len() == sys.item_names.len() + sys.recipes.len()
    &&& forall|u: int, v: usize| 0 <= u < g.len() ==> (#[trigger] g[u].contains(v) <==> edge(sys, u, v as int))
}

/// The recipe nodes of a node order, as recipe ids, in order.
pub open spec fn recipe_projection(order: Seq<usize>, n: nat) -> Seq<usize>
    decreases order.len(),
{
    if order.len() == 0 {
        Seq::empty()
    } else {
        let p = recipe_projection(order.drop_last(), n);
        if order.last() >= n { p.push((order.last() - n) as usize) } else { p }
    }
}

impl System {
    /// Some order of all items and recipes has every edge of the dependency
    /// graph going forward.
    pub open spec fn is_acyclic(&self) -> bool {
        exists|g: Seq<Seq<usize>>, o: Seq<usize>| is_dependency_graph(*self, g) && is_topological_order(g, o)
    }

    /// `sorted_recipe_ids` is the recipe part of a topological order of the
    /// dependency graph.
    pub open spec fn is_sorted(&self) -> bool {
        exists|g: Seq<Seq<usize>>, o: Seq<usize>| is_dependency_graph(*self, g) && is_topological_order(g, o)
            && self.sorted_recipe_ids@ == recipe_projection(o, self.item_names.len() as nat)
    }

    /// The adjacency lists of the dependency graph.
    fn dependency_graph(&self) -> (adj: Vec<Vec<usize>>)
        requires
            self.wf(),
            self.item_names.len() + self.recipes.len() <= usize::MAX,
        ensures
            is_dependency_graph(*self, adj_view(adj@)),
            forall|u: int, k: int| 0 <= u < adj.len() && 0 <= k < adj[u].len() ==> (#[trigger] adj[u][k] as int) < adj.len(),
    {
        let n = self.item_names.len();
        let m = self.recipes.len();
        let mut adj: Vec<Vec<usize>> = Vec::new();
        let mut i: usize = 0;
        while i < n
            invariant
                self.wf(),
                n == self.item_names.len(),
                m == self.recipes.len(),
                n + m <= usize::MAX,
                i <= n,
                adj.len() == i,
                forall|u: int, v: usize| 0 <= u < i ==> (#[trigger] adj[u]@.contains(v) <==> edge(*self, u, v as int)),
                forall|u: int, k: int| 0 <= u < adj.len() && 0 <= k < adj[u].len() ==> (#[trigger] adj[u][k] as int) < n + m,
            decreases n - i,
        {
            let mut succ: Vec<usize> = Vec::new();
            let mut r: usize = 0;
            while r < m
                invariant
                    self.wf(),
                    n == self.item_names.len(),
                    m == self.recipes.len(),
                    n + m <= usize::MAX,
                    i < n,
                    r <= m,
                    forall|v: usize| succ@.contains(v) <==> (n <= v < n + r && has_key(self.recipes[v - n].inputs@, i)),
                    forall|k: int| 0 <= k < succ.len() ==> (#[trigger] succ[k] as int) < n + m,
                decreases m - r,
            {
                if set_has_key(&self.recipes[r].inputs, i) {
                    let ghost old_succ = succ@;
                    succ.push(n + r);
                    assert(succ@ == old_succ.push((n + r) as usize));
                    assert forall|v: usize| succ@.contains(v) <==> (n <= v < n + r + 1 && has_key(self.recipes[v - n].inputs@, i)) by {
                        if v == n + r {
                            assert(succ@[succ@.len() - 1] == v);
                        } else {
                            if old_succ.contains(v) {
                                let a = choose|a: int| 0 <= a < old_succ.len() && old_succ[a] == v;
                                assert(succ@[a] == v);
                            }
                            if succ@.contains(v) {
                                let a = choose|a: int| 0 <= a < succ@.len() && succ@[a] == v;
                                assert(a < old_succ.len());
                                assert(old_succ[a] == v);
                            }
                        }
                    }
                }
                r = r + 1;
            }
            adj.push(succ);
            i = i + 1;
        }
        let mut r: usize = 0;
        while r < m
            invariant
                self.wf(),
                n == self.item_names.len(),
                m == self.recipes.len(),
                n + m <= usize::MAX,
                r <= m,
                adj.len() == n + r,
                forall|u: int, v: usize| 0 <= u < n + r ==> (#[trigger] adj[u]@.contains(v) <==> edge(*self, u, v as int)),
                forall|u: int, k: int| 0 <= u < adj.len() && 0 <= k < adj[u].len() ==> (#[trigger] adj[u][k] as int) < n + m,
            decreases m - r,
        {
            let outs = &self.recipes[r].outputs;
            assert(self.recipes[r as int].wf(n as nat));
            let mut succ: Vec<usize> = Vec::new();
            let mut t: usize = 0;
            while t < outs.len()
                invariant
                    t <= outs.len(),
                    outs == &self.recipes[r as int].outputs,
                    self.recipes[r as int].wf(n as nat),
                    succ@ == outs@.take(t as int).map_values(|e: (usize, u64)| e.0),
                decreases outs.len() - t,
            {
                succ.push(outs[t].0);
                assert(outs@.take(t + 1).map_values(|e: (usize, u64)| e.0)
                    =~= outs@.take(t as int).map_values(|e: (usize, u64)| e.0).push(outs@[t as int].0));
                t = t + 1;
            }
            assert(outs@.take(outs.len() as int) == outs@);
            assert forall|v: usize| succ@.contains(v) <==> edge(*self, n + r, v as int) by {
                if succ@.contains(v) {
                    let a = choose|a: int| 0 <= a < succ@.len() && succ@[a] == v;
                    assert(outs@[a].0 == v);
                }
                if has_key(outs@, v) {
                    let a = choose|a: int| 0 <= a < outs@.len() && outs@[a].0 == v;
                    assert(succ@[a] == v);
                }
            }
            assert forall|k: int| 0 <= k < succ.len() implies (#[trigger] succ[k] as int) < n + m by {
                assert(succ@[k] == outs@[k].0);
            }
            adj.push(succ);
            r = r + 1;
        }
        assert(adj_view(adj@).len() == adj.len());
        assert forall|u: int, v: usize| 0 <= u < adj_view(adj@).len() implies (#[trigger] adj_view(adj@)[u].contains(v) <==> edge(*self, u, v as int)) by {
            assert(adj_view(adj@)[u] == adj[u]@);
        }
        adj
    }
}

impl System {
    /// Sorts the dependency graph topologically and keeps the recipe ids of
    /// the order in `sorted_recipe_ids`. Fails, naming an item or a recipe,
    /// exactly when the graph has a cycle.
    pub fn sort_recipe_ids(&mut self) -> (r: Result<(), Error>)
        requires
            old(self).wf(),
            old(self).item_names.len() + old(self).recipes.len() <= usize::MAX,
        ensures
            final(self).wf(),
            final(self).item_names == old(self).item_names,
            final(self).inventory == old(self).inventory,
            final(self).requests == old(self).requests,
            final(self).recipe_names == old(self).recipe_names,
            final(self).recipes == old(self).recipes,
            r is Ok <==> old(self).is_acyclic(),
            r is Err ==> final(self).sorted_recipe_ids == old(self).sorted_recipe_ids,
            r is Ok ==> final(self).is_sorted(),
            r is Ok ==> forall|t: int| 0 <= t < final(self).sorted_recipe_ids.len() ==> #[trigger] final(self).sorted_recipe_ids[t] < final(self).recipes.len(),
            r is Ok ==> final(self).sorted_recipe_ids@.no_duplicates(),
            r is Ok ==> forall|q: usize| q < final(self).recipes.len() ==> #[trigger] final(self).sorted_recipe_ids@.contains(q),
            match r {
                Ok(_) => true,
                Err(Error::CyclicItem(name)) => exists|i: int, g: Seq<Seq<usize>>| 0 <= i < old(self).item_names.len() && old(self).item_names[i]@ == name@
                    && is_dependency_graph(*old(self), g) && on_cycle(g, i as usize),
                Err(Error::CyclicRecipe(name)) => exists|q: int, g: Seq<Seq<usize>>| 0 <= q < old(self).recipe_names.len() && old(self).recipe_names[q]@ == name@
                    && is_dependency_graph(*old(self), g) && on_cycle(g, (old(self).item_names.len() + q) as usize),
                Err(_) => false,
            },
    {
        let adj = self.dependency_graph();
        let n = self.item_names.len();
        let ghost g = adj_view(adj@);
        match topological_sort_nodes(&adj) {
            Err(node) => {
                proof {
                    if self.is_acyclic() {
                        let (g2, o) = choose|g2: Seq<Seq<usize>>, o: Seq<usize>| is_dependency_graph(*self, g2) && is_topological_order(g2, o);
                        lemma_order_same_graph(*self, g2, g, o);
                    }
                }
                if node < n {
                    let name = self.item_names[node].clone();
                    assert(self.item_names[node as int]@ == name@);
                    Err(Error::CyclicItem(name))
                } else {
                    let name = self.recipe_names[node - n].clone();
                    assert(self.recipe_names[node - n]@ == name@);
                    Err(Error::CyclicRecipe(name))
                }
            },
            Ok(order) => {
                let mut sorted: Vec<usize> = Vec::new();
                let mut t: usize = 0;
                while t < order.len()
                    invariant
                        t <= order.len(),
                        is_topological_order(g, order@),
                        g.len() == n + self.recipes.len(),
                        sorted@ == recipe_projection(order@.take(t as int), n as nat),
                        forall|k: int| 0 <= k < sorted.len() ==> #[trigger] sorted[k] < self.recipes.len(),
                    decreases order.len() - t,
                {
                    assert(order@.take(t + 1).drop_last() == order@.take(t as int));
                    let node = order[t];
                    assert((order@[t as int] as int) < g.len());
                    if node >= n {
                        sorted.push(node - n);
                    }
                    t = t + 1;
                }
                assert(order@.take(order.len() as int) == order@);
                proof {
                    lemma_projection(order@, n as nat);
                    assert forall|q: usize| q < self.recipes.len() implies #[trigger] sorted@.contains(q) by {
                        let x = (n + q) as usize;
                        assert((x as int) < g.len());
                        assert(order@.contains(x));
                    }
                }
                self.sorted_recipe_ids = sorted;
                proof {
                    assert(is_dependency_graph(*self, g));
                    assert(is_topological_order(g, order@));
                }
                Ok(())
            },
        }
    }
}

/// The recipe part of a node order lists each recipe node once, in order.
proof fn lemma_projection(o: Seq<usize>, n: nat)
    requires
        o.no_duplicates(),
    ensures
        recipe_projection(o, n).no_duplicates(),
        forall|x: usize| x >= n && #[trigger] o.contains(x) ==> recipe_projection(o, n).contains((x - n) as usize),
        forall|k: int| 0 <= k < recipe_projection(o, n).len() ==> o.contains((#[trigger] recipe_projection(o, n)[k] + n) as usize)
            && recipe_projection(o, n)[k] + n <= usize::MAX,
    decreases o.len(),
{
    if o.len() > 0 {
        let p = o.drop_last();
        assert(p.no_duplicates());
        lemma_projection(p, n);
        let pp = recipe_projection(p, n);
        let last = o.last();
        assert forall|x: usize| x >= n && #[trigger] o.contains(x) implies recipe_projection(o, n).contains((x - n) as usize) by {
            if x != last {
                let i = choose|i: int| 0 <= i < o.len() && o[i] == x;
                assert(i < p.len());
                assert(p[i] == x);
                assert(p.contains(x));
                let k = choose|k: int| 0 <= k < pp.len() && pp[k] == (x - n) as usize;
                assert(recipe_projection(o, n)[k] == pp[k]);
            } else {
                assert(recipe_projection(o, n).last() == (x - n) as usize);
            }
        }
        assert forall|k: int| 0 <= k < recipe_projection(o, n).len() implies o.contains((#[trigger] recipe_projection(o, n)[k] + n) as usize)
            && recipe_projection(o, n)[k] + n <= usize::MAX by {
            if k < pp.len() {
                assert(recipe_projection(o, n)[k] == pp[k]);
                let i = choose|i: int| 0 <= i < p.len() && p[i] == (pp[k] + n) as usize;
                assert(o[i] == p[i]);
            } else {
                assert(o[o.len() - 1] == last);
            }
        }
        if last >= n {
            assert forall|k: int| 0 <= k < pp.len() implies pp[k] != (last - n) as usize by {
                let i = choose|i: int| 0 <= i < p.len() && p[i] == (pp[k] + n) as usize;
                assert(o[i] == p[i]);
                if pp[k] == (last - n) as usize {
                    assert(o[i] == o[o.len() - 1]);
                }
            }
        }
    }
}

/// A topological order of one set of adjacency lists of the dependency graph
/// is one of any other.
proof fn lemma_order_same_graph(sys: System, g1: Seq<Seq<usize>>, g2: Seq<Seq<usize>>, o: Seq<usize>)
    requires
        is_dependency_graph(sys, g1),
        is_dependency_graph(sys, g2),
        is_topological_order(g1, o),
    ensures
        is_topological_order(g2, o),
{
    assert forall|a: int, b: int| 0 <= a < o.len() && 0 <= b < o.len()
        && (#[trigger] g2[o[a] as int]).contains(#[trigger] o[b]) implies a < b by {
        assert(g1[o[a] as int].contains(o[b]));
    }
}

/// Order of the dependency graph: in a topological order of all nodes, every
/// item that a recipe consumes stands strictly before the recipe, and every
/// item that it produces strictly after it.
pub proof fn lemma_sorted_respects_recipes(sys: System, g: Seq<Seq<usize>>, o: Seq<usize>, r: int, a: int, b: int)
    requires
        sys.wf(),
        sys.item_names.len() + sys.recipes.len() <= usize::MAX,
        is_dependency_graph(sys, g),
        is_topological_order(g, o),
        0 <= r < sys.recipes.len(),
    ensures
        0 <= a < sys.recipes[r].inputs.len() ==> o.index_of(sys.recipes[r].inputs[a].0) < o.index_of((sys.item_names.len() + r) as usize),
        0 <= b < sys.recipes[r].outputs.len() ==> o.index_of((sys.item_names.len() + r) as usize) < o.index_of(sys.recipes[r].outputs[b].0),
{
    let n = sys.item_names.len() as int;
    let rn = (n + r) as usize;
    assert(rn as int == n + r);
    assert(sys.recipes[r].wf(n as nat));
    lemma_order_contains_all(g, o, rn as int);
    let pr = o.index_of(rn);
    if 0 <= a < sys.recipes[r].inputs.len() {
        let i = sys.recipes[r].inputs[a].0;
        lemma_order_contains_all(g, o, i as int);
        let pi = o.index_of(i);
        assert(sys.recipes[r].inputs@[a].0 == i);
        assert(has_key(sys.recipes[r].inputs@, i));
        assert(edge(sys, i as int, rn as int));
        assert(g[o[pi] as int].contains(o[pr]));
    }
    if 0 <= b < sys.recipes[r].outputs.len() {
        let j = sys.recipes[r].outputs[b].0;
        lemma_order_contains_all(g, o, j as int);
        let pj = o.index_of(j);
        assert(has_key(sys.recipes[rn - n].outputs@, j));
        assert(edge(sys, rn as int, j as int));
        assert(g[o[pr] as int].contains(o[pj]));
    }
}

/// A topological order holds every node of the graph.
proof fn lemma_order_contains_all(g: Seq<Seq<usize>>, o: Seq<usize>, v: int)
    requires
        is_topological_order(g, o),
        0 <= v < g.len(),
    ensures
        o.contains(v as usize),
        0 <= o.index_of(v as usize) < o.len(),
        o[o.index_of(v as usize)] == v as usize,
{
    assert(o.contains(v as usize));
}

/// Some entry of the set has item id `i`.
fn set_has_key(s: &Vec<(usize, u64)>, i: usize) -> (r: bool)
    ensures
        r == has_key(s@, i),
{
    let mut t: usize = 0;
    while t < s.len()
        invariant
            t <= s.len(),
            forall|a: int| 0 <= a < t ==> s@[a].0 != i,
        decreases s.len() - t,
    {
        if s[t].0 == i {
            assert(s@[t as int].0 == i);
            return true;
        }
        t = t + 1;
    }
    false
}

} // verus!
