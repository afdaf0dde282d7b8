use vstd::prelude::*;

verus! {

/// An item set of a recipe: item id and amount, each item at most once.
pub type ItemSet = Vec<(usize, u64)>;

/// A recipe: its input and output item sets.
#[derive(Debug, Clone)]
pub struct Recipe {
    pub inputs: ItemSet,
    pub outputs: ItemSet,
}

/// A complete problem instance; ids are indices into the vectors.
#[derive(Debug, Clone)]
pub struct System {
    /// Item names, indexed by item id.
    pub item_names: Vec<Vec<u8>>,
    /// Initial inventory, indexed by item id.
    pub inventory: Vec<u64>,
    /// Requested output, indexed by item id.
    pub requests: Vec<u64>,
    /// Recipe names, indexed by recipe id.
    pub recipe_names: Vec<Vec<u8>>,
    /// Recipe contents, indexed by recipe id.
    pub recipes: Vec<Recipe>,
    /// Recipe ids in topological order of the dependency graph.
    pub sorted_recipe_ids: Vec<usize>,
}

/// The names of a vector of byte strings, as a sequence of byte sequences.
pub open spec fn names_view(v: Seq<Vec<u8>>) -> Seq<Seq<u8>> {
    v.map_values(|n: Vec<u8>| n@)
}

/// No two names are equal.
pub open spec fn distinct(names: Seq<Seq<u8>>) -> bool {
    forall|a: int, b: int| 0 <= a < names.len() && 0 <= b < names.len() && a != b ==> names[a] != names[b]
}

/// No item id appears twice in the set.
pub open spec fn keys_unique(s: Seq<(usize, u64)>) -> bool {
    forall|a: int, b: int| 0 <= a < s.len() && 0 <= b < s.len() && a != b ==> s[a].0 != s[b].0
}

/// Every item id of the set is below `n`.
pub open spec fn keys_below(s: Seq<(usize, u64)>, n: nat) -> bool {
    forall|a: int| 0 <= a < s.len() ==> (s[a].0 as nat) < n
}

/// Some entry of the set has item id `i`.
pub open spec fn has_key(s: Seq<(usize, u64)>, i: usize) -> bool {
    exists|a: int| 0 <= a < s.len() && s[a].0 == i
}

/// The amount of item `i` in the set (the sum over its entries for `i`).
pub open spec fn amount(s: Seq<(usize, u64)>, i: usize) -> int
    decreases s.len(),
{
    if s.len() == 0 {
        0
    } else {
        amount(s.drop_last(), i) + if s.last().0 == i { s.last().1 as int } else { 0 }
    }
}

/// The position of `name` in `names`, if any.
pub open spec fn index_of(names: Seq<Seq<u8>>, name: Seq<u8>) -> Option<nat> {
    if exists|a: int| 0 <= a < names.len() && names[a] == name {
        Some((choose|a: int| 0 <= a < names.len() && names[a] == name) as nat)
    } else {
        None
    }
}

/// The names after interning `name`: unchanged when present, else one longer.
pub open spec fn interned(names: Seq<Seq<u8>>, name: Seq<u8>) -> Seq<Seq<u8>> {
    if names.contains(name) { names } else { names.push(name) }
}

/// A per-item vector after interning `name`: a new item gets a zero slot.
pub open spec fn grown(v: Seq<u64>, names: Seq<Seq<u8>>, name: Seq<u8>) -> Seq<u64> {
    if names.contains(name) { v } else { v.push(0) }
}

/// Two entries of a declared item set carry the same name.
pub open spec fn has_repeat(entries: Seq<(u64, Vec<u8>)>) -> bool {
    exists|a: int, b: int| 0 <= a < b < entries.len() && entries[a].1@ == entries[b].1@
}

/// In a set of distinct names, a name's index is its position.
pub proof fn lemma_index_of_distinct(names: Seq<Seq<u8>>, a: int)
    requires
        distinct(names),
        0 <= a < names.len(),
    ensures
        index_of(names, names[a]) == Some(a as nat),
{
    let c = choose|c: int| 0 <= c < names.len() && names[c] == names[a];
    if c != a {
        assert(names[c] != names[a]);
    }
}

impl Recipe {
    /// Both item sets have unique keys below `n_items`.
    pub open spec fn wf(&self, n_items: nat) -> bool {
        &&& keys_unique(self.inputs@)
        &&& keys_unique(self.outputs@)
        &&& keys_below(self.inputs@, n_items)
        &&& keys_below(self.outputs@, n_items)
    }
}

impl System {
    /// The invariants that hold of a system from its creation on.
    pub open spec fn wf(&self) -> bool {
        &&& self.inventory.len() == self.item_names.len()
        &&& self.requests.len() == self.item_names.len()
        &&& self.recipes.len() == self.recipe_names.len()
        &&& distinct(names_view(self.item_names@))
        &&& distinct(names_view(self.recipe_names@))
        &&& forall|r: int| 0 <= r < self.recipes.len() ==> #[trigger] self.recipes[r].wf(self.item_names.len() as nat)
    }

    /// Every recipe has a non-empty input set and a non-empty output set.
    pub open spec fn sets_nonempty(&self) -> bool {
        forall|r: int| 0 <= r < self.recipes.len() ==> (#[trigger] self.recipes[r]).inputs.len() > 0 && self.recipes[r].outputs.len() > 0
    }

    /// An empty system.
    pub fn new() -> (s: System)
        ensures
            s.wf(),
            s.item_names.len() == 0,
            s.recipes.len() == 0,
            s.recipe_names.len() == 0,
            s.sorted_recipe_ids.len() == 0,
    {
        System {
            item_names: Vec::new(),
            inventory: Vec::new(),
            requests: Vec::new(),
            recipe_names: Vec::new(),
            recipes: Vec::new(),
            sorted_recipe_ids: Vec::new(),
        }
    }

    /// The id of the item called `name`, if it exists.
    pub fn item_id(&self, name: &Vec<u8>) -> (r: Option<usize>)
        requires
            self.wf(),
        ensures
            r == match index_of(names_view(self.item_names@), name@) {
                Some(a) => Some(a as usize),
                None => None::<usize>,
            },
    {
        find_name(&self.item_names, name)
    }

    /// The id of the recipe called `name`, if it exists.
    pub fn recipe_id(&self, name: &Vec<u8>) -> (r: Option<usize>)
        requires
            self.wf(),
        ensures
            r == match index_of(names_view(self.recipe_names@), name@) {
                Some(a) => Some(a as usize),
                None => None::<usize>,
            },
    {
        find_name(&self.recipe_names, name)
    }

    /// Returns the id of the item called `name`, creating it with zero
    /// inventory and zero request when it does not exist yet.
    pub fn get_item_id(&mut self, name: &Vec<u8>) -> (id: usize)
        requires
            old(self).wf(),
            old(self).item_names.len() < usize::MAX,
        ensures
            final(self).wf(),
            final(self).recipes == old(self).recipes,
            final(self).recipe_names == old(self).recipe_names,
            final(self).sorted_recipe_ids == old(self).sorted_recipe_ids,
            id < final(self).item_names.len(),
            names_view(final(self).item_names@)[id as int] == name@,
            index_of(names_view(final(self).item_names@), name@) == Some(id as nat),
            names_view(final(self).item_names@) == interned(names_view(old(self).item_names@), name@),
            final(self).inventory@ == grown(old(self).inventory@, names_view(old(self).item_names@), name@),
            final(self).requests@ == grown(old(self).requests@, names_view(old(self).item_names@), name@),
            match index_of(names_view(old(self).item_names@), name@) {
                Some(a) => {
                    &&& id == a
                    &&& final(self).item_names@ == old(self).item_names@
                    &&& final(self).inventory@ == old(self).inventory@
                    &&& final(self).requests@ == old(self).requests@
                },
                None => {
                    &&& id == old(self).item_names.len()
                    &&& names_view(final(self).item_names@) == names_view(old(self).item_names@).push(name@)
                    &&& final(self).inventory@ == old(self).inventory@.push(0)
                    &&& final(self).requests@ == old(self).requests@.push(0)
                },
            },
    {
        match find_name(&self.item_names, name) {
            Some(id) => {
                proof {
                    assert(names_view(self.item_names@)[id as int] == name@);
                    assert(names_view(self.item_names@).contains(name@));
                }
                id
            },
            None => {
                let id = self.item_names.len();
                let ghost old_names = names_view(self.item_names@);
                self.item_names.push(name.clone());
                self.inventory.push(0);
                self.requests.push(0);
                proof {
                    assert(names_view(self.item_names@) =~= old_names.push(name@));
                    assert(!old_names.contains(name@));
                    assert(names_view(self.item_names@)[id as int] == name@);
                    lemma_index_of_distinct(names_view(self.item_names@), id as int);
                    assert forall|r: int| 0 <= r < self.recipes.len() implies #[trigger] self.recipes[r].wf(self.item_names.len() as nat) by {
                        assert(old(self).recipes[r].wf(old(self).item_names.len() as nat));
                    }
                }
                id
            },
        }
    }
}

/// Byte-wise equality of two names.
pub fn same_name(a: &Vec<u8>, b: &Vec<u8>) -> (r: bool)
    ensures
        r == (a@ == b@),
{
    if a.len() != b.len() {
        return false;
    }
    let mut k: usize = 0;
    while k < a.len()
        invariant
            a.len() == b.len(),
            k <= a.len(),
            a@.take(k as int) == b@.take(k as int),
        decreases a.len() - k,
    {
        if a[k] != b[k] {
            assert(a@[k as int] != b@[k as int]);
            return false;
        }
        assert(a@.take(k + 1) == a@.take(k as int).push(a@[k as int]));
        assert(b@.take(k + 1) == b@.take(k as int).push(b@[k as int]));
        k = k + 1;
    }
    assert(a@ == a@.take(k as int));
    assert(b@ == b@.take(k as int));
    true
}

/// The position of `name` in `names`; with distinct names it is the only one.
pub fn find_name(names: &Vec<Vec<u8>>, name: &Vec<u8>) -> (r: Option<usize>)
    requires
        distinct(names_view(names@)),
    ensures
        r == match index_of(names_view(names@), name@) {
            Some(a) => Some(a as usize),
            None => None::<usize>,
        },
{
    let ghost nv = names_view(names@);
    let mut k: usize = 0;
    while k < names.len()
        invariant
            k <= names.len(),
            nv == names_view(names@),
            distinct(nv),
            forall|a: int| 0 <= a < k ==> nv[a] != name@,
        decreases names.len() - k,
    {
        if same_name(&names[k], name) {
            assert(nv[k as int] == name@);
            let ghost c = choose|a: int| 0 <= a < nv.len() && nv[a] == name@;
            assert(0 <= c < nv.len() && nv[c] == name@);
            proof {
                if c != k as int {
                    assert(distinct(nv));
                    assert(nv[c] != nv[k as int]);
                }
            }
            return Some(k);
        }
        k = k + 1;
    }
    None
}

} // verus!
