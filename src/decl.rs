use vstd::prelude::*;
use crate::error::Error;
use crate::model::{SystemModel, lemma_apply_set_err_extends, apply_item, apply_request, apply_set, apply_recipe, entries_view, fault_of, id_of, lemma_intern_model};
use crate::system::{
    System, Recipe, ItemSet, names_view, index_of, interned, grown, has_repeat, keys_unique,
    keys_below, distinct, has_key,
};

verus! {

/// `new` is `old` with possibly more items, each new one with zero
/// inventory and zero request; recipes are untouched.
pub open spec fn extends(old: System, new: System) -> bool {
    &&& names_view(old.item_names@) == names_view(new.item_names@).take(old.item_names.len() as int)
    &&& old.item_names.len() <= new.item_names.len()
    &&& old.inventory@ == new.inventory@.take(old.inventory.len() as int)
    &&& old.requests@ == new.requests@.take(old.requests.len() as int)
    &&& forall|i: int| old.item_names.len() <= i < new.item_names.len() ==> #[trigger] new.inventory[i] == 0 && new.requests[i] == 0
    &&& new.recipes == old.recipes
    &&& new.recipe_names == old.recipe_names
    &&& new.sorted_recipe_ids == old.sorted_recipe_ids
}

/// `set` lists the entries in order, each by the id of its name in `names`.
pub open spec fn set_of_entries(set: Seq<(usize, u64)>, entries: Seq<(u64, Vec<u8>)>, names: Seq<Seq<u8>>) -> bool {
    &&& set.len() == entries.len()
    &&& forall|t: int| 0 <= t < set.len() ==> {
        &&& (#[trigger] set[t]).1 == entries[t].0
        &&& (set[t].0 as int) < names.len()
        &&& names[set[t].0 as int] == entries[t].1@
    }
}

/// Every system extends itself.
proof fn lemma_extends_refl(a: System)
    ensures
        extends(a, a),
{
    assert(names_view(a.item_names@) =~= names_view(a.item_names@).take(a.item_names.len() as int));
    assert(a.inventory@ =~= a.inventory@.take(a.inventory.len() as int));
    assert(a.requests@ =~= a.requests@.take(a.requests.len() as int));
}

/// Extension is transitive.
proof fn lemma_extends_trans(a: System, b: System, c: System)
    requires
        a.wf(),
        b.wf(),
        c.wf(),
        extends(a, b),
        extends(b, c),
    ensures
        extends(a, c),
{
    let an = names_view(a.item_names@);
    let bn = names_view(b.item_names@);
    let cn = names_view(c.item_names@);
    assert(a.inventory.len() == a.item_names.len() && b.inventory.len() == b.item_names.len() && c.inventory.len() == c.item_names.len());
    assert(an.len() == a.item_names.len() && bn.len() == b.item_names.len() && cn.len() == c.item_names.len());
    assert forall|k: int| 0 <= k < a.item_names.len() implies an[k] == cn[k] by {
        assert(an[k] == bn.take(a.item_names.len() as int)[k]);
        assert(bn[k] == cn.take(b.item_names.len() as int)[k]);
    }
    assert forall|k: int| 0 <= k < a.item_names.len() implies a.inventory@[k] == c.inventory@[k] by {
        assert(a.inventory@[k] == b.inventory@.take(a.inventory.len() as int)[k]);
        assert(b.inventory@[k] == c.inventory@.take(b.inventory.len() as int)[k]);
    }
    assert forall|k: int| 0 <= k < a.item_names.len() implies a.requests@[k] == c.requests@[k] by {
        assert(a.requests@[k] == b.requests@.take(a.requests.len() as int)[k]);
        assert(b.requests@[k] == c.requests@.take(b.requests.len() as int)[k]);
    }
    assert(an =~= cn.take(a.item_names.len() as int));
    assert(a.inventory@ =~= c.inventory@.take(a.inventory.len() as int));
    assert(a.requests@ =~= c.requests@.take(a.requests.len() as int));
    assert forall|i: int| a.item_names.len() <= i < c.item_names.len() implies #[trigger] c.inventory[i] == 0 && c.requests[i] == 0 by {
        if i < b.item_names.len() {
            assert(b.inventory@.take(b.inventory.len() as int)[i] == c.inventory[i]);
            assert(b.requests@.take(b.requests.len() as int)[i] == c.requests[i]);
        }
    }
}

/// Interning a name extends the system.
proof fn lemma_interned_extends(a: System, b: System, name: Seq<u8>)
    requires
        a.wf(),
        b.wf(),
        names_view(b.item_names@) == interned(names_view(a.item_names@), name),
        b.inventory@ == grown(a.inventory@, names_view(a.item_names@), name),
        b.requests@ == grown(a.requests@, names_view(a.item_names@), name),
        b.recipes == a.recipes,
        b.recipe_names == a.recipe_names,
        b.sorted_recipe_ids == a.sorted_recipe_ids,
    ensures
        extends(a, b),
{
    assert(names_view(a.item_names@) =~= names_view(b.item_names@).take(a.item_names.len() as int));
    assert(a.inventory@ =~= b.inventory@.take(a.inventory.len() as int));
    assert(a.requests@ =~= b.requests@.take(a.requests.len() as int));
}

impl System {
    /// Declares an inventory of `amount` for the item called `name`. Fails
    /// with DuplicateItem when the item already has a non-zero inventory.
    pub fn declare_item(&mut self, amount: u64, name: &Vec<u8>) -> (r: Result<(), Error>)
        requires
            old(self).wf(),
            old(self).item_names.len() < usize::MAX,
        ensures
            final(self).wf(),
            names_view(final(self).item_names@) == interned(names_view(old(self).item_names@), name@),
            final(self).requests@ == grown(old(self).requests@, names_view(old(self).item_names@), name@),
            final(self).recipes == old(self).recipes,
            final(self).recipe_names == old(self).recipe_names,
            final(self).sorted_recipe_ids == old(self).sorted_recipe_ids,
            ({
                let inv = grown(old(self).inventory@, names_view(old(self).item_names@), name@);
                let id = index_of(names_view(final(self).item_names@), name@).unwrap() as int;
                &&& id < inv.len()
                &&& match r {
                    Ok(_) => inv[id] == 0 && final(self).inventory@ == inv.update(id, amount),
                    Err(e) => inv[id] != 0 && final(self).inventory@ == inv && (e matches Error::DuplicateItem(n) && n@ == name@),
                }
            }),
            match apply_item(old(self).model(), amount, name@) {
                Ok(m) => r is Ok && final(self).model() == m,
                Err(f) => r matches Err(e) && fault_of(e) == Some(f),
            },
    {
        let id = self.get_item_id(name);
        proof {
            lemma_intern_model(*old(self), *self, name@);
            assert(id_of(self.model(), name@) == id);
        }
        if self.inventory[id] != 0 {
            Err(Error::DuplicateItem(name.clone()))
        } else {
            self.inventory.set(id, amount);
            Ok(())
        }
    }

    /// Declares a request of `amount` for the item called `name`. Fails with
    /// DuplicateRequest when the item already has a non-zero request.
    pub fn declare_request(&mut self, amount: u64, name: &Vec<u8>) -> (r: Result<(), Error>)
        requires
            old(self).wf(),
            old(self).item_names.len() < usize::MAX,
        ensures
            final(self).wf(),
            names_view(final(self).item_names@) == interned(names_view(old(self).item_names@), name@),
            final(self).inventory@ == grown(old(self).inventory@, names_view(old(self).item_names@), name@),
            final(self).recipes == old(self).recipes,
            final(self).recipe_names == old(self).recipe_names,
            final(self).sorted_recipe_ids == old(self).sorted_recipe_ids,
            ({
                let req = grown(old(self).requests@, names_view(old(self).item_names@), name@);
                let id = index_of(names_view(final(self).item_names@), name@).unwrap() as int;
                &&& id < req.len()
                &&& match r {
                    Ok(_) => req[id] == 0 && final(self).requests@ == req.update(id, amount),
                    Err(e) => req[id] != 0 && final(self).requests@ == req && (e matches Error::DuplicateRequest(n) && n@ == name@),
                }
            }),
            match apply_request(old(self).model(), amount, name@) {
                Ok(m) => r is Ok && final(self).model() == m,
                Err(f) => r matches Err(e) && fault_of(e) == Some(f),
            },
    {
        let id = self.get_item_id(name);
        proof {
            lemma_intern_model(*old(self), *self, name@);
            assert(id_of(self.model(), name@) == id);
        }
        if self.requests[id] != 0 {
            Err(Error::DuplicateRequest(name.clone()))
        } else {
            self.requests.set(id, amount);
            Ok(())
        }
    }

    /// Interns the items of a declared set and returns it by item id. Fails
    /// with DuplicateInSet, naming the item, when a name occurs twice.
    pub fn item_set(&mut self, entries: &Vec<(u64, Vec<u8>)>) -> (r: Result<ItemSet, Error>)
        requires
            old(self).wf(),
            old(self).item_names.len() + entries.len() < usize::MAX,
        ensures
            final(self).wf(),
            extends(*old(self), *final(self)),
            final(self).item_names.len() <= old(self).item_names.len() + entries.len(),
            forall|i: int| old(self).item_names.len() <= i < final(self).item_names.len() ==>
                exists|b: int| 0 <= b < entries.len() && entries[b].1@ == #[trigger] names_view(final(self).item_names@)[i],
            match r {
                Ok(set) => {
                    &&& !has_repeat(entries@)
                    &&& set_of_entries(set@, entries@, names_view(final(self).item_names@))
                    &&& keys_unique(set@)
                    &&& keys_below(set@, final(self).item_names.len() as nat)
                },
                Err(e) => has_repeat(entries@) && (e matches Error::DuplicateInSet(n)
                    && exists|b: int| 0 <= b < entries.len() && entries[b].1@ == n@),
            },
            match apply_set(old(self).model(), entries_view(entries@)) {
                Ok((m, set)) => (r matches Ok(out) && out@ == set) && final(self).model() == m,
                Err(f) => r matches Err(e) && fault_of(e) == Some(f),
            },
    {
        let ghost ev = entries_view(entries@);
        let mut out: ItemSet = Vec::new();
        let mut t: usize = 0;
        proof { lemma_extends_refl(*self); }
        while t < entries.len()
            invariant
                old(self).wf(),
                self.wf(),
                extends(*old(self), *self),
                forall|i: int| old(self).item_names.len() <= i < self.item_names.len() ==>
                    exists|b: int| 0 <= b < entries.len() && entries[b].1@ == #[trigger] names_view(self.item_names@)[i],
                t <= entries.len(),
                self.item_names.len() <= old(self).item_names.len() + t,
                old(self).item_names.len() + entries.len() < usize::MAX,
                !has_repeat(entries@.take(t as int)),
                ev == entries_view(entries@),
                apply_set(old(self).model(), ev.take(t as int)) == Ok::<(SystemModel, Seq<(usize, u64)>), crate::model::Fault>((self.model(), out@)),
                set_of_entries(out@, entries@.take(t as int), names_view(self.item_names@)),
                keys_unique(out@),
                keys_below(out@, self.item_names.len() as nat),
            decreases entries.len() - t,
        {
            let ghost before = *self;
            let id = self.get_item_id(&entries[t].1);
            let ghost nv = names_view(self.item_names@);
            proof {
                lemma_intern_model(before, *self, entries@[t as int].1@);
                assert(ev.take(t + 1).drop_last() == ev.take(t as int));
                assert(ev.take(t + 1).last() == (entries@[t as int].0, entries@[t as int].1@));
                assert(id_of(self.model(), entries@[t as int].1@) == id);
                lemma_interned_extends(before, *self, entries@[t as int].1@);
                lemma_extends_trans(*old(self), before, *self);
                assert forall|i: int| old(self).item_names.len() <= i < self.item_names.len() implies
                    exists|b: int| 0 <= b < entries.len() && entries[b].1@ == #[trigger] names_view(self.item_names@)[i] by {
                    if i < before.item_names.len() {
                        assert(names_view(self.item_names@)[i] == names_view(before.item_names@)[i]);
                        assert(names_view(before.item_names@)[i] == names_view(before.item_names@)[i]);
                    } else {
                        assert(names_view(self.item_names@)[i] == entries@[t as int].1@);
                        assert(entries[t as int].1@ == names_view(self.item_names@)[i]);
                    }
                }
                assert(names_view(before.item_names@) =~= nv.take(before.item_names.len() as int));
                assert(names_view(old(self).item_names@) =~= nv.take(old(self).item_names.len() as int));
                assert forall|u: int| 0 <= u < out.len() implies (#[trigger] out@[u]).1 == entries@.take(t as int)[u].0
                    && (out@[u].0 as int) < nv.len() && nv[out@[u].0 as int] == entries@.take(t as int)[u].1@ by {
                    assert(nv[out@[u].0 as int] == names_view(before.item_names@)[out@[u].0 as int]);
                }
            }
            let mut u: usize = 0;
            while u < out.len()
                invariant
                    self.wf(),
                    extends(*old(self), *self),
                    forall|i: int| old(self).item_names.len() <= i < self.item_names.len() ==>
                        exists|b: int| 0 <= b < entries.len() && entries[b].1@ == #[trigger] names_view(self.item_names@)[i],
                    self.item_names.len() <= old(self).item_names.len() + t + 1,
                    u <= out.len(),
                    t < entries.len(),
                    nv == names_view(self.item_names@),
                    (id as int) < nv.len(),
                    nv[id as int] == entries@[t as int].1@,
                    set_of_entries(out@, entries@.take(t as int), nv),
                    ev == entries_view(entries@),
                    apply_set(old(self).model(), ev.take(t + 1)) == (if has_key(out@, id) {
                        Err::<(SystemModel, Seq<(usize, u64)>), crate::model::Fault>(crate::model::Fault::InSet(entries@[t as int].1@))
                    } else {
                        Ok((self.model(), out@.push((id, entries@[t as int].0))))
                    }),
                    forall|w: int| 0 <= w < u ==> (#[trigger] out@[w]).0 != id,
                decreases out.len() - u,
            {
                if out[u].0 == id {
                    proof {
                        assert(nv[id as int] == entries@[t as int].1@);
                        assert(entries@.take(t as int)[u as int] == entries@[u as int]);
                        assert(entries@[u as int].1@ == entries@[t as int].1@);
                        assert(has_repeat(entries@));
                        assert(has_key(out@, id));
                        lemma_apply_set_err_extends(old(self).model(), ev, t + 1);
                        assert(ev.len() == entries.len());
                    }
                    return Err(Error::DuplicateInSet(entries[t].1.clone()));
                }
                u = u + 1;
            }
            assert(!has_key(out@, id));
            out.push((id, entries[t].0));
            proof {
                assert(entries@.take(t + 1).drop_last() == entries@.take(t as int));
                let e1 = entries@.take(t + 1);
                let e0 = entries@.take(t as int);
                if has_repeat(e1) {
                    let (a, b) = choose|a: int, b: int| 0 <= a < b < e1.len() && e1[a].1@ == e1[b].1@;
                    assert(e1[a] == entries@[a]);
                    if b == t {
                        assert(nv[out@[a].0 as int] == entries@[a].1@);
                        assert(out@[a].0 != id);
                        assert(distinct(nv));
                        assert(nv[out@[a].0 as int] != nv[id as int]);
                    } else {
                        assert(e0[a] == entries@[a]);
                        assert(e0[b] == entries@[b]);
                        assert(e1[b] == entries@[b]);
                        assert(has_repeat(e0));
                    }
                }
                assert(set_of_entries(out@, entries@.take(t + 1), nv));
            }
            t = t + 1;
        }
        assert(entries@.take(entries.len() as int) == entries@);
        assert(ev.take(entries.len() as int) == ev);
        Ok(out)
    }

    /// Declares a recipe: interns the items of both sets, inputs first, then
    /// adds the recipe. Fails with DuplicateInSet when a set names an item
    /// twice, else with DuplicateRecipe when the name is taken.
    pub fn declare_recipe(&mut self, name: &Vec<u8>, inputs: &Vec<(u64, Vec<u8>)>, outputs: &Vec<(u64, Vec<u8>)>) -> (r: Result<(), Error>)
        requires
            old(self).wf(),
            old(self).item_names.len() + inputs.len() + outputs.len() < usize::MAX,
        ensures
            final(self).wf(),
            final(self).item_names.len() <= old(self).item_names.len() + inputs.len() + outputs.len(),
            final(self).recipes.len() <= old(self).recipes.len() + 1,
            r is Err ==> final(self).recipes == old(self).recipes && final(self).recipe_names == old(self).recipe_names,
            final(self).sorted_recipe_ids == old(self).sorted_recipe_ids,
            match r {
                Ok(_) => {
                    &&& !has_repeat(inputs@) && !has_repeat(outputs@)
                    &&& !names_view(old(self).recipe_names@).contains(name@)
                    &&& names_view(final(self).recipe_names@) == names_view(old(self).recipe_names@).push(name@)
                    &&& final(self).recipes.len() == old(self).recipes.len() + 1
                    &&& final(self).recipes@.drop_last() == old(self).recipes@
                    &&& set_of_entries(final(self).recipes@.last().inputs@, inputs@, names_view(final(self).item_names@))
                    &&& set_of_entries(final(self).recipes@.last().outputs@, outputs@, names_view(final(self).item_names@))
                    &&& names_view(old(self).item_names@) == names_view(final(self).item_names@).take(old(self).item_names.len() as int)
                    &&& old(self).inventory@ == final(self).inventory@.take(old(self).inventory.len() as int)
                    &&& old(self).requests@ == final(self).requests@.take(old(self).requests.len() as int)
                    &&& forall|i: int| old(self).item_names.len() <= i < final(self).item_names.len() ==> #[trigger] final(self).inventory[i] == 0 && final(self).requests[i] == 0
                },
                Err(Error::DuplicateInSet(_)) => has_repeat(inputs@) || has_repeat(outputs@),
                Err(Error::DuplicateRecipe(n)) => !has_repeat(inputs@) && !has_repeat(outputs@)
                    && n@ == name@ && names_view(old(self).recipe_names@).contains(name@),
                Err(_) => false,
            },
            match apply_recipe(old(self).model(), name@, entries_view(inputs@), entries_view(outputs@)) {
                Ok(m) => r is Ok && final(self).model() == m,
                Err(f) => r matches Err(e) && fault_of(e) == Some(f),
            },
    {
        let ins = self.item_set(inputs)?;
        let ghost mid = *self;
        let outs = self.item_set(outputs)?;
        proof {
            lemma_extends_trans(*old(self), mid, *self);
            let nv = names_view(self.item_names@);
            assert(names_view(mid.item_names@) =~= nv.take(mid.item_names.len() as int));
            assert forall|t: int| 0 <= t < ins@.len() implies (#[trigger] ins@[t]).1 == inputs@[t].0
                && (ins@[t].0 as int) < nv.len() && nv[ins@[t].0 as int] == inputs@[t].1@ by {
                assert(nv[ins@[t].0 as int] == names_view(mid.item_names@)[ins@[t].0 as int]);
            }
            assert(names_view(old(self).item_names@) =~= nv.take(old(self).item_names.len() as int));
            assert(old(self).inventory@ =~= self.inventory@.take(old(self).inventory.len() as int));
            assert(old(self).requests@ =~= self.requests@.take(old(self).requests.len() as int));
        }
        match find_recipe(&self.recipe_names, name) {
            Some(q) => {
                assert(names_view(self.recipe_names@)[q as int] == name@);
                Err(Error::DuplicateRecipe(name.clone()))
            },
            None => {
                let ghost before = *self;
                self.recipe_names.push(name.clone());
                self.recipes.push(Recipe { inputs: ins, outputs: outs });
                proof {
                    assert(names_view(self.recipe_names@) =~= names_view(before.recipe_names@).push(name@));
                    assert(self.recipes@.map_values(|r: Recipe| (r.inputs@, r.outputs@))
                        =~= before.recipes@.map_values(|r: Recipe| (r.inputs@, r.outputs@)).push((self.recipes@.last().inputs@, self.recipes@.last().outputs@)));
                    assert(self.recipes@.drop_last() =~= before.recipes@);
                    assert(!names_view(before.recipe_names@).contains(name@));
                    assert forall|r: int| 0 <= r < self.recipes.len() implies #[trigger] self.recipes[r].wf(self.item_names.len() as nat) by {
                        if r < before.recipes.len() {
                            assert(before.recipes[r].wf(before.item_names.len() as nat));
                        } else {
                            assert(keys_below(ins@, mid.item_names.len() as nat));
                        }
                    }
                }
                Ok(())
            },
        }
    }
}

/// The position of `name` among the recipe names.
fn find_recipe(names: &Vec<Vec<u8>>, name: &Vec<u8>) -> (r: Option<usize>)
    requires
        distinct(names_view(names@)),
    ensures
        match r {
            Some(q) => q < names.len() && names_view(names@)[q as int] == name@,
            None => !names_view(names@).contains(name@),
        },
{
    let r = crate::system::find_name(names, name);
    proof {
        if names_view(names@).contains(name@) {
            let a = choose|a: int| 0 <= a < names_view(names@).len() && names_view(names@)[a] == name@;
            assert(exists|a: int| 0 <= a < names_view(names@).len() && names_view(names@)[a] == name@);
        }
    }
    r
}

} // verus!
