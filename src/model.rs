use vstd::prelude::*;
use crate::error::Error;
use crate::parser::Decl;
use crate::system::{System, Recipe, names_view, index_of, has_key};

verus! {

/// The mathematical content of a system, without the recipe order.
pub struct SystemModel {
    pub items: Seq<Seq<u8>>,
    pub inventory: Seq<u64>,
    pub requests: Seq<u64>,
    pub recipe_names: Seq<Seq<u8>>,
    pub recipes: Seq<(Seq<(usize, u64)>, Seq<(usize, u64)>)>,
}

/// Why a declaration is refused.
pub enum Fault {
    Item(Seq<u8>),
    Request(Seq<u8>),
    Recipe(Seq<u8>),
    InSet(Seq<u8>),
}

/// The fault that an error of a declaration stands for.
pub open spec fn fault_of(e: Error) -> Option<Fault> {
    match e {
        Error::DuplicateItem(n) => Some(Fault::Item(n@)),
        Error::DuplicateRequest(n) => Some(Fault::Request(n@)),
        Error::DuplicateRecipe(n) => Some(Fault::Recipe(n@)),
        Error::DuplicateInSet(n) => Some(Fault::InSet(n@)),
        _ => None,
    }
}

/// A system with no declarations.
pub open spec fn empty_model() -> SystemModel {
    SystemModel {
        items: Seq::empty(),
        inventory: Seq::empty(),
        requests: Seq::empty(),
        recipe_names: Seq::empty(),
        recipes: Seq::empty(),
    }
}

impl System {
    /// The mathematical content of the system.
    pub open spec fn model(&self) -> SystemModel {
        SystemModel {
            items: names_view(self.item_names@),
            inventory: self.inventory@,
            requests: self.requests@,
            recipe_names: names_view(self.recipe_names@),
            recipes: self.recipes@.map_values(|r: Recipe| (r.inputs@, r.outputs@)),
        }
    }
}

/// Interning: a new name gets the next id, with zero inventory and request.
pub open spec fn intern(m: SystemModel, name: Seq<u8>) -> SystemModel {
    if m.items.contains(name) {
        m
    } else {
        SystemModel { items: m.items.push(name), inventory: m.inventory.push(0), requests: m.requests.push(0), ..m }
    }
}

/// The id of a name that is interned.
pub open spec fn id_of(m: SystemModel, name: Seq<u8>) -> int {
    index_of(m.items, name).unwrap() as int
}

/// `amount name`: sets the inventory, unless it is already non-zero.
pub open spec fn apply_item(m: SystemModel, amount: u64, name: Seq<u8>) -> Result<SystemModel, Fault> {
    let m2 = intern(m, name);
    let id = id_of(m2, name);
    if m2.inventory[id] != 0 {
        Err(Fault::Item(name))
    } else {
        Ok(SystemModel { inventory: m2.inventory.update(id, amount), ..m2 })
    }
}

/// `out amount name`: sets the request, unless it is already non-zero.
pub open spec fn apply_request(m: SystemModel, amount: u64, name: Seq<u8>) -> Result<SystemModel, Fault> {
    let m2 = intern(m, name);
    let id = id_of(m2, name);
    if m2.requests[id] != 0 {
        Err(Fault::Request(name))
    } else {
        Ok(SystemModel { requests: m2.requests.update(id, amount), ..m2 })
    }
}

/// An item set: interns its names in order and maps each to its id; a name
/// met twice is refused.
pub open spec fn apply_set(m: SystemModel, es: Seq<(u64, Seq<u8>)>) -> Result<(SystemModel, Seq<(usize, u64)>), Fault>
    decreases es.len(),
{
    if es.len() == 0 {
        Ok((m, Seq::empty()))
    } else {
        match apply_set(m, es.drop_last()) {
            Ok((m1, set)) => {
                let m2 = intern(m1, es.last().1);
                let id = id_of(m2, es.last().1) as usize;
                if has_key(set, id) {
                    Err(Fault::InSet(es.last().1))
                } else {
                    Ok((m2, set.push((id, es.last().0))))
                }
            },
            Err(f) => Err(f),
        }
    }
}

/// The entries of a declared set, names as sequences.
pub open spec fn entries_view(es: Seq<(u64, Vec<u8>)>) -> Seq<(u64, Seq<u8>)> {
    es.map_values(|e: (u64, Vec<u8>)| (e.0, e.1@))
}

/// `name: inputs -> outputs`: both sets, inputs first, then the recipe,
/// unless its name is taken.
pub open spec fn apply_recipe(m: SystemModel, name: Seq<u8>, ins: Seq<(u64, Seq<u8>)>, outs: Seq<(u64, Seq<u8>)>) -> Result<SystemModel, Fault> {
    match apply_set(m, ins) {
        Ok((m1, si)) => match apply_set(m1, outs) {
            Ok((m2, so)) => if m2.recipe_names.contains(name) {
                Err(Fault::Recipe(name))
            } else {
                Ok(SystemModel { recipe_names: m2.recipe_names.push(name), recipes: m2.recipes.push((si, so)), ..m2 })
            },
            Err(f) => Err(f),
        },
        Err(f) => Err(f),
    }
}

/// One declaration.
pub open spec fn apply_decl(m: SystemModel, d: Decl) -> Result<SystemModel, Fault> {
    match d {
        Decl::Item { amount, name } => apply_item(m, amount, name@),
        Decl::Request { amount, name } => apply_request(m, amount, name@),
        Decl::Recipe { name, inputs, outputs } => apply_recipe(m, name@, entries_view(inputs@), entries_view(outputs@)),
    }
}

/// The declarations in order, stopping at the first refused one.
pub open spec fn apply_all(m: SystemModel, ds: Seq<Decl>) -> Result<SystemModel, Fault>
    decreases ds.len(),
{
    if ds.len() == 0 {
        Ok(m)
    } else {
        match apply_all(m, ds.drop_last()) {
            Ok(m1) => apply_decl(m1, ds.last()),
            Err(f) => Err(f),
        }
    }
}

/// The state after interning a name, as `get_item_id` leaves it, is the
/// interned model.
pub proof fn lemma_intern_model(a: System, b: System, name: Seq<u8>)
    requires
        names_view(b.item_names@) == crate::system::interned(names_view(a.item_names@), name),
        b.inventory@ == crate::system::grown(a.inventory@, names_view(a.item_names@), name),
        b.requests@ == crate::system::grown(a.requests@, names_view(a.item_names@), name),
        b.recipes == a.recipes,
        b.recipe_names == a.recipe_names,
    ensures
        b.model() == intern(a.model(), name),
{
}

/// Once a prefix of a set is refused, the whole set is refused, with the
/// same fault.
pub proof fn lemma_apply_set_err_extends(m: SystemModel, es: Seq<(u64, Seq<u8>)>, n: int)
    requires
        0 <= n <= es.len(),
        apply_set(m, es.take(n)) is Err,
    ensures
        apply_set(m, es) == apply_set(m, es.take(n)),
    decreases es.len() - n,
{
    if n < es.len() {
        assert(es.take(n + 1).drop_last() == es.take(n));
        lemma_apply_set_err_extends(m, es, n + 1);
    } else {
        assert(es.take(n) == es);
    }
}

} // verus!
