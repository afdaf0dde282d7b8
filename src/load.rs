use vstd::prelude::*;
use crate::error::Error;
use crate::lexer::{tokenize, lexed, toks_view, lex};
use crate::model::{SystemModel, Fault, apply_all, apply_decl, empty_model, fault_of};
use crate::parser::{Decl, readable, parse_decls, render_all, render_decl, render_set, sets_nonempty};
use crate::system::{System, names_view, index_of};
use crate::plan::Craftability;

verus! {

/// An item set of `k` entries is `3k - 1` tokens long.
proof fn lemma_render_set_len(es: Seq<(u64, Vec<u8>)>)
    requires
        es.len() > 0,
    ensures
        render_set(es).len() == 3 * es.len() - 1,
    decreases es.len(),
{
    if es.len() > 1 {
        lemma_render_set_len(es.drop_last());
    }
}

/// Tokens at strictly increasing positions inside the text are no more
/// numerous than its bytes.
proof fn lemma_token_count(src: Seq<u8>, toks: Seq<crate::lexer::Token>, pos: Seq<usize>)
    requires
        lexed(src, toks, pos),
    ensures
        toks.len() <= src.len(),
{
    assert forall|t: int| 0 <= t < pos.len() implies (#[trigger] pos[t] as int) >= t by {
        lemma_pos_at_least(src, toks, pos, t);
    }
    if toks.len() > 0 {
        assert(pos[toks.len() - 1] as int >= toks.len() - 1);
    }
}

proof fn lemma_pos_at_least(src: Seq<u8>, toks: Seq<crate::lexer::Token>, pos: Seq<usize>, t: int)
    requires
        lexed(src, toks, pos),
        0 <= t < pos.len(),
    ensures
        pos[t] as int >= t,
    decreases t,
{
    if t > 0 {
        lemma_pos_at_least(src, toks, pos, t - 1);
        assert(pos[t - 1] < pos[t]);
    }
}

impl System {
    /// Applies one declaration.
    fn declare(&mut self, d: &Decl) -> (r: Result<(), Error>)
        requires
            old(self).wf(),
            old(self).sets_nonempty(),
            old(self).item_names.len() + old(self).recipes.len() + render_decl(*d).len() <= usize::MAX,
            d matches Decl::Recipe { inputs, outputs, .. } ==> inputs.len() > 0 && outputs.len() > 0,
        ensures
            final(self).wf(),
            final(self).sets_nonempty(),
            final(self).item_names.len() + final(self).recipes.len()
                <= old(self).item_names.len() + old(self).recipes.len() + render_decl(*d).len(),
            r matches Err(e) ==> !(e matches Error::Syntax { .. }) && !(e matches Error::OracleFault),
            match apply_decl(old(self).model(), *d) {
                Ok(m) => r is Ok && final(self).model() == m,
                Err(f) => r matches Err(e) && fault_of(e) == Some(f),
            },
    {
        match d {
            Decl::Item { amount, name } => {
                let ghost n0 = names_view(self.item_names@);
                assert(n0.len() == self.item_names@.len());
                let r = self.declare_item(*amount, name);
                assert(names_view(self.item_names@).len() == self.item_names@.len());
                assert(crate::system::interned(n0, name@).len() <= n0.len() + 1);
                assert(render_decl(*d).len() >= 2);

                r
            },
            Decl::Request { amount, name } => {
                let ghost n0 = names_view(self.item_names@);
                assert(n0.len() == self.item_names@.len());
                let r = self.declare_request(*amount, name);
                assert(names_view(self.item_names@).len() == self.item_names@.len());
                assert(crate::system::interned(n0, name@).len() <= n0.len() + 1);
                assert(render_decl(*d).len() >= 2);

                r
            },
            Decl::Recipe { name, inputs, outputs } => {
                proof {
                    lemma_render_set_len(inputs@);
                    lemma_render_set_len(outputs@);
                }
                let ghost before = *self;
                let r = self.declare_recipe(name, inputs, outputs);
                proof {
                    if r is Ok {
                        assert forall|q: int| 0 <= q < self.recipes.len() implies (#[trigger] self.recipes[q]).inputs.len() > 0 && self.recipes[q].outputs.len() > 0 by {
                            if q < before.recipes.len() {
                                assert(self.recipes@.drop_last()[q] == self.recipes[q]);
                                assert(before.recipes[q] == self.recipes[q]);
                            } else {
                                assert(self.recipes[q] == self.recipes@.last());
                            }
                        }
                    }
                }
                r
            },
        }
    }

    /// Reads a system from its source text: tokens, declarations in order,
    /// then the topological sort of its recipes. Fails with the first
    /// syntax error, duplicate declaration or cycle.
    pub fn parse(src: &[u8]) -> (r: Result<System, Error>)
        ensures
            match r {
                Ok(s) => parsed_as(src@, s),
                Err(e) => parse_fails_with(src@, e),
            },
            (r matches Err(Error::Syntax { .. })) <==> !exists|ds: Seq<Decl>| reads_as(src@, ds),
    {
        let (toks, pos) = match tokenize(src) {
            Ok(x) => x,
            Err(e) => {
                assert(forall|ds: Seq<Decl>| !reads_as(src@, ds));
                return Err(e);
            },
        };
        proof { lemma_token_count(src@, toks@, pos@); }
        let ds = match parse_decls(&toks, &pos, src.len()) {
            Ok(ds) => ds,
            Err(e) => {
                proof {
                    if let Error::Syntax { pos: k } = e {
                        if k != src.len() {
                            let t = choose|t: int| 0 <= t < pos.len() && pos[t] == k;
                            assert(lexed(src@, toks@, pos@));
                            assert((pos@[t] as int) < src@.len());
                        }
                    }
                    assert forall|ds: Seq<Decl>| !reads_as(src@, ds) by {
                        if reads_as(src@, ds) {
                            assert(render_all(ds) == toks_view(toks@) && sets_nonempty(ds));
                            assert(readable(toks_view(toks@)));
                        }
                    }
                }
                return Err(e);
            },
        };
        let mut s = System::new();
        assert(s.model().items =~= empty_model().items);
        assert(s.model().inventory =~= empty_model().inventory);
        assert(s.model().requests =~= empty_model().requests);
        assert(s.model().recipe_names =~= empty_model().recipe_names);
        assert(s.model().recipes =~= empty_model().recipes);
        assert(s.model() == empty_model());
        assert(ds@.take(0) =~= Seq::<Decl>::empty());
        assert(lexed(src@, toks@, pos@) && render_all(ds@) == toks_view(toks@));
        assert(reads_as(src@, ds@));
        let mut k: usize = 0;
        while k < ds.len()
            invariant
                s.wf(),
                s.sets_nonempty(),
                k <= ds.len(),
                sets_nonempty(ds@),
                render_all(ds@) == toks_view(toks@),
                toks.len() <= usize::MAX,
                s.item_names.len() + s.recipes.len() <= render_all(ds@.take(k as int)).len(),
                apply_all(empty_model(), ds@.take(k as int)) == Ok::<SystemModel, Fault>(s.model()),
                reads_as(src@, ds@),
            decreases ds.len() - k,
        {
            proof {
                assert(ds@.take(k + 1).drop_last() == ds@.take(k as int));
                assert(ds@.take(k + 1).last() == ds@[k as int]);
                lemma_render_prefix(ds@, k + 1);
                assert(ds@[k as int] matches Decl::Recipe { inputs, outputs, .. } ==> inputs.len() > 0 && outputs.len() > 0);
            }
            match s.declare(&ds[k]) {
                Ok(()) => {},
                Err(e) => {
                    proof { lemma_apply_all_err_extends(empty_model(), ds@, k + 1); }
                    return Err(e);
                },
            }
            k = k + 1;
        }
        proof {
            assert(ds@.take(k as int) == ds@);
        }
        let ghost built = s;
        match s.sort_recipe_ids() {
            Ok(()) => {
                assert(s.model() == built.model());
                Ok(s)
            },
            Err(e) => Err(e),
        }
    }
}

/// The whole pipeline: reads the system from its source text and solves it.
pub fn run(src: &[u8]) -> (r: Result<Craftability, Error>)
    ensures
        match r {
            Ok(v) => exists|s: System| #[trigger] parsed_as(src@, s) && s.sound_verdict(v)
                && (v is Uncraftable ==> forall|env: Seq<int>| env.len() == s.recipes.len() ==> !#[trigger] s.admits_counts(env)),
            Err(Error::OracleFault) => exists|s: System| #[trigger] parsed_as(src@, s),
            Err(e) => parse_fails_with(src@, e),
        },
        (r matches Err(Error::Syntax { .. })) <==> !exists|ds: Seq<Decl>| reads_as(src@, ds),
{
    let s = System::parse(src)?;
    let r = s.solve();
    assert(parsed_as(src@, s));
    assert(exists|ds: Seq<Decl>| reads_as(src@, ds));
    r
}

/// `ds` is a reading of `src`: the text splits into tokens that the
/// declarations write out exactly.
pub open spec fn reads_as(src: Seq<u8>, ds: Seq<Decl>) -> bool {
    lex(src) == Some(render_all(ds)) && sets_nonempty(ds)
}

/// `s` is the system that the text declares: well formed, acyclic, its
/// recipes sorted, and its content what the declarations make of an empty
/// system.
pub open spec fn parsed_as(src: Seq<u8>, s: System) -> bool {
    &&& s.wf()
    &&& s.sets_nonempty()
    &&& s.item_names.len() + s.recipes.len() <= usize::MAX
    &&& s.is_acyclic()
    &&& s.is_sorted()
    &&& forall|t: int| 0 <= t < s.sorted_recipe_ids.len() ==> #[trigger] s.sorted_recipe_ids[t] < s.recipes.len()
    &&& s.sorted_recipe_ids@.no_duplicates()
    &&& forall|q: usize| q < s.recipes.len() ==> #[trigger] s.sorted_recipe_ids@.contains(q)
    &&& exists|ds: Seq<Decl>| reads_as(src, ds) && apply_all(empty_model(), ds) == Ok::<SystemModel, Fault>(s.model())
}

/// Reading the text fails with `e`: a syntax error where no declarations
/// read as the text, the first refused declaration, or a cycle in the
/// system that the declarations make.
pub open spec fn parse_fails_with(src: Seq<u8>, e: Error) -> bool {
    match e {
        Error::Syntax { pos } => pos <= src.len() && !exists|ds: Seq<Decl>| reads_as(src, ds),
        Error::OracleFault => false,
        Error::CyclicItem(n) => exists|ds: Seq<Decl>, s2: System|
            reads_as(src, ds) && s2.wf() && apply_all(empty_model(), ds) == Ok::<SystemModel, Fault>(s2.model()) && !s2.is_acyclic()
            && exists|i: int, g: Seq<Seq<usize>>| 0 <= i < s2.item_names.len() && s2.item_names[i]@ == n@
                && crate::graph::is_dependency_graph(s2, g) && crate::graph::on_cycle(g, i as usize),
        Error::CyclicRecipe(n) => exists|ds: Seq<Decl>, s2: System|
            reads_as(src, ds) && s2.wf() && apply_all(empty_model(), ds) == Ok::<SystemModel, Fault>(s2.model()) && !s2.is_acyclic()
            && exists|q: int, g: Seq<Seq<usize>>| 0 <= q < s2.recipe_names.len() && s2.recipe_names[q]@ == n@
                && crate::graph::is_dependency_graph(s2, g) && crate::graph::on_cycle(g, (s2.item_names.len() + q) as usize),
        _ => exists|ds: Seq<Decl>| reads_as(src, ds) && apply_all(empty_model(), ds) == Err::<SystemModel, Fault>(fault_of(e).unwrap()),
    }
}

/// Once a prefix of the declarations is refused, all of them are, with the
/// same fault.
proof fn lemma_apply_all_err_extends(m: SystemModel, ds: Seq<Decl>, n: int)
    requires
        0 <= n <= ds.len(),
        apply_all(m, ds.take(n)) is Err,
    ensures
        apply_all(m, ds) == apply_all(m, ds.take(n)),
    decreases ds.len() - n,
{
    if n < ds.len() {
        assert(ds.take(n + 1).drop_last() == ds.take(n));
        lemma_apply_all_err_extends(m, ds, n + 1);
    } else {
        assert(ds.take(n) == ds);
    }
}

/// A prefix of the declarations renders to no more tokens than all of them.
proof fn lemma_render_prefix(ds: Seq<Decl>, k: int)
    requires
        0 <= k <= ds.len(),
    ensures
        render_all(ds.take(k)).len() <= render_all(ds).len(),
    decreases ds.len() - k,
{
    if k < ds.len() {
        assert(ds.take(k + 1).drop_last() == ds.take(k));
        lemma_render_prefix(ds, k + 1);
    } else {
        assert(ds.take(k) == ds);
    }
}

/// Names and ids are inverse maps: the id of the name at `i` is `i`, and a
/// name found at an id is the name stored there; for items and for recipes.
pub proof fn lemma_names_ids_inverse(s: System, name: Seq<u8>)
    requires
        s.wf(),
    ensures
        forall|i: int| 0 <= i < s.item_names.len() ==>
            index_of(names_view(s.item_names@), #[trigger] s.item_names[i]@) == Some(i as nat),
        forall|q: int| 0 <= q < s.recipe_names.len() ==>
            index_of(names_view(s.recipe_names@), #[trigger] s.recipe_names[q]@) == Some(q as nat),
        index_of(names_view(s.item_names@), name) matches Some(i) ==> i < s.item_names.len() && s.item_names[i as int]@ == name,
        index_of(names_view(s.recipe_names@), name) matches Some(q) ==> q < s.recipe_names.len() && s.recipe_names[q as int]@ == name,
{
    assert forall|i: int| 0 <= i < s.item_names.len() implies
        index_of(names_view(s.item_names@), #[trigger] s.item_names[i]@) == Some(i as nat) by {
        crate::system::lemma_index_of_distinct(names_view(s.item_names@), i);
    }
    assert forall|q: int| 0 <= q < s.recipe_names.len() implies
        index_of(names_view(s.recipe_names@), #[trigger] s.recipe_names[q]@) == Some(q as nat) by {
        crate::system::lemma_index_of_distinct(names_view(s.recipe_names@), q);
    }
}

} // verus!
