use vstd::prelude::*;
use crate::error::Error;
use crate::lexer::{Token, Tok, toks_view};
use crate::model::{SystemModel, apply_all, empty_model, entries_view};

verus! {

/// One declaration of the language.
#[derive(Debug, Clone)]
pub enum Decl {
    /// `amount name`: an inventory declaration.
    Item { amount: u64, name: Vec<u8> },
    /// `out amount name`: a requested output.
    Request { amount: u64, name: Vec<u8> },
    /// `name: set -> set`.
    Recipe { name: Vec<u8>, inputs: Vec<(u64, Vec<u8>)>, outputs: Vec<(u64, Vec<u8>)> },
}

/// The keyword that opens a request.
pub open spec fn out_keyword() -> Seq<u8> {
    seq![111u8, 117u8, 116u8]
}

/// The tokens of one set entry.
pub open spec fn render_entry(e: (u64, Vec<u8>)) -> Seq<Tok> {
    seq![Tok::Nat(e.0), Tok::Name(e.1@)]
}

/// The tokens of an item set: its entries joined by `+`.
pub open spec fn render_set(es: Seq<(u64, Vec<u8>)>) -> Seq<Tok>
    decreases es.len(),
{
    if es.len() <= 1 {
        if es.len() == 0 { Seq::empty() } else { render_entry(es[0]) }
    } else {
        render_set(es.drop_last()).push(Tok::Plus) + render_entry(es.last())
    }
}

/// The tokens of one declaration.
pub open spec fn render_decl(d: Decl) -> Seq<Tok> {
    match d {
        Decl::Item { amount, name } => seq![Tok::Nat(amount), Tok::Name(name@)],
        Decl::Request { amount, name } => seq![Tok::Name(out_keyword()), Tok::Nat(amount), Tok::Name(name@)],
        Decl::Recipe { name, inputs, outputs } =>
            seq![Tok::Name(name@), Tok::Colon] + render_set(inputs@) + seq![Tok::Arrow] + render_set(outputs@),
    }
}

/// The tokens of a sequence of declarations.
pub open spec fn render_all(ds: Seq<Decl>) -> Seq<Tok>
    decreases ds.len(),
{
    if ds.len() == 0 { Seq::empty() } else { render_all(ds.drop_last()) + render_decl(ds.last()) }
}

/// Both item sets of every recipe declaration are non-empty.
pub open spec fn sets_nonempty(ds: Seq<Decl>) -> bool {
    forall|k: int| 0 <= k < ds.len() ==> match #[trigger] ds[k] {
        Decl::Recipe { inputs, outputs, .. } => inputs.len() > 0 && outputs.len() > 0,
        _ => true,
    }
}

/// From token `p` on, `n` entries joined by `+` (`3n - 1` tokens).
pub open spec fn set_at(tv: Seq<Tok>, p: int, n: int) -> bool {
    &&& n >= 1
    &&& 0 <= p
    &&& p + 3 * n - 1 <= tv.len()
    &&& forall|j: int| 0 <= j < n ==> (#[trigger] tv[p + 3 * j]) is Nat && tv[p + 3 * j + 1] is Name
    &&& forall|j: int| 1 <= j < n ==> #[trigger] tv[p + 3 * j - 1] is Plus
}

/// The tokens of a non-empty item set of `n` entries form such a run.
proof fn lemma_render_set_at(es: Seq<(u64, Vec<u8>)>)
    requires
        es.len() >= 1,
    ensures
        render_set(es).len() == 3 * es.len() - 1,
        set_at(render_set(es), 0, es.len() as int),
    decreases es.len(),
{
    let r = render_set(es);
    if es.len() > 1 {
        let p = es.drop_last();
        lemma_render_set_at(p);
        let rp = render_set(p);
        assert(r == rp.push(Tok::Plus) + render_entry(es.last()));
        assert forall|j: int| 0 <= j < es.len() implies (#[trigger] r[0 + 3 * j]) is Nat && r[0 + 3 * j + 1] is Name by {
            if j < p.len() {
                assert(rp[0 + 3 * j] is Nat && rp[0 + 3 * j + 1] is Name);
                assert(r[3 * j] == rp[3 * j]);
                assert(r[3 * j + 1] == rp[3 * j + 1]);
            } else {
                assert(r[3 * j] == render_entry(es.last())[0]);
                assert(r[3 * j + 1] == render_entry(es.last())[1]);
            }
        }
        assert forall|j: int| 1 <= j < es.len() implies #[trigger] r[0 + 3 * j - 1] is Plus by {
            if j < p.len() {
                assert(rp[0 + 3 * j - 1] is Plus);
                assert(r[3 * j - 1] == rp[3 * j - 1]);
            } else {
                assert(r[3 * j - 1] == rp.push(Tok::Plus)[rp.len() as int]);
            }
        }
    }
}

/// Token `e` ends a declaration: the text ends or another declaration begins.
pub open spec fn next_ok(tv: Seq<Tok>, e: int) -> bool {
    e == tv.len() || (0 <= e < tv.len() && (tv[e] is Nat || tv[e] is Name))
}

/// From token `p` on, the tokens have the shape of declaration `d`, followed
/// by the end or another declaration.
pub open spec fn decl_at(tv: Seq<Tok>, p: int, d: Decl) -> bool {
    &&& 0 <= p
    &&& match d {
        Decl::Item { .. } => p + 2 <= tv.len() && tv[p] is Nat && tv[p + 1] is Name && next_ok(tv, p + 2),
        Decl::Request { .. } => p + 3 <= tv.len() && tv[p] == Tok::Name(out_keyword()) && tv[p + 1] is Nat
            && tv[p + 2] is Name && next_ok(tv, p + 3),
        Decl::Recipe { inputs, outputs, .. } => {
            let a = p + 3 * inputs.len() + 1;
            let b = a + 3 * outputs.len();
            &&& b <= tv.len()
            &&& tv[p] is Name
            &&& tv[p + 1] is Colon
            &&& set_at(tv, p + 2, inputs.len() as int)
            &&& tv[a] is Arrow
            &&& set_at(tv, a + 1, outputs.len() as int)
            &&& next_ok(tv, b)
        },
    }
}

/// A run of entries, moved to offset `o` of a longer sequence.
proof fn lemma_set_at_shift(a: Seq<Tok>, t: Seq<Tok>, o: int, n: int)
    requires
        set_at(a, 0, n),
        0 <= o,
        o + a.len() <= t.len(),
        forall|i: int| 0 <= i < a.len() ==> t[o + i] == #[trigger] a[i],
    ensures
        set_at(t, o, n),
{
    assert forall|j: int| 0 <= j < n implies (#[trigger] t[o + 3 * j]) is Nat && t[o + 3 * j + 1] is Name by {
        assert(a[0 + 3 * j] is Nat && a[0 + 3 * j + 1] is Name);
        assert(t[o + 3 * j] == a[3 * j]);
        assert(t[o + (3 * j + 1)] == a[3 * j + 1]);
    }
    assert forall|j: int| 1 <= j < n implies #[trigger] t[o + 3 * j - 1] is Plus by {
        assert(a[0 + 3 * j - 1] is Plus);
        assert(t[o + (3 * j - 1)] == a[3 * j - 1]);
    }
}

/// The tokens of a prefix of the declarations begin the tokens of all.
proof fn lemma_render_all_prefix(ds: Seq<Decl>, k: int)
    requires
        0 <= k <= ds.len(),
    ensures
        render_all(ds.take(k)).len() <= render_all(ds).len(),
        render_all(ds).take(render_all(ds.take(k)).len() as int) == render_all(ds.take(k)),
    decreases ds.len() - k,
{
    if k < ds.len() {
        lemma_render_all_prefix(ds, k + 1);
        assert(ds.take(k + 1).drop_last() == ds.take(k));
        let a = render_all(ds.take(k));
        let b = render_all(ds.take(k + 1));
        assert(b == a + render_decl(ds[k]));
        assert(b.take(a.len() as int) =~= a);
        assert(render_all(ds).take(a.len() as int) =~= b.take(a.len() as int));
    } else {
        assert(ds.take(k) == ds);
        assert(render_all(ds).take(render_all(ds).len() as int) =~= render_all(ds));
    }
}

/// Declaration `k` stands right after the tokens of the ones before it.
proof fn lemma_decl_at(ds: Seq<Decl>, k: int)
    requires
        sets_nonempty(ds),
        0 <= k < ds.len(),
    ensures
        decl_at(render_all(ds), render_all(ds.take(k)).len() as int, ds[k]),
        render_all(ds.take(k + 1)).len() == render_all(ds.take(k)).len() + render_decl(ds[k]).len(),
        render_all(ds.take(k)).len() + render_decl(ds[k]).len() <= render_all(ds).len(),
        render_all(ds).subrange(render_all(ds.take(k)).len() as int, (render_all(ds.take(k)).len() + render_decl(ds[k]).len()) as int) == render_decl(ds[k]),
{
    let t = render_all(ds);
    let pre = render_all(ds.take(k));
    let d = ds[k];
    let dd = render_decl(d);
    let p = pre.len() as int;
    assert(ds.take(k + 1).drop_last() == ds.take(k));
    lemma_render_all_prefix(ds, k + 1);
    let pre1 = render_all(ds.take(k + 1));
    assert(pre1 == pre + dd);
    assert forall|i: int| 0 <= i < dd.len() implies t[p + i] == #[trigger] dd[i] by {
        assert(t.take(pre1.len() as int)[p + i] == pre1[p + i]);
    }
    let e = p + dd.len();
    assert(t.subrange(p, e) =~= dd);
    if k + 1 < ds.len() {
        lemma_render_all_prefix(ds, k + 2);
        assert(ds.take(k + 2).drop_last() == ds.take(k + 1));
        let pre2 = render_all(ds.take(k + 2));
        let d2 = render_decl(ds[k + 1]);
        assert(pre2 == pre1 + d2);
        assert(t.take(pre2.len() as int)[e] == pre2[e]);
        assert(pre2[e] == d2[0]);
        assert(d2[0] is Nat || d2[0] is Name);
    } else {
        assert(ds.take(k + 1) == ds);
    }
    match d {
        Decl::Item { .. } => {
            assert(t[p] == dd[0] && t[p + 1] == dd[1]);
        },
        Decl::Request { .. } => {
            assert(t[p] == dd[0] && t[p + 1] == dd[1] && t[p + 2] == dd[2]);
        },
        Decl::Recipe { name, inputs, outputs } => {
            assert(ds[k] matches Decl::Recipe { inputs, outputs, .. } && inputs.len() > 0 && outputs.len() > 0);
            let si = render_set(inputs@);
            let so = render_set(outputs@);
            lemma_render_set_at(inputs@);
            lemma_render_set_at(outputs@);
            let a = p + 3 * inputs.len() + 1;
            assert(dd == seq![Tok::Name(name@), Tok::Colon] + si + seq![Tok::Arrow] + so);
            assert(t[p] == dd[0] && t[p + 1] == dd[1]);
            assert forall|i: int| 0 <= i < si.len() implies t[(p + 2) + i] == #[trigger] si[i] by {
                assert(dd[2 + i] == si[i]);
                assert(t[p + (2 + i)] == dd[2 + i]);
            }
            lemma_set_at_shift(si, t, p + 2, inputs.len() as int);
            assert(t[a] == dd[a - p]);
            assert forall|i: int| 0 <= i < so.len() implies t[(a + 1) + i] == #[trigger] so[i] by {
                assert(dd[(a - p + 1) + i] == so[i]);
                assert(t[p + ((a - p + 1) + i)] == dd[(a - p + 1) + i]);
            }
            lemma_set_at_shift(so, t, a + 1, outputs.len() as int);
        },
    }
}

fn is_out(s: &Vec<u8>) -> (r: bool)
    ensures r == (s@ == out_keyword()),
{
    if s.len() == 3 && s[0] == 111 && s[1] == 117 && s[2] == 116 {
        assert(s@ =~= out_keyword());
        true
    } else {
        false
    }
}

/// Reads `natural ident` at token `p`.
fn parse_entry(toks: &Vec<Token>, p: usize) -> (r: Option<(u64, Vec<u8>)>)
    requires
        p <= toks.len(),
    ensures
        match r {
            Some(e) => p + 2 <= toks.len() && toks_view(toks@).subrange(p as int, p + 2) == render_entry(e),
            None => !(p + 2 <= toks.len() && toks_view(toks@)[p as int] is Nat && toks_view(toks@)[p + 1] is Name),
        },
{
    if toks.len() >= 2 && p <= toks.len() - 2 {
        match (&toks[p], &toks[p + 1]) {
            (Token::Natural(a), Token::Ident(n)) => {
                let e = (*a, n.clone());
                assert(toks_view(toks@).subrange(p as int, p + 2) =~= render_entry(e));
                Some(e)
            },
            _ => None,
        }
    } else {
        None
    }
}

/// Reads an item set at token `p`; on failure, the index of the token where
/// it went wrong.
fn parse_set(toks: &Vec<Token>, p: usize) -> (r: Result<(Vec<(u64, Vec<u8>)>, usize), usize>)
    requires
        p <= toks.len(),
    ensures
        match r {
            Ok((es, q)) => {
                &&& p < q <= toks.len()
                &&& es.len() > 0
                &&& toks_view(toks@).subrange(p as int, q as int) == render_set(es@)
                &&& (q == toks.len() || !(toks@[q as int] matches Token::Plus))
            },
            Err(k) => k <= toks.len(),
        },
        forall|n: int| #![trigger set_at(toks_view(toks@), p as int, n)]
            set_at(toks_view(toks@), p as int, n)
            && (p + 3 * n - 1 == toks.len() || !(toks_view(toks@)[p + 3 * n - 1] is Plus))
            ==> (r matches Ok((es, q)) && q == p + 3 * n - 1),
{
    let ghost tv0 = toks_view(toks@);
    let mut es: Vec<(u64, Vec<u8>)> = Vec::new();
    let mut q: usize = p;
    loop
        invariant
            p <= q <= toks.len(),
            es.len() == 0 ==> q == p,
            es.len() > 0 ==> p < q && (toks@[q - 1] matches Token::Plus),
            es.len() > 0 ==> toks_view(toks@).subrange(p as int, q - 1) == render_set(es@),
            q == p + 3 * es.len(),
            tv0 == toks_view(toks@),
            forall|n: int| #![trigger set_at(tv0, p as int, n)] set_at(tv0, p as int, n)
                && (p + 3 * n - 1 == toks.len() || !(tv0[p + 3 * n - 1] is Plus)) ==> es.len() < n,
        decreases toks.len() - q,
    {
        let e = match parse_entry(toks, q) {
            Some(e) => e,
            None => {
                proof {
                    assert forall|n: int| #![trigger set_at(tv0, p as int, n)] set_at(tv0, p as int, n)
                        && (p + 3 * n - 1 == toks.len() || !(tv0[p + 3 * n - 1] is Plus)) implies false by {
                        let j = es.len() as int;
                        assert(tv0[p + 3 * j] is Nat && tv0[p + 3 * j + 1] is Name);
                        assert(toks@[q as int]@ == tv0[q as int]);
                        assert(toks@[q + 1]@ == tv0[q + 1]);
                    }
                }
                return Err(q);
            },
        };
        let ghost tv = toks_view(toks@);
        let ghost es2 = es@.push(e);
        proof {
            assert(es2.drop_last() == es@);
            if es.len() > 0 {
                assert(tv[q - 1] == Tok::Plus);
                assert(tv.subrange(p as int, q + 2) =~= tv.subrange(p as int, q - 1).push(Tok::Plus) + tv.subrange(q as int, q + 2));
            } else {
                assert(es2.len() == 1 && es2[0] == e);
            }
            assert(tv.subrange(p as int, q + 2) == render_set(es2));
        }
        es.push(e);
        q = q + 2;
        if q < toks.len() && matches!(toks[q], Token::Plus) {
            proof {
                assert(tv0[q as int] == Tok::Plus);
                assert forall|n: int| #![trigger set_at(tv0, p as int, n)] set_at(tv0, p as int, n)
                    && (p + 3 * n - 1 == toks.len() || !(tv0[p + 3 * n - 1] is Plus)) implies es.len() < n by {
                    if es.len() >= n {
                        assert(q == p + 3 * n - 1);
                    }
                }
            }
            q = q + 1;
        } else {
            proof {
                assert forall|n: int| #![trigger set_at(tv0, p as int, n)] set_at(tv0, p as int, n)
                    && (p + 3 * n - 1 == toks.len() || !(tv0[p + 3 * n - 1] is Plus)) implies q == p + 3 * n - 1 by {
                    let j = es.len() as int;
                    if j < n {
                        assert(tv0[p + 3 * j - 1] is Plus);
                        assert(toks@[q as int]@ == tv0[q as int]);
                    }
                }
            }
            return Ok((es, q));
        }
    }
}

/// Reads the declarations of a token sequence. `pos` gives each token's
/// byte position and `end` the length of the text, for errors. On success
/// the declarations, written back as tokens, are exactly the input.
pub fn parse_decls(toks: &Vec<Token>, pos: &Vec<usize>, end: usize) -> (r: Result<Vec<Decl>, Error>)
    requires
        pos.len() == toks.len(),
    ensures
        match r {
            Ok(ds) => render_all(ds@) == toks_view(toks@) && sets_nonempty(ds@),
            Err(Error::Syntax { pos: k }) => k == end || exists|t: int| 0 <= t < pos.len() && pos[t] == k,
            Err(_) => false,
        },
        readable(toks_view(toks@)) ==> r is Ok,
{
    let ghost tv0 = toks_view(toks@);
    let ghost has_w = readable(tv0);
    let ghost w = if has_w { choose|ds: Seq<Decl>| render_all(ds) == tv0 && sets_nonempty(ds) } else { Seq::empty() };
    let ghost mut k: int = 0;
    let mut ds: Vec<Decl> = Vec::new();
    let mut p: usize = 0;
    while p < toks.len()
        invariant
            pos.len() == toks.len(),
            p <= toks.len(),
            render_all(ds@) == toks_view(toks@).take(p as int),
            sets_nonempty(ds@),
            tv0 == toks_view(toks@),
            has_w == readable(tv0),
            has_w ==> render_all(w) == tv0 && sets_nonempty(w),
            has_w ==> 0 <= k <= w.len() && render_all(w.take(k)).len() == p,
        decreases toks.len() - p,
    {
        proof {
            if has_w {
                if k == w.len() {
                    assert(w.take(k) == w);
                }
                lemma_decl_at(w, k);
                lemma_render_set_lens(w[k]);
            }
        }
        assert(has_w ==> k < w.len() && decl_at(tv0, p as int, w[k]) && render_all(w.take(k + 1)).len() == p + render_decl(w[k]).len());
        assert(forall|i: int| 0 <= i < toks.len() ==> #[trigger] tv0[i] == toks@[i]@);
        let ghost tv = toks_view(toks@);
        let ghost before = ds@;
        let q: usize;
        let d: Decl;
        match &toks[p] {
            Token::Natural(a) => {
                assert(tv0[p as int] is Nat);
                assert(has_w ==> w[k] is Item);
                assert(has_w ==> p + 2 <= toks.len() && tv0[p + 1] is Name);
                if p + 1 < toks.len() {
                    match &toks[p + 1] {
                        Token::Ident(n) => {
                            d = Decl::Item { amount: *a, name: n.clone() };
                            q = p + 2;
                            assert(tv.subrange(p as int, q as int) =~= render_decl(d));
                        },
                        _ => {
                            assert(tv0[p + 1] == toks@[p + 1]@);
                            return Err(Error::Syntax { pos: pos[p + 1] });
                        },
                    }
                } else {
                    return Err(Error::Syntax { pos: end });
                }
            },
            Token::Ident(n) => {
                if p + 1 >= toks.len() {
                    return Err(Error::Syntax { pos: end });
                }
                if matches!(toks[p + 1], Token::Colon) {
                    let (ins, q1) = match parse_set(toks, p + 2) {
                        Ok(x) => x,
                        Err(k) => { return Err(error_at(pos, k, end)); },
                    };
                    if q1 >= toks.len() {
                        return Err(Error::Syntax { pos: end });
                    }
                    if !matches!(toks[q1], Token::Arrow) {
                        return Err(Error::Syntax { pos: pos[q1] });
                    }
                    let (outs, q2) = match parse_set(toks, q1 + 1) {
                        Ok(x) => x,
                        Err(k) => { return Err(error_at(pos, k, end)); },
                    };
                    d = Decl::Recipe { name: n.clone(), inputs: ins, outputs: outs };
                    q = q2;
                    assert(tv.subrange(p as int, q as int) =~= seq![tv[p as int], tv[p + 1]] + tv.subrange(p + 2, q1 as int)
                        + seq![tv[q1 as int]] + tv.subrange(q1 + 1, q2 as int));
                    assert(tv.subrange(p as int, q as int) =~= render_decl(d));
                } else if is_out(n) {
                    if p + 2 < toks.len() {
                        match (&toks[p + 1], &toks[p + 2]) {
                            (Token::Natural(a), Token::Ident(m)) => {
                                d = Decl::Request { amount: *a, name: m.clone() };
                                q = p + 3;
                                assert(tv.subrange(p as int, q as int) =~= render_decl(d));
                            },
                            _ => { return Err(Error::Syntax { pos: pos[p + 1] }); },
                        }
                    } else {
                        return Err(Error::Syntax { pos: end });
                    }
                } else {
                    return Err(Error::Syntax { pos: pos[p + 1] });
                }
            },
            _ => { return Err(Error::Syntax { pos: pos[p] }); },
        }
        ds.push(d);
        proof {
            assert(ds@.drop_last() == before);
            assert(tv.take(q as int) =~= tv.take(p as int) + tv.subrange(p as int, q as int));
            assert forall|k: int| 0 <= k < ds@.len() implies match #[trigger] ds@[k] {
                Decl::Recipe { inputs, outputs, .. } => inputs.len() > 0 && outputs.len() > 0,
                _ => true,
            } by {
                if k < before.len() {
                    assert(ds@[k] == before[k]);
                }
            }
        }
        proof {
            if has_w {
                assert(q == p + render_decl(w[k]).len());
                k = k + 1;
            }
        }
        p = q;
    }
    assert(toks_view(toks@).take(p as int) =~= toks_view(toks@));
    Ok(ds)
}

/// Some declarations, with non-empty item sets, write out as exactly `tv`.
pub open spec fn readable(tv: Seq<Tok>) -> bool {
    exists|ds: Seq<Decl>| render_all(ds) == tv && sets_nonempty(ds)
}

/// The length of a declaration's tokens.
proof fn lemma_render_set_lens(d: Decl)
    requires
        d matches Decl::Recipe { inputs, outputs, .. } ==> inputs.len() > 0 && outputs.len() > 0,
    ensures
        match d {
            Decl::Item { .. } => render_decl(d).len() == 2,
            Decl::Request { .. } => render_decl(d).len() == 3,
            Decl::Recipe { inputs, outputs, .. } => render_decl(d).len() == 3 * inputs.len() + 3 * outputs.len() + 1,
        },
{
    if let Decl::Recipe { inputs, outputs, .. } = d {
        lemma_render_set_at(inputs@);
        lemma_render_set_at(outputs@);
    }
}

/// The syntax error at token `k`, or at the end of the text.
fn error_at(pos: &Vec<usize>, k: usize, end: usize) -> (e: Error)
    requires
        k <= pos.len(),
    ensures
        e matches Error::Syntax { pos: x } && (x == end || exists|t: int| 0 <= t < pos.len() && pos[t] == x),
{
    if k < pos.len() {
        Error::Syntax { pos: pos[k] }
    } else {
        Error::Syntax { pos: end }
    }
}

/// Two declarations that read the same.
pub open spec fn same_decl(a: Decl, b: Decl) -> bool {
    match (a, b) {
        (Decl::Item { amount: x, name: n }, Decl::Item { amount: y, name: m }) => x == y && n@ == m@,
        (Decl::Request { amount: x, name: n }, Decl::Request { amount: y, name: m }) => x == y && n@ == m@,
        (Decl::Recipe { name: n, inputs: i1, outputs: o1 }, Decl::Recipe { name: m, inputs: i2, outputs: o2 }) =>
            n@ == m@ && entries_view(i1@) == entries_view(i2@) && entries_view(o1@) == entries_view(o2@),
        _ => false,
    }
}

/// The tokens of entry `j` of a set.
proof fn lemma_render_set_index(es: Seq<(u64, Vec<u8>)>, j: int)
    requires
        0 <= j < es.len(),
    ensures
        render_set(es).len() == 3 * es.len() - 1,
        render_set(es)[3 * j] == Tok::Nat(es[j].0),
        render_set(es)[3 * j + 1] == Tok::Name(es[j].1@),
    decreases es.len(),
{
    lemma_render_set_at(es);
    if es.len() > 1 {
        let p = es.drop_last();
        let rp = render_set(p);
        lemma_render_set_at(p);
        if j < p.len() {
            lemma_render_set_index(p, j);
        }
        assert(render_set(es) == rp.push(Tok::Plus) + render_entry(es.last()));
    }
}

/// Equal set tokens are equal sets.
proof fn lemma_render_set_injective(a: Seq<(u64, Vec<u8>)>, b: Seq<(u64, Vec<u8>)>)
    requires
        a.len() > 0,
        b.len() > 0,
        render_set(a) == render_set(b),
    ensures
        entries_view(a) == entries_view(b),
{
    lemma_render_set_at(a);
    lemma_render_set_at(b);
    assert forall|j: int| 0 <= j < a.len() implies entries_view(a)[j] == entries_view(b)[j] by {
        lemma_render_set_index(a, j);
        lemma_render_set_index(b, j);
    }
    assert(entries_view(a) =~= entries_view(b));
}

/// Two declarations whose tokens both stand at `p` are the same.
proof fn lemma_decl_unique(tv: Seq<Tok>, p: int, a: Decl, b: Decl)
    requires
        decl_at(tv, p, a),
        decl_at(tv, p, b),
        a matches Decl::Recipe { inputs, outputs, .. } ==> inputs.len() > 0 && outputs.len() > 0,
        b matches Decl::Recipe { inputs, outputs, .. } ==> inputs.len() > 0 && outputs.len() > 0,
        p + render_decl(a).len() <= tv.len(),
        p + render_decl(b).len() <= tv.len(),
        tv.subrange(p, p + render_decl(a).len()) == render_decl(a),
        tv.subrange(p, p + render_decl(b).len()) == render_decl(b),
    ensures
        render_decl(a).len() == render_decl(b).len(),
        same_decl(a, b),
{
    lemma_render_set_lens(a);
    lemma_render_set_lens(b);
    let da = render_decl(a);
    let db = render_decl(b);
    assert(da[0] == tv[p] && db[0] == tv[p]);
    assert(da[1] == tv[p + 1] && db[1] == tv[p + 1]);
    match (a, b) {
        (Decl::Recipe { name: n, inputs: i1, outputs: o1 }, Decl::Recipe { name: m, inputs: i2, outputs: o2 }) => {
            let (x, y) = (i1.len() as int, i2.len() as int);
            if x < y {
                assert(tv[p + 2 + 3 * x - 1] is Plus);
                assert(p + 2 + 3 * x - 1 == p + 3 * x + 1);
            } else if y < x {
                assert(tv[p + 2 + 3 * y - 1] is Plus);
                assert(p + 2 + 3 * y - 1 == p + 3 * y + 1);
            }
            let aa = p + 3 * x + 1;
            let (u, v) = (o1.len() as int, o2.len() as int);
            if u < v {
                assert(tv[aa + 1 + 3 * u - 1] is Plus);
            } else if v < u {
                assert(tv[aa + 1 + 3 * v - 1] is Plus);
            }
            assert(da == db);
            let si1 = render_set(i1@);
            let si2 = render_set(i2@);
            let so1 = render_set(o1@);
            let so2 = render_set(o2@);
            assert(da == seq![Tok::Name(n@), Tok::Colon] + si1 + seq![Tok::Arrow] + so1);
            assert(db == seq![Tok::Name(m@), Tok::Colon] + si2 + seq![Tok::Arrow] + so2);
            lemma_render_set_at(i1@);
            lemma_render_set_at(o1@);
            lemma_render_set_at(i2@);
            lemma_render_set_at(o2@);
            assert(si1 =~= da.subrange(2, 2 + si1.len() as int));
            assert(si2 =~= db.subrange(2, 2 + si2.len() as int));
            assert(so1 =~= da.subrange(3 + si1.len() as int, da.len() as int));
            assert(so2 =~= db.subrange(3 + si2.len() as int, db.len() as int));
            lemma_render_set_injective(i1@, i2@);
            lemma_render_set_injective(o1@, o2@);
        },
        (Decl::Item { .. }, Decl::Item { .. }) => {
            assert(da == db);
        },
        (Decl::Request { .. }, Decl::Request { .. }) => {
            assert(da[2] == tv[p + 2] && db[2] == tv[p + 2]);
        },
        _ => {},
    }
}

/// Round trip of the declaration language: two sequences of declarations
/// that write out as the same tokens read the same, entry by entry, and so
/// build the same system. Together with `parse_decls`, which reads every
/// such token sequence and returns declarations that write it out again,
/// parsing what a system's declarations print gives back that system.
pub proof fn lemma_tokens_determine_decls(ds1: Seq<Decl>, ds2: Seq<Decl>)
    requires
        render_all(ds1) == render_all(ds2),
        sets_nonempty(ds1),
        sets_nonempty(ds2),
    ensures
        ds1.len() == ds2.len(),
        forall|k: int| 0 <= k < ds1.len() ==> same_decl(#[trigger] ds1[k], ds2[k]),
        apply_all(empty_model(), ds1) == apply_all(empty_model(), ds2),
{
    lemma_decls_same_upto(ds1, ds2, 0);
    lemma_apply_all_same(empty_model(), ds1, ds2);
}

/// From declaration `k` on, both sequences agree, given that their first
/// `k` declarations take the same tokens.
proof fn lemma_decls_same_upto(ds1: Seq<Decl>, ds2: Seq<Decl>, k: int)
    requires
        render_all(ds1) == render_all(ds2),
        sets_nonempty(ds1),
        sets_nonempty(ds2),
        0 <= k <= ds1.len(),
        k <= ds2.len(),
        render_all(ds1.take(k)).len() == render_all(ds2.take(k)).len(),
    ensures
        ds1.len() == ds2.len(),
        forall|j: int| k <= j < ds1.len() ==> same_decl(#[trigger] ds1[j], ds2[j]),
    decreases ds1.len() - k,
{
    let t = render_all(ds1);
    if k == ds1.len() || k == ds2.len() {
        lemma_render_all_prefix(ds1, k);
        lemma_render_all_prefix(ds2, k);
        if k < ds1.len() {
            assert(ds2.take(k) == ds2);
            lemma_decl_at(ds1, k);
        } else if k < ds2.len() {
            assert(ds1.take(k) == ds1);
            lemma_decl_at(ds2, k);
        }
    } else {
        lemma_decl_at(ds1, k);
        lemma_decl_at(ds2, k);
        let p = render_all(ds1.take(k)).len() as int;
        lemma_decl_unique(t, p, ds1[k], ds2[k]);
        lemma_decls_same_upto(ds1, ds2, k + 1);
    }
}

/// Declarations that read the same apply the same way.
proof fn lemma_apply_all_same(m: SystemModel, ds1: Seq<Decl>, ds2: Seq<Decl>)
    requires
        ds1.len() == ds2.len(),
        forall|k: int| 0 <= k < ds1.len() ==> same_decl(#[trigger] ds1[k], ds2[k]),
    ensures
        apply_all(m, ds1) == apply_all(m, ds2),
    decreases ds1.len(),
{
    if ds1.len() > 0 {
        let (a, b) = (ds1.drop_last(), ds2.drop_last());
        assert forall|k: int| 0 <= k < a.len() implies same_decl(#[trigger] a[k], b[k]) by {
            assert(same_decl(ds1[k], ds2[k]));
        }
        lemma_apply_all_same(m, a, b);
        assert(same_decl(ds1[ds1.len() - 1], ds2[ds2.len() - 1]));
    }
}

/// Appends the tokens of an item set.
fn print_set(out: &mut Vec<Token>, es: &Vec<(u64, Vec<u8>)>)
    ensures
        toks_view(final(out)@) == toks_view(old(out)@) + render_set(es@),
{
    let ghost base = toks_view(out@);
    let mut j: usize = 0;
    while j < es.len()
        invariant
            j <= es.len(),
            toks_view(out@) == base + render_set(es@.take(j as int)),
        decreases es.len() - j,
    {
        let ghost before = toks_view(out@);
        if j > 0 {
            out.push(Token::Plus);
        }
        out.push(Token::Natural(es[j].0));
        out.push(Token::Ident(es[j].1.clone()));
        proof {
            let t1 = es@.take(j + 1);
            assert(t1.drop_last() == es@.take(j as int));
            assert(t1.last() == es@[j as int]);
            if j == 0 {
                assert(es@.take(0) =~= Seq::<(u64, Vec<u8>)>::empty());
                assert(toks_view(out@) =~= before + render_entry(es@[j as int]));
            } else {
                assert(toks_view(out@) =~= before.push(Tok::Plus) + render_entry(es@[j as int]));
            }
        }
        j = j + 1;
    }
    assert(es@.take(es.len() as int) == es@);
}

/// The keyword that opens a request, as bytes.
fn out_name() -> (r: Vec<u8>)
    ensures
        r@ == out_keyword(),
{
    let mut r: Vec<u8> = Vec::new();
    r.push(111u8);
    r.push(117u8);
    r.push(116u8);
    assert(r@ =~= out_keyword());
    r
}

/// The tokens of a sequence of declarations, written out.
pub fn print_decls(ds: &Vec<Decl>) -> (toks: Vec<Token>)
    ensures
        toks_view(toks@) == render_all(ds@),
{
    let mut out: Vec<Token> = Vec::new();
    let mut k: usize = 0;
    while k < ds.len()
        invariant
            k <= ds.len(),
            toks_view(out@) == render_all(ds@.take(k as int)),
        decreases ds.len() - k,
    {
        let ghost before = toks_view(out@);
        proof {
            assert(ds@.take(k + 1).drop_last() == ds@.take(k as int));
            assert(ds@.take(k + 1).last() == ds@[k as int]);
        }
        match &ds[k] {
            Decl::Item { amount, name } => {
                out.push(Token::Natural(*amount));
                out.push(Token::Ident(name.clone()));
                assert(toks_view(out@) =~= before + render_decl(ds@[k as int]));
            },
            Decl::Request { amount, name } => {
                out.push(Token::Ident(out_name()));
                out.push(Token::Natural(*amount));
                out.push(Token::Ident(name.clone()));
                assert(toks_view(out@) =~= before + render_decl(ds@[k as int]));
            },
            Decl::Recipe { name, inputs, outputs } => {
                out.push(Token::Ident(name.clone()));
                out.push(Token::Colon);
                let ghost g1 = toks_view(out@);
                assert(g1 =~= before + seq![Tok::Name(name@), Tok::Colon]);
                print_set(&mut out, inputs);
                let ghost g2 = toks_view(out@);
                out.push(Token::Arrow);
                let ghost g3 = toks_view(out@);
                assert(g3 =~= g2.push(Tok::Arrow));
                print_set(&mut out, outputs);
                assert(toks_view(out@) =~= before + (seq![Tok::Name(name@), Tok::Colon] + render_set(inputs@)
                    + seq![Tok::Arrow] + render_set(outputs@)));
            },
        }
        k = k + 1;
    }
    assert(ds@.take(ds.len() as int) == ds@);
    out
}

} // verus!
