use vstd::prelude::*;
use crate::error::Error;

verus! {

/// A token of the declaration language.
#[derive(Debug, Clone)]
pub enum Token {
    Natural(u64),
    Ident(Vec<u8>),
    Colon,
    Arrow,
    Plus,
}

/// The mathematical value of a token.
pub enum Tok {
    Nat(u64),
    Name(Seq<u8>),
    Colon,
    Arrow,
    Plus,
}

impl View for Token {
    type V = Tok;

    open spec fn view(&self) -> Tok {
        match self {
            Token::Natural(n) => Tok::Nat(*n),
            Token::Ident(s) => Tok::Name(s@),
            Token::Colon => Tok::Colon,
            Token::Arrow => Tok::Arrow,
            Token::Plus => Tok::Plus,
        }
    }
}

/// The views of a token vector.
pub open spec fn toks_view(v: Seq<Token>) -> Seq<Tok> {
    v.map_values(|t: Token| t@)
}

pub open spec fn is_digit(b: u8) -> bool {
    48 <= b <= 57
}

pub open spec fn is_ident_start(b: u8) -> bool {
    (65 <= b <= 90) || (97 <= b <= 122) || b == 95
}

pub open spec fn is_ident_char(b: u8) -> bool {
    is_ident_start(b) || is_digit(b)
}

pub open spec fn is_space(b: u8) -> bool {
    b == 32 || b == 9 || b == 10 || b == 13
}

/// `[A-Za-z_][A-Za-z0-9_]*`.
pub open spec fn is_ident(s: Seq<u8>) -> bool {
    &&& s.len() > 0
    &&& is_ident_start(s[0])
    &&& forall|k: int| 0 <= k < s.len() ==> #[trigger] is_ident_char(s[k])
}

/// The decimal value of a digit string.
pub open spec fn decimal(s: Seq<u8>) -> int
    decreases s.len(),
{
    if s.len() == 0 { 0 } else { decimal(s.drop_last()) * 10 + (s.last() - 48) }
}

/// Each token is well formed, and each starts at its position, in
/// increasing order, within the text.
pub open spec fn lexed(src: Seq<u8>, toks: Seq<Token>, pos: Seq<usize>) -> bool {
    &&& toks.len() == pos.len()
    &&& forall|t: int| 0 <= t < toks.len() ==> (#[trigger] pos[t] as int) < src.len()
    &&& forall|t: int, u: int| 0 <= t < u < toks.len() ==> pos[t] < pos[u]
    &&& forall|t: int| 0 <= t < toks.len() ==> match #[trigger] toks[t] {
            Token::Ident(n) => is_ident(n@) && src.subrange(pos[t] as int, pos[t] + n@.len()) == n@,
            Token::Natural(v) => is_digit(src[pos[t] as int]),
            Token::Colon => src[pos[t] as int] == 58,
            Token::Arrow => src[pos[t] as int] == 45,
            Token::Plus => src[pos[t] as int] == 43,
        }
}

fn digit(b: u8) -> (r: bool)
    ensures r == is_digit(b),
{
    48 <= b && b <= 57
}

fn ident_start(b: u8) -> (r: bool)
    ensures r == is_ident_start(b),
{
    (65 <= b && b <= 90) || (97 <= b && b <= 122) || b == 95
}

fn ident_char(b: u8) -> (r: bool)
    ensures r == is_ident_char(b),
{
    ident_start(b) || digit(b)
}

/// The number of identifier bytes from `start` on.
pub open spec fn ident_run(src: Seq<u8>, start: int) -> int
    decreases src.len() - start,
{
    if start < 0 || start >= src.len() || !is_ident_char(src[start]) { 0 } else { 1 + ident_run(src, start + 1) }
}

/// `Some(a + rest)` where the rest of the text lexes, else `None`.
pub open spec fn prepend(a: Seq<Tok>, rest: Option<Seq<Tok>>) -> Option<Seq<Tok>> {
    match rest {
        Some(r) => Some(a + r),
        None => None,
    }
}

/// The tokens of the text from byte `p` on, by longest match; `None` when
/// a byte starts no token or a number exceeds `u64::MAX`.
pub open spec fn lex_from(src: Seq<u8>, p: int) -> Option<Seq<Tok>>
    decreases src.len() - p,
{
    if p < 0 || p >= src.len() {
        Some(Seq::empty())
    } else {
        let b = src[p];
        if is_space(b) {
            lex_from(src, p + 1)
        } else if is_digit(b) {
            let n = digit_run(src, p);
            let v = decimal(src.subrange(p, p + n));
            if n <= 0 || p + n > src.len() || v > u64::MAX {
                None
            } else {
                prepend(seq![Tok::Nat(v as u64)], lex_from(src, p + n))
            }
        } else if is_ident_start(b) {
            let n = ident_run(src, p);
            if n <= 0 || p + n > src.len() {
                None
            } else {
                prepend(seq![Tok::Name(src.subrange(p, p + n))], lex_from(src, p + n))
            }
        } else if b == 58 {
            prepend(seq![Tok::Colon], lex_from(src, p + 1))
        } else if b == 43 {
            prepend(seq![Tok::Plus], lex_from(src, p + 1))
        } else if b == 45 && p + 1 < src.len() && src[p + 1] == 62 {
            prepend(seq![Tok::Arrow], lex_from(src, p + 2))
        } else {
            None
        }
    }
}

/// The tokens of the whole text.
pub open spec fn lex(src: Seq<u8>) -> Option<Seq<Tok>> {
    lex_from(src, 0)
}

/// A maximal run of identifier bytes from `start` to `end` has length `ident_run`.
proof fn lemma_ident_run(src: Seq<u8>, start: int, end: int)
    requires
        0 <= start <= end <= src.len(),
        forall|k: int| start <= k < end ==> #[trigger] is_ident_char(src[k]),
        end == src.len() || !is_ident_char(src[end]),
    ensures
        ident_run(src, start) == end - start,
    decreases end - start,
{
    if start < end {
        lemma_ident_run(src, start + 1, end);
    }
}

/// Prepending a sequence and then one more token is prepending both.
proof fn lemma_prepend_push(a: Seq<Tok>, x: Tok, rest: Option<Seq<Tok>>)
    ensures
        prepend(a, prepend(seq![x], rest)) == prepend(a.push(x), rest),
{
    if let Some(r) = rest {
        assert(a + (seq![x] + r) =~= a.push(x) + r);
    }
}

/// The number of bytes of a token that starts at `at`.
pub open spec fn tok_len(src: Seq<u8>, tok: Token, at: int) -> int {
    match tok {
        Token::Ident(n) => n@.len() as int,
        Token::Natural(_) => digit_run(src, at),
        Token::Arrow => 2,
        _ => 1,
    }
}

/// Byte `k` lies inside one of the tokens.
pub open spec fn covered(src: Seq<u8>, toks: Seq<Token>, pos: Seq<usize>, k: int) -> bool {
    exists|t: int| 0 <= t < toks.len() && #[trigger] pos[t] <= k < pos[t] + tok_len(src, toks[t], pos[t] as int)
}

/// The tokens cover every byte that is not whitespace, each identifier and
/// each number runs as far as it can, and an arrow is `->`.
pub open spec fn complete(src: Seq<u8>, toks: Seq<Token>, pos: Seq<usize>) -> bool {
    &&& forall|k: int| 0 <= k < src.len() ==> is_space(src[k]) || covered(src, toks, pos, k)
    &&& forall|t: int| 0 <= t < toks.len() ==> #[trigger] pos[t] + tok_len(src, toks[t], pos[t] as int) <= src.len()
    &&& forall|t: int, u: int| 0 <= t < u < toks.len() ==> #[trigger] pos[t] + tok_len(src, toks[t], pos[t] as int) <= #[trigger] pos[u]
    &&& forall|t: int| 0 <= t < toks.len() ==> (#[trigger] toks[t] matches Token::Ident(n) ==>
            pos[t] + n@.len() == src.len() || !is_ident_char(src[pos[t] + n@.len()]))
    &&& forall|t: int| 0 <= t < toks.len() ==> (#[trigger] toks[t] matches Token::Arrow ==> src[pos[t] + 1] == 62)
}

/// Byte `k` cannot start a token: it is no token's first byte, a `-` without
/// `>`, or the start of a number above `u64::MAX`.
pub open spec fn bad_at(src: Seq<u8>, k: int) -> bool {
    let b = src[k];
    ||| (!is_space(b) && !is_digit(b) && !is_ident_start(b) && b != 58 && b != 43 && b != 45)
    ||| (b == 45 && !(k + 1 < src.len() && src[k + 1] == 62))
    ||| (is_digit(b) && decimal(src.subrange(k, k + digit_run(src, k))) > u64::MAX)
}

/// Splits the text into tokens, each with its byte position. Whitespace
/// separates tokens and is dropped. A byte that starts no token, a `-` not
/// followed by `>`, or a number above `u64::MAX` is a syntax error at its
/// position.
pub fn tokenize(src: &[u8]) -> (r: Result<(Vec<Token>, Vec<usize>), Error>)
    ensures
        match r {
            Ok((toks, pos)) => lex(src@) == Some(toks_view(toks@)) && lexed(src@, toks@, pos@) && complete(src@, toks@, pos@)
                && forall|t: int| 0 <= t < toks.len() ==> (#[trigger] toks[t] matches Token::Natural(v) ==> v as int == decimal(src@.subrange(pos[t] as int, pos[t] as int + digit_run(src@, pos[t] as int)))),
            Err(Error::Syntax { pos }) => pos < src.len() && bad_at(src@, pos as int) && lex(src@) is None,
            Err(_) => false,
        },
{
    let mut toks: Vec<Token> = Vec::new();
    let mut pos: Vec<usize> = Vec::new();
    let mut p: usize = 0;
    while p < src.len()
        invariant
            p <= src.len(),
            lexed(src@, toks@, pos@),
            forall|t: int| 0 <= t < pos.len() ==> (#[trigger] pos[t]) < p,
            forall|t: int| 0 <= t < toks.len() ==> (#[trigger] toks[t] matches Token::Natural(v) ==> v as int == decimal(src@.subrange(pos[t] as int, pos[t] as int + digit_run(src@, pos[t] as int)))),
            forall|k: int| 0 <= k < p ==> is_space(src@[k]) || covered(src@, toks@, pos@, k),
            forall|t: int| 0 <= t < toks.len() ==> #[trigger] pos[t] + tok_len(src@, toks[t], pos[t] as int) <= p,
            forall|t: int, u: int| 0 <= t < u < toks.len() ==> #[trigger] pos[t] + tok_len(src@, toks[t], pos[t] as int) <= #[trigger] pos[u],
            forall|t: int| 0 <= t < toks.len() ==> (#[trigger] toks[t] matches Token::Ident(n) ==>
                pos[t] + n@.len() == src.len() || !is_ident_char(src@[pos[t] + n@.len()])),
            forall|t: int| 0 <= t < toks.len() ==> (#[trigger] toks[t] matches Token::Arrow ==> src@[pos[t] + 1] == 62),
            lex(src@) == prepend(toks_view(toks@), lex_from(src@, p as int)),
        decreases src.len() - p,
    {
        let b = src[p];
        let start = p;
        let ghost old_toks = toks@;
        let ghost old_pos = pos@;
        if b == 32 || b == 9 || b == 10 || b == 13 {
            p = p + 1;
            assert(lex_from(src@, start as int) == lex_from(src@, p as int));
        } else if digit(b) {
            let mut v: u64 = 0;
            while p < src.len() && digit(src[p])
                invariant
                    start <= p <= src.len(),
                    start < src.len(),
                    is_digit(src@[start as int]),
                    forall|k: int| start <= k < p ==> #[trigger] is_digit(src@[k]),
                    v as int == decimal(src@.subrange(start as int, p as int)),
                    lex(src@) == prepend(toks_view(toks@), lex_from(src@, start as int)),
                decreases src.len() - p,
            {
                let d = (src[p] - 48) as u64;
                assert(src@.subrange(start as int, p + 1).drop_last() == src@.subrange(start as int, p as int));
                if v > 1844674407370955161 || (v == 1844674407370955161 && d > 5) {
                    proof {
                        assert(decimal(src@.subrange(start as int, p + 1)) > u64::MAX);
                        lemma_digit_run_at_least(src@, start as int, p + 1);
                        lemma_digit_run_facts(src@, start as int);
                        lemma_decimal_grows(src@, start as int, p + 1, start + digit_run(src@, start as int));
                        assert(lex_from(src@, start as int) is None);
                    }
                    return Err(Error::Syntax { pos: start });
                }
                v = v * 10 + d;
                p = p + 1;
            }
            proof {
                lemma_digit_run(src@, start as int, p as int);
                assert(lex_from(src@, start as int) == prepend(seq![Tok::Nat(v)], lex_from(src@, p as int)));
            }
            toks.push(Token::Natural(v));
            pos.push(start);
        } else if ident_start(b) {
            let mut name: Vec<u8> = Vec::new();
            while p < src.len() && ident_char(src[p])
                invariant
                    start <= p <= src.len(),
                    start < src.len(),
                    is_ident_start(src@[start as int]),
                    name@ == src@.subrange(start as int, p as int),
                    forall|k: int| start <= k < p ==> #[trigger] is_ident_char(src@[k]),
                decreases src.len() - p,
            {
                name.push(src[p]);
                p = p + 1;
            }
            assert(name@.len() > 0 && name@[0] == src@[start as int]);
            assert forall|k: int| 0 <= k < name@.len() implies #[trigger] is_ident_char(name@[k]) by {
                assert(name@[k] == src@[start + k]);
            }
            proof {
                lemma_ident_run(src@, start as int, p as int);
                assert(lex_from(src@, start as int) == prepend(seq![Tok::Name(name@)], lex_from(src@, p as int)));
            }
            toks.push(Token::Ident(name));
            pos.push(start);
        } else if b == 58 {
            toks.push(Token::Colon);
            pos.push(start);
            p = p + 1;
            assert(lex_from(src@, start as int) == prepend(seq![Tok::Colon], lex_from(src@, p as int)));
        } else if b == 43 {
            toks.push(Token::Plus);
            pos.push(start);
            p = p + 1;
            assert(lex_from(src@, start as int) == prepend(seq![Tok::Plus], lex_from(src@, p as int)));
        } else if b == 45 && p + 1 < src.len() && src[p + 1] == 62 {
            toks.push(Token::Arrow);
            pos.push(start);
            p = p + 2;
            assert(lex_from(src@, start as int) == prepend(seq![Tok::Arrow], lex_from(src@, p as int)));
        } else {
            assert(lex_from(src@, start as int) is None);
            return Err(Error::Syntax { pos: start });
        }
        proof {
            if toks.len() > old_toks.len() {
                assert(toks_view(toks@) =~= toks_view(old_toks).push(toks@.last()@));
                lemma_prepend_push(toks_view(old_toks), toks@.last()@, lex_from(src@, p as int));
            }
            assert forall|t: int| 0 <= t < old_toks.len() implies toks@[t] == old_toks[t] && pos@[t] == old_pos[t] by {}
            assert forall|t: int, u: int| 0 <= t < u < toks.len() implies #[trigger] pos[t] + tok_len(src@, toks[t], pos[t] as int) <= #[trigger] pos[u] by {
                assert(toks@[t] == old_toks[t] || t >= old_toks.len());
                if u < old_toks.len() {
                    assert(old_pos[t] + tok_len(src@, old_toks[t], old_pos[t] as int) <= old_pos[u]);
                } else if t < old_toks.len() {
                    assert(old_pos[t] + tok_len(src@, old_toks[t], old_pos[t] as int) <= start);
                }
            }
            assert forall|k: int| 0 <= k < p implies is_space(src@[k]) || covered(src@, toks@, pos@, k) by {
                if k < start {
                    if !is_space(src@[k]) {
                        assert(covered(src@, old_toks, old_pos, k));
                        let t = choose|t: int| 0 <= t < old_toks.len() && #[trigger] old_pos[t] <= k < old_pos[t] + tok_len(src@, old_toks[t], old_pos[t] as int);
                        assert(toks@[t] == old_toks[t] && pos@[t] == old_pos[t]);
                    }
                } else if !is_space(src@[k]) {
                    let t = toks.len() - 1;
                    assert(pos@[t] == start);
                    assert(pos@[t] <= k < pos@[t] + tok_len(src@, toks@[t], pos@[t] as int));
                }
            }
            assert forall|t: int| 0 <= t < toks.len() implies (#[trigger] toks[t] matches Token::Natural(v) ==> v as int == decimal(src@.subrange(pos[t] as int, pos[t] as int + digit_run(src@, pos[t] as int)))) by {}
        }
    }
    Ok((toks, pos))
}

/// Where the digits from `start` reach at least `j`, so does the digit run.
proof fn lemma_digit_run_at_least(src: Seq<u8>, start: int, j: int)
    requires
        0 <= start <= j <= src.len(),
        forall|k: int| start <= k < j ==> #[trigger] is_digit(src[k]),
    ensures
        digit_run(src, start) >= j - start,
    decreases j - start,
{
    lemma_digit_run_facts(src, start);
    if start < j {
        assert(is_digit(src[start]));
        lemma_digit_run_at_least(src, start + 1, j);
    }
}

/// A digit run stays inside the text and holds digits only.
proof fn lemma_digit_run_facts(src: Seq<u8>, start: int)
    requires
        0 <= start <= src.len(),
    ensures
        0 <= digit_run(src, start),
        start + digit_run(src, start) <= src.len(),
        forall|k: int| start <= k < start + digit_run(src, start) ==> #[trigger] is_digit(src[k]),
    decreases src.len() - start,
{
    if start < src.len() && is_digit(src[start]) {
        lemma_digit_run_facts(src, start + 1);
    }
}

/// The value of a digit string does not shrink as digits are appended.
proof fn lemma_decimal_grows(src: Seq<u8>, start: int, j: int, e: int)
    requires
        0 <= start <= j <= e <= src.len(),
        forall|k: int| start <= k < e ==> #[trigger] is_digit(src[k]),
    ensures
        decimal(src.subrange(start, j)) <= decimal(src.subrange(start, e)),
    decreases e - j,
{
    if j < e {
        lemma_decimal_grows(src, start, j, e - 1);
        assert(src.subrange(start, e).drop_last() == src.subrange(start, e - 1));
        assert(is_digit(src[e - 1]));
        lemma_decimal_nonneg(src.subrange(start, e - 1));
    }
}

/// The value of a digit string is not negative.
proof fn lemma_decimal_nonneg(s: Seq<u8>)
    ensures
        decimal(s) >= 0 || exists|k: int| 0 <= k < s.len() && !is_digit(s[k]),
    decreases s.len(),
{
    if s.len() > 0 {
        lemma_decimal_nonneg(s.drop_last());
        if exists|k: int| 0 <= k < s.drop_last().len() && !is_digit(s.drop_last()[k]) {
            let k = choose|k: int| 0 <= k < s.drop_last().len() && !is_digit(s.drop_last()[k]);
            assert(!is_digit(s[k]));
        }
    }
}

/// The number of digits from `start` on.
pub open spec fn digit_run(src: Seq<u8>, start: int) -> int
    decreases src.len() - start,
{
    if start < 0 || start >= src.len() || !is_digit(src[start]) { 0 } else { 1 + digit_run(src, start + 1) }
}

/// A maximal run of digits from `start` to `end` has length `digit_run`.
proof fn lemma_digit_run(src: Seq<u8>, start: int, end: int)
    requires
        0 <= start <= end <= src.len(),
        forall|k: int| start <= k < end ==> #[trigger] is_digit(src[k]),
        end == src.len() || !is_digit(src[end]),
    ensures
        digit_run(src, start) == end - start,
    decreases end - start,
{
    if start < end {
        lemma_digit_run(src, start + 1, end);
    }
}

} // verus!
