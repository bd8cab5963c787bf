//! The placeholder grammar: a string is lexed into literal text and
//! `$kind:value` placeholders, losslessly.

use vstd::prelude::*;

use crate::numeric::{is_ws, is_ws_char};

verus! {

/// A `$kind:value` placeholder found in a string.
#[derive(Debug, Clone, PartialEq, Eq)]
pub struct Placeholder {
    pub kind: String,
    pub value: String,
}

/// One token of a lexed string.
#[derive(Debug, Clone, PartialEq, Eq)]
pub enum ParsedElement {
    Text(String),
    Placeholder(Placeholder),
}

/// A token as a mathematical value.
pub enum Token {
    Text(Seq<char>),
    Hole(Seq<char>, Seq<char>),
}

impl View for ParsedElement {
    type V = Token;

    open spec fn view(&self) -> Token {
        match self {
            ParsedElement::Text(t) => Token::Text(t@),
            ParsedElement::Placeholder(p) => Token::Hole(p.kind@, p.value@),
        }
    }
}

/// Characters that end a placeholder's run: whitespace and `$`.
pub open spec fn is_stop(c: char) -> bool {
    is_ws(c) || c == '$'
}

/// The first index at or after `j` that holds a stop character, or the length.
pub open spec fn run_end(s: Seq<char>, j: int) -> int
    decreases s.len() - j,
{
    if j >= s.len() || is_stop(s[j]) {
        j
    } else {
        run_end(s, j + 1)
    }
}

/// The first index in `j..e` that holds `:`, or `e`.
pub open spec fn colon_in(s: Seq<char>, j: int, e: int) -> int
    decreases e - j,
{
    if j >= e || s[j] == ':' {
        j
    } else {
        colon_in(s, j + 1, e)
    }
}

/// The end of the run that follows the `$` at `i`.
pub open spec fn hole_end(s: Seq<char>, i: int) -> int {
    run_end(s, i + 1)
}

/// The first colon in the run that follows the `$` at `i`, or the run's end.
pub open spec fn hole_colon(s: Seq<char>, i: int) -> int {
    colon_in(s, i + 1, hole_end(s, i))
}

/// A well-formed placeholder starts at `i`: a `$`, a non-empty kind, a colon
/// and a non-empty value.
pub open spec fn starts_hole(s: Seq<char>, i: int) -> bool {
    0 <= i < s.len() && s[i] == '$' && i + 1 < hole_colon(s, i) && hole_colon(s, i) + 1 < hole_end(
        s,
        i,
    )
}

/// The text token for `s[t..i]`, if it is not empty.
pub open spec fn pending(s: Seq<char>, t: int, i: int) -> Seq<Token> {
    if t < i {
        seq![Token::Text(s.subrange(t, i))]
    } else {
        Seq::empty()
    }
}

/// Lexes `s` from index `i`, with literal text pending since index `t`.
pub open spec fn lex_from(s: Seq<char>, i: int, t: int) -> Seq<Token>
    decreases s.len() - i
        via lex_from_decreases

{
    if i >= s.len() {
        pending(s, t, s.len() as int)
    } else {
        let c = hole_colon(s, i);
        let e = hole_end(s, i);
        if starts_hole(s, i) {
            pending(s, t, i) + seq![Token::Hole(s.subrange(i + 1, c), s.subrange(c + 1, e))]
                + lex_from(s, e, e)
        } else {
            lex_from(s, i + 1, t)
        }
    }
}

#[via_fn]
proof fn lex_from_decreases(s: Seq<char>, i: int, t: int) {
    if i < s.len() && i >= 0 {
        lemma_run_end(s, i + 1);
    }
}

/// The tokens of `s`.
pub open spec fn lex(s: Seq<char>) -> Seq<Token> {
    lex_from(s, 0, 0)
}

/// The source text that a token stands for.
pub open spec fn token_source(t: Token) -> Seq<char> {
    match t {
        Token::Text(x) => x,
        Token::Hole(k, v) => seq!['$'] + k + seq![':'] + v,
    }
}

/// The concatenated source text of a token sequence.
pub open spec fn tokens_source(ts: Seq<Token>) -> Seq<char>
    decreases ts.len(),
{
    if ts.len() == 0 {
        Seq::empty()
    } else {
        tokens_source(ts.drop_last()) + token_source(ts.last())
    }
}

pub proof fn lemma_tokens_source_concat(a: Seq<Token>, b: Seq<Token>)
    ensures
        tokens_source(a + b) == tokens_source(a) + tokens_source(b),
    decreases b.len(),
{
    if b.len() == 0 {
        assert(a + b =~= a);
    } else {
        lemma_tokens_source_concat(a, b.drop_last());
        assert((a + b).drop_last() =~= a + b.drop_last());
        assert(tokens_source(a) + tokens_source(b) =~= tokens_source(a) + tokens_source(
            b.drop_last(),
        ) + token_source(b.last()));
    }
}

proof fn lemma_tokens_source_one(x: Token)
    ensures
        tokens_source(seq![x]) == token_source(x),
{
    assert(seq![x].drop_last() =~= Seq::<Token>::empty());
    assert(tokens_source(Seq::<Token>::empty()) == Seq::<char>::empty());
    assert(Seq::<char>::empty() + token_source(x) =~= token_source(x));
}

proof fn lemma_lex_from_source(s: Seq<char>, i: int, t: int)
    requires
        0 <= t <= i <= s.len(),
    ensures
        tokens_source(lex_from(s, i, t)) == s.subrange(t, s.len() as int),
    decreases s.len() - i,
{
    let n = s.len() as int;
    if i >= n {
        if t < n {
            lemma_tokens_source_one(Token::Text(s.subrange(t, n)));
        } else {
            assert(s.subrange(t, n) =~= Seq::<char>::empty());
        }
    } else {
        let c = hole_colon(s, i);
        let e = hole_end(s, i);
        if starts_hole(s, i) {
            {
                lemma_run_end(s, i + 1);
                lemma_colon_in(s, i + 1, run_end(s, i + 1));
                lemma_lex_from_source(s, e, e);
                let p = pending(s, t, i);
                let h = seq![Token::Hole(s.subrange(i + 1, c), s.subrange(c + 1, e))];
                lemma_tokens_source_concat(p + h, lex_from(s, e, e));
                lemma_tokens_source_concat(p, h);
                lemma_tokens_source_one(h[0]);
                assert(h =~= seq![h[0]]);
                assert(tokens_source(p) =~= s.subrange(t, i)) by {
                    if t < i {
                        lemma_tokens_source_one(Token::Text(s.subrange(t, i)));
                    }
                }
                assert(s[c] == ':') by {
                    lemma_colon_in(s, i + 1, run_end(s, i + 1));
                }
                assert(s.subrange(t, n) =~= s.subrange(t, i) + (seq!['$'] + s.subrange(i + 1, c)
                    + seq![':'] + s.subrange(c + 1, e)) + s.subrange(e, n));
            }
        } else {
            lemma_lex_from_source(s, i + 1, t);
        }
    }
}

proof fn lemma_colon_in(s: Seq<char>, j: int, e: int)
    requires
        0 <= j,
        e <= s.len(),
    ensures
        j <= e ==> j <= colon_in(s, j, e) <= e,
        colon_in(s, j, e) < e ==> s[colon_in(s, j, e)] == ':',
    decreases e - j,
{
    if j < e && s[j] != ':' {
        lemma_colon_in(s, j + 1, e);
    }
}

proof fn lemma_run_end(s: Seq<char>, j: int)
    requires
        0 <= j <= s.len(),
    ensures
        j <= run_end(s, j) <= s.len(),
    decreases s.len() - j,
{
    if j < s.len() && !is_stop(s[j]) {
        lemma_run_end(s, j + 1);
    }
}

/// Lexing is lossless: the tokens' source texts, concatenated, give back the input.
pub proof fn lemma_lex_lossless(s: Seq<char>)
    ensures
        tokens_source(lex(s)) == s,
{
    lemma_lex_from_source(s, 0, 0);
    assert(s.subrange(0, s.len() as int) =~= s);
}

/// The characters of `s`, one by one.
fn chars_of(s: &str) -> (r: Vec<char>)
    ensures
        r@ == s@,
{
    let n = s.unicode_len();
    let mut r: Vec<char> = Vec::with_capacity(n);
    let mut i: usize = 0;
    while i < n
        invariant
            n == s@.len(),
            i <= n,
            r@ == s@.subrange(0, i as int),
        decreases n - i,
    {
        r.push(s.get_char(i));
        i = i + 1;
        assert(r@ =~= s@.subrange(0, i as int));
    }
    assert(s@.subrange(0, n as int) =~= s@);
    r
}

/// Reads the placeholder whose `$` stands at index `i`: its colon and its end,
/// if it is well formed.
fn parse_placeholder(chars: &Vec<char>, i: usize) -> (r: Option<(usize, usize)>)
    requires
        i < chars@.len(),
        chars@[i as int] == '$',
    ensures
        match r {
            Some((c, e)) => starts_hole(chars@, i as int) && c == hole_colon(chars@, i as int)
                && e == hole_end(chars@, i as int),
            None => !starts_hole(chars@, i as int),
        },
{
    let ghost s = chars@;
    let n = chars.len();
    let mut e: usize = i + 1;
    while e < n && !(is_ws_char(chars[e]) || chars[e] == '$')
        invariant
            n == s.len(),
            s == chars@,
            i + 1 <= e <= n,
            run_end(s, i + 1) == run_end(s, e as int),
        decreases n - e,
    {
        e = e + 1;
    }
    let mut c: usize = i + 1;
    while c < e && chars[c] != ':'
        invariant
            n == s.len(),
            s == chars@,
            i + 1 <= c <= e <= n,
            e == run_end(s, i + 1),
            colon_in(s, i + 1, e as int) == colon_in(s, c as int, e as int),
        decreases e - c,
    {
        c = c + 1;
    }
    if i + 1 < c && c < e && c + 1 < e {
        Some((c, e))
    } else {
        None
    }
}

/// Lexes `input` into literal text and `$kind:value` placeholders. A `$` that
/// does not begin a well-formed placeholder is literal text.
pub fn parse_string(input: &str) -> (result: Vec<ParsedElement>)
    ensures
        result@.map_values(|p: ParsedElement| p@) == lex(input@),
{
    let chars = chars_of(input);
    let ghost s = input@;
    let n = chars.len();
    let mut result: Vec<ParsedElement> = Vec::new();
    let mut i: usize = 0;
    let mut t: usize = 0;
    while i < n
        invariant
            n == s.len(),
            chars@ == s,
            s == input@,
            t <= i <= n,
            lex(s) == result@.map_values(|p: ParsedElement| p@) + lex_from(s, i as int, t as int),
        decreases n - i,
    {
        if chars[i] == '$' {
            match parse_placeholder(&chars, i) {
                Some((c, e)) => {
                    proof {
                        lemma_run_end(s, i as int + 1);
                    }
                    let ghost before = result@.map_values(|p: ParsedElement| p@);
                    if t < i {
                        result.push(ParsedElement::Text(input.substring_char(t, i).to_owned()));
                    }
                    assert(result@.map_values(|p: ParsedElement| p@) =~= before + pending(
                        s,
                        t as int,
                        i as int,
                    ));
                    let ghost mid = result@.map_values(|p: ParsedElement| p@);
                    let kind = input.substring_char(i + 1, c).to_owned();
                    let value = input.substring_char(c + 1, e).to_owned();
                    result.push(ParsedElement::Placeholder(Placeholder { kind, value }));
                    assert(result@.map_values(|p: ParsedElement| p@) =~= mid + seq![
                        Token::Hole(s.subrange(i + 1, c as int), s.subrange(c + 1, e as int)),
                    ]);
                    i = e;
                    t = e;
                },
                None => {
                    i = i + 1;
                },
            }
        } else {
            i = i + 1;
        }
    }
    let ghost before = result@.map_values(|p: ParsedElement| p@);
    if t < n {
        result.push(ParsedElement::Text(input.substring_char(t, n).to_owned()));
    }
    assert(result@.map_values(|p: ParsedElement| p@) =~= before + pending(s, t as int, n as int));
    assert(lex_from(s, n as int, t as int) == pending(s, t as int, n as int));
    result
}

} // verus!
