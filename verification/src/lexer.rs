use vstd::prelude::*;

use crate::errors::SyntaxError;
use crate::token::punct_token;
use crate::token::Token;
use crate::token::TokenView;

verus! {

// ---------------------------------------------------------------------------
// Character classes
// ---------------------------------------------------------------------------

/// ASCII whitespace: space, tab, line feed, carriage return, form feed.
pub open spec fn is_space_char(c: char) -> bool {
    c == ' ' || c == '\t' || c == '\n' || c == '\r' || c == '\x0c'
}

/// ASCII decimal digit.
pub open spec fn is_digit_char(c: char) -> bool {
    ('0' as u32) <= (c as u32) && (c as u32) <= ('9' as u32)
}

/// ASCII alphabetic character, either case.
pub open spec fn is_alpha_char(c: char) -> bool {
    (('a' as u32) <= (c as u32) && (c as u32) <= ('z' as u32))
        || (('A' as u32) <= (c as u32) && (c as u32) <= ('Z' as u32))
}

/// The numeric value of a single ASCII digit.
pub open spec fn digit_val(c: char) -> nat
    recommends
        is_digit_char(c),
{
    ((c as u32) - ('0' as u32)) as nat
}

/// The base-10 value of a sequence of ASCII digits.
pub open spec fn digits_val(s: Seq<char>) -> nat
    decreases s.len(),
{
    if s.len() == 0 {
        0
    } else {
        digits_val(s.drop_last()) * 10 + digit_val(s.last())
    }
}

/// The reserved word `let`.
pub open spec fn keyword_let() -> Seq<char> {
    seq!['l', 'e', 't']
}

// ---------------------------------------------------------------------------
// Maximal munch: the end of a run of same-class characters
// ---------------------------------------------------------------------------

/// The first position at or after `i` that is not an ASCII digit (maximal
/// munch for number runs).
pub open spec fn digit_run_end(s: Seq<char>, i: int) -> int
    recommends
        0 <= i <= s.len(),
    decreases s.len() - i when 0 <= i <= s.len()
{
    if i < s.len() && is_digit_char(s[i]) {
        digit_run_end(s, i + 1)
    } else {
        i
    }
}

/// The first position at or after `i` that is not ASCII alphabetic (maximal
/// munch for identifier/keyword runs).
pub open spec fn alpha_run_end(s: Seq<char>, i: int) -> int
    recommends
        0 <= i <= s.len(),
    decreases s.len() - i when 0 <= i <= s.len()
{
    if i < s.len() && is_alpha_char(s[i]) {
        alpha_run_end(s, i + 1)
    } else {
        i
    }
}

pub proof fn lemma_digit_run_end(s: Seq<char>, i: int)
    requires
        0 <= i <= s.len(),
    ensures
        i <= digit_run_end(s, i) <= s.len(),
        forall|k: int| i <= k < digit_run_end(s, i) ==> is_digit_char(s[k]),
        digit_run_end(s, i) < s.len() ==> !is_digit_char(s[digit_run_end(s, i)]),
        i < s.len() && is_digit_char(s[i]) ==> digit_run_end(s, i) > i,
    decreases s.len() - i,
{
    if i < s.len() && is_digit_char(s[i]) {
        lemma_digit_run_end(s, i + 1);
    }
}

pub proof fn lemma_alpha_run_end(s: Seq<char>, i: int)
    requires
        0 <= i <= s.len(),
    ensures
        i <= alpha_run_end(s, i) <= s.len(),
        forall|k: int| i <= k < alpha_run_end(s, i) ==> is_alpha_char(s[k]),
        alpha_run_end(s, i) < s.len() ==> !is_alpha_char(s[alpha_run_end(s, i)]),
        i < s.len() && is_alpha_char(s[i]) ==> alpha_run_end(s, i) > i,
    decreases s.len() - i,
{
    if i < s.len() && is_alpha_char(s[i]) {
        lemma_alpha_run_end(s, i + 1);
    }
}

/// A position bounding a region of digits, with no digit just after it, is
/// exactly where the maximal digit run starting at `i` ends.
proof fn lemma_digit_run_end_eq(s: Seq<char>, i: int, j: int)
    requires
        0 <= i <= j <= s.len(),
        forall|k: int| i <= k < j ==> is_digit_char(s[k]),
        j < s.len() ==> !is_digit_char(s[j]),
    ensures
        digit_run_end(s, i) == j,
    decreases j - i,
{
    if i < j {
        lemma_digit_run_end_eq(s, i + 1, j);
    }
}

/// The counterpart of `lemma_digit_run_end_eq` for alphabetic runs.
proof fn lemma_alpha_run_end_eq(s: Seq<char>, i: int, j: int)
    requires
        0 <= i <= j <= s.len(),
        forall|k: int| i <= k < j ==> is_alpha_char(s[k]),
        j < s.len() ==> !is_alpha_char(s[j]),
    ensures
        alpha_run_end(s, i) == j,
    decreases j - i,
{
    if i < j {
        lemma_alpha_run_end_eq(s, i + 1, j);
    }
}

// ---------------------------------------------------------------------------
// The scan, as a recursive specification over the remaining text
// ---------------------------------------------------------------------------

/// The token sequence lexed from `s` starting at position `i`, or the first
/// offending lexeme at or after `i`.
pub open spec fn lex_from(s: Seq<char>, i: int) -> Result<Seq<TokenView>, Seq<char>>
    recommends
        0 <= i <= s.len(),
    decreases s.len() - i when 0 <= i <= s.len()
    via lex_from_decreases
{
    if i >= s.len() {
        Ok(seq![TokenView::Eof])
    } else if is_space_char(s[i]) {
        lex_from(s, i + 1)
    } else if is_digit_char(s[i]) {
        let run = s.subrange(i, digit_run_end(s, i));
        if digits_val(run) <= i32::MAX as nat {
            match lex_from(s, digit_run_end(s, i)) {
                Ok(rest) => Ok(seq![TokenView::Number(digits_val(run) as int)] + rest),
                Err(e) => Err(e),
            }
        } else {
            Err(run)
        }
    } else if is_alpha_char(s[i]) {
        let run = s.subrange(i, alpha_run_end(s, i));
        let tok = if run == keyword_let() {
            TokenView::Let
        } else {
            TokenView::Identifier(run)
        };
        match lex_from(s, alpha_run_end(s, i)) {
            Ok(rest) => Ok(seq![tok] + rest),
            Err(e) => Err(e),
        }
    } else {
        match punct_token(s[i]) {
            Some(t) => match lex_from(s, i + 1) {
                Ok(rest) => Ok(seq![t] + rest),
                Err(e) => Err(e),
            },
            None => Err(seq![s[i]]),
        }
    }
}

#[via_fn]
proof fn lex_from_decreases(s: Seq<char>, i: int) {
    if 0 <= i < s.len() {
        lemma_digit_run_end(s, i);
        lemma_alpha_run_end(s, i);
    }
}

/// The token sequence lexed from the whole of `s`, or the first offending
/// lexeme.
pub open spec fn lex(s: Seq<char>) -> Result<Seq<TokenView>, Seq<char>> {
    lex_from(s, 0)
}

/// The views of a sequence of tokens.
pub open spec fn views_of(tokens: Seq<Token>) -> Seq<TokenView> {
    tokens.map_values(|t: Token| t@)
}

/// Tokens already emitted, placed before the outcome of the rest of the scan.
pub open spec fn prepend(prefix: Seq<TokenView>, r: Result<Seq<TokenView>, Seq<char>>) -> Result<
    Seq<TokenView>,
    Seq<char>,
> {
    match r {
        Ok(rest) => Ok(prefix + rest),
        Err(e) => Err(e),
    }
}

proof fn lemma_prepend_prepend(
    a: Seq<TokenView>,
    b: Seq<TokenView>,
    r: Result<Seq<TokenView>, Seq<char>>,
)
    ensures
        prepend(a, prepend(b, r)) == prepend(a + b, r),
{
    match r {
        Ok(rest) => {
            assert(a + (b + rest) =~= (a + b) + rest);
        },
        Err(_) => {},
    }
}

// ---------------------------------------------------------------------------
// Laws of the scan
// ---------------------------------------------------------------------------

proof fn lemma_lex_from_single_eof(s: Seq<char>, i: int)
    requires
        0 <= i <= s.len(),
        lex_from(s, i) is Ok,
    ensures
        ({
            let ts = lex_from(s, i)->Ok_0;
            &&& ts.len() >= 1
            &&& ts.last() == TokenView::Eof
            &&& forall|k: int| 0 <= k < ts.len() - 1 ==> ts[k] != TokenView::Eof
        }),
    decreases s.len() - i,
{
    let ts = lex_from(s, i)->Ok_0;
    if i >= s.len() {
    } else if is_space_char(s[i]) {
        lemma_lex_from_single_eof(s, i + 1);
    } else if is_digit_char(s[i]) {
        lemma_digit_run_end(s, i);
        lemma_lex_from_single_eof(s, digit_run_end(s, i));
        let rest = lex_from(s, digit_run_end(s, i))->Ok_0;
        assert(ts.last() == rest.last());
        assert(forall|k: int| 1 <= k < ts.len() - 1 ==> ts[k] == rest[k - 1]);
    } else if is_alpha_char(s[i]) {
        lemma_alpha_run_end(s, i);
        lemma_lex_from_single_eof(s, alpha_run_end(s, i));
        let rest = lex_from(s, alpha_run_end(s, i))->Ok_0;
        assert(ts.last() == rest.last());
        assert(forall|k: int| 1 <= k < ts.len() - 1 ==> ts[k] == rest[k - 1]);
    } else {
        lemma_lex_from_single_eof(s, i + 1);
        let rest = lex_from(s, i + 1)->Ok_0;
        assert(ts.last() == rest.last());
        assert(forall|k: int| 1 <= k < ts.len() - 1 ==> ts[k] == rest[k - 1]);
    }
}

/// Output sequence invariant: every successful scan yields a token sequence
/// that is nonempty, ends in `Eof`, and contains `Eof` nowhere else.
pub proof fn lemma_lex_single_eof(s: Seq<char>)
    requires
        lex(s) is Ok,
    ensures
        ({
            let ts = lex(s)->Ok_0;
            &&& ts.len() >= 1
            &&& ts.last() == TokenView::Eof
            &&& forall|k: int| 0 <= k < ts.len() - 1 ==> ts[k] != TokenView::Eof
        }),
{
    lemma_lex_from_single_eof(s, 0);
}

/// Round-trip for number literals: a nonempty string of ASCII digits whose
/// base-10 value fits a 32-bit signed integer lexes to exactly that number,
/// followed by `Eof`.
pub proof fn lemma_digit_string_round_trip(s: Seq<char>)
    requires
        s.len() >= 1,
        forall|k: int| 0 <= k < s.len() ==> is_digit_char(s[k]),
        digits_val(s) <= i32::MAX as nat,
    ensures
        lex(s) == Ok::<Seq<TokenView>, Seq<char>>(
            seq![TokenView::Number(digits_val(s) as int), TokenView::Eof],
        ),
{
    lemma_digit_run_end_eq(s, 0, s.len() as int);
    assert(s.subrange(0, s.len() as int) =~= s);
    assert(lex_from(s, s.len() as int) == Ok::<Seq<TokenView>, Seq<char>>(seq![TokenView::Eof]));
    assert(seq![TokenView::Number(digits_val(s) as int)] + seq![TokenView::Eof]
        =~= seq![TokenView::Number(digits_val(s) as int), TokenView::Eof]);
}

/// Determinism: `lex` is a pure function of the source text, so scanning
/// structurally equal inputs gives equal outcomes. The contract of
/// [`tokenize`] pins its result to `lex`, so two invocations on identical
/// text produce structurally equal token sequences, or equal error texts.
pub proof fn lemma_lex_deterministic(s1: Seq<char>, s2: Seq<char>)
    requires
        s1 =~= s2,
    ensures
        lex(s1) == lex(s2),
{
    assert(s1 == s2);
}

// ---------------------------------------------------------------------------
// Executable character classifiers
// ---------------------------------------------------------------------------

fn is_space(c: char) -> (r: bool)
    ensures
        r == is_space_char(c),
{
    c == ' ' || c == '\t' || c == '\n' || c == '\r' || c == '\x0c'
}

fn is_digit(c: char) -> (r: bool)
    ensures
        r == is_digit_char(c),
{
    let u = c as u32;
    ('0' as u32) <= u && u <= ('9' as u32)
}

fn is_alpha(c: char) -> (r: bool)
    ensures
        r == is_alpha_char(c),
{
    let u = c as u32;
    (('a' as u32) <= u && u <= ('z' as u32)) || (('A' as u32) <= u && u <= ('Z' as u32))
}

// ---------------------------------------------------------------------------
// Run conversion helpers
// ---------------------------------------------------------------------------

/// Parses the digit run `source[start..end]` as a base-10 32-bit signed
/// integer; `None` exactly when the value does not fit.
fn parse_number(source: &str, start: usize, end: usize) -> (r: Option<i32>)
    requires
        start <= end <= source@.len(),
        forall|k: int| start <= k < end ==> is_digit_char(source@[k]),
    ensures
        match r {
            Some(v) => {
                &&& digits_val(source@.subrange(start as int, end as int)) <= i32::MAX as nat
                &&& v >= 0
                &&& v as int == digits_val(source@.subrange(start as int, end as int)) as int
            },
            None => digits_val(source@.subrange(start as int, end as int)) > i32::MAX as nat,
        },
{
    let mut acc: u64 = 0;
    let mut overflow = false;
    let mut k = start;
    while k < end
        invariant
            start <= k <= end <= source@.len(),
            forall|t: int| start <= t < end ==> is_digit_char(source@[t]),
            !overflow ==> {
                &&& acc as nat == digits_val(source@.subrange(start as int, k as int))
                &&& acc <= i32::MAX as u64
            },
            overflow ==> digits_val(source@.subrange(start as int, k as int)) > i32::MAX as nat,
        decreases end - k,
    {
        let c = source.get_char(k);
        let d: u32 = (c as u32) - ('0' as u32);
        proof {
            assert(source@.subrange(start as int, k + 1).drop_last() =~= source@.subrange(
                start as int,
                k as int,
            ));
            assert(source@.subrange(start as int, k + 1).last() == source@[k as int]);
        }
        if !overflow {
            let next: u64 = acc * 10 + (d as u64);
            if next > (i32::MAX as u64) {
                overflow = true;
            } else {
                acc = next;
            }
        }
        k = k + 1;
    }
    if overflow {
        None
    } else {
        Some(acc as i32)
    }
}

/// Decides whether the run `source[start..end]` is exactly the reserved word
/// `let`.
fn is_keyword_let(source: &str, start: usize, end: usize) -> (r: bool)
    requires
        start <= end <= source@.len(),
    ensures
        r == (source@.subrange(start as int, end as int) == keyword_let()),
{
    let ghost run = source@.subrange(start as int, end as int);
    if end - start == 3 {
        let c0 = source.get_char(start);
        let c1 = source.get_char(start + 1);
        let c2 = source.get_char(start + 2);
        let r = c0 == 'l' && c1 == 'e' && c2 == 't';
        proof {
            if r {
                assert(run =~= keyword_let());
            } else {
                assert(run[0] == c0 && run[1] == c1 && run[2] == c2);
                assert(keyword_let()[0] == 'l' && keyword_let()[1] == 'e' && keyword_let()[2]
                    == 't');
            }
        }
        r
    } else {
        proof {
            assert(run.len() != keyword_let().len());
        }
        false
    }
}

// ---------------------------------------------------------------------------
// The scanner
// ---------------------------------------------------------------------------

/// Converts source text into the ordered token sequence ending in `Eof` that
/// [`lex`] assigns to it, or reports the first offending lexeme as a
/// [`SyntaxError`].
pub fn tokenize(source: &str) -> (r: Result<Vec<Token>, SyntaxError>)
    ensures
        match r {
            Ok(tokens) => {
                &&& lex(source@) is Ok
                &&& views_of(tokens@) == lex(source@)->Ok_0
            },
            Err(e) => {
                &&& lex(source@) is Err
                &&& e@ == lex(source@)->Err_0
            },
        },
{
    let ghost s = source@;
    let n = source.unicode_len();
    let mut tokens: Vec<Token> = Vec::new();
    let mut i: usize = 0;
    proof {
        assert(views_of(tokens@) =~= Seq::<TokenView>::empty());
        match lex_from(s, 0) {
            Ok(rest) => {
                assert(Seq::<TokenView>::empty() + rest =~= rest);
            },
            Err(_) => {},
        }
    }
    while i < n
        invariant
            s == source@,
            n == s.len(),
            i <= n,
            lex(s) == prepend(views_of(tokens@), lex_from(s, i as int)),
        decreases n - i,
    {
        let ghost i0 = i as int;
        let ghost pre = tokens@;
        let c = source.get_char(i);
        if is_space(c) {
            i = i + 1;
        } else if is_digit(c) {
            let start = i;
            let mut j = i + 1;
            while j < n && is_digit(source.get_char(j))
                invariant
                    s == source@,
                    n == s.len(),
                    start < j <= n,
                    forall|k: int| start <= k < j ==> is_digit_char(s[k]),
                decreases n - j,
            {
                j = j + 1;
            }
            proof {
                lemma_digit_run_end_eq(s, i0, j as int);
            }
            match parse_number(source, start, j) {
                Some(v) => {
                    tokens.push(Token::Number(v));
                    proof {
                        let tv = TokenView::Number(v as int);
                        assert(lex_from(s, i0) == prepend(seq![tv], lex_from(s, j as int)));
                        lemma_prepend_prepend(views_of(pre), seq![tv], lex_from(s, j as int));
                        assert(views_of(tokens@) =~= views_of(pre) + seq![tv]);
                    }
                    i = j;
                },
                None => {
                    let run = source.substring_char(start, j);
                    return Err(SyntaxError { offending: run.to_owned() });
                },
            }
        } else if is_alpha(c) {
            let start = i;
            let mut j = i + 1;
            while j < n && is_alpha(source.get_char(j))
                invariant
                    s == source@,
                    n == s.len(),
                    start < j <= n,
                    forall|k: int| start <= k < j ==> is_alpha_char(s[k]),
                decreases n - j,
            {
                j = j + 1;
            }
            proof {
                lemma_alpha_run_end_eq(s, i0, j as int);
            }
            let tok = if is_keyword_let(source, start, j) {
                Token::Let
            } else {
                let run = source.substring_char(start, j);
                Token::Identifier(run.to_owned())
            };
            proof {
                let tv = tok@;
                assert(lex_from(s, i0) == prepend(seq![tv], lex_from(s, j as int)));
                lemma_prepend_prepend(views_of(pre), seq![tv], lex_from(s, j as int));
                assert(views_of(pre.push(tok)) =~= views_of(pre) + seq![tv]);
            }
            tokens.push(tok);
            i = j;
        } else {
            match Token::try_from_char(c) {
                Some(t) => {
                    proof {
                        let tv = t@;
                        assert(lex_from(s, i0) == prepend(seq![tv], lex_from(s, i0 + 1)));
                        lemma_prepend_prepend(views_of(pre), seq![tv], lex_from(s, i0 + 1));
                        assert(views_of(pre.push(t)) =~= views_of(pre) + seq![tv]);
                    }
                    tokens.push(t);
                    i = i + 1;
                },
                None => {
                    let run = source.substring_char(i, i + 1);
                    proof {
                        assert(s.subrange(i0, i0 + 1) =~= seq![s[i0]]);
                    }
                    return Err(SyntaxError { offending: run.to_owned() });
                },
            }
        }
    }
    let ghost pre = tokens@;
    tokens.push(Token::Eof);
    proof {
        assert(views_of(tokens@) =~= views_of(pre) + seq![TokenView::Eof]);
    }
    Ok(tokens)
}

} // verus!
