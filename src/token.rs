use vstd::prelude::*;

use crate::array::Error;
use vstd::string::StrSliceExecFns;

verus! {

/// A lexical token of one input line.
#[derive(Debug, PartialEq, Eq)]
pub enum Token {
    Number(i64),
    Variable(String),
    Verb(char),
}

/// Mathematical model of a token.
pub enum Tok {
    Num(i64),
    Var(Seq<char>),
    Verb(char),
}

impl View for Token {
    type V = Tok;

    open spec fn view(&self) -> Tok {
        match self {
            Token::Number(n) => Tok::Num(*n),
            Token::Variable(s) => Tok::Var(s@),
            Token::Verb(c) => Tok::Verb(*c),
        }
    }
}

/// The models of a sequence of tokens.
pub open spec fn toks(v: Seq<Token>) -> Seq<Tok> {
    v.map_values(|t: Token| t@)
}

pub open spec fn is_digit(c: char) -> bool {
    '0' <= c <= '9'
}

pub open spec fn is_lower(c: char) -> bool {
    'a' <= c <= 'z'
}

/// The verb symbols.
pub open spec fn is_verb(c: char) -> bool {
    c == '+' || c == '{' || c == '~' || c == '<' || c == '#' || c == ',' || c == '='
}

/// Digits where `digits` holds, lowercase letters otherwise.
pub open spec fn in_class(c: char, digits: bool) -> bool {
    if digits {
        is_digit(c)
    } else {
        is_lower(c)
    }
}

/// Length of the longest prefix of `s` in the class.
pub open spec fn run(s: Seq<char>, digits: bool) -> nat
    decreases s.len(),
{
    if s.len() > 0 && in_class(s[0], digits) {
        1 + run(s.drop_first(), digits)
    } else {
        0
    }
}

/// Decimal value of a sequence of digits.
pub open spec fn dec_val(s: Seq<char>) -> int
    decreases s.len(),
{
    if s.len() == 0 {
        0
    } else {
        dec_val(s.drop_last()) * 10 + (s.last() as u32 - '0' as u32)
    }
}

/// `t` in front of every token list that `r` holds; an error passes through.
pub open spec fn prepend(t: Tok, r: Result<Seq<Tok>, Error>) -> Result<Seq<Tok>, Error> {
    match r {
        Ok(rest) => Ok(seq![t] + rest),
        Err(e) => Err(e),
    }
}

/// The tokens of a line: maximal runs of digits and of lowercase letters, and single
/// verb symbols; the first other character fails the whole line.
pub open spec fn lex(s: Seq<char>) -> Result<Seq<Tok>, Error>
    decreases s.len(),
    via lex_decreases
{
    if s.len() == 0 {
        Ok(seq![])
    } else if is_digit(s[0]) {
        let k = run(s, true);
        let v = dec_val(s.take(k as int));
        if v > i64::MAX {
            Err(Error::TooLarge)
        } else {
            prepend(Tok::Num(v as i64), lex(s.skip(k as int)))
        }
    } else if is_lower(s[0]) {
        let k = run(s, false);
        prepend(Tok::Var(s.take(k as int)), lex(s.skip(k as int)))
    } else if is_verb(s[0]) {
        prepend(Tok::Verb(s[0]), lex(s.skip(1)))
    } else {
        Err(Error::Lex(s[0]))
    }
}

pub proof fn lemma_run_le(s: Seq<char>, digits: bool)
    ensures
        run(s, digits) <= s.len(),
    decreases s.len(),
{
    if s.len() > 0 && in_class(s[0], digits) {
        lemma_run_le(s.drop_first(), digits);
    }
}

#[via_fn]
proof fn lex_decreases(s: Seq<char>) {
    lemma_run_le(s, true);
    lemma_run_le(s, false);
}


pub proof fn lemma_run_exact(t: Seq<char>, m: int, digits: bool)
    requires
        0 <= m <= t.len(),
        forall|k: int| 0 <= k < m ==> in_class(#[trigger] t[k], digits),
        m == t.len() || !in_class(t[m], digits),
    ensures
        run(t, digits) == m,
    decreases m,
{
    if m > 0 {
        lemma_run_exact(t.drop_first(), m - 1, digits);
    }
}

pub proof fn lemma_dec_prefix_le(t: Seq<char>, m: int)
    requires
        0 <= m <= t.len(),
        forall|k: int| 0 <= k < t.len() ==> is_digit(#[trigger] t[k]),
    ensures
        0 <= dec_val(t.take(m)) <= dec_val(t),
    decreases t.len(),
{
    if m == t.len() {
        assert(t.take(m) =~= t);
        if t.len() > 0 {
            lemma_dec_prefix_le(t.drop_last(), m - 1);
            assert(t.drop_last().take(m - 1) =~= t.drop_last());
        }
    } else {
        lemma_dec_prefix_le(t.drop_last(), m);
        assert(t.drop_last().take(m) =~= t.take(m));
        lemma_dec_prefix_le(t.drop_last(), t.len() - 1);
        assert(t.drop_last().take(t.len() - 1) =~= t.drop_last());
    }
}

/// The token list `p` in front of every token list that `r` holds.
pub open spec fn join(p: Seq<Tok>, r: Result<Seq<Tok>, Error>) -> Result<Seq<Tok>, Error> {
    match r {
        Ok(rest) => Ok(p + rest),
        Err(e) => Err(e),
    }
}

/// The model of a tokenizer result.
pub open spec fn tok_res(r: Result<Vec<Token>, Error>) -> Result<Seq<Tok>, Error> {
    match r {
        Ok(v) => Ok(toks(v@)),
        Err(e) => Err(e),
    }
}

pub proof fn lemma_join_prepend(p: Seq<Tok>, t: Tok, r: Result<Seq<Tok>, Error>)
    ensures
        join(p.push(t), r) == join(p, prepend(t, r)),
{
    match r {
        Ok(rest) => {
            assert(p.push(t) + rest =~= p + (seq![t] + rest));
        },
        Err(e) => {},
    }
}

/// End of the run of the class that starts at `i`.
fn run_end(s: &str, n: usize, i: usize, digits: bool) -> (j: usize)
    requires
        n == s@.len(),
        i <= n,
    ensures
        i <= j <= n,
        j - i == run(s@.skip(i as int), digits),
        forall|k: int| i <= k < j ==> in_class(#[trigger] s@[k], digits),
{
    let mut j: usize = i;
    loop
        invariant
            i <= j <= n,
            n == s@.len(),
            forall|k: int| i <= k < j ==> in_class(#[trigger] s@[k], digits),
        ensures
            i <= j <= n,
            forall|k: int| i <= k < j ==> in_class(#[trigger] s@[k], digits),
            j == n || !in_class(s@[j as int], digits),
        decreases n - j,
    {
        if j >= n {
            break;
        }
        let c = s.get_char(j);
        let inside = if digits {
            '0' <= c && c <= '9'
        } else {
            'a' <= c && c <= 'z'
        };
        if !inside {
            break;
        }
        j += 1;
    }
    proof {
        let t = s@.skip(i as int);
        assert forall|k: int| 0 <= k < j - i implies in_class(#[trigger] t[k], digits) by {
            assert(t[k] == s@[i + k]);
        }
        lemma_run_exact(t, j - i, digits);
    }
    j
}

/// Decimal value of the digits `s[i..j]`, or `None` where it exceeds `i64::MAX`.
fn digits_value(s: &str, i: usize, j: usize) -> (r: Option<i64>)
    requires
        i <= j <= s@.len(),
        forall|k: int| i <= k < j ==> is_digit(#[trigger] s@[k]),
    ensures
        r == (if dec_val(s@.subrange(i as int, j as int)) <= i64::MAX {
            Some(dec_val(s@.subrange(i as int, j as int)) as i64)
        } else {
            None
        }),
{
    let ghost t = s@.subrange(i as int, j as int);
    let mut acc: i64 = 0;
    let mut m: usize = i;
    assert(s@.subrange(i as int, i as int) =~= Seq::<char>::empty());
    while m < j
        invariant
            i <= m <= j,
            j <= s@.len(),
            t == s@.subrange(i as int, j as int),
            forall|k: int| i <= k < j ==> is_digit(#[trigger] s@[k]),
            acc == dec_val(s@.subrange(i as int, m as int)),
        decreases j - m,
    {
        let c = s.get_char(m);
        let d = (c as u32 - '0' as u32) as i64;
        let ghost next = s@.subrange(i as int, m + 1);
        proof {
            assert(next.drop_last() =~= s@.subrange(i as int, m as int));
            assert forall|k: int| 0 <= k < t.len() implies is_digit(#[trigger] t[k]) by {
                assert(t[k] == s@[i + k]);
            }
            assert(t.take(m + 1 - i) =~= next);
            lemma_dec_prefix_le(t, m + 1 - i);
            lemma_dec_prefix_le(t, m - i);
            assert(t.take(m - i) =~= s@.subrange(i as int, m as int));
        }
        match acc.checked_mul(10) {
            Some(x) => match x.checked_add(d) {
                Some(y) => {
                    acc = y;
                },
                None => {
                    return None;
                },
            },
            None => {
                return None;
            },
        }
        m += 1;
    }
    assert(s@.subrange(i as int, m as int) =~= t);
    Some(acc)
}

/// Splits a line into tokens.
pub fn parse(s: &str) -> (r: Result<Vec<Token>, Error>)
    ensures
        tok_res(r) == lex(s@),
{
    let n = s.unicode_len();
    let mut out: Vec<Token> = Vec::new();
    let mut i: usize = 0;
    assert(s@.skip(0) =~= s@);
    assert(toks(out@) + Seq::<Tok>::empty() =~= Seq::<Tok>::empty());
    while i < n
        invariant
            i <= n,
            n == s@.len(),
            join(toks(out@), lex(s@.skip(i as int))) == lex(s@),
        decreases n - i,
    {
        let c = s.get_char(i);
        let ghost rest = s@.skip(i as int);
        assert(rest[0] == c);
        if '0' <= c && c <= '9' {
            let j = run_end(s, n, i, true);
            assert(rest.take(j - i) =~= s@.subrange(i as int, j as int));
            assert(rest.skip(j - i) =~= s@.skip(j as int));
            match digits_value(s, i, j) {
                Some(v) => {
                    proof {
                        lemma_join_prepend(toks(out@), Tok::Num(v), lex(s@.skip(j as int)));
                    }
                    let ghost before = out@;
            out.push(Token::Number(v));
                    assert(toks(out@) =~= toks(before).push(Tok::Num(v)));
                    i = j;
                },
                None => {
                    return Err(Error::TooLarge);
                },
            }
        } else if 'a' <= c && c <= 'z' {
            let j = run_end(s, n, i, false);
            assert(rest.take(j - i) =~= s@.subrange(i as int, j as int));
            assert(rest.skip(j - i) =~= s@.skip(j as int));
            let name = s.substring_char(i, j).to_owned();
            let ghost t = Tok::Var(name@);
            proof {
                lemma_join_prepend(toks(out@), t, lex(s@.skip(j as int)));
            }
            let ghost before = out@;
            out.push(Token::Variable(name));
            assert(toks(out@) =~= toks(before).push(t));
            i = j;
        } else if c == '+' || c == '{' || c == '~' || c == '<' || c == '#' || c == ',' || c == '=' {
            assert(rest.skip(1) =~= s@.skip(i + 1));
            proof {
                lemma_join_prepend(toks(out@), Tok::Verb(c), lex(s@.skip(i + 1)));
            }
            let ghost before = out@;
            out.push(Token::Verb(c));
            assert(toks(out@) =~= toks(before).push(Tok::Verb(c)));
            i += 1;
        } else {
            return Err(Error::Lex(c));
        }
    }
    assert(s@.skip(i as int) =~= Seq::<char>::empty());
    assert(toks(out@) + Seq::<Tok>::empty() =~= toks(out@));
    Ok(out)
}

} // verus!
