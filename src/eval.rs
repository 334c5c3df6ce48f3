use vstd::prelude::*;

use crate::array::{array_from_i64, res_val, scalar, Array, Error, Val};
use crate::env::Env;
use crate::token::{toks, Tok, Token};
use crate::verbs::{
    box_spec, boxing, cat, cat_spec, from, id, iota, iota_spec, plus, plus_spec, reshape_spec,
    rsh, select_spec, sha, shape_spec, size, size_spec,
};

verus! {

/// The monadic meaning of a verb symbol.
pub open spec fn monad_spec(c: char, x: Val) -> Result<Val, Error> {
    if c == '+' {
        Ok(x)
    } else if c == '{' {
        size_spec(x)
    } else if c == '~' {
        iota_spec(x)
    } else if c == '<' {
        Ok(box_spec(x))
    } else if c == '#' {
        Ok(shape_spec(x))
    } else {
        Err(Error::UnknownVerb(c, false))
    }
}

/// The dyadic meaning of a verb symbol.
pub open spec fn dyad_spec(c: char, a: Val, b: Val) -> Result<Val, Error> {
    if c == '+' {
        Ok(plus_spec(a, b))
    } else if c == '{' {
        select_spec(a, b)
    } else if c == '#' {
        reshape_spec(a, b)
    } else if c == ',' {
        cat_spec(a, b)
    } else {
        Err(Error::UnknownVerb(c, true))
    }
}

/// The value a variable reads as: its binding, or the scalar 0 where it has none.
pub open spec fn read_var(env: Map<Seq<char>, Val>, k: Seq<char>) -> Val {
    if env.contains_key(k) {
        env[k]
    } else {
        scalar(0)
    }
}

/// The value of a leading atom and the bindings after reading it.
pub open spec fn atom_spec(t: Tok, env: Map<Seq<char>, Val>) -> (Val, Map<Seq<char>, Val>) {
    match t {
        Tok::Num(n) => (scalar(n), env),
        Tok::Var(k) => (read_var(env, k), env.insert(k, read_var(env, k))),
        Tok::Verb(_) => (scalar(0), env),
    }
}

/// `f` applied to the value of a successful evaluation; an error passes through.
pub open spec fn then_apply(r: Result<Val, Error>, f: spec_fn(Val) -> Result<Val, Error>) -> Result<
    Val,
    Error,
> {
    match r {
        Ok(v) => f(v),
        Err(e) => Err(e),
    }
}

/// Right-to-left evaluation of a token sequence: the result and the bindings after it.
pub open spec fn eval_spec(ts: Seq<Tok>, env: Map<Seq<char>, Val>) -> (
    Result<Val, Error>,
    Map<Seq<char>, Val>,
)
    decreases ts.len(),
{
    if ts.len() == 0 {
        (Ok(scalar(0)), env)
    } else if ts[0] is Var && ts.len() > 1 && ts[1] == Tok::Verb('=') {
        let (r, e2) = eval_spec(ts.skip(2), env);
        match r {
            Ok(v) => (Ok(v), e2.insert(ts[0]->Var_0, v)),
            Err(e) => (Err(e), e2),
        }
    } else if ts[0] is Verb {
        let (r, e2) = eval_spec(ts.skip(1), env);
        (then_apply(r, |x: Val| monad_spec(ts[0]->Verb_0, x)), e2)
    } else {
        let (a, e1) = atom_spec(ts[0], env);
        if ts.len() > 1 && ts[1] is Verb {
            let (r, e2) = eval_spec(ts.skip(2), e1);
            (then_apply(r, |b: Val| dyad_spec(ts[1]->Verb_0, a, b)), e2)
        } else {
            (Ok(a), e1)
        }
    }
}

fn monad(c: char, x: Array) -> (r: Result<Array, Error>)
    requires
        x.wf(),
    ensures
        res_val(r) == monad_spec(c, x@),
        r matches Ok(y) ==> y.wf(),
{
    if c == '+' {
        Ok(id(x))
    } else if c == '{' {
        size(x)
    } else if c == '~' {
        iota(x)
    } else if c == '<' {
        Ok(boxing(x))
    } else if c == '#' {
        Ok(sha(x))
    } else {
        Err(Error::UnknownVerb(c, false))
    }
}

fn dyad(c: char, a: Array, b: Array) -> (r: Result<Array, Error>)
    requires
        a.wf(),
        b.wf(),
    ensures
        res_val(r) == dyad_spec(c, a@, b@),
        r matches Ok(y) ==> y.wf(),
{
    if c == '+' {
        Ok(plus(a, b))
    } else if c == '{' {
        from(a, b)
    } else if c == '#' {
        rsh(a, b)
    } else if c == ',' {
        cat(a, b)
    } else {
        Err(Error::UnknownVerb(c, true))
    }
}

fn eval_from(tokens: &[Token], i: usize, env: &mut Env) -> (r: Result<Array, Error>)
    requires
        i <= tokens@.len(),
        old(env).wf(),
    ensures
        final(env).wf(),
        r matches Ok(x) ==> x.wf(),
        (res_val(r), final(env)@) == eval_spec(toks(tokens@).skip(i as int), old(env)@),
    decreases tokens@.len() - i,
{
    let ghost ts = toks(tokens@).skip(i as int);
    if i >= tokens.len() {
        return Ok(array_from_i64(0));
    }
    assert(ts[0] == tokens@[i as int]@);
    let next_is_verb = i + 1 < tokens.len() && match &tokens[i + 1] {
        Token::Verb(_) => true,
        _ => false,
    };
    if i + 1 < tokens.len() {
        assert(ts[1] == tokens@[i + 1]@);
    }
    assert(toks(tokens@).skip(i + 1) =~= ts.skip(1));
    if i + 1 < tokens.len() {
        assert(toks(tokens@).skip(i + 2) =~= ts.skip(2));
    }
    match &tokens[i] {
        Token::Verb(c) => {
            let x = eval_from(tokens, i + 1, env)?;
            monad(*c, x)
        },
        Token::Variable(name) => {
            let assign = i + 1 < tokens.len() && match &tokens[i + 1] {
                Token::Verb(v) => *v == '=',
                _ => false,
            };
            if assign {
                let v = eval_from(tokens, i + 2, env)?;
                let out = v.copy();
                env.bind(name, v);
                Ok(out)
            } else {
                let a = env.fetch(name);
                if next_is_verb {
                    let c = match &tokens[i + 1] {
                        Token::Verb(c) => *c,
                        _ => ' ',
                    };
                    let b = eval_from(tokens, i + 2, env)?;
                    dyad(c, a, b)
                } else {
                    Ok(a)
                }
            }
        },
        Token::Number(n) => {
            let a = array_from_i64(*n);
            if next_is_verb {
                let c = match &tokens[i + 1] {
                    Token::Verb(c) => *c,
                    _ => ' ',
                };
                let b = eval_from(tokens, i + 2, env)?;
                dyad(c, a, b)
            } else {
                Ok(a)
            }
        },
    }
}

/// Evaluates a line of tokens against the bindings, which assignments and reads of
/// unbound names change.
pub fn eval(tokens: &[Token], env: &mut Env) -> (r: Result<Array, Error>)
    requires
        old(env).wf(),
    ensures
        final(env).wf(),
        r matches Ok(x) ==> x.wf(),
        (res_val(r), final(env)@) == eval_spec(toks(tokens@), old(env)@),
{
    assert(toks(tokens@).skip(0) =~= toks(tokens@));
    eval_from(tokens, 0, env)
}

} // verus!
