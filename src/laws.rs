use vstd::prelude::*;

use crate::array::{elem_at, num, scalar, Item, Val};
use crate::eval::{eval_spec, monad_spec, then_apply};
use crate::token::Tok;
use crate::verbs::{dims, reshape_spec, shape_spec};

verus! {

/// Monadic `+` leaves every array as it is, and so a line that starts with `+`
/// evaluates exactly as the rest of the line does.
pub proof fn law_identity(x: Val, ts: Seq<Tok>, env: Map<Seq<char>, Val>)
    ensures
        monad_spec('+', x) == Ok::<Val, crate::array::Error>(x),
        eval_spec(seq![Tok::Verb('+')] + ts, env) == eval_spec(ts, env),
{
    let line = seq![Tok::Verb('+')] + ts;
    assert(line.skip(1) =~= ts);
    let (r, e2) = eval_spec(ts, env);
    assert(then_apply(r, |v: Val| monad_spec('+', v)) == r);
}

/// The shape of a reshape result lists the flat numbers of the shape source:
/// as many as it has items, each equal to the number at that position.
pub proof fn law_shape_of_reshape(a: Val, b: Val)
    requires
        reshape_spec(a, b) is Ok,
    ensures
        ({
            let s = shape_spec(reshape_spec(a, b)->Ok_0);
            &&& s.items.len() == a.items.len()
            &&& forall|i: int| 0 <= i < a.items.len() ==> #[trigger] elem_at(s, i) == elem_at(a, i)
        }),
{
    let s = shape_spec(reshape_spec(a, b)->Ok_0);
    assert(s.items.len() == dims(a).len());
    assert forall|i: int| 0 <= i < a.items.len() implies #[trigger] elem_at(s, i) == elem_at(a, i) by {
        assert(s.items[i] == Item::Num(dims(a)[i]));
        assert(dims(a)[i] == num(a.items[i]));
    }
}

/// Reading an unbound variable yields the scalar 0 and binds it; a second read
/// yields the same value and leaves the bindings as they are.
pub proof fn law_auto_vivify(k: Seq<char>, env: Map<Seq<char>, Val>)
    requires
        !env.contains_key(k),
    ensures
        ({
            let (r1, e1) = eval_spec(seq![Tok::Var(k)], env);
            let (r2, e2) = eval_spec(seq![Tok::Var(k)], e1);
            &&& r1 == Ok::<Val, crate::array::Error>(scalar(0))
            &&& e1.contains_key(k)
            &&& e1[k] == scalar(0)
            &&& r2 == r1
            &&& e2 == e1
        }),
{
    let (r1, e1) = eval_spec(seq![Tok::Var(k)], env);
    assert(e1 == env.insert(k, scalar(0)));
    assert(e1.insert(k, scalar(0)) =~= e1);
}

} // verus!
