use vstd::prelude::*;

use crate::array::{
    array_from_i64, at, elem_at, elem_val, lemma_items, lemma_prod_first, lemma_prod_nonneg,
    lemma_prod_single, num, nums, prod, res_val, scalar, tr, Array, Element, Error, Item, Val,
};

verus! {

/// Whether a count cannot be held as both an `i64` and a `usize`.
pub open spec fn too_large(n: int) -> bool {
    n > i64::MAX || n > usize::MAX
}

/// Monadic `{`: 1 for an unboxed array; for a boxed one the count of its boxed
/// elements, which is its first axis, or for a single box without axes the first
/// axis of the payload.
pub open spec fn size_spec(v: Val) -> Result<Val, Error> {
    if !v.boxed {
        Ok(scalar(1))
    } else if v.shape.len() > 0 {
        Ok(scalar(v.shape[0]))
    } else if v.items.len() > 0 && v.items[0] is Nest && v.items[0]->Nest_0.shape.len() > 0 {
        Ok(scalar(v.items[0]->Nest_0.shape[0]))
    } else {
        Err(Error::Domain('{'))
    }
}

/// Monadic `~`: the numbers `0..n` for a scalar operand holding the number `n >= 0`.
pub open spec fn iota_spec(v: Val) -> Result<Val, Error> {
    let n = elem_at(v, 0);
    if v.shape.len() != 0 || v.items.len() == 0 || !(v.items[0] is Num) || n < 0 {
        Err(Error::Domain('~'))
    } else if too_large(n as int) {
        Err(Error::TooLarge)
    } else {
        Ok(Val { boxed: false, shape: seq![n], items: Seq::new(n as nat, |i: int| Item::Num(i as i64)) })
    }
}

/// Monadic `<`: the operand wrapped as the single element of a boxed array.
pub open spec fn box_spec(v: Val) -> Val {
    Val { boxed: true, shape: seq![], items: seq![Item::Nest(v)] }
}

/// Monadic `#`: the shape of the operand as a rank-1 array.
pub open spec fn shape_spec(v: Val) -> Val {
    Val { boxed: false, shape: seq![v.shape.len() as i64], items: nums(v.shape) }
}

/// Dyadic `+`: `b`'s shape, each position the wrapping sum of both operands there.
pub open spec fn plus_spec(a: Val, b: Val) -> Val {
    Val {
        boxed: false,
        shape: b.shape,
        items: Seq::new(
            b.items.len(),
            |i: int| Item::Num(elem_at(a, i).wrapping_add(elem_at(b, i))),
        ),
    }
}

/// Dyadic `,`: the items of `a` followed by those of `b`, as a rank-1 array.
pub open spec fn cat_spec(a: Val, b: Val) -> Result<Val, Error> {
    let n = (a.items.len() + b.items.len()) as int;
    if too_large(n) {
        Err(Error::TooLarge)
    } else {
        Ok(Val { boxed: b.boxed, shape: seq![n as i64], items: a.items + b.items })
    }
}

/// Monadic `+`: the operand itself.
pub fn id(a: Array) -> (r: Array)
    ensures
        r == a,
{
    a
}

/// Monadic `{`.
pub fn size(a: Array) -> (r: Result<Array, Error>)
    ensures
        res_val(r) == size_spec(a@),
        r matches Ok(x) ==> x.wf(),
{
    proof {
        lemma_items(a);
    }
    if !a.boxed {
        return Ok(array_from_i64(1));
    }
    if a.depth.len() > 0 {
        return Ok(array_from_i64(a.depth[0]));
    }
    if a.data.len() > 0 {
        match &a.data[0] {
            Element::Array(p) => {
                if p.depth.len() > 0 {
                    return Ok(array_from_i64(p.depth[0]));
                }
            },
            Element::Number(_) => {},
        }
    }
    Err(Error::Domain('{'))
}

/// Monadic `~`.
pub fn iota(a: Array) -> (r: Result<Array, Error>)
    ensures
        res_val(r) == iota_spec(a@),
        r matches Ok(x) ==> x.wf(),
{
    proof {
        lemma_items(a);
    }
    if a.depth.len() != 0 || a.data.len() == 0 {
        return Err(Error::Domain('~'));
    }
    let n = match &a.data[0] {
        Element::Number(n) => *n,
        Element::Array(_) => {
            return Err(Error::Domain('~'));
        },
    };
    if n < 0 {
        return Err(Error::Domain('~'));
    }
    if n as u64 > usize::MAX as u64 {
        return Err(Error::TooLarge);
    }
    let mut data: Vec<Element> = Vec::new();
    let mut i: i64 = 0;
    while i < n
        invariant
            0 <= i <= n,
            data@.len() == i,
            forall|j: int| 0 <= j < i ==> elem_val(#[trigger] data@[j]) == Item::Num(j as i64),
        decreases n - i,
    {
        data.push(Element::Number(i));
        i += 1;
    }
    let r = Array { boxed: false, depth: vec![n], data };
    assert(r@.items =~= Seq::new(n as nat, |i: int| Item::Num(i as i64)));
    assert(r@.shape =~= seq![n]);
    proof {
        lemma_prod_single(n);
    }
    Ok(r)
}

/// Monadic `<`.
pub fn boxing(a: Array) -> (r: Array)
    ensures
        r@ == box_spec(a@),
        r.wf(),
{
    let ghost v = a@;
    let r = Array { boxed: true, depth: Vec::new(), data: vec![Element::Array(Box::new(a))] };
    assert(r@.items =~= seq![Item::Nest(v)]);
    assert(r@.shape =~= Seq::<i64>::empty());
    r
}

/// Monadic `#`.
pub fn sha(a: Array) -> (r: Array)
    requires
        a.wf(),
    ensures
        r@ == shape_spec(a@),
        r.wf(),
{
    let mut data: Vec<Element> = Vec::new();
    let mut i: usize = 0;
    while i < a.depth.len()
        invariant
            i <= a.depth@.len(),
            data@.len() == i,
            forall|j: int| 0 <= j < i ==> elem_val(#[trigger] data@[j]) == Item::Num(a.depth@[j]),
        decreases a.depth@.len() - i,
    {
        data.push(Element::Number(a.depth[i]));
        i += 1;
    }
    let r = Array { boxed: false, depth: vec![a.depth.len() as i64], data };
    assert(r@.items =~= nums(a@.shape));
    assert(r@.shape =~= seq![a.depth@.len() as i64]);
    proof {
        lemma_prod_single(a.depth@.len() as i64);
    }
    r
}

/// Dyadic `+`.
pub fn plus(a: Array, b: Array) -> (r: Array)
    requires
        b.wf(),
    ensures
        r@ == plus_spec(a@, b@),
        r.wf(),
{
    let mut data: Vec<Element> = Vec::new();
    let mut i: usize = 0;
    while i < b.data.len()
        invariant
            i <= b.data@.len(),
            b.data@.len() <= i64::MAX,
            data@.len() == i,
            forall|j: int|
                0 <= j < i ==> elem_val(#[trigger] data@[j]) == Item::Num(
                    elem_at(a@, j).wrapping_add(elem_at(b@, j)),
                ),
        decreases b.data@.len() - i,
    {
        let x = at(&a, i as i64);
        let y = at(&b, i as i64);
        data.push(Element::Number(x.wrapping_add(y)));
        i += 1;
    }
    let r = Array { boxed: false, depth: b.depth, data };
    assert(r@.items =~= plus_spec(a@, b@).items);
    r
}

/// Dyadic `,`.
pub fn cat(a: Array, b: Array) -> (r: Result<Array, Error>)
    ensures
        res_val(r) == cat_spec(a@, b@),
        r matches Ok(x) ==> x.wf(),
{
    let an = a.data.len();
    let bn = b.data.len();
    if an > usize::MAX - bn || (an + bn) as u64 > i64::MAX as u64 {
        return Err(Error::TooLarge);
    }
    let ghost av = a@;
    let ghost bv = b@;
    let n = an + bn;
    let mut data = a.data;
    let mut rest = b.data;
    data.append(&mut rest);
    let r = Array { boxed: b.boxed, depth: vec![n as i64], data };
    assert(r@.items =~= av.items + bv.items);
    assert(r@.shape =~= seq![n as i64]);
    proof {
        lemma_prod_single(n as i64);
    }
    Ok(r)
}


/// Dyadic `{`: the cell of `b` along its leading axis at index `a`; an index outside
/// that axis is a domain error unless the cells are empty.
pub open spec fn select_spec(a: Val, b: Val) -> Result<Val, Error> {
    if b.shape.len() == 0 {
        Err(Error::Domain('{'))
    } else {
        let n = prod(b.shape.drop_first());
        let k = elem_at(a, 0);
        if too_large(n) {
            Err(Error::TooLarge)
        } else if n > 0 && !(0 <= k < b.shape[0]) {
            Err(Error::Domain('{'))
        } else {
            Ok(
                Val {
                    boxed: b.boxed,
                    shape: b.shape.drop_first(),
                    items: Seq::new(n as nat, |i: int| b.items[k * n + i]),
                },
            )
        }
    }
}

/// The numbers of an array's items, read as the axes of a new shape.
pub open spec fn dims(v: Val) -> Seq<i64> {
    v.items.map_values(|it: Item| num(it))
}

/// Dyadic `#`: `b`'s items repeated cyclically to fill the shape given by `a`.
pub open spec fn reshape_spec(a: Val, b: Val) -> Result<Val, Error> {
    let d = dims(a);
    if exists|j: int| 0 <= j < d.len() && d[j] < 0 {
        Err(Error::Domain('#'))
    } else if too_large(prod(d)) {
        Err(Error::TooLarge)
    } else if prod(d) > 0 && b.items.len() == 0 {
        Err(Error::Domain('#'))
    } else {
        Ok(
            Val {
                boxed: b.boxed,
                shape: d,
                items: Seq::new(prod(d) as nat, |i: int| b.items[i % (b.items.len() as int)]),
            },
        )
    }
}

/// Dyadic `{`.
pub fn from(a: Array, b: Array) -> (r: Result<Array, Error>)
    requires
        b.wf(),
    ensures
        res_val(r) == select_spec(a@, b@),
        r matches Ok(x) ==> x.wf(),
{
    let ghost bv = b@;
    proof {
        lemma_items(b);
    }
    if b.depth.len() == 0 {
        return Err(Error::Domain('{'));
    }
    let ghost tail = bv.shape.drop_first();
    let rows = b.depth[0];
    let mut shape = b.depth;
    let rest = shape.split_off(1);
    assert(rest@ =~= tail);
    assert(rest@.take(rest@.len() as int) =~= tail);
    let n = match tr(rest.len(), rest.as_slice()) {
        Some(n) => n,
        None => {
            return Err(Error::TooLarge);
        },
    };
    proof {
        lemma_prod_first(bv.shape);
        lemma_prod_nonneg(tail);
    }
    if n as u64 > usize::MAX as u64 {
        return Err(Error::TooLarge);
    }
    let nu = n as usize;
    let k = at(&a, 0);
    if nu > 0 && !(0 <= k && k < rows) {
        return Err(Error::Domain('{'));
    }
    let blen = b.data.len();
    let mut data: Vec<Element> = Vec::new();
    let mut i: usize = 0;
    while i < nu
        invariant
            i <= nu,
            nu == n,
            blen == b.data@.len(),
            n == prod(tail),
            k == elem_at(a@, 0),
            rows == bv.shape[0],
            nu > 0 ==> 0 <= k < rows,
            bv.items.len() == rows * n,
            b.data@.len() == bv.items.len(),
            forall|j: int| 0 <= j < b.data@.len() ==> #[trigger] bv.items[j] == elem_val(b.data@[j]),
            data@.len() == i,
            forall|j: int| 0 <= j < i ==> elem_val(#[trigger] data@[j]) == bv.items[k * n + j],
        decreases nu - i,
    {
        proof {
            assert(k * n + i < rows * n) by (nonlinear_arith)
                requires
                    0 <= k < rows,
                    0 <= i < n,
            ;
            assert(0 <= k * n) by (nonlinear_arith)
                requires
                    0 <= k,
                    0 <= n,
            ;
            assert(rows <= rows * n) by (nonlinear_arith)
                requires
                    rows >= 0,
                    n >= 1,
            ;
        }
        assert(k < b.data@.len());
        let ku = k as usize;
        assert(ku * nu == k * n);
        assert(k * n + i < b.data@.len());
        let p = ku * nu + i;
        data.push(b.data[p].copy());
        i += 1;
    }
    let r = Array { boxed: b.boxed, depth: rest, data };
    assert(r@.shape =~= tail);
    assert(r@.items =~= Seq::new(n as nat, |i: int| bv.items[elem_at(a@, 0) * n + i]));
    Ok(r)
}

/// Dyadic `#`.
pub fn rsh(a: Array, b: Array) -> (r: Result<Array, Error>)
    requires
        a.wf(),
    ensures
        res_val(r) == reshape_spec(a@, b@),
        r matches Ok(x) ==> x.wf(),
{
    proof {
        lemma_items(a);
        lemma_items(b);
    }
    let ghost d = dims(a@);
    let mut shape: Vec<i64> = Vec::new();
    let mut i: usize = 0;
    while i < a.data.len()
        invariant
            i <= a.data@.len(),
            d.len() == a.data@.len(),
            forall|j: int| 0 <= j < a.data@.len() ==> #[trigger] d[j] == num(elem_val(a.data@[j])),
            shape@ == d.subrange(0, i as int),
        decreases a.data@.len() - i,
    {
        let x = a.data[i].to_i64();
        shape.push(x);
        i += 1;
        assert(shape@ =~= d.subrange(0, i as int));
    }
    assert(shape@ =~= d);
    let mut j: usize = 0;
    while j < shape.len()
        invariant
            shape@ == d,
            d == dims(a@),
            j <= d.len(),
            forall|k: int| 0 <= k < j ==> d[k] >= 0,
        decreases d.len() - j,
    {
        if shape[j] < 0 {
            assert(d[j as int] < 0);
            return Err(Error::Domain('#'));
        }
        j += 1;
    }
    assert(shape@.take(shape@.len() as int) =~= d);
    proof {
        lemma_prod_nonneg(d);
    }
    let n = match tr(shape.len(), shape.as_slice()) {
        Some(n) => n,
        None => {
            return Err(Error::TooLarge);
        },
    };
    if n as u64 > usize::MAX as u64 {
        return Err(Error::TooLarge);
    }
    let nu = n as usize;
    let len = b.data.len();
    assert(nu as int == prod(d));
    assert(!(exists|j: int| 0 <= j < d.len() && d[j] < 0));
    assert(len == b@.items.len());
    if nu > 0 && len == 0 {
        return Err(Error::Domain('#'));
    }
    let mut data: Vec<Element> = Vec::new();
    let mut i: usize = 0;
    while i < nu
        invariant
            i <= nu,
            nu == n,
            len == b.data@.len(),
            forall|j: int| 0 <= j < b.data@.len() ==> #[trigger] b@.items[j] == elem_val(b.data@[j]),
            nu > 0 ==> len > 0,
            data@.len() == i,
            forall|j: int| 0 <= j < i ==> elem_val(#[trigger] data@[j]) == b@.items[j % (len as int)],
        decreases nu - i,
    {
        data.push(b.data[i % len].copy());
        i += 1;
    }
    let r = Array { boxed: b.boxed, depth: shape, data };
    assert(r@.items =~= Seq::new(n as nat, |i: int| b@.items[i % (len as int)]));
    Ok(r)
}

} // verus!
