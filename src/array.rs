use vstd::prelude::*;

verus! {

/// One cell of an array: an integer, or a whole nested array.
#[derive(Debug)]
pub enum Element {
    Array(Box<Array>),
    Number(i64),
}

/// A possibly multi-dimensional array of elements, stored flat in row-major order.
#[derive(Debug)]
pub struct Array {
    pub boxed: bool,
    pub depth: Vec<i64>,
    pub data: Vec<Element>,
}

/// Mathematical model of an element.
pub enum Item {
    Num(i64),
    Nest(Val),
}

/// Mathematical model of an array.
pub struct Val {
    pub boxed: bool,
    pub shape: Seq<i64>,
    pub items: Seq<Item>,
}

pub open spec fn elem_val(e: Element) -> Item
    decreases e,
{
    match e {
        Element::Number(n) => Item::Num(n),
        Element::Array(a) => Item::Nest(arr_val(*a)),
    }
}

pub open spec fn arr_val(a: Array) -> Val
    decreases a,
{
    Val {
        boxed: a.boxed,
        shape: a.depth@,
        items: Seq::new(
            a.data@.len(),
            |i: int|
                if 0 <= i < a.data@.len() {
                    elem_val(a.data@[i])
                } else {
                    Item::Num(0)
                },
        ),
    }
}

impl View for Array {
    type V = Val;

    open spec fn view(&self) -> Val {
        arr_val(*self)
    }
}


/// Failures of tokenizing or evaluating a line.
#[derive(Debug, PartialEq, Eq, Structural)]
pub enum Error {
    /// A character that starts no token.
    Lex(char),
    /// A number literal, a count or a length that does not fit in an `i64`.
    TooLarge,
    /// A verb symbol with no meaning at the given arity (`true` for dyadic).
    UnknownVerb(char, bool),
    /// A verb applied to an operand outside its domain.
    Domain(char),
}

/// The integer an item stands for: a nested array reads as 0.
pub open spec fn num(it: Item) -> i64 {
    match it {
        Item::Num(n) => n,
        Item::Nest(_) => 0,
    }
}

/// The i-th flat number of `v`, or 0 where `i` is out of range.
pub open spec fn elem_at(v: Val, i: int) -> i64 {
    if 0 <= i < v.items.len() {
        num(v.items[i])
    } else {
        0
    }
}

/// Product of the entries of a shape; 1 for the empty shape.
pub open spec fn prod(s: Seq<i64>) -> int
    decreases s.len(),
{
    if s.len() == 0 {
        1
    } else {
        prod(s.drop_last()) * s.last()
    }
}

/// A well-formed array: non-negative axes whose product is the number of items,
/// with rank and item count both representable as `i64`.
pub open spec fn wf(v: Val) -> bool {
    &&& forall|i: int| 0 <= i < v.shape.len() ==> v.shape[i] >= 0
    &&& v.items.len() == prod(v.shape)
    &&& v.items.len() <= i64::MAX
    &&& v.shape.len() <= i64::MAX
}

/// The rank-0 array holding `n`.
pub open spec fn scalar(n: i64) -> Val {
    Val { boxed: false, shape: seq![], items: seq![Item::Num(n)] }
}

/// The numbers of `s`, each as an item.
pub open spec fn nums(s: Seq<i64>) -> Seq<Item> {
    s.map_values(|x: i64| Item::Num(x))
}

impl Array {
    pub open spec fn wf(&self) -> bool {
        wf(self@)
    }

    /// The flat numbers of the array, a nested array read as 0.
    pub fn numbers(&self) -> (r: Vec<i64>)
        ensures
            r@.len() == self@.items.len(),
            forall|i: int| 0 <= i < r@.len() ==> r@[i] == #[trigger] num(self@.items[i]),
    {
        let mut r: Vec<i64> = Vec::new();
        let mut i: usize = 0;
        while i < self.data.len()
            invariant
                i <= self.data@.len(),
                r@.len() == i,
                forall|j: int| 0 <= j < i ==> r@[j] == num(elem_val(#[trigger] self.data@[j])),
            decreases self.data@.len() - i,
        {
            r.push(self.data[i].to_i64());
            i += 1;
        }
        r
    }

    /// A copy of the whole array, nested arrays included.
    pub fn copy(&self) -> (r: Array)
        ensures
            r@ == self@,
        decreases self,
    {
        let mut data: Vec<Element> = Vec::new();
        let mut i: usize = 0;
        while i < self.data.len()
            invariant
                i <= self.data@.len(),
                data@.len() == i,
                forall|j: int| 0 <= j < i ==> elem_val(#[trigger] data@[j]) == elem_val(self.data@[j]),
            decreases self.data@.len() - i,
        {
            proof {
                assert(decreases_to!(self.data => self.data[i as int]));
            }
            data.push(self.data[i].copy());
            i += 1;
        }
        let r = Array { boxed: self.boxed, depth: self.depth.clone(), data };
        assert(r@.items =~= self@.items);
        r
    }
}

impl Element {
    /// A copy of the element, nested arrays included.
    pub fn copy(&self) -> (r: Element)
        ensures
            elem_val(r) == elem_val(*self),
        decreases self,
    {
        match self {
            Element::Number(n) => Element::Number(*n),
            Element::Array(a) => Element::Array(Box::new(a.copy())),
        }
    }

    /// The integer this element stands for: a nested array reads as 0.
    pub fn to_i64(&self) -> (r: i64)
        ensures
            r == num(elem_val(*self)),
    {
        match self {
            Element::Number(n) => *n,
            Element::Array(_) => 0,
        }
    }
}

/// The rank-0 array holding `n`.
pub fn array_from_i64(n: i64) -> (r: Array)
    ensures
        r@ == scalar(n),
        r.wf(),
{
    let r = Array { boxed: false, depth: Vec::new(), data: vec![Element::Number(n)] };
    assert(r@.items =~= seq![Item::Num(n)]);
    assert(r@.shape =~= Seq::<i64>::empty());
    r
}

/// The i-th flat number of `a`, or 0 where `i` is out of range.
pub fn at(a: &Array, i: i64) -> (r: i64)
    ensures
        r == elem_at(a@, i as int),
{
    if 0 <= i && (i as u64) < (a.data.len() as u64) {
        a.data[i as usize].to_i64()
    } else {
        0
    }
}


/// The model of a fallible result.
pub open spec fn res_val(r: Result<Array, Error>) -> Result<Val, Error> {
    match r {
        Ok(a) => Ok(a@),
        Err(e) => Err(e),
    }
}

pub proof fn lemma_prod_nonneg(s: Seq<i64>)
    requires
        forall|i: int| 0 <= i < s.len() ==> s[i] >= 0,
    ensures
        prod(s) >= 0,
    decreases s.len(),
{
    if s.len() > 0 {
        lemma_prod_nonneg(s.drop_last());
        assert(prod(s.drop_last()) * s.last() >= 0) by (nonlinear_arith)
            requires
                prod(s.drop_last()) >= 0,
                s.last() >= 0,
        ;
    }
}

pub proof fn lemma_prod_zero(s: Seq<i64>, j: int)
    requires
        0 <= j < s.len(),
        s[j] == 0,
    ensures
        prod(s) == 0,
    decreases s.len(),
{
    if j < s.len() - 1 {
        lemma_prod_zero(s.drop_last(), j);
    }
}

/// With every entry at least 1, no prefix has a larger product than the whole.
pub proof fn lemma_prod_prefix_le(s: Seq<i64>, k: int)
    requires
        0 <= k <= s.len(),
        forall|i: int| 0 <= i < s.len() ==> s[i] >= 1,
    ensures
        1 <= prod(s.subrange(0, k)) <= prod(s),
    decreases s.len(),
{
    if k == s.len() {
        assert(s.subrange(0, k) =~= s);
        if s.len() > 0 {
            lemma_prod_prefix_le(s.drop_last(), k - 1);
            assert(s.drop_last().subrange(0, k - 1) =~= s.drop_last());
            assert(prod(s.drop_last()) * s.last() >= 1) by (nonlinear_arith)
                requires
                    prod(s.drop_last()) >= 1,
                    s.last() >= 1,
            ;
        }
    } else {
        lemma_prod_prefix_le(s.drop_last(), k);
        assert(s.drop_last().subrange(0, k) =~= s.subrange(0, k));
        assert(prod(s.drop_last()) <= prod(s.drop_last()) * s.last()) by (nonlinear_arith)
            requires
                prod(s.drop_last()) >= 1,
                s.last() >= 1,
        ;
    }
}

/// The product may be taken from the front as well.
pub proof fn lemma_prod_first(s: Seq<i64>)
    requires
        s.len() > 0,
    ensures
        prod(s) == s[0] * prod(s.drop_first()),
    decreases s.len(),
{
    if s.len() > 1 {
        lemma_prod_first(s.drop_last());
        let dl = s.drop_last();
        let df = s.drop_first();
        assert(dl.drop_first() =~= df.drop_last());
        assert(df.last() == s.last());
        assert(dl[0] == s[0]);
        assert(prod(s) == prod(dl) * s.last());
        assert(prod(df) == prod(df.drop_last()) * s.last());
        let p = prod(df.drop_last());
        assert((s[0] * p) * s.last() == s[0] * (p * s.last())) by (nonlinear_arith);
    } else {
        assert(s.drop_first() =~= Seq::<i64>::empty());
        assert(s.drop_last() =~= Seq::<i64>::empty());
        assert(prod(s.drop_last()) == 1);
        assert(prod(s.drop_first()) == 1);
        assert(prod(s) == s.last());
    }
}

pub proof fn lemma_prod_single(n: i64)
    ensures
        prod(seq![n]) == n,
{
    assert(seq![n].drop_last() =~= Seq::<i64>::empty());
    assert(prod(Seq::<i64>::empty()) == 1);
}

/// The items of an array are its elements' models, one for one.
pub proof fn lemma_items(a: Array)
    ensures
        a@.items.len() == a.data@.len(),
        forall|i: int| 0 <= i < a.data@.len() ==> #[trigger] a@.items[i] == elem_val(a.data@[i]),
{
}

/// Product of the first `n` entries of `d`, or `None` where it exceeds `i64::MAX`.
pub fn tr(n: usize, d: &[i64]) -> (r: Option<i64>)
    requires
        n <= d@.len(),
        forall|i: int| 0 <= i < n ==> d@[i] >= 0,
    ensures
        r == (if prod(d@.take(n as int)) <= i64::MAX {
            Some(prod(d@.take(n as int)) as i64)
        } else {
            None
        }),
{
    let ghost s = d@.take(n as int);
    let mut j: usize = 0;
    while j < n
        invariant
            j <= n <= d@.len(),
            s == d@.take(n as int),
            forall|k: int| 0 <= k < j ==> d@[k] != 0,
        decreases n - j,
    {
        if d[j] == 0 {
            proof {
                lemma_prod_zero(s, j as int);
            }
            return Some(0);
        }
        j += 1;
    }
    let mut acc: i64 = 1;
    let mut i: usize = 0;
    assert(d@.take(0) =~= Seq::<i64>::empty());
    while i < n
        invariant
            i <= n <= d@.len(),
            s == d@.take(n as int),
            forall|k: int| 0 <= k < s.len() ==> s[k] >= 1,
            acc == prod(d@.take(i as int)),
        decreases n - i,
    {
        proof {
            lemma_prod_prefix_le(s, i + 1);
            assert(s.subrange(0, i + 1) =~= d@.take(i + 1));
            assert(d@.take(i + 1).drop_last() =~= d@.take(i as int));
        }
        match acc.checked_mul(d[i]) {
            Some(v) => {
                acc = v;
            },
            None => {
                return None;
            },
        }
        i += 1;
    }
    proof {
        lemma_prod_prefix_le(s, s.len() as int);
        assert(s.subrange(0, s.len() as int) =~= s);
    }
    Some(acc)
}

} // verus!
