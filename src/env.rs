use vstd::prelude::*;

use crate::array::{array_from_i64, scalar, Array, Val};

verus! {

/// The variable bindings of a session.
pub struct Env {
    names: Vec<String>,
    vals: Vec<Array>,
}

/// The bindings that a list of names and values stands for; a later entry hides an
/// earlier one of the same name.
pub open spec fn bindings(n: Seq<String>, v: Seq<Array>) -> Map<Seq<char>, Val>
    decreases n.len(),
{
    if n.len() == 0 || v.len() == 0 {
        Map::empty()
    } else {
        bindings(n.drop_last(), v.drop_last()).insert(n.last()@, v.last()@)
    }
}

/// `i` is the last index at which `n` holds the name `k`.
pub open spec fn last_at(n: Seq<String>, k: Seq<char>, i: int) -> bool {
    &&& 0 <= i < n.len()
    &&& n[i]@ == k
    &&& forall|j: int| i < j < n.len() ==> n[j]@ != k
}

pub proof fn lemma_bindings_found(n: Seq<String>, v: Seq<Array>, k: Seq<char>, i: int)
    requires
        n.len() == v.len(),
        last_at(n, k, i),
    ensures
        bindings(n, v).contains_key(k),
        bindings(n, v)[k] == v[i]@,
    decreases n.len(),
{
    if i < n.len() - 1 {
        lemma_bindings_found(n.drop_last(), v.drop_last(), k, i);
    }
}

pub proof fn lemma_bindings_absent(n: Seq<String>, v: Seq<Array>, k: Seq<char>)
    requires
        n.len() == v.len(),
        forall|j: int| 0 <= j < n.len() ==> n[j]@ != k,
    ensures
        !bindings(n, v).contains_key(k),
    decreases n.len(),
{
    if n.len() > 0 {
        lemma_bindings_absent(n.drop_last(), v.drop_last(), k);
    }
}

pub proof fn lemma_bindings_update(n: Seq<String>, v: Seq<Array>, k: Seq<char>, i: int, x: Array)
    requires
        n.len() == v.len(),
        last_at(n, k, i),
    ensures
        bindings(n, v.update(i, x)) == bindings(n, v).insert(k, x@),
    decreases n.len(),
{
    let w = v.update(i, x);
    if i == n.len() - 1 {
        assert(w.drop_last() =~= v.drop_last());
        assert(bindings(n, w) =~= bindings(n, v).insert(k, x@));
    } else {
        lemma_bindings_update(n.drop_last(), v.drop_last(), k, i, x);
        assert(w.drop_last() =~= v.drop_last().update(i, x));
        assert(bindings(n, w) =~= bindings(n, v).insert(k, x@));
    }
}

impl View for Env {
    type V = Map<Seq<char>, Val>;

    closed spec fn view(&self) -> Map<Seq<char>, Val> {
        bindings(self.names@, self.vals@)
    }
}

impl Env {
    /// Every bound value is well formed.
    pub closed spec fn wf(&self) -> bool {
        &&& self.names@.len() == self.vals@.len()
        &&& forall|i: int| 0 <= i < self.vals@.len() ==> (#[trigger] self.vals@[i]).wf()
    }

    /// No bindings.
    pub fn new() -> (r: Env)
        ensures
            r@ == Map::<Seq<char>, Val>::empty(),
            r.wf(),
    {
        Env { names: Vec::new(), vals: Vec::new() }
    }

    /// Index of the last entry named `name`, if any.
    fn find(&self, name: &String) -> (r: Option<usize>)
        requires
            self.wf(),
        ensures
            r matches Some(i) ==> last_at(self.names@, name@, i as int),
            r is None ==> forall|j: int| 0 <= j < self.names@.len() ==> self.names@[j]@ != name@,
    {
        let mut i: usize = self.names.len();
        while i > 0
            invariant
                i <= self.names@.len(),
                forall|j: int| i <= j < self.names@.len() ==> self.names@[j]@ != name@,
            decreases i,
        {
            if self.names[i - 1] == *name {
                return Some(i - 1);
            }
            i -= 1;
        }
        None
    }

    /// The value bound to `name`; an unbound name is bound to the scalar 0 first.
    pub fn fetch(&mut self, name: &String) -> (r: Array)
        requires
            old(self).wf(),
        ensures
            final(self).wf(),
            r.wf(),
            r@ == (if old(self)@.contains_key(name@) {
                old(self)@[name@]
            } else {
                scalar(0)
            }),
            final(self)@ == old(self)@.insert(name@, r@),
    {
        match self.find(name) {
            Some(i) => {
                proof {
                    lemma_bindings_found(self.names@, self.vals@, name@, i as int);
                    assert(self@.insert(name@, self.vals@[i as int]@) =~= self@);
                }
                self.vals[i].copy()
            },
            None => {
                proof {
                    lemma_bindings_absent(self.names@, self.vals@, name@);
                }
                self.names.push(name.clone());
                self.vals.push(array_from_i64(0));
                assert(self.names@.drop_last() =~= old(self).names@);
                assert(self.vals@.drop_last() =~= old(self).vals@);
                array_from_i64(0)
            },
        }
    }

    /// Binds `name` to `val`, replacing any earlier binding.
    pub fn bind(&mut self, name: &String, val: Array)
        requires
            old(self).wf(),
            val.wf(),
        ensures
            final(self).wf(),
            final(self)@ == old(self)@.insert(name@, val@),
    {
        match self.find(name) {
            Some(i) => {
                proof {
                    lemma_bindings_update(self.names@, self.vals@, name@, i as int, val);
                }
                self.vals.set(i, val);
            },
            None => {
                self.names.push(name.clone());
                self.vals.push(val);
                assert(self.names@.drop_last() =~= old(self).names@);
                assert(self.vals@.drop_last() =~= old(self).vals@);
            },
        }
    }
}

} // verus!
