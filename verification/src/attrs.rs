//! Attribute maps: the `key="value"` pairs of an open tag.
//!
//! Keys are unique within one map; inserting an existing key replaces its
//! value in place, so the order of first occurrence is kept and rendering
//! is deterministic.  A valueless (boolean) attribute holds the empty
//! string as its value.

use vstd::prelude::*;
use crate::chars::eq_chars;
use crate::chars::clone_chars;

verus! {

/// First index of the pair whose key is `k`, if any.
pub open spec fn find_key_spec(m: Seq<(Seq<char>, Seq<char>)>, k: Seq<char>) -> Option<int>
    decreases m.len(),
{
    if m.len() == 0 {
        None
    } else if m[0].0 == k {
        Some(0int)
    } else {
        match find_key_spec(m.drop_first(), k) {
            Some(i) => Some(i + 1),
            None => None,
        }
    }
}

/// What `find_key_spec` returns: the first pair with key `k`, or nothing.
pub proof fn lemma_find_key(m: Seq<(Seq<char>, Seq<char>)>, k: Seq<char>)
    ensures
        match find_key_spec(m, k) {
            Some(i) => 0 <= i < m.len() && m[i].0 == k && forall|j: int|
                0 <= j < i ==> (#[trigger] m[j]).0 != k,
            None => forall|j: int| 0 <= j < m.len() ==> (#[trigger] m[j]).0 != k,
        },
    decreases m.len(),
{
    if m.len() > 0 && m[0].0 != k {
        lemma_find_key(m.drop_first(), k);
        match find_key_spec(m.drop_first(), k) {
            Some(i) => {
                assert forall|j: int| 0 <= j < i + 1 implies (#[trigger] m[j]).0 != k by {
                    if j > 0 {
                        assert(m.drop_first()[j - 1].0 != k);
                    }
                }
            },
            None => {
                assert forall|j: int| 0 <= j < m.len() implies (#[trigger] m[j]).0 != k by {
                    if j > 0 {
                        assert(m.drop_first()[j - 1].0 != k);
                    }
                }
            },
        }
    }
}

/// The map after binding `k` to `v`: the existing pair is replaced in
/// place, a new pair goes at the end.
pub open spec fn insert_spec(
    m: Seq<(Seq<char>, Seq<char>)>,
    k: Seq<char>,
    v: Seq<char>,
) -> Seq<(Seq<char>, Seq<char>)> {
    match find_key_spec(m, k) {
        Some(i) => m.update(i, (k, v)),
        None => m.push((k, v)),
    }
}

/// The value bound to `k`, if any.
pub open spec fn get_spec(m: Seq<(Seq<char>, Seq<char>)>, k: Seq<char>) -> Option<Seq<char>> {
    match find_key_spec(m, k) {
        Some(i) => Some(m[i].1),
        None => None,
    }
}

/// The map with the pair keyed `k` removed, if it was there.
pub open spec fn remove_spec(
    m: Seq<(Seq<char>, Seq<char>)>,
    k: Seq<char>,
) -> Seq<(Seq<char>, Seq<char>)> {
    match find_key_spec(m, k) {
        Some(i) => m.remove(i),
        None => m,
    }
}

/// No two pairs share a key.
pub open spec fn unique_keys(m: Seq<(Seq<char>, Seq<char>)>) -> bool {
    forall|i: int, j: int| 0 <= i < j < m.len() ==> (#[trigger] m[i]).0 != (#[trigger] m[j]).0
}

/// An attribute map: keyed pairs of character strings, keys unique, in
/// order of first insertion.
#[derive(Debug, PartialEq, Eq)]
pub struct AttrMap {
    pairs: Vec<(Vec<char>, Vec<char>)>,
}

impl View for AttrMap {
    type V = Seq<(Seq<char>, Seq<char>)>;

    closed spec fn view(&self) -> Seq<(Seq<char>, Seq<char>)> {
        self.pairs.deep_view()
    }
}

impl AttrMap {
    /// The empty map.
    pub fn new() -> (m: AttrMap)
        ensures
            m@ == Seq::<(Seq<char>, Seq<char>)>::empty(),
            unique_keys(m@),
    {
        let m = AttrMap { pairs: Vec::new() };
        proof {
            assert(m@ =~~= Seq::<(Seq<char>, Seq<char>)>::empty());
        }
        m
    }

    /// How many attributes the map holds.
    pub fn len(&self) -> (n: usize)
        ensures
            n == self@.len(),
    {
        self.pairs.len()
    }

    /// The key and value at position `i`, for rendering in order.
    pub fn pair_at(&self, i: usize) -> (r: (&Vec<char>, &Vec<char>))
        requires
            i < self@.len(),
        ensures
            r.0@ == self@[i as int].0,
            r.1@ == self@[i as int].1,
    {
        (&self.pairs[i].0, &self.pairs[i].1)
    }

    /// Position of the first pair with key `k`, if any.
    fn find(&self, k: &Vec<char>) -> (r: Option<usize>)
        ensures
            match r {
                Some(i) => i < self.pairs@.len() && i < self@.len() && find_key_spec(self@, k@)
                    == Some(i as int),
                None => find_key_spec(self@, k@) is None,
            },
    {
        proof {
            lemma_find_key(self@, k@);
        }
        let mut i: usize = 0;
        while i < self.pairs.len()
            invariant
                0 <= i <= self@.len(),
                self@.len() == self.pairs@.len(),
                forall|j: int| 0 <= j < i ==> (#[trigger] self@[j]).0 != k@,
                match find_key_spec(self@, k@) {
                    Some(n) => 0 <= n < self@.len() && self@[n].0 == k@ && forall|j: int|
                        0 <= j < n ==> (#[trigger] self@[j]).0 != k@,
                    None => forall|j: int| 0 <= j < self@.len() ==> (#[trigger] self@[j]).0 != k@,
                },
            decreases self@.len() - i,
        {
            if eq_chars(&self.pairs[i].0, k) {
                proof {
                    assert(self@[i as int].0 == self.pairs@[i as int].0@);
                    if let Some(n) = find_key_spec(self@, k@) {
                        assert(!(n < i) && !(i < n));
                    }
                }
                return Some(i);
            }
            proof {
                assert(self@[i as int].0 == self.pairs@[i as int].0@);
            }
            i = i + 1;
        }
        None
    }

    /// The value bound to `k`, if any.
    pub fn get(&self, k: &Vec<char>) -> (r: Option<&Vec<char>>)
        ensures
            match r {
                Some(v) => get_spec(self@, k@) == Some(v@),
                None => get_spec(self@, k@) is None,
            },
    {
        match self.find(k) {
            Some(i) => {
                proof {
                    assert(self@[i as int].1 == self.pairs@[i as int].1@);
                }
                Some(&self.pairs[i].1)
            },
            None => None,
        }
    }

    /// Whether some value is bound to `k`.
    pub fn contains_key(&self, k: &Vec<char>) -> (r: bool)
        ensures
            r == (get_spec(self@, k@) is Some),
    {
        match self.find(k) {
            Some(_) => true,
            None => false,
        }
    }

    /// Bind `k` to `v`; a later binding of a key wins over an earlier one.
    pub fn insert(&mut self, k: Vec<char>, v: Vec<char>)
        ensures
            final(self)@ == insert_spec(old(self)@, k@, v@),
            unique_keys(old(self)@) ==> unique_keys(final(self)@),
    {
        proof {
            lemma_find_key(self@, k@);
        }
        let ghost m0 = self@;
        match self.find(&k) {
            Some(i) => {
                self.pairs.remove(i);
                self.pairs.insert(i, (k, v));
                proof {
                    assert(self@ =~~= m0.update(i as int, (k@, v@)));
                    if unique_keys(m0) {
                        assert forall|a: int, b: int|
                            0 <= a < b < self@.len() implies (#[trigger] self@[a]).0 != (
                        #[trigger] self@[b]).0 by {
                            assert(m0[a].0 != m0[b].0);
                        }
                    }
                }
            },
            None => {
                self.pairs.push((k, v));
                proof {
                    assert(self@ =~~= m0.push((k@, v@)));
                    if unique_keys(m0) {
                        assert forall|a: int, b: int|
                            0 <= a < b < self@.len() implies (#[trigger] self@[a]).0 != (
                        #[trigger] self@[b]).0 by {
                            if b < m0.len() {
                                assert(m0[a].0 != m0[b].0);
                            } else {
                                assert(m0[a].0 != k@);
                            }
                        }
                    }
                }
            },
        }
    }

    /// Drop the binding of `k`, if there is one.
    pub fn remove(&mut self, k: &Vec<char>)
        ensures
            final(self)@ == remove_spec(old(self)@, k@),
            unique_keys(old(self)@) ==> unique_keys(final(self)@),
    {
        let ghost m0 = self@;
        match self.find(k) {
            Some(i) => {
                self.pairs.remove(i);
                proof {
                    assert(self@ =~~= m0.remove(i as int));
                    if unique_keys(m0) {
                        assert forall|a: int, b: int|
                            0 <= a < b < self@.len() implies (#[trigger] self@[a]).0 != (
                        #[trigger] self@[b]).0 by {
                            let a0 = if a < i { a } else { a + 1 };
                            let b0 = if b < i { b } else { b + 1 };
                            assert(m0[a0].0 != m0[b0].0);
                        }
                    }
                }
            },
            None => {},
        }
    }

    /// A copy of the map.
    pub fn duplicate(&self) -> (r: AttrMap)
        ensures
            r@ == self@,
    {
        let mut pairs: Vec<(Vec<char>, Vec<char>)> = Vec::new();
        let mut i: usize = 0;
        while i < self.pairs.len()
            invariant
                0 <= i <= self@.len(),
                self@.len() == self.pairs@.len(),
                pairs.deep_view() =~~= self@.take(i as int),
            decreases self@.len() - i,
        {
            let k = clone_chars(&self.pairs[i].0);
            let v = clone_chars(&self.pairs[i].1);
            pairs.push((k, v));
            proof {
                assert(self@[i as int] == self.pairs@[i as int].deep_view());
                assert(pairs.deep_view() =~~= self@.take(i + 1int));
            }
            i = i + 1;
        }
        proof {
            assert(self@.take(self@.len() as int) =~~= self@);
        }
        let r = AttrMap { pairs };
        r
    }
}

} // verus!
