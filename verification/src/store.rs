//! String-keyed stores.
//!
//! An [`AssocMap`] keeps unique string keys with their values in insertion
//! order; the orchestrator holds the registration store, the name index,
//! and the certificate store in these.

use vstd::prelude::*;
use vstd::pervasive::VecAdditionalExecFns;

verus! {

/// Some entry carries this key.
pub open spec fn m_has<V>(s: Seq<(String, V)>, k: Seq<char>) -> bool {
    exists|i: int| 0 <= i < s.len() && s[i].0@ == k
}

/// Index of the entry carrying this key (unique under [`m_unique`]).
pub open spec fn m_index_of<V>(s: Seq<(String, V)>, k: Seq<char>) -> int {
    choose|i: int| 0 <= i < s.len() && s[i].0@ == k
}

/// Value stored under this key.
pub open spec fn m_get<V>(s: Seq<(String, V)>, k: Seq<char>) -> V {
    s[m_index_of(s, k)].1
}

/// No key appears twice.
pub open spec fn m_unique<V>(s: Seq<(String, V)>) -> bool {
    forall|i: int, j: int| 0 <= i < j < s.len() ==> s[i].0@ != s[j].0@
}

/// With unique keys, a witness index pins down lookup results.
pub proof fn lemma_m_entry_at<V>(s: Seq<(String, V)>, w: int)
    requires
        m_unique(s),
        0 <= w < s.len(),
    ensures
        m_has(s, s[w].0@),
        m_index_of(s, s[w].0@) == w,
        m_get(s, s[w].0@) == s[w].1,
{
    assert(m_has(s, s[w].0@));
    let i = m_index_of(s, s[w].0@);
    if i != w {
        if i < w {
            assert(s[i].0@ != s[w].0@);
        } else {
            assert(s[w].0@ != s[i].0@);
        }
    }
}

/// A map from string keys to values, at most one entry per key, entries in
/// insertion order.
pub struct AssocMap<V> {
    pairs: Vec<(String, V)>,
}

impl<V> AssocMap<V> {
    /// The stored entries, in order.
    pub closed spec fn entries(&self) -> Seq<(String, V)> {
        self.pairs@
    }

    /// Key-uniqueness: the map's invariant.
    pub open spec fn wf(&self) -> bool {
        m_unique(self.entries())
    }

    /// Whether this key is present.
    pub open spec fn spec_has(&self, k: Seq<char>) -> bool {
        m_has(self.entries(), k)
    }

    /// The value under this key.
    pub open spec fn spec_get(&self, k: Seq<char>) -> V {
        m_get(self.entries(), k)
    }

    pub fn new() -> (m: AssocMap<V>)
        ensures
            m.entries() =~= Seq::<(String, V)>::empty(),
            m.wf(),
    {
        AssocMap { pairs: Vec::new() }
    }

    pub fn len(&self) -> (n: usize)
        ensures
            n == self.entries().len(),
    {
        self.pairs.len()
    }

    /// The key of the entry at a position.
    pub fn key_at(&self, i: usize) -> (r: &String)
        requires
            i < self.entries().len(),
        ensures
            r@ == self.entries()[i as int].0@,
    {
        &self.pairs[i].0
    }

    /// The value of the entry at a position.
    pub fn value_at(&self, i: usize) -> (r: &V)
        requires
            i < self.entries().len(),
        ensures
            *r == self.entries()[i as int].1,
    {
        &self.pairs[i].1
    }

    /// Looks a key up.
    pub fn get(&self, k: &String) -> (r: Option<&V>)
        requires
            self.wf(),
        ensures
            m_has(self.entries(), k@) ==> (r matches Some(v) && *v == m_get(self.entries(), k@)),
            !m_has(self.entries(), k@) ==> r is None,
    {
        let n = self.pairs.len();
        let mut i: usize = 0;
        while i < n
            invariant
                i <= n,
                n == self.entries().len(),
                m_unique(self.entries()),
                forall|j: int| 0 <= j < i ==> self.entries()[j].0@ != k@,
            decreases n - i,
        {
            if self.pairs[i].0 == *k {
                proof {
                    lemma_m_entry_at(self.entries(), i as int);
                }
                return Some(&self.pairs[i].1);
            }
            i = i + 1;
        }
        None
    }

    /// Whether this key is present.
    pub fn contains_key(&self, k: &String) -> (r: bool)
        requires
            self.wf(),
        ensures
            r == m_has(self.entries(), k@),
    {
        match self.get(k) {
            Some(_) => true,
            None => false,
        }
    }

    /// Inserts or replaces the value under a key.  A fresh key is appended
    /// at the tail; an existing key keeps its position.
    pub fn insert(&mut self, k: String, v: V)
        requires
            old(self).wf(),
        ensures
            final(self).wf(),
            m_has(final(self).entries(), k@),
            m_get(final(self).entries(), k@) == v,
            forall|x: Seq<char>|
                x != k@ ==> m_has(final(self).entries(), x) == m_has(old(self).entries(), x),
            forall|x: Seq<char>|
                x != k@ && m_has(old(self).entries(), x) ==> m_get(final(self).entries(), x)
                    == m_get(old(self).entries(), x),
            m_has(old(self).entries(), k@) ==> final(self).entries() == old(
                self,
            ).entries().update(m_index_of(old(self).entries(), k@), (k, v)),
            !m_has(old(self).entries(), k@) ==> final(self).entries() == old(
                self,
            ).entries().push((k, v)),
    {
        let n = self.pairs.len();
        let mut i: usize = 0;
        while i < n
            invariant
                i <= n,
                n == self.entries().len(),
                self.entries() == old(self).entries(),
                m_unique(self.entries()),
                forall|j: int| 0 <= j < i ==> self.entries()[j].0@ != k@,
            decreases n - i,
        {
            if self.pairs[i].0 == *(&k) {
                let ghost s = self.entries();
                proof {
                    lemma_m_entry_at(s, i as int);
                }
                self.pairs.set(i, (k, v));
                proof {
                    let r = self.entries();
                    assert(r == s.update(i as int, (k, v)));
                    assert(r[i as int].0@ == k@);
                    assert forall|a: int, b: int| 0 <= a < b < r.len() implies r[a].0@
                        != r[b].0@ by {
                        assert(s[a].0@ != s[b].0@);
                    }
                    lemma_m_entry_at(r, i as int);
                    assert forall|x: Seq<char>| x != k@ implies m_has(r, x) == m_has(s, x) by {
                        if m_has(s, x) {
                            let w = m_index_of(s, x);
                            assert(r[w].0@ == x);
                        }
                        if m_has(r, x) {
                            let w = m_index_of(r, x);
                            assert(s[w].0@ == x);
                        }
                    }
                    assert forall|x: Seq<char>| x != k@ && m_has(s, x) implies m_get(r, x)
                        == m_get(s, x) by {
                        let w = m_index_of(s, x);
                        lemma_m_entry_at(s, w);
                        assert(r[w].0@ == x);
                        lemma_m_entry_at(r, w);
                    }
                }
                return ;
            }
            i = i + 1;
        }
        let ghost s = self.entries();
        self.pairs.push((k, v));
        proof {
            let r = self.entries();
            assert(r == s.push((k, v)));
            assert(r[s.len() as int].0@ == k@);
            assert forall|a: int, b: int| 0 <= a < b < r.len() implies r[a].0@ != r[b].0@ by {
                if b < s.len() {
                    assert(s[a].0@ != s[b].0@);
                } else {
                    assert(s[a].0@ != k@);
                }
            }
            lemma_m_entry_at(r, s.len() as int);
            assert forall|x: Seq<char>| x != k@ implies m_has(r, x) == m_has(s, x) by {
                if m_has(s, x) {
                    let w = m_index_of(s, x);
                    assert(r[w].0@ == x);
                }
                if m_has(r, x) {
                    let w = m_index_of(r, x);
                    assert(s[w].0@ == x);
                }
            }
            assert forall|x: Seq<char>| x != k@ && m_has(s, x) implies m_get(r, x) == m_get(
                s,
                x,
            ) by {
                let w = m_index_of(s, x);
                lemma_m_entry_at(s, w);
                assert(r[w].0@ == x);
                lemma_m_entry_at(r, w);
            }
        }
    }

    /// Removes the entry under a key, if any; the other entries keep their
    /// relative order.
    pub fn remove(&mut self, k: &String)
        requires
            old(self).wf(),
        ensures
            final(self).wf(),
            !m_has(final(self).entries(), k@),
            forall|x: Seq<char>|
                x != k@ ==> m_has(final(self).entries(), x) == m_has(old(self).entries(), x),
            forall|x: Seq<char>|
                x != k@ && m_has(old(self).entries(), x) ==> m_get(final(self).entries(), x)
                    == m_get(old(self).entries(), x),
            m_has(old(self).entries(), k@) ==> final(self).entries() == old(
                self,
            ).entries().remove(m_index_of(old(self).entries(), k@)),
            !m_has(old(self).entries(), k@) ==> final(self).entries() == old(self).entries(),
    {
        let n = self.pairs.len();
        let mut i: usize = 0;
        while i < n
            invariant
                i <= n,
                n == self.entries().len(),
                self.entries() == old(self).entries(),
                m_unique(self.entries()),
                forall|j: int| 0 <= j < i ==> self.entries()[j].0@ != k@,
            decreases n - i,
        {
            if self.pairs[i].0 == *k {
                let ghost s = self.entries();
                proof {
                    lemma_m_entry_at(s, i as int);
                    s.remove_ensures(i as int);
                }
                self.pairs.remove(i);
                proof {
                    let r = self.entries();
                    assert(r == s.remove(i as int));
                    assert forall|a: int, b: int| 0 <= a < b < r.len() implies r[a].0@
                        != r[b].0@ by {
                        let a0 = if a < i as int {
                            a
                        } else {
                            a + 1
                        };
                        let b0 = if b < i as int {
                            b
                        } else {
                            b + 1
                        };
                        assert(r[a] == s[a0]);
                        assert(r[b] == s[b0]);
                    }
                    assert forall|w: int| 0 <= w < r.len() implies r[w].0@ != k@ by {
                        let w0 = if w < i as int {
                            w
                        } else {
                            w + 1
                        };
                        assert(r[w] == s[w0]);
                    }
                    assert forall|x: Seq<char>| x != k@ implies m_has(r, x) == m_has(s, x) by {
                        if m_has(s, x) {
                            let w = m_index_of(s, x);
                            let w2 = if w < i as int {
                                w
                            } else {
                                w - 1
                            };
                            assert(r[w2] == s[w]);
                        }
                        if m_has(r, x) {
                            let w = m_index_of(r, x);
                            let w0 = if w < i as int {
                                w
                            } else {
                                w + 1
                            };
                            assert(r[w] == s[w0]);
                        }
                    }
                    assert forall|x: Seq<char>| x != k@ && m_has(s, x) implies m_get(r, x)
                        == m_get(s, x) by {
                        let w = m_index_of(s, x);
                        lemma_m_entry_at(s, w);
                        let w2 = if w < i as int {
                            w
                        } else {
                            w - 1
                        };
                        assert(r[w2] == s[w]);
                        lemma_m_entry_at(r, w2);
                    }
                }
                return ;
            }
            i = i + 1;
        }
    }
}

} // verus!
