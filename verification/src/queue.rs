//! Keyed time queues.
//!
//! A [`TimeQueue`] holds at most one entry per key, ordered by due-time
//! with ties broken by the key's lexicographic order, so the head of the
//! queue is always the unique next entry to serve.  The orchestrator keeps
//! three of these: ready tasks, parked retries, and expirations.

use vstd::prelude::*;

use crate::ordering::{
    chars_lt, lemma_chars_lt_irreflexive, lemma_chars_lt_transitive, lemma_chars_lt_trichotomy,
    str_lt,
};

verus! {

/// Strict order on queue entries: by due-time, then by key.
pub open spec fn entry_lt(a: (u64, Seq<char>), b: (u64, Seq<char>)) -> bool {
    a.0 < b.0 || (a.0 == b.0 && chars_lt(a.1, b.1))
}

pub proof fn lemma_entry_lt_trichotomy(a: (u64, Seq<char>), b: (u64, Seq<char>))
    ensures
        entry_lt(a, b) || entry_lt(b, a) || a == b,
{
    if a.0 == b.0 {
        lemma_chars_lt_trichotomy(a.1, b.1);
    }
}

pub proof fn lemma_entry_lt_transitive(a: (u64, Seq<char>), b: (u64, Seq<char>), c: (
    u64,
    Seq<char>,
))
    requires
        entry_lt(a, b),
        entry_lt(b, c),
    ensures
        entry_lt(a, c),
{
    if a.0 == b.0 && b.0 == c.0 {
        lemma_chars_lt_transitive(a.1, b.1, c.1);
    }
}

pub proof fn lemma_entry_lt_irreflexive(a: (u64, Seq<char>))
    ensures
        !entry_lt(a, a),
{
    lemma_chars_lt_irreflexive(a.1);
}

/// The ghost view of the stored entries: due-time and key characters.
pub open spec fn qview(e: Seq<(u64, String)>) -> Seq<(u64, Seq<char>)> {
    Seq::new(e.len(), |i: int| (e[i].0, e[i].1@))
}

/// Entries strictly ascend in `(time, key)` order.
pub open spec fn q_sorted(q: Seq<(u64, Seq<char>)>) -> bool {
    forall|i: int, j: int| 0 <= i < j < q.len() ==> entry_lt(q[i], q[j])
}

/// No key appears twice.
pub open spec fn q_unique(q: Seq<(u64, Seq<char>)>) -> bool {
    forall|i: int, j: int| 0 <= i < j < q.len() ==> q[i].1 != q[j].1
}

/// Some entry carries this key.
pub open spec fn q_has(q: Seq<(u64, Seq<char>)>, id: Seq<char>) -> bool {
    exists|i: int| 0 <= i < q.len() && q[i].1 == id
}

/// Index of the entry carrying this key (unique when `q_unique`).
pub open spec fn q_index_of(q: Seq<(u64, Seq<char>)>, id: Seq<char>) -> int {
    choose|i: int| 0 <= i < q.len() && q[i].1 == id
}

/// Due-time of the entry carrying this key.
pub open spec fn q_time_of(q: Seq<(u64, Seq<char>)>, id: Seq<char>) -> u64 {
    q[q_index_of(q, id)].0
}

/// With unique keys, a witness index pins down `q_index_of` and `q_time_of`.
pub proof fn lemma_q_entry_at(q: Seq<(u64, Seq<char>)>, w: int)
    requires
        q_unique(q),
        0 <= w < q.len(),
    ensures
        q_has(q, q[w].1),
        q_index_of(q, q[w].1) == w,
        q_time_of(q, q[w].1) == q[w].0,
{
    assert(q_has(q, q[w].1));
    let i = q_index_of(q, q[w].1);
    if i != w {
        if i < w {
            assert(q[i].1 != q[w].1);
        } else {
            assert(q[w].1 != q[i].1);
        }
    }
}

/// A queue of at most one `(due_time, key)` entry per key, held in
/// ascending `(time, key)` order.
pub struct TimeQueue {
    entries: Vec<(u64, String)>,
}

impl View for TimeQueue {
    type V = Seq<(u64, Seq<char>)>;

    closed spec fn view(&self) -> Seq<(u64, Seq<char>)> {
        qview(self.entries@)
    }
}

proof fn lemma_qview_remove(e: Seq<(u64, String)>, i: int)
    requires
        0 <= i < e.len(),
    ensures
        qview(e.remove(i)) =~= qview(e).remove(i),
{
    e.remove_ensures(i);
    qview(e).remove_ensures(i);
}

proof fn lemma_qview_insert(e: Seq<(u64, String)>, i: int, t: u64, id: String)
    requires
        0 <= i <= e.len(),
    ensures
        qview(e.insert(i, (t, id))) =~= qview(e).insert(i, (t, id@)),
{
    e.insert_ensures(i, (t, id));
    qview(e).insert_ensures(i, (t, id@));
}

/// Removing one entry keeps order and key-uniqueness and leaves every other
/// key with its time.
proof fn lemma_q_remove_keeps(q: Seq<(u64, Seq<char>)>, i: int)
    requires
        q_sorted(q),
        q_unique(q),
        0 <= i < q.len(),
    ensures
        q_sorted(q.remove(i)),
        q_unique(q.remove(i)),
        !q_has(q.remove(i), q[i].1),
        forall|x: Seq<char>| x != q[i].1 ==> q_has(q.remove(i), x) == q_has(q, x),
        forall|x: Seq<char>|
            x != q[i].1 && q_has(q, x) ==> q_time_of(q.remove(i), x) == q_time_of(q, x),
{
    let r = q.remove(i);
    q.remove_ensures(i);
    assert forall|a: int, b: int| 0 <= a < b < r.len() implies entry_lt(r[a], r[b]) && r[a].1
        != r[b].1 by {
        let a0 = if a < i {
            a
        } else {
            a + 1
        };
        let b0 = if b < i {
            b
        } else {
            b + 1
        };
        assert(r[a] == q[a0]);
        assert(r[b] == q[b0]);
    }
    assert forall|k: int| 0 <= k < r.len() implies r[k].1 != q[i].1 by {
        let k0 = if k < i {
            k
        } else {
            k + 1
        };
        assert(r[k] == q[k0]);
    }
    assert forall|x: Seq<char>| x != q[i].1 implies q_has(r, x) == q_has(q, x) by {
        if q_has(q, x) {
            let w = q_index_of(q, x);
            let w2 = if w < i {
                w
            } else {
                w - 1
            };
            assert(r[w2] == q[w]);
            assert(q_has(r, x));
        }
        if q_has(r, x) {
            let w = q_index_of(r, x);
            let w0 = if w < i {
                w
            } else {
                w + 1
            };
            assert(r[w] == q[w0]);
            assert(q_has(q, x));
        }
    }
    assert forall|x: Seq<char>| x != q[i].1 && q_has(q, x) implies q_time_of(r, x) == q_time_of(
        q,
        x,
    ) by {
        let w = q_index_of(q, x);
        lemma_q_entry_at(q, w);
        let w2 = if w < i {
            w
        } else {
            w - 1
        };
        assert(r[w2] == q[w]);
        lemma_q_entry_at(r, w2);
    }
}

impl TimeQueue {
    /// Order plus key-uniqueness: the queue's invariant.
    pub open spec fn wf(&self) -> bool {
        q_sorted(self@) && q_unique(self@)
    }

    pub fn new() -> (q: TimeQueue)
        ensures
            q@ =~= Seq::<(u64, Seq<char>)>::empty(),
            q.wf(),
    {
        let q = TimeQueue { entries: Vec::new() };
        proof {
            assert(q@ =~= Seq::<(u64, Seq<char>)>::empty());
        }
        q
    }

    pub fn len(&self) -> (n: usize)
        ensures
            n == self@.len(),
    {
        self.entries.len()
    }

    /// The entry at a position, by copy.
    pub fn get(&self, i: usize) -> (r: (u64, String))
        requires
            i < self@.len(),
        ensures
            r.0 == self@[i as int].0,
            r.1@ == self@[i as int].1,
    {
        let t = self.entries[i].0;
        let id = self.entries[i].1.clone();
        (t, id)
    }

    /// Whether some entry carries this key.
    pub fn contains_key(&self, id: &String) -> (r: bool)
        ensures
            r == q_has(self@, id@),
    {
        let n = self.entries.len();
        let mut i: usize = 0;
        while i < n
            invariant
                i <= n,
                n == self@.len(),
                forall|k: int| 0 <= k < i ==> self@[k].1 != id@,
            decreases n - i,
        {
            if self.entries[i].1 == *id {
                proof {
                    assert(self@[i as int].1 == id@);
                }
                return true;
            }
            i = i + 1;
        }
        false
    }

    /// Removes the entry carrying this key, if any; every other entry keeps
    /// its position relative to the rest.
    pub fn remove_by_key(&mut self, id: &String)
        requires
            old(self).wf(),
        ensures
            final(self).wf(),
            !q_has(final(self)@, id@),
            q_has(old(self)@, id@) ==> final(self)@ == old(self)@.remove(
                q_index_of(old(self)@, id@),
            ),
            !q_has(old(self)@, id@) ==> final(self)@ == old(self)@,
            forall|x: Seq<char>| x != id@ ==> q_has(final(self)@, x) == q_has(old(self)@, x),
            forall|x: Seq<char>|
                x != id@ && q_has(old(self)@, x) ==> q_time_of(final(self)@, x) == q_time_of(
                    old(self)@,
                    x,
                ),
    {
        let n = self.entries.len();
        let mut i: usize = 0;
        while i < n
            invariant
                i <= n,
                n == self@.len(),
                self@ == old(self)@,
                self.entries@ == old(self).entries@,
                q_sorted(self@),
                q_unique(self@),
                forall|k: int| 0 <= k < i ==> self@[k].1 != id@,
            decreases n - i,
        {
            if self.entries[i].1 == *id {
                proof {
                    assert(self@[i as int].1 == id@);
                    lemma_q_entry_at(self@, i as int);
                    lemma_q_remove_keeps(self@, i as int);
                    lemma_qview_remove(self.entries@, i as int);
                }
                self.entries.remove(i);
                return ;
            }
            i = i + 1;
        }
        proof {
            assert(!q_has(self@, id@));
        }
    }

    /// Inserts the key at the given due-time, replacing the key's former
    /// entry if it had one.
    pub fn push_or_update(&mut self, id: String, t: u64)
        requires
            old(self).wf(),
        ensures
            final(self).wf(),
            q_has(final(self)@, id@),
            q_time_of(final(self)@, id@) == t,
            forall|x: Seq<char>| x != id@ ==> q_has(final(self)@, x) == q_has(old(self)@, x),
            forall|x: Seq<char>|
                x != id@ && q_has(old(self)@, x) ==> q_time_of(final(self)@, x) == q_time_of(
                    old(self)@,
                    x,
                ),
            final(self)@.len() == old(self)@.len() + (if q_has(old(self)@, id@) {
                0int
            } else {
                1int
            }),
    {
        proof {
            if q_has(old(self)@, id@) {
                lemma_q_entry_at(old(self)@, q_index_of(old(self)@, id@));
            }
        }
        self.remove_by_key(&id);
        let ghost mid = self@;
        let n = self.entries.len();
        let mut j: usize = 0;
        while j < n
            invariant
                j <= n,
                n == self@.len(),
                self@ == mid,
                self.entries@.len() == n,
                forall|k: int| 0 <= k < j ==> entry_lt(self@[k], (t, id@)),
            ensures
                j <= n,
                self@ == mid,
                forall|k: int| 0 <= k < j ==> entry_lt(self@[k], (t, id@)),
                j < n ==> !entry_lt(self@[j as int], (t, id@)),
            decreases n - j,
        {
            let e_t = self.entries[j].0;
            let before = e_t < t || (e_t == t && str_lt(self.entries[j].1.as_str(), id.as_str()));
            proof {
                assert(self@[j as int] == (self.entries@[j as int].0, self.entries@[j as int].1@));
            }
            if !before {
                break ;
            }
            j = j + 1;
        }
        proof {
            let q = self@;
            let new = (t, id@);
            assert(!q_has(q, id@));
            if (j as int) < q.len() {
                assert(!entry_lt(q[j as int], new));
                assert(q[j as int].1 != id@) by {
                    assert(q_has(q, q[j as int].1)) by {
                        lemma_q_entry_at(q, j as int);
                    }
                }
                lemma_entry_lt_trichotomy(q[j as int], new);
                assert(entry_lt(new, q[j as int]));
            }
            let r = q.insert(j as int, new);
            q.insert_ensures(j as int, new);
            assert forall|a: int, b: int| 0 <= a < b < r.len() implies entry_lt(r[a], r[b])
                && r[a].1 != r[b].1 by {
                let ji = j as int;
                if b == ji {
                    assert(r[a] == q[a]);
                    assert(entry_lt(r[a], new));
                    assert(r[a].1 != id@) by {
                        lemma_q_entry_at(q, a);
                    }
                } else if a == ji {
                    assert(r[b] == q[b - 1]);
                    assert(b - 1 >= ji);
                    if b - 1 == ji {
                        assert(entry_lt(new, q[ji]));
                    } else {
                        assert(entry_lt(q[ji], q[b - 1]));
                        lemma_entry_lt_transitive(new, q[ji], q[b - 1]);
                    }
                    assert(r[b].1 != id@) by {
                        lemma_q_entry_at(q, b - 1);
                    }
                } else {
                    let a0 = if a < ji {
                        a
                    } else {
                        a - 1
                    };
                    let b0 = if b < ji {
                        b
                    } else {
                        b - 1
                    };
                    assert(r[a] == q[a0]);
                    assert(r[b] == q[b0]);
                    if a0 < b0 {
                        assert(entry_lt(q[a0], q[b0]));
                    } else {
                        assert(a0 == b0 && a < ji && b > ji);
                        assert(false) by {
                            assert(r[b] == q[b - 1]);
                            assert(r[a] == q[a]);
                            assert(a == b - 1);
                            lemma_entry_lt_irreflexive(q[a0]);
                            assert(entry_lt(q[a0], new) && entry_lt(new, q[a0]));
                            lemma_entry_lt_transitive(q[a0], new, q[a0]);
                        }
                    }
                }
            }
            lemma_qview_insert(self.entries@, j as int, t, id);
        }
        let ghost q = self@;
        let ghost new = (t, id@);
        self.entries.insert(j, (t, id));
        proof {
            assert(self@ == q.insert(j as int, new));
            q.insert_ensures(j as int, new);
            let r = self@;
            lemma_q_entry_at(r, j as int);
            assert forall|x: Seq<char>| x != id@ implies q_has(r, x) == q_has(q, x) by {
                if q_has(q, x) {
                    let w = q_index_of(q, x);
                    let w2 = if w < j as int {
                        w
                    } else {
                        w + 1
                    };
                    assert(r[w2] == q[w]);
                    assert(q_has(r, x));
                }
                if q_has(r, x) {
                    let w = q_index_of(r, x);
                    let w0 = if w < j as int {
                        w
                    } else {
                        w - 1
                    };
                    assert(r[w] == q[w0]);
                    assert(q_has(q, x));
                }
            }
            assert forall|x: Seq<char>| x != id@ && q_has(q, x) implies q_time_of(r, x)
                == q_time_of(q, x) by {
                let w = q_index_of(q, x);
                lemma_q_entry_at(q, w);
                let w2 = if w < j as int {
                    w
                } else {
                    w + 1
                };
                assert(r[w2] == q[w]);
                lemma_q_entry_at(r, w2);
            }
            assert forall|x: Seq<char>|
                x != id@ && q_has(old(self)@, x) implies q_time_of(final(self)@, x) == q_time_of(
                old(self)@,
                x,
            ) by {}
        }
    }

    /// Appends an entry at the tail, provided it keeps the queue's order
    /// and its key is new; reports whether it was accepted.  This is how a
    /// queue is rebuilt from a snapshot.
    pub fn push_back(&mut self, id: String, t: u64) -> (r: bool)
        requires
            old(self).wf(),
        ensures
            final(self).wf(),
            r == ((old(self)@.len() == 0 || entry_lt(old(self)@.last(), (t, id@))) && !q_has(
                old(self)@,
                id@,
            )),
            r ==> final(self)@ == old(self)@.push((t, id@)),
            !r ==> final(self)@ == old(self)@,
    {
        let n = self.entries.len();
        let ok_order = if n == 0 {
            true
        } else {
            let e_t = self.entries[n - 1].0;
            proof {
                assert(self@[n - 1] == (self.entries@[n - 1].0, self.entries@[n - 1].1@));
            }
            e_t < t || (e_t == t && str_lt(self.entries[n - 1].1.as_str(), id.as_str()))
        };
        let ok_unique = !self.contains_key(&id);
        if ok_order && ok_unique {
            let ghost q = self@;
            let ghost new = (t, id@);
            self.entries.push((t, id));
            proof {
                assert(self@ =~= q.push(new));
                assert forall|a: int, b: int|
                    0 <= a < b < self@.len() implies entry_lt(self@[a], self@[b]) && self@[a].1
                    != self@[b].1 by {
                    if b < q.len() {
                        assert(entry_lt(q[a], q[b]));
                    } else {
                        assert(self@[b] == new);
                        if a < q.len() - 1 {
                            assert(entry_lt(q[a], q[q.len() - 1]));
                            lemma_entry_lt_transitive(q[a], q[q.len() - 1], new);
                        }
                        assert(q_has(q, q[a].1)) by {
                            lemma_q_entry_at(q, a);
                        }
                    }
                }
            }
            true
        } else {
            false
        }
    }

    /// The head entry (least `(time, key)`), by copy, without mutation.
    pub fn peek(&self) -> (r: Option<(u64, String)>)
        ensures
            self@.len() == 0 ==> r is None,
            self@.len() > 0 ==> (r matches Some(e) && e.0 == self@[0].0 && e.1@ == self@[0].1),
    {
        if self.entries.len() == 0 {
            None
        } else {
            let t = self.entries[0].0;
            let id = self.entries[0].1.clone();
            Some((t, id))
        }
    }

    /// Whether the head entry exists and is due at `now`.
    pub fn head_due(&self, now: u64) -> (r: bool)
        ensures
            r == (self@.len() > 0 && self@[0].0 <= now),
    {
        self.entries.len() > 0 && self.entries[0].0 <= now
    }

    /// Pops the head entry if its due-time has arrived.
    pub fn pop_due(&mut self, now: u64) -> (r: Option<(u64, String)>)
        requires
            old(self).wf(),
        ensures
            final(self).wf(),
            if old(self)@.len() > 0 && old(self)@[0].0 <= now {
                r matches Some(e) && e.0 == old(self)@[0].0 && e.1@ == old(self)@[0].1
                    && final(self)@ == old(self)@.remove(0) && !q_has(final(self)@, e.1@) && (
                forall|x: Seq<char>|
                    x != e.1@ ==> q_has(final(self)@, x) == q_has(old(self)@, x) && (q_has(
                        old(self)@,
                        x,
                    ) ==> q_time_of(final(self)@, x) == q_time_of(old(self)@, x)))
            } else {
                r is None && *final(self) == *old(self)
            },
    {
        if self.entries.len() > 0 && self.entries[0].0 <= now {
            proof {
                lemma_q_remove_keeps(self@, 0);
                lemma_qview_remove(self.entries@, 0);
            }
            let e = self.entries.remove(0);
            Some(e)
        } else {
            None
        }
    }
}

} // verus!
