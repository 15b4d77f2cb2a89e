//! An association table from byte-sequence keys to values. Keys are unique
//! and a repeated insert overwrites, so the table abstracts to a finite map.
//! The route tables and the static-file cache both build on it.

use vstd::prelude::*;

use crate::util::bytes_eq;

verus! {

/// The map that an entry sequence denotes: later entries win.
pub closed spec fn table_model<V>(s: Seq<(Vec<u8>, V)>) -> Map<Seq<u8>, V>
    decreases s.len(),
{
    if s.len() == 0 {
        Map::empty()
    } else {
        table_model(s.drop_last()).insert(s.last().0@, s.last().1)
    }
}

/// No two entries share a key.
pub closed spec fn unique_keys<V>(s: Seq<(Vec<u8>, V)>) -> bool {
    forall|p: int, q: int| 0 <= p < q < s.len() ==> s[p].0@ != s[q].0@
}

/// A key is in the model exactly when some entry holds it.
pub proof fn lemma_table_contains<V>(s: Seq<(Vec<u8>, V)>, k: Seq<u8>)
    ensures
        table_model(s).contains_key(k) <==> exists|i: int| 0 <= i < s.len() && s[i].0@ == k,
    decreases s.len(),
{
    if s.len() > 0 {
        lemma_table_contains(s.drop_last(), k);
        if s.last().0@ == k {
            assert(s[s.len() - 1].0@ == k);
        } else {
            if table_model(s).contains_key(k) {
                let i = choose|i: int| 0 <= i < s.drop_last().len() && s.drop_last()[i].0@ == k;
                assert(s[i].0@ == k);
            }
            if exists|i: int| 0 <= i < s.len() && s[i].0@ == k {
                let i = choose|i: int| 0 <= i < s.len() && s[i].0@ == k;
                assert(s.drop_last()[i].0@ == k);
            }
        }
    }
}

/// Under unique keys, the entry at `i` gives the model's value for its key.
pub proof fn lemma_table_lookup<V>(s: Seq<(Vec<u8>, V)>, i: int)
    requires
        unique_keys(s),
        0 <= i < s.len(),
    ensures
        table_model(s).contains_key(s[i].0@),
        table_model(s)[s[i].0@] == s[i].1,
    decreases s.len(),
{
    if i < s.len() - 1 {
        assert(unique_keys(s.drop_last()));
        lemma_table_lookup(s.drop_last(), i);
        assert(s.drop_last()[i] == s[i]);
        assert(s[i].0@ != s.last().0@);
    }
}

/// Overwriting the entry that holds a key updates the model at that key.
pub proof fn lemma_table_update<V>(s: Seq<(Vec<u8>, V)>, i: int, k: Vec<u8>, v: V)
    requires
        unique_keys(s),
        0 <= i < s.len(),
        s[i].0@ == k@,
    ensures
        table_model(s.update(i, (k, v))) == table_model(s).insert(k@, v),
    decreases s.len(),
{
    let s2 = s.update(i, (k, v));
    if i == s.len() - 1 {
        assert(s2.drop_last() =~= s.drop_last());
        assert(s2.last() == (k, v));
        assert(table_model(s.drop_last()).insert(s.last().0@, s.last().1).insert(k@, v)
            =~= table_model(s.drop_last()).insert(k@, v));
    } else {
        assert(unique_keys(s.drop_last()));
        assert(s2.drop_last() =~= s.drop_last().update(i, (k, v)));
        lemma_table_update(s.drop_last(), i, k, v);
        assert(s2.last() == s.last());
        assert(s[i].0@ != s.last().0@);
        assert(table_model(s.drop_last()).insert(k@, v).insert(s.last().0@, s.last().1)
            =~= table_model(s.drop_last()).insert(s.last().0@, s.last().1).insert(k@, v));
    }
}

/// Appending a fresh entry inserts its pair into the model.
pub proof fn lemma_table_push<V>(s: Seq<(Vec<u8>, V)>, k: Vec<u8>, v: V)
    ensures
        table_model(s.push((k, v))) == table_model(s).insert(k@, v),
{
    assert(s.push((k, v)).drop_last() =~= s);
    assert(s.push((k, v)).last() == (k, v));
}

/// An association table from byte keys to values of `V`.
pub struct ByteTable<V> {
    entries: Vec<(Vec<u8>, V)>,
}

impl<V> View for ByteTable<V> {
    type V = Map<Seq<u8>, V>;

    closed spec fn view(&self) -> Map<Seq<u8>, V> {
        table_model(self.entries@)
    }
}

impl<V> ByteTable<V> {
    /// The table's entries hold pairwise distinct keys.
    pub closed spec fn wf(self) -> bool {
        unique_keys(self.entries@)
    }

    /// An empty table.
    pub fn new() -> (r: Self)
        ensures
            r@ == Map::<Seq<u8>, V>::empty(),
            r.wf(),
    {
        let r = ByteTable { entries: Vec::new() };
        proof {
            assert(r.entries@.len() == 0);
        }
        r
    }

    /// Binds `key` to `value`; an existing binding for `key` is overwritten.
    pub fn insert(&mut self, key: Vec<u8>, value: V)
        requires
            old(self).wf(),
        ensures
            final(self).wf(),
            final(self)@ == old(self)@.insert(key@, value),
    {
        let n = self.entries.len();
        let mut i: usize = 0;
        while i < n
            invariant
                0 <= i <= n,
                n == self.entries@.len(),
                self.entries@ == old(self).entries@,
                unique_keys(self.entries@),
                forall|t: int| 0 <= t < i ==> self.entries@[t].0@ != key@,
            decreases n - i,
        {
            let hit = {
                let e = &self.entries[i];
                bytes_eq(e.0.as_slice(), key.as_slice())
            };
            if hit {
                let ghost s_old = self.entries@;
                proof {
                    lemma_table_update(s_old, i as int, key, value);
                }
                self.entries.set(i, (key, value));
                proof {
                    let s2 = self.entries@;
                    assert forall|p: int, q: int| 0 <= p < q < s2.len() implies s2[p].0@
                        != s2[q].0@ by {
                        assert(s2[p].0@ == s_old[p].0@);
                        assert(s2[q].0@ == s_old[q].0@);
                    }
                }
                return ;
            }
            i = i + 1;
        }
        let ghost s_old = self.entries@;
        proof {
            lemma_table_push(s_old, key, value);
        }
        self.entries.push((key, value));
        proof {
            let s2 = self.entries@;
            assert forall|p: int, q: int| 0 <= p < q < s2.len() implies s2[p].0@ != s2[q].0@ by {
                if q < s2.len() - 1 {
                    assert(s2[p].0@ == s_old[p].0@);
                    assert(s2[q].0@ == s_old[q].0@);
                } else {
                    assert(s2[p].0@ == s_old[p].0@);
                    assert(s2[q].0@ == key@);
                }
            }
        }
    }

    /// Looks a key up; `Some` exactly when the key is bound.
    pub fn get(&self, key: &[u8]) -> (r: Option<&V>)
        requires
            self.wf(),
        ensures
            match r {
                Some(v) => self@.contains_key(key@) && *v == self@[key@],
                None => !self@.contains_key(key@),
            },
    {
        let n = self.entries.len();
        let mut i: usize = 0;
        while i < n
            invariant
                0 <= i <= n,
                n == self.entries@.len(),
                unique_keys(self.entries@),
                forall|t: int| 0 <= t < i ==> self.entries@[t].0@ != key@,
            decreases n - i,
        {
            let e = &self.entries[i];
            if bytes_eq(e.0.as_slice(), key) {
                proof {
                    lemma_table_lookup(self.entries@, i as int);
                }
                return Some(&e.1);
            }
            i = i + 1;
        }
        proof {
            lemma_table_contains(self.entries@, key@);
            if table_model(self.entries@).contains_key(key@) {
                let w = choose|t: int| 0 <= t < self.entries@.len() && self.entries@[t].0@ == key@;
                assert(self.entries@[w].0@ != key@);
            }
        }
        None
    }
}

} // verus!
