//! A string-keyed association map with unique keys, viewed abstractly as a
//! `Map<Seq<char>, T::V>`. This is the one physical layout behind every
//! persisted table of the registry.
use vstd::prelude::*;

verus! {

/// The abstract contents of an association list: later entries win, though
/// well-formed lists never repeat a key.
pub open spec fn map_of<T: View>(s: Seq<(String, T)>) -> Map<Seq<char>, T::V>
    decreases s.len(),
{
    if s.len() == 0 {
        Map::empty()
    } else {
        map_of(s.drop_last()).insert(s.last().0@, s.last().1@)
    }
}

/// No two entries share a key.
pub open spec fn keys_unique<T>(s: Seq<(String, T)>) -> bool {
    forall|i: int, j: int|
        0 <= i < j < s.len() ==> (#[trigger] s[i]).0@ != (#[trigger] s[j]).0@
}

/// Uniqueness survives dropping the last entry.
pub proof fn lemma_keys_unique_drop_last<T>(s: Seq<(String, T)>)
    requires
        keys_unique(s),
        s.len() > 0,
    ensures
        keys_unique(s.drop_last()),
{
    assert forall|i: int, j: int| 0 <= i < j < s.drop_last().len() implies (#[trigger] s.drop_last()[
        i
    ]).0@ != (#[trigger] s.drop_last()[j]).0@ by {
        assert(s.drop_last()[i] == s[i]);
        assert(s.drop_last()[j] == s[j]);
    }
}

/// Uniqueness survives removing any entry.
pub proof fn lemma_keys_unique_remove<T>(s: Seq<(String, T)>, i: int)
    requires
        keys_unique(s),
        0 <= i < s.len(),
    ensures
        keys_unique(s.remove(i)),
{
    assert forall|a: int, b: int| 0 <= a < b < s.remove(i).len() implies (#[trigger] s.remove(i)[
        a
    ]).0@ != (#[trigger] s.remove(i)[b]).0@ by {
        let a0: int = if a < i { a } else { a + 1 };
        let b0: int = if b < i { b } else { b + 1 };
        assert(s.remove(i)[a] == s[a0]);
        assert(s.remove(i)[b] == s[b0]);
    }
}

/// A key is in the abstract map exactly when some entry holds it.
pub proof fn lemma_map_of_contains<T: View>(s: Seq<(String, T)>, k: Seq<char>)
    ensures
        map_of(s).contains_key(k) <==> exists|i: int| 0 <= i < s.len() && (#[trigger] s[i]).0@ == k,
    decreases s.len(),
{
    if s.len() > 0 {
        lemma_map_of_contains(s.drop_last(), k);
        if s.last().0@ == k {
            assert((s[s.len() - 1]).0@ == k);
        } else {
            if map_of(s).contains_key(k) {
                let i = choose|i: int| 0 <= i < s.drop_last().len() && (#[trigger] s.drop_last()[
                    i
                ]).0@ == k;
                assert(s.drop_last()[i] == s[i]);
                assert((s[i]).0@ == k);
            }
            if exists|i: int| 0 <= i < s.len() && (#[trigger] s[i]).0@ == k {
                let i = choose|i: int| 0 <= i < s.len() && (#[trigger] s[i]).0@ == k;
                assert(i < s.len() - 1);
                assert(s.drop_last()[i] == s[i]);
            }
        }
    }
}

/// Under unique keys, the abstract map sends each entry's key to its value.
pub proof fn lemma_map_of_index<T: View>(s: Seq<(String, T)>, i: int)
    requires
        keys_unique(s),
        0 <= i < s.len(),
    ensures
        map_of(s).contains_key((s[i]).0@),
        map_of(s)[(s[i]).0@] == (s[i]).1@,
    decreases s.len(),
{
    if i < s.len() - 1 {
        lemma_keys_unique_drop_last(s);
        lemma_map_of_index(s.drop_last(), i);
        assert(s.drop_last()[i] == s[i]);
        assert(s.last().0@ != (s[i]).0@);
    }
}

/// Removing an entry removes exactly its key from the abstract map.
pub proof fn lemma_map_of_remove<T: View>(s: Seq<(String, T)>, i: int)
    requires
        keys_unique(s),
        0 <= i < s.len(),
    ensures
        map_of(s.remove(i)) == map_of(s).remove((s[i]).0@),
    decreases s.len(),
{
    lemma_map_of_contains(s.drop_last(), s.last().0@);
    if i == s.len() - 1 {
        lemma_keys_unique_drop_last(s);
        assert forall|j: int| 0 <= j < s.drop_last().len() implies (#[trigger] s.drop_last()[j]).0@
            != s.last().0@ by {
            assert(s.drop_last()[j] == s[j]);
        }
        assert(!map_of(s.drop_last()).contains_key(s.last().0@));
        assert(s.remove(i) =~= s.drop_last());
        assert(map_of(s.drop_last()) =~= map_of(s.drop_last()).insert(
            s.last().0@,
            s.last().1@,
        ).remove(s.last().0@));
    } else {
        lemma_keys_unique_drop_last(s);
        lemma_map_of_remove(s.drop_last(), i);
        assert(s.drop_last()[i] == s[i]);
        assert(s.remove(i).drop_last() =~= s.drop_last().remove(i));
        assert(s.remove(i).last() == s.last());
        assert((s[i]).0@ != s.last().0@);
        assert(map_of(s.remove(i)) == map_of(s.drop_last().remove(i)).insert(
            s.last().0@,
            s.last().1@,
        ));
        assert(map_of(s.drop_last()).remove((s[i]).0@).insert(s.last().0@, s.last().1@)
            =~= map_of(s.drop_last()).insert(s.last().0@, s.last().1@).remove((s[i]).0@));
    }
}

/// Appending an entry inserts exactly its key into the abstract map.
pub proof fn lemma_map_of_push<T: View>(s: Seq<(String, T)>, p: (String, T))
    ensures
        map_of(s.push(p)) == map_of(s).insert(p.0@, p.1@),
{
    assert(s.push(p).drop_last() =~= s);
    assert(s.push(p).last() == p);
}

/// A string-keyed store with unique keys. The registry keeps one per table.
pub struct StrMap<T> {
    entries: Vec<(String, T)>,
}

impl<T: View> View for StrMap<T> {
    type V = Map<Seq<char>, T::V>;

    closed spec fn view(&self) -> Map<Seq<char>, T::V> {
        map_of(self.entries@)
    }
}

impl<T: View> StrMap<T> {
    /// Keys are pairwise distinct; every operation preserves this.
    pub closed spec fn wf(self) -> bool {
        keys_unique(self.entries@)
    }

    pub fn new() -> (r: StrMap<T>)
        ensures
            r.wf(),
            r@ == Map::<Seq<char>, T::V>::empty(),
    {
        StrMap { entries: Vec::new() }
    }

    /// Index of the entry holding `k`, if any.
    fn index_of(&self, k: &String) -> (r: Option<usize>)
        ensures
            match r {
                Some(i) => i < self.entries@.len() && (self.entries@[i as int]).0@ == k@,
                None => forall|i: int|
                    0 <= i < self.entries@.len() ==> (#[trigger] self.entries@[i]).0@ != k@,
            },
    {
        let n = self.entries.len();
        let mut i: usize = 0;
        while i < n
            invariant
                n == self.entries@.len(),
                i <= n,
                forall|j: int| 0 <= j < i ==> (#[trigger] self.entries@[j]).0@ != k@,
            decreases n - i,
        {
            if self.entries[i].0 == *k {
                return Some(i);
            }
            i = i + 1;
        }
        None
    }

    pub fn contains_key(&self, k: &String) -> (r: bool)
        ensures
            r == self@.contains_key(k@),
    {
        proof {
            lemma_map_of_contains(self.entries@, k@);
        }
        match self.index_of(k) {
            Some(_) => true,
            None => false,
        }
    }

    /// Borrow the value stored under `k`.
    pub fn get<'a>(&'a self, k: &String) -> (r: Option<&'a T>)
        requires
            self.wf(),
        ensures
            match r {
                Some(v) => self@.contains_key(k@) && v@ == self@[k@],
                None => !self@.contains_key(k@),
            },
    {
        proof {
            lemma_map_of_contains(self.entries@, k@);
        }
        match self.index_of(k) {
            Some(i) => {
                proof {
                    lemma_map_of_index(self.entries@, i as int);
                }
                Some(&self.entries[i].1)
            },
            None => None,
        }
    }

    /// Remove and return the value stored under `k`.
    pub fn take(&mut self, k: &String) -> (r: Option<T>)
        requires
            old(self).wf(),
        ensures
            final (self).wf(),
            match r {
                Some(v) => {
                    &&& old(self)@.contains_key(k@)
                    &&& v@ == old(self)@[k@]
                    &&& final (self)@ == old(self)@.remove(k@)
                },
                None => {
                    &&& !old(self)@.contains_key(k@)
                    &&& *final (self) == *old(self)
                },
            },
    {
        proof {
            lemma_map_of_contains(self.entries@, k@);
        }
        match self.index_of(k) {
            Some(i) => {
                proof {
                    lemma_map_of_index(self.entries@, i as int);
                    lemma_map_of_remove(self.entries@, i as int);
                    lemma_keys_unique_remove(self.entries@, i as int);
                }
                let p = self.entries.remove(i);
                Some(p.1)
            },
            None => None,
        }
    }

    /// Insert `v` under `k`, replacing any previous value.
    pub fn insert(&mut self, k: &String, v: T)
        requires
            old(self).wf(),
        ensures
            final (self).wf(),
            final (self)@ == old(self)@.insert(k@, v@),
    {
        let ghost m0 = self@;
        let _ = self.take(k);
        proof {
            lemma_map_of_contains(self.entries@, k@);
        }
        let ghost pre = self.entries@;
        self.entries.push((k.clone(), v));
        proof {
            lemma_map_of_push(pre, self.entries@.last());
            assert forall|a: int, b: int| 0 <= a < b < self.entries@.len() implies (
            #[trigger] self.entries@[a]).0@ != (#[trigger] self.entries@[b]).0@ by {
                if b < pre.len() {
                    assert(self.entries@[a] == pre[a]);
                    assert(self.entries@[b] == pre[b]);
                } else {
                    assert(self.entries@[a] == pre[a]);
                }
            }
            assert(self@ =~= m0.insert(k@, v@));
        }
    }

    /// Remove any value stored under `k`.
    pub fn remove(&mut self, k: &String)
        requires
            old(self).wf(),
        ensures
            final (self).wf(),
            final (self)@ == old(self)@.remove(k@),
    {
        let ghost m0 = self@;
        let r = self.take(k);
        proof {
            if r is None {
                assert(self@ =~= m0.remove(k@));
            }
        }
    }
}

} // verus!
