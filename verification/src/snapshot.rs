//! The remote snapshot's identity-to-digest mappings, as association
//! lists with exact removal semantics: a lookup removes the first
//! entry with the given key, and what remains at the end of a diff is
//! exactly what was never looked up.

use vstd::prelude::*;

verus! {

/// The value of the first entry with key `k`, if any.
pub open spec fn lookup_first<K, V>(s: Seq<(K, V)>, k: K) -> Option<V>
    decreases s.len(),
{
    if s.len() == 0 {
        Option::None
    } else if s.first().0 == k {
        Option::Some(s.first().1)
    } else {
        lookup_first(s.drop_first(), k)
    }
}

/// The entries with the first occurrence of key `k` removed.
pub open spec fn remove_first<K, V>(s: Seq<(K, V)>, k: K) -> Seq<(K, V)>
    decreases s.len(),
{
    if s.len() == 0 {
        s
    } else if s.first().0 == k {
        s.drop_first()
    } else {
        seq![s.first()] + remove_first(s.drop_first(), k)
    }
}

proof fn lemma_remove_first_at<K, V>(s: Seq<(K, V)>, k: K, i: int)
    requires
        0 <= i < s.len(),
        s[i].0 == k,
        forall|j: int| 0 <= j < i ==> (#[trigger] s[j]).0 != k,
    ensures
        remove_first(s, k) == s.remove(i),
        lookup_first(s, k) == Option::Some(s[i].1),
    decreases i,
{
    if i == 0 {
        assert(s.drop_first() =~= s.remove(0));
    } else {
        lemma_remove_first_at(s.drop_first(), k, i - 1);
        assert(s.remove(i) =~= seq![s.first()] + s.drop_first().remove(i - 1));
    }
}

proof fn lemma_remove_first_none<K, V>(s: Seq<(K, V)>, k: K)
    requires
        forall|j: int| 0 <= j < s.len() ==> (#[trigger] s[j]).0 != k,
    ensures
        remove_first(s, k) == s,
        lookup_first(s, k) is None,
    decreases s.len(),
{
    if s.len() > 0 {
        lemma_remove_first_none(s.drop_first(), k);
        assert(seq![s.first()] + s.drop_first() =~= s);
    }
}

/// A mapping from string identities to digests, in snapshot order.
pub struct StringMap {
    entries: Vec<(String, String)>,
}

impl View for StringMap {
    type V = Seq<(Seq<char>, Seq<char>)>;

    closed spec fn view(&self) -> Seq<(Seq<char>, Seq<char>)> {
        self.entries@.map_values(|p: (String, String)| (p.0@, p.1@))
    }
}

impl StringMap {
    pub fn new() -> (r: Self)
        ensures
            r@ == Seq::<(Seq<char>, Seq<char>)>::empty(),
    {
        let r = StringMap { entries: Vec::new() };
        proof {
            assert(r@ =~= Seq::<(Seq<char>, Seq<char>)>::empty());
        }
        r
    }

    /// Appends an entry; snapshots carry each identity once.
    pub fn insert(&mut self, key: String, digest: String)
        ensures
            final(self)@ == old(self)@.push((key@, digest@)),
    {
        let ghost prev = self.entries@;
        self.entries.push((key, digest));
        proof {
            assert forall|i: int| 0 <= i < self.entries@.len() implies #[trigger] self@[i]
                == prev.map_values(|p: (String, String)| (p.0@, p.1@)).push(
                (self.entries@.last().0@, self.entries@.last().1@),
            )[i] by {
                assert(self@[i] == (self.entries@[i].0@, self.entries@[i].1@));
                if i < prev.len() {
                    assert(prev.map_values(|p: (String, String)| (p.0@, p.1@))[i] == (
                        prev[i].0@,
                        prev[i].1@,
                    ));
                }
            }
            assert(final(self)@ =~= old(self)@.push((self.entries@.last().0@,
                self.entries@.last().1@)));
        }
    }

    pub fn len(&self) -> (n: usize)
        ensures
            n == self@.len(),
    {
        self.entries.len()
    }

    /// Removes the first entry with the given key and returns its
    /// digest.
    pub fn remove(&mut self, key: &String) -> (r: Option<String>)
        ensures
            final(self)@ == remove_first(old(self)@, key@),
            (match r {
                Option::Some(v) => lookup_first(old(self)@, key@) == Option::Some(v@),
                Option::None => lookup_first(old(self)@, key@) is None,
            }),
    {
        let mut i: usize = 0;
        while i < self.entries.len()
            invariant
                i <= self.entries.len(),
                self@ == old(self)@,
                forall|j: int| 0 <= j < i ==> (#[trigger] self@[j]).0 != key@,
            decreases self.entries.len() - i,
        {
            proof {
                assert(self@[i as int] == (self.entries@[i as int].0@, self.entries@[i as int].1@));
            }
            if String::eq(&self.entries[i].0, key) {
                let ghost prev = self.entries@;
                let ghost prevv = self@;
                let e = self.entries.remove(i);
                proof {
                    lemma_remove_first_at(prevv, key@, i as int);
                    assert(e == prev[i as int]);
                    assert(prevv[i as int] == (prev[i as int].0@, prev[i as int].1@));
                    assert forall|l: int| 0 <= l < self.entries@.len() implies #[trigger] self@[l]
                        == prevv.remove(i as int)[l] by {
                        assert(self@[l] == (self.entries@[l].0@, self.entries@[l].1@));
                        if l < i {
                            assert(prevv[l] == (prev[l].0@, prev[l].1@));
                        } else {
                            assert(prevv[l + 1] == (prev[l + 1].0@, prev[l + 1].1@));
                        }
                    }
                    assert(self@ =~= prevv.remove(i as int));
                }
                return Some(e.1);
            }
            i = i + 1;
        }
        proof {
            lemma_remove_first_none(self@, key@);
        }
        None
    }

    /// The keys that remain, in order.
    pub fn keys(&self) -> (r: Vec<String>)
        ensures
            r@.map_values(|s: String| s@) == self@.map_values(|p: (Seq<char>, Seq<char>)| p.0),
    {
        let mut r: Vec<String> = Vec::new();
        let mut i: usize = 0;
        proof {
            assert(r@.map_values(|s: String| s@) =~= self@.map_values(
                |p: (Seq<char>, Seq<char>)| p.0,
            ).take(0));
        }
        while i < self.entries.len()
            invariant
                i <= self.entries.len(),
                self.entries@.len() == self@.len(),
                r@.map_values(|s: String| s@) == self@.map_values(
                    |p: (Seq<char>, Seq<char>)| p.0,
                ).take(i as int),
            decreases self.entries.len() - i,
        {
            let ghost prevr = r@;
            let kstr = self.entries[i].0.clone();
            let ghost kv = kstr@;
            r.push(kstr);
            proof {
                assert(kv == self.entries@[i as int].0@);
                assert(prevr.map_values(|s: String| s@).len() == prevr.len());
                assert(prevr.map_values(|s: String| s@).len() == i as int);
                assert(r@ == prevr.push(r@[prevr.len() as int]));
                assert(r@[prevr.len() as int]@ == kv);
                let whole = self@.map_values(|p: (Seq<char>, Seq<char>)| p.0);
                assert(whole.len() == self@.len());
                assert(self@[i as int] == (self.entries@[i as int].0@, self.entries@[i as int].1@));
                assert(whole[i as int] == self@[i as int].0);
                assert(r@.len() == prevr.len() + 1);
                let nmv = r@.map_values(|s: String| s@);
                let pmv = prevr.map_values(|s: String| s@);
                assert forall|l: int| 0 <= l < r@.len() implies #[trigger] nmv[l] == whole.take(
                    i + 1,
                )[l] by {
                    assert(nmv[l] == r@[l]@);
                    if l < prevr.len() {
                        assert(pmv[l] == prevr[l]@);
                    }
                }
                assert(nmv =~= whole.take(i + 1));
            }
            i = i + 1;
        }
        proof {
            let whole = self@.map_values(|p: (Seq<char>, Seq<char>)| p.0);
            assert(whole.take(whole.len() as int) =~= whole);
        }
        r
    }
}

/// A mapping from 128-bit identities to digests, in snapshot order.
pub struct IdMap {
    entries: Vec<(u128, String)>,
}

impl View for IdMap {
    type V = Seq<(u128, Seq<char>)>;

    closed spec fn view(&self) -> Seq<(u128, Seq<char>)> {
        self.entries@.map_values(|p: (u128, String)| (p.0, p.1@))
    }
}

impl IdMap {
    pub fn new() -> (r: Self)
        ensures
            r@ == Seq::<(u128, Seq<char>)>::empty(),
    {
        let r = IdMap { entries: Vec::new() };
        proof {
            assert(r@ =~= Seq::<(u128, Seq<char>)>::empty());
        }
        r
    }

    /// Appends an entry; snapshots carry each identity once.
    pub fn insert(&mut self, key: u128, digest: String)
        ensures
            final(self)@ == old(self)@.push((key, digest@)),
    {
        let ghost prev = self.entries@;
        self.entries.push((key, digest));
        proof {
            assert forall|i: int| 0 <= i < self.entries@.len() implies #[trigger] self@[i]
                == prev.map_values(|p: (u128, String)| (p.0, p.1@)).push(
                (self.entries@.last().0, self.entries@.last().1@),
            )[i] by {
                assert(self@[i] == (self.entries@[i].0, self.entries@[i].1@));
                if i < prev.len() {
                    assert(prev.map_values(|p: (u128, String)| (p.0, p.1@))[i] == (
                        prev[i].0,
                        prev[i].1@,
                    ));
                }
            }
            assert(final(self)@ =~= old(self)@.push((self.entries@.last().0,
                self.entries@.last().1@)));
        }
    }

    pub fn len(&self) -> (n: usize)
        ensures
            n == self@.len(),
    {
        self.entries.len()
    }

    /// Removes the first entry with the given key and returns its
    /// digest.
    pub fn remove(&mut self, key: u128) -> (r: Option<String>)
        ensures
            final(self)@ == remove_first(old(self)@, key),
            (match r {
                Option::Some(v) => lookup_first(old(self)@, key) == Option::Some(v@),
                Option::None => lookup_first(old(self)@, key) is None,
            }),
    {
        let mut i: usize = 0;
        while i < self.entries.len()
            invariant
                i <= self.entries.len(),
                self@ == old(self)@,
                forall|j: int| 0 <= j < i ==> (#[trigger] self@[j]).0 != key,
            decreases self.entries.len() - i,
        {
            proof {
                assert(self@[i as int] == (self.entries@[i as int].0, self.entries@[i as int].1@));
            }
            if self.entries[i].0 == key {
                let ghost prev = self.entries@;
                let ghost prevv = self@;
                let e = self.entries.remove(i);
                proof {
                    lemma_remove_first_at(prevv, key, i as int);
                    assert(e == prev[i as int]);
                    assert(prevv[i as int] == (prev[i as int].0, prev[i as int].1@));
                    assert forall|l: int| 0 <= l < self.entries@.len() implies #[trigger] self@[l]
                        == prevv.remove(i as int)[l] by {
                        assert(self@[l] == (self.entries@[l].0, self.entries@[l].1@));
                        if l < i {
                            assert(prevv[l] == (prev[l].0, prev[l].1@));
                        } else {
                            assert(prevv[l + 1] == (prev[l + 1].0, prev[l + 1].1@));
                        }
                    }
                    assert(self@ =~= prevv.remove(i as int));
                }
                return Some(e.1);
            }
            i = i + 1;
        }
        proof {
            lemma_remove_first_none(self@, key);
        }
        None
    }

    /// The keys that remain, in order.
    pub fn keys(&self) -> (r: Vec<u128>)
        ensures
            r@ == self@.map_values(|p: (u128, Seq<char>)| p.0),
    {
        let mut r: Vec<u128> = Vec::new();
        let mut i: usize = 0;
        proof {
            assert(r@ =~= self@.map_values(|p: (u128, Seq<char>)| p.0).take(0));
        }
        while i < self.entries.len()
            invariant
                i <= self.entries.len(),
                self.entries@.len() == self@.len(),
                r@ == self@.map_values(|p: (u128, Seq<char>)| p.0).take(i as int),
            decreases self.entries.len() - i,
        {
            r.push(self.entries[i].0);
            proof {
                let whole = self@.map_values(|p: (u128, Seq<char>)| p.0);
                assert(whole.len() == self@.len());
                assert(self@[i as int] == (self.entries@[i as int].0, self.entries@[i as int].1@));
                assert(whole[i as int] == self@[i as int].0);
                assert(r@ =~= whole.take(i + 1));
            }
            i = i + 1;
        }
        proof {
            let whole = self@.map_values(|p: (u128, Seq<char>)| p.0);
            assert(whole.take(whole.len() as int) =~= whole);
        }
        r
    }
}

} // verus!
