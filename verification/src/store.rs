//! The backing key-value store: byte-string keys, byte-string values, three
//! point operations. One store may be shared by several collections, each
//! under its own key prefix.

use vstd::map::*;
use vstd::prelude::*;

verus! {

/// The pairs of `s`, read as a key-value mapping.
spec fn map_of(s: Seq<(Vec<u8>, Vec<u8>)>) -> Map<Seq<u8>, Seq<u8>> {
    Map::new(
        |k: Seq<u8>| exists|n: int| 0 <= n < s.len() && (#[trigger] s[n]).0@ == k,
        |k: Seq<u8>|
            {
                let n = choose|n: int| 0 <= n < s.len() && (#[trigger] s[n]).0@ == k;
                s[n].1@
            },
    )
}

/// No two pairs of `s` share a key.
spec fn distinct_keys(s: Seq<(Vec<u8>, Vec<u8>)>) -> bool {
    forall|m: int, n: int| 0 <= m < n < s.len() ==> (#[trigger] s[m]).0@ != (#[trigger] s[n]).0@
}

/// With distinct keys, a key determines its position.
proof fn lemma_position_unique(s: Seq<(Vec<u8>, Vec<u8>)>, m: int, n: int)
    requires
        distinct_keys(s),
        0 <= m < s.len(),
        0 <= n < s.len(),
        s[m].0@ == s[n].0@,
    ensures
        m == n,
{
    if m < n {
        assert(s[m].0@ != s[n].0@);
    } else if n < m {
        assert(s[n].0@ != s[m].0@);
    }
}

/// The pair at position `n` is in the mapping, under its own key.
proof fn lemma_map_of_index(s: Seq<(Vec<u8>, Vec<u8>)>, n: int)
    requires
        distinct_keys(s),
        0 <= n < s.len(),
    ensures
        map_of(s).contains_key(s[n].0@),
        map_of(s)[s[n].0@] == s[n].1@,
{
    let k = s[n].0@;
    assert(0 <= n < s.len() && s[n].0@ == k);
    let m = choose|m: int| 0 <= m < s.len() && (#[trigger] s[m]).0@ == k;
    lemma_position_unique(s, m, n);
}

/// A key under no pair is not in the mapping.
proof fn lemma_map_of_absent(s: Seq<(Vec<u8>, Vec<u8>)>, k: Seq<u8>)
    requires
        forall|n: int| 0 <= n < s.len() ==> (#[trigger] s[n]).0@ != k,
    ensures
        !map_of(s).contains_key(k),
{
}

/// Appending a pair under a fresh key inserts it into the mapping.
proof fn lemma_map_of_push(s: Seq<(Vec<u8>, Vec<u8>)>, pair: (Vec<u8>, Vec<u8>))
    requires
        distinct_keys(s),
        forall|n: int| 0 <= n < s.len() ==> (#[trigger] s[n]).0@ != pair.0@,
    ensures
        distinct_keys(s.push(pair)),
        map_of(s.push(pair)) == map_of(s).insert(pair.0@, pair.1@),
{
    let key = pair.0;
    let value = pair.1;
    let s2 = s.push(pair);
    assert forall|m: int, n: int| 0 <= m < n < s2.len() implies (#[trigger] s2[m]).0@ != (
    #[trigger] s2[n]).0@ by {
        if n < s.len() {
            assert(s[m].0@ != s[n].0@);
        } else {
            assert(s2[n] == pair);
            assert(s2[m] == s[m]);
        }
    }
    let lhs = map_of(s2);
    let rhs = map_of(s).insert(pair.0@, pair.1@);
    assert_maps_equal!(lhs, rhs, k => {
        if k == key@ {
            assert(s2[s.len() as int] == pair);
            assert(map_of(s2).contains_key(k));
            lemma_map_of_index(s2, s.len() as int);
        } else {
            if map_of(s2).contains_key(k) {
                let n = choose|n: int| 0 <= n < s2.len() && (#[trigger] s2[n]).0@ == k;
                assert(n < s.len());
                assert(s[n].0@ == k);
                lemma_map_of_index(s, n);
                lemma_map_of_index(s2, n);
            } else if map_of(s).contains_key(k) {
                let n = choose|n: int| 0 <= n < s.len() && (#[trigger] s[n]).0@ == k;
                assert(s2[n].0@ == k);
            }
        }
    });
}

/// Taking out the pair at position `n` removes its key from the mapping.
proof fn lemma_map_of_remove(s: Seq<(Vec<u8>, Vec<u8>)>, n: int)
    requires
        distinct_keys(s),
        0 <= n < s.len(),
    ensures
        distinct_keys(s.remove(n)),
        map_of(s.remove(n)) == map_of(s).remove(s[n].0@),
{
    let s2 = s.remove(n);
    let key = s[n].0@;
    s.remove_ensures(n);
    assert forall|m1: int, m2: int| 0 <= m1 < m2 < s2.len() implies (#[trigger] s2[m1]).0@ != (
    #[trigger] s2[m2]).0@ by {
        let o1: int = if m1 < n {
            m1
        } else {
            m1 + 1
        };
        let o2: int = if m2 < n {
            m2
        } else {
            m2 + 1
        };
        assert(s2[m1] == s[o1]);
        assert(s2[m2] == s[o2]);
        assert(s[o1].0@ != s[o2].0@);
    }
    let lhs = map_of(s2);
    let rhs = map_of(s).remove(key);
    assert_maps_equal!(lhs, rhs, k => {
        if map_of(s2).contains_key(k) {
            let m = choose|m: int| 0 <= m < s2.len() && (#[trigger] s2[m]).0@ == k;
            let o: int = if m < n {
                m
            } else {
                m + 1
            };
            assert(s2[m] == s[o]);
            lemma_map_of_index(s, o);
            lemma_map_of_index(s2, m);
            if k == key {
                lemma_position_unique(s, o, n);
                assert(false);
            }
        } else {
            if k != key && map_of(s).contains_key(k) {
                let o = choose|o: int| 0 <= o < s.len() && (#[trigger] s[o]).0@ == k;
                assert(o != n);
                let m: int = if o < n {
                    o
                } else {
                    o - 1
                };
                assert(s2[m] == s[o]);
                assert(map_of(s2).contains_key(k));
            }
        }
    });
}

/// Compares two byte strings.
fn bytes_eq(a: &Vec<u8>, b: &Vec<u8>) -> (r: bool)
    ensures
        r == (a@ == b@),
{
    if a.len() != b.len() {
        return false;
    }
    let mut i: usize = 0;
    while i < a.len()
        invariant
            a@.len() == b@.len(),
            i <= a@.len(),
            forall|j: int| 0 <= j < i ==> a@[j] == b@[j],
        decreases a@.len() - i,
    {
        if a[i] != b[i] {
            return false;
        }
        i += 1;
    }
    proof {
        assert(a@ =~= b@);
    }
    true
}

/// Copies a byte string.
fn bytes_clone(a: &Vec<u8>) -> (r: Vec<u8>)
    ensures
        r@ == a@,
{
    let mut r: Vec<u8> = Vec::new();
    let mut i: usize = 0;
    while i < a.len()
        invariant
            i <= a@.len(),
            r@.len() == i,
            forall|j: int| 0 <= j < i ==> r@[j] == a@[j],
        decreases a@.len() - i,
    {
        r.push(a[i]);
        i += 1;
    }
    proof {
        assert(r@ =~= a@);
    }
    r
}

/// An in-memory byte-oriented key-value store.
pub struct Store {
    entries: Vec<(Vec<u8>, Vec<u8>)>,
}

impl Store {
    /// The mapping this store holds.
    pub closed spec fn view(&self) -> Map<Seq<u8>, Seq<u8>> {
        map_of(self.entries@)
    }

    /// No two entries share a key.
    pub closed spec fn wf(&self) -> bool {
        distinct_keys(self.entries@)
    }

    /// An empty store.
    pub fn new() -> (r: Self)
        ensures
            r.wf(),
            r@ == Map::<Seq<u8>, Seq<u8>>::empty(),
    {
        let r = Store { entries: Vec::new() };
        proof {
            assert(r@ =~= Map::<Seq<u8>, Seq<u8>>::empty());
        }
        r
    }

    /// Looks a key up, returning a copy of its value, or nothing when the key
    /// is absent.
    pub fn read(&self, key: &Vec<u8>) -> (r: Option<Vec<u8>>)
        requires
            self.wf(),
        ensures
            self@.contains_key(key@) ==> (r matches Some(v) && v@ == self@[key@]),
            !self@.contains_key(key@) ==> r is None,
    {
        let n = self.entries.len();
        let mut m: usize = 0;
        while m < n
            invariant
                self.wf(),
                n == self.entries@.len(),
                forall|j: int| 0 <= j < m ==> (#[trigger] self.entries@[j]).0@ != key@,
            decreases n - m,
        {
            if bytes_eq(&self.entries[m].0, key) {
                let v = bytes_clone(&self.entries[m].1);
                proof {
                    lemma_map_of_index(self.entries@, m as int);
                }
                return Some(v);
            }
            m += 1;
        }
        proof {
            lemma_map_of_absent(self.entries@, key@);
        }
        None
    }

    /// Removes a key and its value; a no-op when the key is absent.
    #[verifier::loop_isolation(false)]
    pub fn remove(&mut self, key: &Vec<u8>)
        requires
            old(self).wf(),
        ensures
            final(self).wf(),
            final(self)@ == old(self)@.remove(key@),
    {
        let n = self.entries.len();
        let mut m: usize = 0;
        while m < n
            invariant
                m <= n,
                self.entries@ == old(self).entries@,
                forall|j: int| 0 <= j < m ==> (#[trigger] self.entries@[j]).0@ != key@,
            decreases n - m,
        {
            if bytes_eq(&self.entries[m].0, key) {
                proof {
                    lemma_map_of_remove(self.entries@, m as int);
                }
                let _ = self.entries.remove(m);
                return;
            }
            m += 1;
        }
        proof {
            lemma_map_of_absent(self.entries@, key@);
            assert(self@ =~= self@.remove(key@));
        }
    }

    /// Binds a key to a value, replacing any value it had.
    pub fn write(&mut self, key: &Vec<u8>, value: &Vec<u8>)
        requires
            old(self).wf(),
        ensures
            final(self).wf(),
            final(self)@ == old(self)@.insert(key@, value@),
    {
        self.remove(key);
        let ghost pre = self.entries@;
        proof {
            assert(!self@.contains_key(key@));
            assert forall|n: int| 0 <= n < pre.len() implies (#[trigger] pre[n]).0@ != key@ by {
                lemma_map_of_index(pre, n);
            }
        }
        let pair = (bytes_clone(key), bytes_clone(value));
        let ghost gp = pair;
        self.entries.push(pair);
        proof {
            assert(self.entries@ == pre.push(gp));
            lemma_map_of_push(pre, gp);
            assert(self@ =~= old(self)@.insert(key@, value@));
        }
    }
}

} // verus!
