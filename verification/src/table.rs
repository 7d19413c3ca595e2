//! A map from 64-bit keys to values, in key order.
//!
//! What a table holds is spoken of by the views of its values, so a value that
//! is rebuilt with the same contents is the same value.

use std::collections::BTreeMap;

use vstd::prelude::*;

verus! {

broadcast use vstd::std_specs::btree::group_btree_axioms;

/// Values by 64-bit key.
#[derive(Clone, Debug, PartialEq, Eq)]
pub struct Table<V> {
    held: BTreeMap<u64, V>,
}

impl<V: View> View for Table<V> {
    type V = Map<u64, V::V>;

    closed spec fn view(&self) -> Map<u64, V::V> {
        self.held@.map_values(|v: V| v@)
    }
}

/// Whether keys are in strictly increasing order.
pub open spec fn ascending(keys: Seq<u64>) -> bool {
    forall|i: int, j: int| 0 <= i < j < keys.len() ==> keys[i] < keys[j]
}

/// A set's members in strictly increasing order.
pub open spec fn in_order(keys: Set<u64>) -> Seq<u64> {
    choose|s: Seq<u64>| ascending(s) && #[trigger] s.to_set() == keys
}

/// The members are in order one way only.
proof fn lemma_one_order(a: Seq<u64>, b: Seq<u64>)
    requires
        ascending(a),
        ascending(b),
        a.to_set() == b.to_set(),
    ensures
        a == b,
    decreases a.len(),
{
    if a.len() == 0 {
        if b.len() > 0 {
            assert(b.to_set().contains(b[0]));
        }
        assert(a =~= b);
    } else {
        assert(b.to_set().contains(a.last()));
        assert(a.to_set().contains(b.last()));
        let i = choose|i: int| 0 <= i < b.len() && b[i] == a.last();
        let j = choose|j: int| 0 <= j < a.len() && a[j] == b.last();
        assert(a.last() == b.last());
        let c = a.drop_last();
        let d = b.drop_last();
        assert forall|k: u64| c.to_set().contains(k) == d.to_set().contains(k) by {
            if c.contains(k) {
                let n = choose|n: int| 0 <= n < c.len() && c[n] == k;
                assert(a[n] == k && a.to_set().contains(k));
                let m = choose|m: int| 0 <= m < b.len() && b[m] == k;
                assert(d[m] == k);
            }
            if d.contains(k) {
                let n = choose|n: int| 0 <= n < d.len() && d[n] == k;
                assert(b[n] == k && b.to_set().contains(k));
                let m = choose|m: int| 0 <= m < a.len() && a[m] == k;
                assert(c[m] == k);
            }
        }
        assert(c.to_set() =~= d.to_set());
        lemma_one_order(c, d);
        assert(a =~= c.push(a.last()));
        assert(b =~= d.push(b.last()));
    }
}

/// Keys that are in order are their set in order.
pub proof fn lemma_in_order(keys: Seq<u64>)
    requires
        ascending(keys),
    ensures
        in_order(keys.to_set()) == keys,
{
    lemma_one_order(in_order(keys.to_set()), keys);
}

/// A finite set can be put in order, and holds what its order lists.
pub proof fn lemma_in_order_lists(keys: Set<u64>)
    requires
        keys.finite(),
    ensures
        ascending(in_order(keys)),
        in_order(keys).to_set() == keys,
{
    let s = lemma_ordered(keys, u64::MAX as int);
    assert(ascending(s) && s.to_set() == keys);
}

/// The members of a finite set up to a bound, in order.
proof fn lemma_ordered(keys: Set<u64>, bound: int) -> (s: Seq<u64>)
    requires
        keys.finite(),
        forall|k: u64| #[trigger] keys.contains(k) ==> k <= bound,
    ensures
        ascending(s),
        s.to_set() == keys,
    decreases keys.len(),
{
    if keys.len() == 0 {
        assert(keys =~= Set::empty());
        let s = Seq::<u64>::empty();
        assert(s.to_set() =~= keys);
        s
    } else {
        let top = lemma_largest(keys);
        let rest = keys.remove(top);
        let front = lemma_ordered(rest, top - 1);
        let s = front.push(top);
        assert forall|i: int, j: int| 0 <= i < j < s.len() implies s[i] < s[j] by {
            assert(front.contains(front[i]));
            assert(rest.contains(front[i]));
        }
        assert forall|k: u64| s.to_set().contains(k) == keys.contains(k) by {
            if s.contains(k) && k != top {
                let i = choose|i: int| 0 <= i < s.len() && s[i] == k;
                assert(front[i] == k);
                assert(front.to_set().contains(k));
            }
            if keys.contains(k) && k != top {
                assert(front.to_set().contains(k));
                let i = choose|i: int| 0 <= i < front.len() && front[i] == k;
                assert(s[i] == k);
            }
            assert(s[front.len() as int] == top);
        }
        assert(s.to_set() =~= keys);
        s
    }
}

/// A finite set that is not empty has a largest member.
proof fn lemma_largest(keys: Set<u64>) -> (top: u64)
    requires
        keys.finite(),
        keys.len() > 0,
    ensures
        keys.contains(top),
        forall|k: u64| #[trigger] keys.contains(k) ==> k <= top,
    decreases keys.len(),
{
    let one = keys.choose();
    let rest = keys.remove(one);
    if rest.len() == 0 {
        assert forall|k: u64| #[trigger] keys.contains(k) implies k <= one by {
            if k != one {
                assert(rest.contains(k));
            }
        }
        one
    } else {
        let other = lemma_largest(rest);
        if other < one {
            assert forall|k: u64| #[trigger] keys.contains(k) implies k <= one by {
                if k != one {
                    assert(rest.contains(k));
                }
            }
            one
        } else {
            assert forall|k: u64| #[trigger] keys.contains(k) implies k <= other by {
                if k != one {
                    assert(rest.contains(k));
                }
            }
            other
        }
    }
}

/// Keys in the order a tree gives them are in strictly increasing order.
proof fn lemma_ascending(keys: Seq<u64>)
    requires
        vstd::std_specs::btree::increasing_seq(keys),
    ensures
        ascending(keys),
{
    assert forall|i: int, j: int| 0 <= i < j < keys.len() implies keys[i] < keys[j] by {
        assert(vstd::std_specs::cmp::OrdSpec::cmp_spec(&keys[i], &keys[j]) is Less);
    }
}

impl<V: View> Table<V> {
    /// A table with nothing in it.
    pub fn new() -> (t: Table<V>)
        ensures
            t@ == Map::<u64, V::V>::empty(),
    {
        let t = Table { held: BTreeMap::new() };
        assert(t@ =~= Map::empty());
        t
    }

    /// How many values are held.
    pub fn len(&self) -> (n: usize)
        ensures
            n == self@.len(),
            self@.dom().finite(),
    {
        assert(self@.dom() =~= self.held@.dom());
        self.held.len()
    }

    /// Whether a key is held.
    pub fn contains(&self, key: u64) -> (b: bool)
        ensures
            b == self@.contains_key(key),
    {
        self.held.contains_key(&key)
    }

    /// The value under a key.
    pub fn get(&self, key: u64) -> (v: Option<&V>)
        ensures
            match v {
                Some(v) => self@.contains_key(key) && v@ == self@[key],
                None => !self@.contains_key(key),
            },
    {
        self.held.get(&key)
    }

    /// Puts a value under a key, in place of any there.
    pub fn put(&mut self, key: u64, value: V)
        ensures
            final(self)@ == old(self)@.insert(key, value@),
    {
        self.held.insert(key, value);
        assert(self@ =~= old(self)@.insert(key, value@));
    }

    /// Takes the value under a key out.
    pub fn take(&mut self, key: u64) -> (v: Option<V>)
        ensures
            final(self)@ == old(self)@.remove(key),
            match v {
                Some(v) => old(self)@.contains_key(key) && v@ == old(self)@[key],
                None => !old(self)@.contains_key(key),
            },
    {
        let v = self.held.remove(&key);
        assert(self@ =~= old(self)@.remove(key));
        v
    }

    /// Empties the table.
    pub fn clear(&mut self)
        ensures
            final(self)@ == Map::<u64, V::V>::empty(),
    {
        self.held.clear();
        assert(self@ =~= Map::empty());
    }

    /// Every key, in order.
    pub fn keys(&self) -> (keys: Vec<u64>)
        ensures
            ascending(keys@),
            keys@.to_set() == self@.dom(),
            keys@ == in_order(self@.dom()),
    {
        let mut out: Vec<u64> = Vec::new();
        let entries = self.held.iter();
        let ghost all = vstd::std_specs::iter::IteratorSpec::remaining(&entries);
        let ghost names = all.map_values(|kv: (&u64, &V)| *kv.0);
        proof {
            lemma_ascending(names);
        }
        for entry in it: entries
            invariant
                it.seq() == all,
                names == all.map_values(|kv: (&u64, &V)| *kv.0),
                out@ == names.take(it.index() as int),
        {
            out.push(*entry.0);
            assert(out@ =~= names.take(it.index() + 1));
        }
        proof {
            assert(out@ =~= names);
            assert forall|k: u64| out@.to_set().contains(k) == self@.dom().contains(k) by {
                if self.held@.contains_key(k) {
                    let i = choose|i: int| 0 <= i < all.len() && all[i] == (&k, &self.held@[k]);
                    assert(names[i] == k);
                }
                if names.contains(k) {
                    let i = choose|i: int| 0 <= i < names.len() && names[i] == k;
                    assert(self.held@.contains_key(*all[i].0));
                }
            }
            assert(out@.to_set() =~= self@.dom());
            lemma_in_order(out@);
        }
        out
    }
}

} // verus!
