//! An ordered map kept as an ascending vector.

use vstd::prelude::*;

verus! {

/// How one key stands to another.
#[derive(Clone, Copy, Debug, PartialEq, Eq, Structural)]
pub enum KeyOrder {
    Less,
    Equal,
    Greater,
}

/// A key type with a strict total order.
pub trait SortKey: Copy {
    /// `self` comes strictly before `other`.
    spec fn before(self, other: Self) -> bool;

    /// No key comes before itself.
    proof fn before_irreflexive(a: Self)
        ensures
            !a.before(a),
    ;

    /// The order chains.
    proof fn before_transitive(a: Self, b: Self, c: Self)
        requires
            a.before(b),
            b.before(c),
        ensures
            a.before(c),
    ;

    /// Two different keys are always ordered.
    proof fn before_total(a: Self, b: Self)
        ensures
            a.before(b) || a == b || b.before(a),
    ;

    /// Decides the order of two keys.
    fn order(&self, other: &Self) -> (o: KeyOrder)
        ensures
            match o {
                KeyOrder::Less => self.before(*other),
                KeyOrder::Equal => *self == *other,
                KeyOrder::Greater => other.before(*self),
            },
    ;
}

/// The keys of `s` stand in strictly ascending order.
pub open spec fn ascending<K: SortKey, V>(s: Seq<(K, V)>) -> bool {
    forall|i: int, j: int| 0 <= i < j < s.len() ==> (#[trigger] s[i]).0.before((#[trigger] s[j]).0)
}

/// The map that `s` lists; a later entry replaces an earlier one with its key.
pub open spec fn entries_map<K, V>(s: Seq<(K, V)>) -> Map<K, V>
    decreases s.len(),
{
    if s.len() == 0 {
        Map::empty()
    } else {
        entries_map(s.drop_last()).insert(s.last().0, s.last().1)
    }
}

/// The entries of a finite map, ascending by key.
pub open spec fn listing<K: SortKey, V>(m: Map<K, V>) -> Seq<(K, V)> {
    choose|s: Seq<(K, V)>| #[trigger] ascending(s) && entries_map(s) == m
}

/// The keys of the map are the keys of the list, and there are finitely many.
pub proof fn lemma_entries_map_keys<K, V>(s: Seq<(K, V)>)
    ensures
        entries_map(s).dom().finite(),
        forall|k: K|
            #[trigger] entries_map(s).contains_key(k) <==> exists|i: int|
                0 <= i < s.len() && (#[trigger] s[i]).0 == k,
    decreases s.len(),
{
    if s.len() > 0 {
        let t = s.drop_last();
        lemma_entries_map_keys(t);
        assert forall|k: K| #[trigger] entries_map(s).contains_key(k) implies exists|i: int|
            0 <= i < s.len() && (#[trigger] s[i]).0 == k by {
            if k == s.last().0 {
                assert(s[s.len() - 1].0 == k);
            } else {
                assert(entries_map(t).contains_key(k));
                let i = choose|i: int| 0 <= i < t.len() && (#[trigger] t[i]).0 == k;
                assert(s[i].0 == k);
            }
        }
        assert forall|k: K|
            (exists|i: int| 0 <= i < s.len() && (#[trigger] s[i]).0 == k) implies #[trigger] entries_map(
            s,
        ).contains_key(k) by {
            let i = choose|i: int| 0 <= i < s.len() && (#[trigger] s[i]).0 == k;
            if i < s.len() - 1 {
                assert(t[i].0 == k);
                assert(entries_map(t).contains_key(k));
            }
        }
    }
}

/// In an ascending list every entry is the one that the map holds for its key.
pub proof fn lemma_entries_map_values<K: SortKey, V>(s: Seq<(K, V)>)
    requires
        ascending(s),
    ensures
        forall|i: int|
            0 <= i < s.len() ==> entries_map(s).contains_key((#[trigger] s[i]).0)
                && entries_map(s)[s[i].0] == s[i].1,
    decreases s.len(),
{
    if s.len() > 0 {
        let t = s.drop_last();
        assert forall|i: int, j: int| 0 <= i < j < t.len() implies (#[trigger] t[i]).0.before(
            (#[trigger] t[j]).0,
        ) by {
            assert(s[i].0.before(s[j].0));
        }
        lemma_entries_map_values(t);
        assert forall|i: int| 0 <= i < s.len() implies entries_map(s).contains_key(
            (#[trigger] s[i]).0,
        ) && entries_map(s)[s[i].0] == s[i].1 by {
            if i < s.len() - 1 {
                assert(t[i] == s[i]);
                assert(s[i].0.before(s[s.len() - 1].0));
                K::before_irreflexive(s[i].0);
            }
        }
    }
}

/// A list whose entries all agree with `m` and that names every key of `m` is a
/// list of `m`, in whatever order and however often it names them.
pub proof fn lemma_entries_map_agrees<K, V>(s: Seq<(K, V)>, m: Map<K, V>)
    requires
        forall|i: int|
            0 <= i < s.len() ==> m.contains_key((#[trigger] s[i]).0) && m[s[i].0] == s[i].1,
        forall|k: K|
            #[trigger] m.contains_key(k) ==> exists|i: int|
                0 <= i < s.len() && (#[trigger] s[i]).0 == k,
    ensures
        entries_map(s) == m,
{
    lemma_entries_map_keys(s);
    lemma_entries_map_sound(s, m);
    assert(entries_map(s) =~= m);
}

/// A list whose entries all agree with `m` lists a part of `m`.
proof fn lemma_entries_map_sound<K, V>(s: Seq<(K, V)>, m: Map<K, V>)
    requires
        forall|i: int|
            0 <= i < s.len() ==> m.contains_key((#[trigger] s[i]).0) && m[s[i].0] == s[i].1,
    ensures
        forall|k: K|
            #[trigger] entries_map(s).contains_key(k) ==> m.contains_key(k) && entries_map(s)[k]
                == m[k],
    decreases s.len(),
{
    if s.len() > 0 {
        let t = s.drop_last();
        assert forall|i: int| 0 <= i < t.len() implies m.contains_key((#[trigger] t[i]).0)
            && m[t[i].0] == t[i].1 by {
            assert(t[i] == s[i]);
        }
        lemma_entries_map_sound(t, m);
        let last = s[s.len() - 1];
        assert forall|k: K| #[trigger] entries_map(s).contains_key(k) implies m.contains_key(k)
            && entries_map(s)[k] == m[k] by {
            if k != last.0 {
                assert(entries_map(t).contains_key(k));
            }
        }
    }
}

/// Two ascending lists of one map are the same list.
pub proof fn lemma_ascending_unique<K: SortKey, V>(s: Seq<(K, V)>, t: Seq<(K, V)>)
    requires
        ascending(s),
        ascending(t),
        entries_map(s) == entries_map(t),
    ensures
        s == t,
    decreases s.len(),
{
    lemma_entries_map_keys(s);
    lemma_entries_map_keys(t);
    lemma_entries_map_values(s);
    lemma_entries_map_values(t);
    if s.len() == 0 {
        if t.len() > 0 {
            assert(entries_map(t).contains_key(t[0].0));
            assert(entries_map(s).contains_key(t[0].0));
            assert(false);
        }
        assert(s =~= t);
    } else {
        assert(entries_map(s).contains_key(s[0].0));
        assert(entries_map(t).contains_key(s[0].0));
        assert(t.len() > 0);
        let a = s.last();
        let b = t.last();
        assert(s[s.len() - 1] == a);
        assert(t[t.len() - 1] == b);
        assert(entries_map(t).contains_key(a.0));
        assert(entries_map(s).contains_key(b.0));
        let i = choose|i: int| 0 <= i < t.len() && (#[trigger] t[i]).0 == a.0;
        let j = choose|j: int| 0 <= j < s.len() && (#[trigger] s[j]).0 == b.0;
        if a.0 != b.0 {
            assert(t[i].0.before(t[t.len() - 1].0));
            assert(s[j].0.before(s[s.len() - 1].0));
            K::before_transitive(a.0, b.0, a.0);
            K::before_irreflexive(a.0);
            assert(false);
        }
        assert(a.1 == b.1);
        let s1 = s.drop_last();
        let t1 = t.drop_last();
        lemma_ascending_drop_last(s);
        lemma_ascending_drop_last(t);
        assert(entries_map(s1) =~= entries_map(s).remove(a.0));
        assert(entries_map(t1) =~= entries_map(t).remove(b.0));
        lemma_ascending_unique(s1, t1);
        assert(s =~= s1.push(a));
        assert(t =~= t1.push(b));
    }
}

/// Without its last entry an ascending list is ascending and lacks that key.
pub proof fn lemma_ascending_drop_last<K: SortKey, V>(s: Seq<(K, V)>)
    requires
        ascending(s),
        s.len() > 0,
    ensures
        ascending(s.drop_last()),
        !entries_map(s.drop_last()).contains_key(s.last().0),
{
    let t = s.drop_last();
    assert forall|i: int, j: int| 0 <= i < j < t.len() implies (#[trigger] t[i]).0.before(
        (#[trigger] t[j]).0,
    ) by {
        assert(s[i].0.before(s[j].0));
    }
    lemma_entries_map_keys(t);
    if entries_map(t).contains_key(s.last().0) {
        let i = choose|i: int| 0 <= i < t.len() && (#[trigger] t[i]).0 == s.last().0;
        assert(s[i].0.before(s[s.len() - 1].0));
        K::before_irreflexive(s[i].0);
    }
}

/// An ascending list is the listing of its map.
pub proof fn lemma_listing<K: SortKey, V>(s: Seq<(K, V)>)
    requires
        ascending(s),
    ensures
        listing(entries_map(s)) == s,
{
    let t = listing(entries_map(s));
    assert(ascending(t) && entries_map(t) == entries_map(s));
    lemma_ascending_unique(s, t);
}

/// Placing a new key between the smaller and the larger ones adds it to the map.
pub proof fn lemma_insert_at<K: SortKey, V>(s: Seq<(K, V)>, i: int, k: K, v: V)
    requires
        ascending(s),
        0 <= i <= s.len(),
        forall|j: int| 0 <= j < i ==> (#[trigger] s[j]).0.before(k),
        forall|j: int| i <= j < s.len() ==> k.before((#[trigger] s[j]).0),
    ensures
        ascending(s.insert(i, (k, v))),
        entries_map(s.insert(i, (k, v))) == entries_map(s).insert(k, v),
        !entries_map(s).contains_key(k),
{
    let t = s.insert(i, (k, v));
    assert forall|a: int, b: int| 0 <= a < b < t.len() implies (#[trigger] t[a]).0.before(
        (#[trigger] t[b]).0,
    ) by {
        let a1 = if a < i { a } else { a - 1 };
        let b1 = if b < i { b } else { b - 1 };
        if a != i && b != i {
            assert(s[a1].0.before(s[b1].0));
        }
    }
    lemma_entries_map_keys(s);
    lemma_entries_map_keys(t);
    lemma_entries_map_values(s);
    lemma_entries_map_values(t);
    assert(t[i] == (k, v));
    assert forall|k1: K| #[trigger] entries_map(t).contains_key(k1) implies entries_map(s).insert(
        k,
        v,
    ).contains_key(k1) && entries_map(t)[k1] == entries_map(s).insert(k, v)[k1] by {
        let a = choose|a: int| 0 <= a < t.len() && (#[trigger] t[a]).0 == k1;
        if a < i {
            assert(s[a] == t[a]);
            K::before_irreflexive(k);
        } else if a > i {
            assert(s[a - 1] == t[a]);
            K::before_irreflexive(k);
        }
    }
    assert forall|k1: K|
        #[trigger] entries_map(s).insert(k, v).contains_key(k1) implies entries_map(
        t,
    ).contains_key(k1) by {
        if k1 != k {
            assert(entries_map(s).contains_key(k1));
            let a = choose|a: int| 0 <= a < s.len() && (#[trigger] s[a]).0 == k1;
            let b = if a < i { a } else { a + 1 };
            assert(t[b].0 == k1);
        }
    }
    if entries_map(s).contains_key(k) {
        let a = choose|a: int| 0 <= a < s.len() && (#[trigger] s[a]).0 == k;
        K::before_irreflexive(k);
        assert(false);
    }
    assert(entries_map(t) =~= entries_map(s).insert(k, v));
}

/// Dropping the entry at a position removes its key from the map.
pub proof fn lemma_remove_at<K: SortKey, V>(s: Seq<(K, V)>, i: int)
    requires
        ascending(s),
        0 <= i < s.len(),
    ensures
        ascending(s.remove(i)),
        entries_map(s.remove(i)) == entries_map(s).remove(s[i].0),
{
    let t = s.remove(i);
    assert forall|a: int, b: int| 0 <= a < b < t.len() implies (#[trigger] t[a]).0.before(
        (#[trigger] t[b]).0,
    ) by {
        let a1 = if a < i { a } else { a + 1 };
        let b1 = if b < i { b } else { b + 1 };
        assert(s[a1].0.before(s[b1].0));
    }
    assert forall|j: int| 0 <= j < i implies (#[trigger] t[j]).0.before(s[i].0) by {
        assert(s[j].0.before(s[i].0));
    }
    assert forall|j: int| i <= j < t.len() implies s[i].0.before((#[trigger] t[j]).0) by {
        assert(s[i].0.before(s[j + 1].0));
    }
    lemma_insert_at(t, i, s[i].0, s[i].1);
    assert(t.insert(i, (s[i].0, s[i].1)) =~= s);
    assert(entries_map(t) =~= entries_map(s).remove(s[i].0));
}

/// Every finite map has a listing.
pub proof fn lemma_listing_exists<K: SortKey, V>(m: Map<K, V>)
    requires
        m.dom().finite(),
    ensures
        ascending(listing(m)),
        entries_map(listing(m)) == m,
    decreases m.dom().len(),
{
    if m.dom().len() == 0 {
        let e = Seq::<(K, V)>::empty();
        assert(m =~= entries_map(e));
        assert(ascending(e));
    } else {
        let k = m.dom().choose();
        assert(m.dom().contains(k)) by {
            if m.dom() =~= Set::empty() {
                assert(m.dom().len() == 0);
            }
        }
        let m1 = m.remove(k);
        lemma_listing_exists(m1);
        let s = listing(m1);
        lemma_entries_map_keys(s);
        let i = lemma_split_point(s, k);
        lemma_insert_at(s, i, k, m[k]);
        assert(m1.insert(k, m[k]) =~= m);
        assert(ascending(s.insert(i, (k, m[k]))));
    }
}

/// The position at which a key that the list lacks belongs.
proof fn lemma_split_point<K: SortKey, V>(s: Seq<(K, V)>, k: K) -> (i: int)
    requires
        ascending(s),
        !entries_map(s).contains_key(k),
    ensures
        0 <= i <= s.len(),
        forall|j: int| 0 <= j < i ==> (#[trigger] s[j]).0.before(k),
        forall|j: int| i <= j < s.len() ==> k.before((#[trigger] s[j]).0),
    decreases s.len(),
{
    if s.len() == 0 {
        0
    } else {
        let t = s.drop_last();
        let n = t.len() as int;
        lemma_ascending_drop_last(s);
        lemma_entries_map_keys(s);
        lemma_entries_map_keys(t);
        assert(s[n].0 != k);
        K::before_total(s[n].0, k);
        if s[n].0.before(k) {
            assert forall|j: int| 0 <= j < s.len() implies (#[trigger] s[j]).0.before(k) by {
                if j < n {
                    assert(s[j].0.before(s[n].0));
                    K::before_transitive(s[j].0, s[n].0, k);
                }
            }
            s.len() as int
        } else {
            if entries_map(t).contains_key(k) {
                let a = choose|a: int| 0 <= a < t.len() && (#[trigger] t[a]).0 == k;
                assert(s[a].0 == k);
            }
            let i = lemma_split_point(t, k);
            assert forall|j: int| i <= j < s.len() implies k.before((#[trigger] s[j]).0) by {
                if j < n {
                    assert(t[j] == s[j]);
                }
            }
            assert forall|j: int| 0 <= j < i implies (#[trigger] s[j]).0.before(k) by {
                assert(t[j] == s[j]);
            }
            i
        }
    }
}

/// A map from keys to values, held as an ascending vector of entries.
#[derive(Debug)]
pub struct SortedMap<K: SortKey, V: Copy> {
    entries: Vec<(K, V)>,
}

impl<K: SortKey, V: Copy> Clone for SortedMap<K, V> {
    /// A map with the same entries.
    fn clone(&self) -> (m: Self)
        ensures
            m@ == self@,
    {
        proof {
            use_type_invariant(self);
        }
        let mut entries: Vec<(K, V)> = Vec::new();
        let mut i: usize = 0;
        while i < self.entries.len()
            invariant
                i <= self.entries@.len(),
                entries@ == self.entries@.take(i as int),
            decreases self.entries@.len() - i,
        {
            entries.push(self.entries[i]);
            i = i + 1;
            assert(entries@ =~= self.entries@.take(i as int));
        }
        assert(entries@ =~= self.entries@);
        SortedMap { entries }
    }
}

impl<K: SortKey, V: Copy> View for SortedMap<K, V> {
    type V = Map<K, V>;

    closed spec fn view(&self) -> Map<K, V> {
        entries_map(self.entries@)
    }
}

impl<K: SortKey, V: Copy> SortedMap<K, V> {
    #[verifier::type_invariant]
    spec fn keys_ascend(self) -> bool {
        ascending(self.entries@)
    }

    /// The empty map.
    pub fn new() -> (m: Self)
        ensures
            m@ == Map::<K, V>::empty(),
    {
        SortedMap { entries: Vec::new() }
    }

    /// The entries, ascending by key.
    pub fn entries(&self) -> (e: &Vec<(K, V)>)
        ensures
            e@ == listing(self@),
            ascending(e@),
            entries_map(e@) == self@,
            self@.dom().finite(),
    {
        proof {
            use_type_invariant(self);
            lemma_listing(self.entries@);
            lemma_entries_map_keys(self.entries@);
        }
        &self.entries
    }

    /// The number of entries.
    pub fn len(&self) -> (n: usize)
        ensures
            n == listing(self@).len(),
            n == self@.dom().len(),
            self@.dom().finite(),
    {
        proof {
            use_type_invariant(self);
            lemma_listing(self.entries@);
            lemma_entries_map_keys(self.entries@);
            lemma_listing_len(self.entries@);
        }
        self.entries.len()
    }

    /// Where `k` is, or where it belongs.
    fn position(&self, k: &K) -> (r: (usize, bool))
        ensures
            r.0 <= self.entries@.len(),
            r.1 ==> r.0 < self.entries@.len() && self.entries@[r.0 as int].0 == *k,
            !r.1 ==> {
                &&& forall|j: int|
                    0 <= j < r.0 ==> (#[trigger] self.entries@[j]).0.before(*k)
                &&& forall|j: int|
                    r.0 <= j < self.entries@.len() ==> k.before((#[trigger] self.entries@[j]).0)
            },
    {
        proof {
            use_type_invariant(self);
        }
        let mut lo: usize = 0;
        let mut hi: usize = self.entries.len();
        while lo < hi
            invariant
                ascending(self.entries@),
                lo <= hi <= self.entries@.len(),
                forall|j: int| 0 <= j < lo ==> (#[trigger] self.entries@[j]).0.before(*k),
                forall|j: int|
                    hi <= j < self.entries@.len() ==> k.before((#[trigger] self.entries@[j]).0),
            decreases hi - lo,
        {
            let mid: usize = lo + (hi - lo) / 2;
            let probe = self.entries[mid].0;
            match probe.order(k) {
                KeyOrder::Equal => {
                    return (mid, true);
                },
                KeyOrder::Less => {
                    proof {
                        assert forall|j: int| 0 <= j < mid + 1 implies (
                        #[trigger] self.entries@[j]).0.before(*k) by {
                            if j < mid {
                                assert(self.entries@[j].0.before(self.entries@[mid as int].0));
                                K::before_transitive(self.entries@[j].0, probe, *k);
                            }
                        }
                    }
                    lo = mid + 1;
                },
                KeyOrder::Greater => {
                    proof {
                        assert forall|j: int| mid <= j < self.entries@.len() implies k.before(
                            (#[trigger] self.entries@[j]).0,
                        ) by {
                            if j > mid {
                                assert(self.entries@[mid as int].0.before(self.entries@[j].0));
                                K::before_transitive(*k, probe, self.entries@[j].0);
                            }
                        }
                    }
                    hi = mid;
                },
            }
        }
        (lo, false)
    }

    /// The value held for `k`.
    pub fn get(&self, k: &K) -> (v: Option<V>)
        ensures
            v == self@.get(*k),
    {
        let (i, found) = self.position(k);
        proof {
            use_type_invariant(self);
            lemma_entries_map_values(self.entries@);
        }
        if found {
            Some(self.entries[i].1)
        } else {
            proof {
                lemma_insert_at(self.entries@, i as int, *k, arbitrary());
            }
            None
        }
    }

    /// Whether the map holds `k`.
    pub fn contains_key(&self, k: &K) -> (b: bool)
        ensures
            b == self@.contains_key(*k),
    {
        match self.get(k) {
            Some(_) => true,
            None => false,
        }
    }

    /// Sets the value for `k`, replacing the one that was there.
    pub fn insert(&mut self, k: K, v: V)
        ensures
            final(self)@ == old(self)@.insert(k, v),
    {
        let (i, found) = self.position(&k);
        proof {
            use_type_invariant(&*self);
        }
        let mut entries: Vec<(K, V)> = Vec::new();
        std::mem::swap(&mut entries, &mut self.entries);
        let ghost before = entries@;
        if found {
            let _ = entries.remove(i);
            proof {
                lemma_remove_at(before, i as int);
                assert forall|j: int| 0 <= j < i implies (#[trigger] entries@[j]).0.before(k) by {
                    assert(before[j].0.before(before[i as int].0));
                }
                assert forall|j: int| i <= j < entries@.len() implies k.before(
                    (#[trigger] entries@[j]).0,
                ) by {
                    assert(before[i as int].0.before(before[j + 1].0));
                }
            }
        }
        proof {
            lemma_insert_at(entries@, i as int, k, v);
        }
        entries.insert(i, (k, v));
        assert(entries_map(entries@) =~= entries_map(before).insert(k, v));
        self.entries = entries;
    }

    /// Takes `k` out and returns the value that was there.
    pub fn remove(&mut self, k: &K) -> (v: Option<V>)
        ensures
            v == old(self)@.get(*k),
            final(self)@ == old(self)@.remove(*k),
    {
        let (i, found) = self.position(k);
        proof {
            use_type_invariant(&*self);
            lemma_entries_map_values(self.entries@);
        }
        if found {
            let mut entries: Vec<(K, V)> = Vec::new();
            std::mem::swap(&mut entries, &mut self.entries);
            proof {
                lemma_remove_at(entries@, i as int);
            }
            let entry = entries.remove(i);
            self.entries = entries;
            Some(entry.1)
        } else {
            proof {
                lemma_insert_at(self.entries@, i as int, *k, arbitrary());
                assert(self@.remove(*k) =~= self@);
            }
            None
        }
    }
}

/// A listing is as long as its map.
pub proof fn lemma_listing_len<K: SortKey, V>(s: Seq<(K, V)>)
    requires
        ascending(s),
    ensures
        entries_map(s).dom().len() == s.len(),
    decreases s.len(),
{
    lemma_entries_map_keys(s);
    if s.len() > 0 {
        lemma_ascending_drop_last(s);
        lemma_listing_len(s.drop_last());
        lemma_entries_map_keys(s.drop_last());
        assert(entries_map(s).dom() =~= entries_map(s.drop_last()).dom().insert(s.last().0));
    }
}

} // verus!
