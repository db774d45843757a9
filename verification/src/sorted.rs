use vstd::prelude::*;

use crate::text::{compare_strings, lemma_seq_lt_irreflexive, lemma_seq_lt_total,
    lemma_seq_lt_transitive, seq_lt, Order};

verus! {

/// A key type with a strict total order on its view, and an executable
/// comparison that agrees with it.
pub trait SortedKey: View + Sized {
    spec fn key_lt(a: <Self as View>::V, b: <Self as View>::V) -> bool;

    proof fn lemma_key_lt_irreflexive(a: <Self as View>::V)
        ensures
            !Self::key_lt(a, a),
    ;

    proof fn lemma_key_lt_transitive(
        a: <Self as View>::V,
        b: <Self as View>::V,
        c: <Self as View>::V,
    )
        requires
            Self::key_lt(a, b),
            Self::key_lt(b, c),
        ensures
            Self::key_lt(a, c),
    ;

    proof fn lemma_key_lt_total(a: <Self as View>::V, b: <Self as View>::V)
        ensures
            a == b || Self::key_lt(a, b) || Self::key_lt(b, a),
    ;

    fn compare_key(&self, other: &Self) -> (o: Order)
        ensures
            match o {
                Order::Less => Self::key_lt(self@, other@),
                Order::Equal => self@ == other@,
                Order::Greater => Self::key_lt(other@, self@),
            },
    ;

    fn clone_key(&self) -> (r: Self)
        ensures
            r@ == self@,
    ;
}

impl SortedKey for String {
    open spec fn key_lt(a: Seq<char>, b: Seq<char>) -> bool {
        seq_lt(a, b)
    }

    proof fn lemma_key_lt_irreflexive(a: Seq<char>) {
        lemma_seq_lt_irreflexive(a);
    }

    proof fn lemma_key_lt_transitive(a: Seq<char>, b: Seq<char>, c: Seq<char>) {
        lemma_seq_lt_transitive(a, b, c);
    }

    proof fn lemma_key_lt_total(a: Seq<char>, b: Seq<char>) {
        lemma_seq_lt_total(a, b);
    }

    fn compare_key(&self, other: &Self) -> (o: Order) {
        compare_strings(self, other)
    }

    fn clone_key(&self) -> (r: Self) {
        self.clone()
    }
}

/// A sequence of keys in strictly increasing order.
pub open spec fn strictly_sorted<K: SortedKey>(s: Seq<<K as View>::V>) -> bool {
    forall|i: int, j: int| 0 <= i < j < s.len() ==> K::key_lt(#[trigger] s[i], #[trigger] s[j])
}

/// A strictly sorted sequence holds no element twice.
pub proof fn lemma_sorted_distinct<K: SortedKey>(s: Seq<<K as View>::V>, i: int, j: int)
    requires
        strictly_sorted::<K>(s),
        0 <= i < s.len(),
        0 <= j < s.len(),
        s[i] == s[j],
    ensures
        i == j,
{
    if i < j || j < i {
        K::lemma_key_lt_irreflexive(s[i]);
    }
}

/// Two strictly sorted sequences with the same elements are the same sequence.
pub proof fn lemma_sorted_canonical<K: SortedKey>(a: Seq<<K as View>::V>, b: Seq<<K as View>::V>)
    requires
        strictly_sorted::<K>(a),
        strictly_sorted::<K>(b),
        a.to_set() == b.to_set(),
    ensures
        a == b,
    decreases a.len(),
{
    if a.len() == 0 {
        if b.len() > 0 {
            assert(b.to_set().contains(b[0]));
        }
        assert(a =~= b);
    } else if b.len() == 0 {
        assert(a.to_set().contains(a[0]));
    } else {
        // The first elements are the least of each sequence, hence equal.
        assert(a.to_set().contains(a[0]));
        assert(b.to_set().contains(b[0]));
        assert(b.to_set().contains(a[0]));
        assert(a.to_set().contains(b[0]));
        let ia = choose|k: int| 0 <= k < b.len() && b[k] == a[0];
        let ib = choose|k: int| 0 <= k < a.len() && a[k] == b[0];
        if a[0] != b[0] {
            assert(ia > 0 && ib > 0);
            K::lemma_key_lt_transitive(a[0], a[ib], b[ia]);
            K::lemma_key_lt_irreflexive(a[0]);
        }
        let ta = a.drop_first();
        let tb = b.drop_first();
        assert forall|x| ta.to_set().contains(x) implies tb.to_set().contains(x) by {
            let k = choose|k: int| 0 <= k < ta.len() && ta[k] == x;
            assert(a[k + 1] == x);
            assert(b.to_set().contains(x));
            let m = choose|m: int| 0 <= m < b.len() && b[m] == x;
            if m == 0 {
                lemma_sorted_distinct::<K>(a, 0, k + 1);
            }
            assert(tb[m - 1] == x);
        }
        assert forall|x| tb.to_set().contains(x) implies ta.to_set().contains(x) by {
            let k = choose|k: int| 0 <= k < tb.len() && tb[k] == x;
            assert(b[k + 1] == x);
            assert(a.to_set().contains(x));
            let m = choose|m: int| 0 <= m < a.len() && a[m] == x;
            if m == 0 {
                lemma_sorted_distinct::<K>(b, 0, k + 1);
            }
            assert(ta[m - 1] == x);
        }
        assert(ta.to_set() =~= tb.to_set());
        lemma_sorted_canonical::<K>(ta, tb);
        assert(a =~= seq![a[0]] + ta);
        assert(b =~= seq![b[0]] + tb);
    }
}

/// A finite set of keys, kept in increasing order.
///
/// It stands where a `BTreeSet` would: vstd specifies the B-tree
/// collections only for key types that it knows to obey its model of `Ord`,
/// and it gives that fact for neither `String` nor the graph's `Node`. So
/// the keys are held in a vector whose invariant, `wf`, is what a B-tree
/// guarantees: strictly increasing order, hence no key twice.
pub struct SortedSet<K> {
    items: Vec<K>,
}

impl<K: SortedKey> View for SortedSet<K> {
    type V = Seq<<K as View>::V>;

    closed spec fn view(&self) -> Seq<<K as View>::V> {
        self.items@.map_values(|k: K| k@)
    }
}

impl<K: SortedKey> SortedSet<K> {
    /// The keys are in strictly increasing order.
    pub open spec fn wf(&self) -> bool {
        strictly_sorted::<K>(self@)
    }

    /// The keys, as a set.
    pub open spec fn to_set(&self) -> Set<<K as View>::V> {
        self@.to_set()
    }

    /// An empty set.
    pub fn new() -> (s: Self)
        ensures
            s.wf(),
            s@ == Seq::<<K as View>::V>::empty(),
    {
        let s = SortedSet { items: Vec::new() };
        assert(s@ =~= Seq::<<K as View>::V>::empty());
        s
    }

    /// The number of keys.
    pub fn len(&self) -> (n: usize)
        ensures
            n == self@.len(),
    {
        self.items.len()
    }

    /// The key at position `i` in increasing order.
    pub fn get(&self, i: usize) -> (k: &K)
        requires
            i < self@.len(),
        ensures
            k@ == self@[i as int],
    {
        &self.items[i]
    }

    /// The number of keys below `k`, and whether `k` itself is present.
    fn position(&self, k: &K) -> (r: (usize, bool))
        requires
            self.wf(),
        ensures
            r.0 <= self@.len(),
            forall|i: int| 0 <= i < r.0 ==> K::key_lt(#[trigger] self@[i], k@),
            r.1 ==> r.0 < self@.len() && self@[r.0 as int] == k@,
            !r.1 ==> forall|i: int| r.0 <= i < self@.len() ==> K::key_lt(k@, #[trigger] self@[i]),
    {
        let n = self.items.len();
        let mut i: usize = 0;
        while i < n
            invariant
                n == self@.len(),
                i <= n,
                self.wf(),
                forall|j: int| 0 <= j < i ==> K::key_lt(#[trigger] self@[j], k@),
            decreases n - i,
        {
            match self.items[i].compare_key(k) {
                Order::Less => {
                    i = i + 1;
                },
                Order::Equal => {
                    return (i, true);
                },
                Order::Greater => {
                    assert forall|j: int| i <= j < self@.len() implies K::key_lt(
                        k@,
                        #[trigger] self@[j],
                    ) by {
                        if j > i {
                            K::lemma_key_lt_transitive(k@, self@[i as int], self@[j]);
                        }
                    }
                    return (i, false);
                },
            }
        }
        (i, false)
    }

    /// Whether `k` is in the set.
    pub fn contains(&self, k: &K) -> (b: bool)
        requires
            self.wf(),
        ensures
            b == self@.contains(k@),
    {
        let (i, found) = self.position(k);
        proof {
            if !found && self@.contains(k@) {
                let j = choose|j: int| 0 <= j < self@.len() && self@[j] == k@;
                K::lemma_key_lt_irreflexive(k@);
            }
        }
        found
    }

    /// Adds `k`; returns whether it was absent before.
    pub fn insert(&mut self, k: K) -> (added: bool)
        requires
            old(self).wf(),
        ensures
            final(self).wf(),
            added == !old(self)@.contains(k@),
            final(self).to_set() == old(self).to_set().insert(k@),
            !added ==> final(self)@ == old(self)@,
    {
        let (i, found) = self.position(&k);
        if found {
            assert(old(self)@.contains(k@));
            return false;
        }
        let ghost old_v = self@;
        proof {
            if old_v.contains(k@) {
                let j = choose|j: int| 0 <= j < old_v.len() && old_v[j] == k@;
                K::lemma_key_lt_irreflexive(k@);
            }
        }
        self.items.insert(i, k);
        assert(self@ =~= old_v.insert(i as int, k@));
        assert forall|a: int, b: int| 0 <= a < b < self@.len() implies K::key_lt(
            #[trigger] self@[a],
            #[trigger] self@[b],
        ) by {
            if a < i && b > i {
                K::lemma_key_lt_transitive(self@[a], k@, self@[b]);
            }
        }
        assert(self.to_set() =~= old_v.to_set().insert(k@)) by {
            assert forall|x| self.to_set().contains(x) implies old_v.to_set().insert(k@).contains(x) by {
                let j = choose|j: int| 0 <= j < self@.len() && self@[j] == x;
                if j < i {
                    assert(old_v[j] == x);
                } else if j > i {
                    assert(old_v[j - 1] == x);
                }
            }
            assert forall|x| old_v.to_set().insert(k@).contains(x) implies self.to_set().contains(x) by {
                if x == k@ {
                    assert(self@[i as int] == x);
                } else {
                    let j = choose|j: int| 0 <= j < old_v.len() && old_v[j] == x;
                    if j < i {
                        assert(self@[j] == x);
                    } else {
                        assert(self@[j + 1] == x);
                    }
                }
            }
        }
        true
    }

    /// Removes `k`; returns whether it was present.
    pub fn remove(&mut self, k: &K) -> (removed: bool)
        requires
            old(self).wf(),
        ensures
            final(self).wf(),
            removed == old(self)@.contains(k@),
            final(self).to_set() == old(self).to_set().remove(k@),
            !removed ==> final(self)@ == old(self)@,
    {
        let (i, found) = self.position(k);
        if !found {
            proof {
                if self@.contains(k@) {
                    let j = choose|j: int| 0 <= j < self@.len() && self@[j] == k@;
                    K::lemma_key_lt_irreflexive(k@);
                }
                assert(self.to_set() =~= self.to_set().remove(k@));
            }
            return false;
        }
        let ghost old_v = self@;
        let _ = self.items.remove(i);
        assert(self@ =~= old_v.remove(i as int));
        assert(self.to_set() =~= old_v.to_set().remove(k@)) by {
            assert forall|x| self.to_set().contains(x) implies old_v.to_set().remove(k@).contains(x) by {
                let j = choose|j: int| 0 <= j < self@.len() && self@[j] == x;
                if j < i {
                    assert(old_v[j] == x);
                    if x == k@ {
                        lemma_sorted_distinct::<K>(old_v, j, i as int);
                    }
                } else {
                    assert(old_v[j + 1] == x);
                    if x == k@ {
                        lemma_sorted_distinct::<K>(old_v, j + 1, i as int);
                    }
                }
            }
            assert forall|x| old_v.to_set().remove(k@).contains(x) implies self.to_set().contains(x) by {
                let j = choose|j: int| 0 <= j < old_v.len() && old_v[j] == x;
                if j < i {
                    assert(self@[j] == x);
                } else {
                    assert(j != i);
                    assert(self@[j - 1] == x);
                }
            }
        }
        true
    }
}


/// A finite map whose keys are kept in increasing order.
///
/// It stands where a `BTreeMap` would, for the reason given at `SortedSet`:
/// keys and values are held in two vectors of equal length, the keys
/// strictly increasing, and iteration is by position in key order.
pub struct SortedMap<K, V> {
    keys: Vec<K>,
    vals: Vec<V>,
}

impl<K: SortedKey, V: View> SortedMap<K, V> {
    /// The keys in increasing order.
    pub closed spec fn keys_view(&self) -> Seq<<K as View>::V> {
        self.keys@.map_values(|k: K| k@)
    }

    /// The values, in the order of their keys.
    pub closed spec fn vals_view(&self) -> Seq<<V as View>::V> {
        self.vals@.map_values(|v: V| v@)
    }

    /// Keys and values line up, and the keys are strictly increasing.
    pub open spec fn wf(&self) -> bool {
        &&& self.keys_view().len() == self.vals_view().len()
        &&& strictly_sorted::<K>(self.keys_view())
    }

    /// The map that the listing stands for.
    pub open spec fn to_map(&self) -> Map<<K as View>::V, <V as View>::V> {
        Map::new(
            |k: <K as View>::V| self.keys_view().contains(k),
            |k: <K as View>::V| self.vals_view()[self.keys_view().index_of(k)],
        )
    }

    /// The value at position `i` is the value that the map holds for the key there.
    pub proof fn lemma_entry(&self, i: int)
        requires
            self.wf(),
            0 <= i < self.keys_view().len(),
        ensures
            self.to_map().dom().contains(self.keys_view()[i]),
            self.to_map()[self.keys_view()[i]] == self.vals_view()[i],
    {
        let ks = self.keys_view();
        assert(ks.contains(ks[i]));
        let j = ks.index_of(ks[i]);
        lemma_sorted_distinct::<K>(ks, i, j);
    }

    /// An empty map.
    pub fn new() -> (m: Self)
        ensures
            m.wf(),
            m.keys_view() == Seq::<<K as View>::V>::empty(),
            m.vals_view() == Seq::<<V as View>::V>::empty(),
            m.to_map() == Map::<<K as View>::V, <V as View>::V>::empty(),
    {
        let m = SortedMap { keys: Vec::new(), vals: Vec::new() };
        assert(m.keys_view() =~= Seq::<<K as View>::V>::empty());
        assert(m.vals_view() =~= Seq::<<V as View>::V>::empty());
        assert(m.to_map() =~= Map::<<K as View>::V, <V as View>::V>::empty());
        m
    }

    /// The number of entries.
    pub fn len(&self) -> (n: usize)
        requires
            self.wf(),
        ensures
            n == self.keys_view().len(),
    {
        self.keys.len()
    }

    /// The key at position `i`.
    pub fn key_at(&self, i: usize) -> (k: &K)
        requires
            self.wf(),
            i < self.keys_view().len(),
        ensures
            k@ == self.keys_view()[i as int],
    {
        &self.keys[i]
    }

    /// The value at position `i`.
    pub fn value_at(&self, i: usize) -> (v: &V)
        requires
            self.wf(),
            i < self.keys_view().len(),
        ensures
            v@ == self.vals_view()[i as int],
    {
        &self.vals[i]
    }

    /// The number of keys below `k`, and whether `k` itself is present.
    fn position(&self, k: &K) -> (r: (usize, bool))
        requires
            self.wf(),
        ensures
            r.0 <= self.keys_view().len(),
            forall|i: int| 0 <= i < r.0 ==> K::key_lt(#[trigger] self.keys_view()[i], k@),
            r.1 ==> r.0 < self.keys_view().len() && self.keys_view()[r.0 as int] == k@,
            !r.1 ==> forall|i: int|
                r.0 <= i < self.keys_view().len() ==> K::key_lt(k@, #[trigger] self.keys_view()[i]),
    {
        let n = self.keys.len();
        let mut i: usize = 0;
        while i < n
            invariant
                n == self.keys_view().len(),
                i <= n,
                self.wf(),
                forall|j: int| 0 <= j < i ==> K::key_lt(#[trigger] self.keys_view()[j], k@),
            decreases n - i,
        {
            match self.keys[i].compare_key(k) {
                Order::Less => {
                    i = i + 1;
                },
                Order::Equal => {
                    return (i, true);
                },
                Order::Greater => {
                    assert forall|j: int| i <= j < self.keys_view().len() implies K::key_lt(
                        k@,
                        #[trigger] self.keys_view()[j],
                    ) by {
                        if j > i {
                            K::lemma_key_lt_transitive(k@, self.keys_view()[i as int], self.keys_view()[j]);
                        }
                    }
                    return (i, false);
                },
            }
        }
        (i, false)
    }

    /// The position of `k` among the keys, if it is one.
    pub fn find(&self, k: &K) -> (r: Option<usize>)
        requires
            self.wf(),
        ensures
            match r {
                Some(i) => i < self.keys_view().len() && self.keys_view()[i as int] == k@,
                None => !self.keys_view().contains(k@),
            },
            r is Some <==> self.to_map().dom().contains(k@),
    {
        let (i, found) = self.position(k);
        if found {
            Some(i)
        } else {
            proof {
                if self.keys_view().contains(k@) {
                    let j = choose|j: int| 0 <= j < self.keys_view().len() && self.keys_view()[j] == k@;
                    K::lemma_key_lt_irreflexive(k@);
                }
            }
            None
        }
    }

    /// Whether `k` has an entry.
    pub fn contains_key(&self, k: &K) -> (b: bool)
        requires
            self.wf(),
        ensures
            b == self.to_map().dom().contains(k@),
    {
        self.find(k).is_some()
    }

    /// The value for `k`, if any.
    pub fn get(&self, k: &K) -> (r: Option<&V>)
        requires
            self.wf(),
        ensures
            match r {
                Some(v) => self.to_map().dom().contains(k@) && v@ == self.to_map()[k@],
                None => !self.to_map().dom().contains(k@),
            },
    {
        match self.find(k) {
            Some(i) => {
                proof {
                    self.lemma_entry(i as int);
                }
                Some(&self.vals[i])
            },
            None => None,
        }
    }

    /// Sets the value for `k`, adding the key if it is new.
    pub fn insert(&mut self, k: K, v: V)
        requires
            old(self).wf(),
        ensures
            final(self).wf(),
            final(self).to_map() == old(self).to_map().insert(k@, v@),
            old(self).keys_view().contains(k@) ==> final(self).keys_view() == old(self).keys_view(),
    {
        let ghost ok = self.keys_view();
        let ghost ov = self.vals_view();
        let ghost om = self.to_map();
        let (i, found) = self.position(&k);
        if found {
            let _ = self.vals.remove(i);
            self.vals.insert(i, v);
            assert(self.keys_view() == ok);
            assert(self.vals_view() =~= ov.update(i as int, v@));
            assert(self.to_map() =~= om.insert(k@, v@)) by {
                assert forall|x| #[trigger] self.to_map().dom().contains(x) implies self.to_map()[x]
                    == om.insert(k@, v@)[x] by {
                    let j = choose|j: int| 0 <= j < ok.len() && ok[j] == x;
                    self.lemma_entry(j);
                    old(self).lemma_entry(j);
                    lemma_sorted_distinct::<K>(ok, j, j);
                    if x == k@ {
                        lemma_sorted_distinct::<K>(ok, j, i as int);
                    }
                }
            }
        } else {
            proof {
                if ok.contains(k@) {
                    let j = choose|j: int| 0 <= j < ok.len() && ok[j] == k@;
                    K::lemma_key_lt_irreflexive(k@);
                }
            }
            let ghost kv = k@;
            self.keys.insert(i, k);
            self.vals.insert(i, v);
            assert(self.keys_view() =~= ok.insert(i as int, kv));
            assert(self.vals_view() =~= ov.insert(i as int, v@));
            assert forall|a: int, b: int| 0 <= a < b < self.keys_view().len() implies K::key_lt(
                #[trigger] self.keys_view()[a],
                #[trigger] self.keys_view()[b],
            ) by {
                if a < i && b > i {
                    K::lemma_key_lt_transitive(self.keys_view()[a], kv, self.keys_view()[b]);
                }
            }
            assert(self.to_map() =~= om.insert(kv, v@)) by {
                assert forall|x| self.to_map().dom().contains(x) <==> om.insert(kv, v@).dom().contains(x) by {
                    if self.to_map().dom().contains(x) {
                        let j = choose|j: int| 0 <= j < self.keys_view().len() && self.keys_view()[j] == x;
                        if j < i {
                            assert(ok[j] == x);
                        } else if j > i {
                            assert(ok[j - 1] == x);
                        }
                    }
                    if om.insert(kv, v@).dom().contains(x) {
                        if x == kv {
                            assert(self.keys_view()[i as int] == x);
                        } else {
                            let j = choose|j: int| 0 <= j < ok.len() && ok[j] == x;
                            if j < i {
                                assert(self.keys_view()[j] == x);
                            } else {
                                assert(self.keys_view()[j + 1] == x);
                            }
                        }
                    }
                }
                assert forall|x| #[trigger] self.to_map().dom().contains(x) implies self.to_map()[x]
                    == om.insert(kv, v@)[x] by {
                    let j = choose|j: int| 0 <= j < self.keys_view().len() && self.keys_view()[j] == x;
                    self.lemma_entry(j);
                    if j < i {
                        old(self).lemma_entry(j);
                    } else if j > i {
                        old(self).lemma_entry(j - 1);
                    }
                }
            }
        }
    }

    /// Replaces the value at position `i`, handing back the one it held.
    pub fn replace_value_at(&mut self, i: usize, v: V) -> (prev: V)
        requires
            old(self).wf(),
            i < old(self).keys_view().len(),
        ensures
            final(self).wf(),
            prev@ == old(self).vals_view()[i as int],
            final(self).keys_view() == old(self).keys_view(),
            final(self).vals_view() == old(self).vals_view().update(i as int, v@),
            final(self).to_map() == old(self).to_map().insert(old(self).keys_view()[i as int], v@),
    {
        let ghost ok = self.keys_view();
        let ghost ov = self.vals_view();
        let ghost om = self.to_map();
        let prev = self.vals.remove(i);
        self.vals.insert(i, v);
        assert(self.keys_view() == ok);
        assert(self.vals_view() =~= ov.update(i as int, v@));
        let ghost kv = ok[i as int];
        assert(self.to_map() =~= om.insert(kv, v@)) by {
            assert forall|x| #[trigger] self.to_map().dom().contains(x) implies self.to_map()[x]
                == om.insert(kv, v@)[x] by {
                let j = choose|j: int| 0 <= j < ok.len() && ok[j] == x;
                self.lemma_entry(j);
                old(self).lemma_entry(j);
                if x == kv {
                    lemma_sorted_distinct::<K>(ok, j, i as int);
                }
            }
        }
        prev
    }
}

} // verus!
