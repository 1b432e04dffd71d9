//! Verified string-keyed containers used throughout the toolkit: a set of
//! names and an association map from names to values, both with mathematical
//! `Set` / `Map` views.

use vstd::prelude::*;
use vstd::seq_lib::*;
use vstd::set_lib::lemma_len_subset;
use crate::text::str_eq;

verus! {

/// A finite set of names, stored without duplicates.
pub struct StrSet {
    items: Vec<String>,
}

impl StrSet {
    /// The sequence of stored names, in insertion order.
    pub closed spec fn item_seq(self) -> Seq<Seq<char>> {
        self.items.deep_view()
    }

    /// Well-formedness: no name is stored twice.
    pub closed spec fn wf(self) -> bool {
        self.item_seq().no_duplicates()
    }

    /// An empty set of names.
    pub fn new() -> (r: StrSet)
        ensures
            r@ == Set::<Seq<char>>::empty(),
            r.wf(),
            r.item_seq() == Seq::<Seq<char>>::empty(),
    {
        let r = StrSet { items: Vec::new() };
        proof {
            assert(r.item_seq() =~= Seq::<Seq<char>>::empty());
            assert(r@ =~= Set::<Seq<char>>::empty());
        }
        r
    }

    /// How many names the set holds.
    pub fn len(&self) -> (r: usize)
        requires
            self.wf(),
        ensures
            r == self@.len(),
            self@.finite(),
    {
        proof {
            broadcast use vstd::seq_lib::seq_to_set_is_finite;

            self.item_seq().unique_seq_to_set();
            assert(self.items.deep_view().len() == self.items@.len());
        }
        self.items.len()
    }

    /// Whether the set holds the given name.
    pub fn contains(&self, s: &str) -> (r: bool)
        ensures
            r == self@.contains(s@),
    {
        let mut i: usize = 0;
        while i < self.items.len()
            invariant
                0 <= i <= self.items@.len(),
                self.items.deep_view().len() == self.items@.len(),
                forall|j: int| 0 <= j < i ==> self.item_seq()[j] != s@,
            decreases self.items@.len() - i,
        {
            if str_eq(self.items[i].as_str(), s) {
                proof {
                    assert(self.item_seq()[i as int] == s@);
                    assert(self@.contains(s@));
                }
                return true;
            }
            i = i + 1;
        }
        proof {
            assert(!self.item_seq().contains(s@));
        }
        false
    }

    /// Adds a name to the set; adding a name already present changes nothing.
    pub fn insert(&mut self, s: String)
        requires
            old(self).wf(),
        ensures
            final(self).wf(),
            final(self)@ == old(self)@.insert(s@),
            final(self)@.contains(s@),
    {
        let present = self.contains(s.as_str());
        if !present {
            proof {
                assert(!self.item_seq().contains(s@));
            }
            self.items.push(s);
            proof {
                assert(self.items.deep_view().drop_last() =~= old(self).items.deep_view());
                assert(self.item_seq().last() == s@);
                let n = self.item_seq().len();
                assert forall|p: int, q: int|
                    0 <= p < q < n implies self.item_seq()[p] != self.item_seq()[q] by {
                    if q < n - 1 {
                        assert(old(self).item_seq()[p] == self.item_seq()[p]);
                        assert(old(self).item_seq()[q] == self.item_seq()[q]);
                    } else {
                        assert(self.item_seq()[q] == s@);
                        assert(old(self).item_seq()[p] == self.item_seq()[p]);
                        if self.item_seq()[p] == s@ {
                            assert(old(self).item_seq().contains(s@));
                        }
                    }
                }
                assert(self.item_seq().no_duplicates());
                assert forall|x: Seq<char>| self@.contains(x) <==> old(self)@.insert(s@).contains(
                    x,
                ) by {
                    if self.item_seq().contains(x) {
                        let j = choose|j: int|
                            0 <= j < self.item_seq().len() && self.item_seq()[j] == x;
                        if j < self.item_seq().len() - 1 {
                            assert(old(self).item_seq()[j] == x);
                        }
                    }
                    if old(self).item_seq().contains(x) {
                        let j = choose|j: int|
                            0 <= j < old(self).item_seq().len() && old(self).item_seq()[j] == x;
                        assert(self.item_seq()[j] == x);
                    }
                }
                assert(self@ =~= old(self)@.insert(s@));
            }
        } else {
            proof {
                assert(self@ =~= old(self)@.insert(s@));
            }
        }
    }
}

impl View for StrSet {
    type V = Set<Seq<char>>;

    closed spec fn view(&self) -> Set<Seq<char>> {
        self.item_seq().to_set()
    }
}

/// Appending an element to a sequence inserts it into the sequence's set.
pub proof fn lemma_push_to_set<A>(s: Seq<A>, x: A)
    ensures
        s.push(x).to_set() == s.to_set().insert(x),
{
    assert forall|y: A| s.push(x).to_set().contains(y) <==> s.to_set().insert(x).contains(y) by {
        if s.push(x).contains(y) {
            let j = choose|j: int| 0 <= j < s.push(x).len() && s.push(x)[j] == y;
            if j < s.len() {
                assert(s[j] == y);
            }
        }
        if s.contains(y) {
            let j = choose|j: int| 0 <= j < s.len() && s[j] == y;
            assert(s.push(x)[j] == y);
        }
        if y == x {
            assert(s.push(x)[s.len() as int] == y);
        }
    }
    assert(s.push(x).to_set() =~= s.to_set().insert(x));
}

/// A finite association map from names to values, stored as parallel vectors
/// with pairwise-distinct keys. Its view is a mathematical `Map` from the
/// keys' texts to the values' deep views.
pub struct StrMap<V> {
    keys: Vec<String>,
    vals: Vec<V>,
}

impl<V: DeepView> StrMap<V> {
    /// The key texts, in insertion order.
    pub closed spec fn key_seq(self) -> Seq<Seq<char>> {
        self.keys.deep_view()
    }

    /// The value views, in insertion order.
    pub closed spec fn val_seq(self) -> Seq<V::V> {
        self.vals.deep_view()
    }

    /// The stored values themselves, in insertion order.
    pub closed spec fn values(self) -> Seq<V> {
        self.vals@
    }

    /// Well-formedness: keys are pairwise distinct and each key has a value.
    pub closed spec fn wf(self) -> bool {
        self.key_seq().no_duplicates() && self.keys@.len() == self.vals@.len()
    }

    /// The map assembled from the first `n` key/value pairs.
    pub closed spec fn map_upto(self, n: int) -> Map<Seq<char>, V::V>
        decreases n,
    {
        if n <= 0 {
            Map::empty()
        } else {
            self.map_upto(n - 1).insert(self.key_seq()[n - 1], self.val_seq()[n - 1])
        }
    }

    /// The domain of the view is exactly the set of stored keys.
    pub proof fn lemma_dom(self)
        ensures
            self@.dom() =~= self.key_seq().to_set(),
            self@.dom().finite(),
        decreases self.key_seq().len(),
    {
        broadcast use vstd::seq_lib::seq_to_set_is_finite;

        self.lemma_dom_upto(self.key_seq().len() as int);
        assert(self.key_seq().take(self.key_seq().len() as int) =~= self.key_seq());
    }

    /// The domain of each partial map is the set of the keys seen so far.
    proof fn lemma_dom_upto(self, n: int)
        requires
            0 <= n <= self.key_seq().len(),
        ensures
            self.map_upto(n).dom() =~= self.key_seq().take(n).to_set(),
            self.map_upto(n).dom().finite(),
        decreases n,
    {
        broadcast use vstd::seq_lib::seq_to_set_is_finite;

        if n > 0 {
            self.lemma_dom_upto(n - 1);
            let t = self.key_seq().take(n);
            assert(t.drop_last() =~= self.key_seq().take(n - 1));
            assert forall|x: Seq<char>| t.to_set().contains(x) <==> t.drop_last().to_set().insert(
                t.last(),
            ).contains(x) by {
                if t.contains(x) {
                    let j = choose|j: int| 0 <= j < t.len() && t[j] == x;
                    if j < t.len() - 1 {
                        assert(t.drop_last()[j] == x);
                    }
                }
                if t.drop_last().contains(x) {
                    let j = choose|j: int| 0 <= j < t.drop_last().len() && t.drop_last()[j] == x;
                    assert(t[j] == x);
                }
                if x == t.last() {
                    assert(t.contains(x));
                }
            }
            assert(t.to_set() =~= t.drop_last().to_set().insert(t.last()));
        } else {
            assert(self.key_seq().take(0).to_set() =~= Set::<Seq<char>>::empty());
        }
    }

    /// Each stored pair is in the view.
    pub proof fn lemma_at(self, i: int)
        requires
            self.wf(),
            0 <= i < self.key_seq().len(),
        ensures
            self@.contains_key(self.key_seq()[i]),
            self@[self.key_seq()[i]] == self.val_seq()[i],
    {
        self.lemma_at_upto(i, self.key_seq().len() as int);
    }

    /// Each pair seen before position `n` is in the partial map.
    proof fn lemma_at_upto(self, i: int, n: int)
        requires
            self.wf(),
            0 <= i < n <= self.key_seq().len(),
        ensures
            self.map_upto(n).contains_key(self.key_seq()[i]),
            self.map_upto(n)[self.key_seq()[i]] == self.val_seq()[i],
        decreases n,
    {
        if i < n - 1 {
            self.lemma_at_upto(i, n - 1);
            assert(self.key_seq()[n - 1] != self.key_seq()[i]);
        }
    }

    /// Distinct positions hold distinct keys.
    pub proof fn lemma_keys_distinct(self)
        requires
            self.wf(),
        ensures
            self.key_seq().no_duplicates(),
    {
    }

    /// An empty map.
    pub fn new() -> (r: StrMap<V>)
        ensures
            r@ == Map::<Seq<char>, V::V>::empty(),
            r.wf(),
            r.key_seq() == Seq::<Seq<char>>::empty(),
            r.values() == Seq::<V>::empty(),
    {
        let r = StrMap { keys: Vec::new(), vals: Vec::new() };
        proof {
            assert(r.key_seq() =~= Seq::<Seq<char>>::empty());
            assert(r@ =~= Map::<Seq<char>, V::V>::empty());
            assert(r.values() =~= Seq::<V>::empty());
        }
        r
    }

    /// How many pairs the map holds.
    pub fn len(&self) -> (r: usize)
        ensures
            r == self.key_seq().len(),
    {
        proof {
            assert(self.keys.deep_view().len() == self.keys@.len());
        }
        self.keys.len()
    }

    /// The position of the given key among the stored pairs, if present.
    fn find(&self, k: &str) -> (r: Option<usize>)
        requires
            self.wf(),
        ensures
            match r {
                Some(i) => 0 <= i < self.key_seq().len() && self.key_seq()[i as int] == k@,
                None => !self.key_seq().contains(k@),
            },
    {
        let mut i: usize = 0;
        while i < self.keys.len()
            invariant
                0 <= i <= self.keys@.len(),
                self.keys.deep_view().len() == self.keys@.len(),
                forall|j: int| 0 <= j < i ==> self.key_seq()[j] != k@,
            decreases self.keys@.len() - i,
        {
            if str_eq(self.keys[i].as_str(), k) {
                return Some(i);
            }
            i = i + 1;
        }
        None
    }

    /// Whether the map holds a value for the given key.
    pub fn contains_key(&self, k: &str) -> (r: bool)
        requires
            self.wf(),
        ensures
            r == self@.contains_key(k@),
    {
        proof {
            self.lemma_dom();
        }
        match self.find(k) {
            Some(i) => {
                proof {
                    assert(self.key_seq().contains(k@));
                }
                true
            },
            None => {
                proof {
                    assert(!self.key_seq().to_set().contains(k@));
                }
                false
            },
        }
    }

    /// The value stored for the given key, if any.
    pub fn get(&self, k: &str) -> (r: Option<&V>)
        requires
            self.wf(),
        ensures
            match r {
                Some(v) => self@.contains_key(k@) && v.deep_view() == self@[k@]
                    && self.values().contains(*v),
                None => !self@.contains_key(k@),
            },
    {
        proof {
            self.lemma_dom();
        }
        match self.find(k) {
            Some(i) => {
                proof {
                    self.lemma_at(i as int);
                    assert(self.vals.deep_view()[i as int] == self.vals@[i as int].deep_view());
                    assert(self.values()[i as int] == self.vals@[i as int]);
                }
                Some(&self.vals[i])
            },
            None => {
                proof {
                    assert(!self.key_seq().to_set().contains(k@));
                }
                None
            },
        }
    }

    /// Two maps with the same stored pairs have the same view.
    proof fn lemma_congruent(self, other: StrMap<V>, n: int)
        requires
            self.key_seq() == other.key_seq(),
            self.val_seq() == other.val_seq(),
        ensures
            self.map_upto(n) == other.map_upto(n),
        decreases n,
    {
        if n > 0 {
            self.lemma_congruent(other, n - 1);
        }
    }

    /// Replacing the value at position `i` turns the view into an insert of
    /// the new value at that key.
    proof fn lemma_update_at(self, other: StrMap<V>, i: int, n: int)
        requires
            self.wf(),
            other.key_seq() == self.key_seq(),
            other.val_seq() == self.val_seq().update(i, other.val_seq()[i]),
            other.val_seq().len() == self.val_seq().len(),
            0 <= i < n <= self.key_seq().len(),
        ensures
            other.map_upto(n) == self.map_upto(n).insert(self.key_seq()[i], other.val_seq()[i]),
        decreases n,
    {
        let k = self.key_seq()[i];
        let v = other.val_seq()[i];
        if i == n - 1 {
            self.lemma_congruent_prefix(other, n - 1);
            assert(other.map_upto(n) == other.map_upto(n - 1).insert(k, v));
            assert(self.map_upto(n).insert(k, v) =~= self.map_upto(n - 1).insert(
                self.key_seq()[n - 1],
                self.val_seq()[n - 1],
            ).insert(k, v));
            assert(self.map_upto(n - 1).insert(self.key_seq()[n - 1], self.val_seq()[n - 1]).insert(
                k,
                v,
            ) =~= self.map_upto(n - 1).insert(k, v));
        } else {
            self.lemma_update_at(other, i, n - 1);
            assert(self.key_seq()[n - 1] != k);
            assert(other.val_seq()[n - 1] == self.val_seq()[n - 1]);
            assert(other.map_upto(n) == self.map_upto(n - 1).insert(k, v).insert(
                self.key_seq()[n - 1],
                self.val_seq()[n - 1],
            ));
            assert(self.map_upto(n - 1).insert(k, v).insert(
                self.key_seq()[n - 1],
                self.val_seq()[n - 1],
            ) =~= self.map_upto(n - 1).insert(
                self.key_seq()[n - 1],
                self.val_seq()[n - 1],
            ).insert(k, v));
        }
    }

    /// Two maps whose first `n` pairs agree have the same partial map.
    proof fn lemma_congruent_prefix(self, other: StrMap<V>, n: int)
        requires
            0 <= n <= self.key_seq().len(),
            n <= other.key_seq().len(),
            forall|j: int| 0 <= j < n ==> other.key_seq()[j] == self.key_seq()[j],
            forall|j: int| 0 <= j < n ==> other.val_seq()[j] == self.val_seq()[j],
        ensures
            other.map_upto(n) == self.map_upto(n),
        decreases n,
    {
        if n > 0 {
            self.lemma_congruent_prefix(other, n - 1);
        }
    }

    /// Stores a value for a key, replacing any value stored for it before.
    pub fn set(&mut self, k: String, v: V)
        requires
            old(self).wf(),
        ensures
            final(self).wf(),
            final(self)@ == old(self)@.insert(k@, v.deep_view()),
            final(self).key_seq() == (if old(self).key_seq().contains(k@) {
                old(self).key_seq()
            } else {
                old(self).key_seq().push(k@)
            }),
            forall|j: int|
                0 <= j < final(self).values().len() ==> #[trigger] final(self).values()[j] == v
                    || old(self).values().contains(final(self).values()[j]),
    {
        let ghost old_self = *self;
        match self.find(k.as_str()) {
            Some(i) => {
                self.vals[i] = v;
                proof {
                    assert(self.val_seq() =~= old_self.val_seq().update(
                        i as int,
                        v.deep_view(),
                    ));
                    assert(self.key_seq() =~= old_self.key_seq());
                    old_self.lemma_update_at(*self, i as int, old_self.key_seq().len() as int);
                    assert(self.key_seq()[i as int] == k@);
                    assert(self@ =~= old_self@.insert(k@, v.deep_view()));
                    assert(old_self.key_seq().contains(k@));
                }
            },
            None => {
                self.keys.push(k);
                self.vals.push(v);
                proof {
                    assert(self.key_seq() =~= old_self.key_seq().push(k@));
                    assert(self.val_seq() =~= old_self.val_seq().push(v.deep_view()));
                    assert(self.key_seq().drop_last() =~= old_self.key_seq());
                    assert forall|j: int| 0 <= j < old_self.key_seq().len() implies self.key_seq()[j]
                        != k@ by {
                        assert(!old_self.key_seq().contains(k@));
                        assert(old_self.key_seq()[j] != k@);
                    }
                    assert(self.key_seq().no_duplicates());
                    let n = self.key_seq().len() as int;
                    old_self.lemma_congruent_prefix(*self, n - 1);
                    assert(self@ == self.map_upto(n - 1).insert(k@, v.deep_view()));
                    assert(self@ == old_self@.insert(k@, v.deep_view()));
                }
            },
        }
    }

    /// Decides well-formedness, so that unverified callers can check it
    /// before relying on it.
    pub fn check_wf(&self) -> (r: bool)
        ensures
            r == self.wf(),
    {
        if self.keys.len() != self.vals.len() {
            return false;
        }
        let n = self.keys.len();
        let mut i: usize = 0;
        while i < n
            invariant
                0 <= i <= n,
                n == self.keys@.len(),
                self.keys@.len() == self.vals@.len(),
                self.key_seq().len() == n,
                forall|p: int, q: int| 0 <= p < q < i ==> self.key_seq()[p] != self.key_seq()[q],
            decreases n - i,
        {
            let mut j: usize = 0;
            while j < i
                invariant
                    0 <= j <= i < n,
                    n == self.keys@.len(),
                    self.key_seq().len() == n,
                    forall|q: int| 0 <= q < j ==> self.key_seq()[q] != self.key_seq()[i as int],
                decreases i - j,
            {
                if str_eq(self.keys[j].as_str(), self.keys[i].as_str()) {
                    proof {
                        assert(self.key_seq()[j as int] == self.key_seq()[i as int]);
                    }
                    return false;
                }
                j = j + 1;
            }
            i = i + 1;
        }
        proof {
            assert(self.key_seq().no_duplicates());
        }
        true
    }

    /// The key at the given position.
    pub fn key_at(&self, i: usize) -> (r: &String)
        requires
            i < self.key_seq().len(),
        ensures
            r@ == self.key_seq()[i as int],
    {
        proof {
            assert(self.keys.deep_view()[i as int] == self.keys@[i as int].deep_view());
        }
        &self.keys[i]
    }

    /// The value at the given position.
    pub fn val_at(&self, i: usize) -> (r: &V)
        requires
            self.wf(),
            i < self.key_seq().len(),
        ensures
            r.deep_view() == self.val_seq()[i as int],
            self@.contains_key(self.key_seq()[i as int]),
            r.deep_view() == self@[self.key_seq()[i as int]],
            *r == self.values()[i as int],
    {
        proof {
            self.lemma_at(i as int);
            assert(self.vals.deep_view()[i as int] == self.vals@[i as int].deep_view());
        }
        &self.vals[i]
    }
}

impl<V: DeepView> View for StrMap<V> {
    type V = Map<Seq<char>, <V as DeepView>::V>;

    closed spec fn view(&self) -> Map<Seq<char>, <V as DeepView>::V> {
        self.map_upto(self.key_seq().len() as int)
    }
}

impl<V: DeepView> DeepView for StrMap<V> {
    type V = Map<Seq<char>, <V as DeepView>::V>;

    open spec fn deep_view(&self) -> Map<Seq<char>, <V as DeepView>::V> {
        self.view()
    }
}

impl<V: DeepView + Copy> StrMap<V> {
    /// An independent copy of the map, with the same pairs in the same order.
    pub fn duplicate(&self) -> (r: StrMap<V>)
        requires
            self.wf(),
        ensures
            r.wf(),
            r@ == self@,
            r.key_seq() == self.key_seq(),
            r.val_seq() == self.val_seq(),
    {
        let mut keys: Vec<String> = Vec::new();
        let mut vals: Vec<V> = Vec::new();
        let mut i: usize = 0;
        while i < self.keys.len()
            invariant
                0 <= i <= self.keys@.len(),
                self.wf(),
                self.vals@.len() == self.keys@.len(),
                keys@ =~= self.keys@.take(i as int),
                vals@ =~= self.vals@.take(i as int),
            decreases self.keys@.len() - i,
        {
            keys.push(self.keys[i].clone());
            vals.push(self.vals[i]);
            proof {
                assert(keys@ =~= self.keys@.take(i + 1));
                assert(vals@ =~= self.vals@.take(i + 1));
            }
            i = i + 1;
        }
        proof {
            assert(keys@ =~= self.keys@);
            assert(vals@ =~= self.vals@);
        }
        let r = StrMap { keys, vals };
        proof {
            assert(r.key_seq() =~= self.key_seq());
            assert(r.val_seq() =~= self.val_seq());
            r.lemma_congruent(*self, self.key_seq().len() as int);
        }
        r
    }
}

} // verus!
