//! A map from `i32` keys to values, kept as a vector sorted by key.
//!
//! Keys are unique and the entries are always in ascending key order, so a
//! walk over the entries visits the keys in ascending order.
use vstd::prelude::*;

verus! {

/// The keys of `s` strictly ascend, so each key occurs at most once.
pub open spec fn keys_ascending<V>(s: Seq<(i32, V)>) -> bool {
    forall|i: int, j: int| 0 <= i < j < s.len() ==> s[i].0 < s[j].0
}

/// `s` has an entry with key `k`.
pub open spec fn has_key<V>(s: Seq<(i32, V)>, k: i32) -> bool {
    exists|i: int| 0 <= i < s.len() && s[i].0 == k
}

/// The map that a sequence of entries stands for.
pub open spec fn entries_map<V>(s: Seq<(i32, V)>) -> Map<i32, V> {
    Map::new(
        |k: i32| has_key(s, k),
        |k: i32| s[choose|i: int| 0 <= i < s.len() && s[i].0 == k].1,
    )
}

/// In a sequence with ascending keys, the entry at `i` is what the map holds
/// for its key.
pub proof fn lemma_entry_in_map<V>(s: Seq<(i32, V)>, i: int)
    requires
        keys_ascending(s),
        0 <= i < s.len(),
    ensures
        entries_map(s).contains_key(s[i].0),
        entries_map(s)[s[i].0] == s[i].1,
{
    let k = s[i].0;
    assert(has_key(s, k));
    let j = choose|j: int| 0 <= j < s.len() && s[j].0 == k;
    if j < i {
        assert(s[j].0 < s[i].0);
    } else if i < j {
        assert(s[i].0 < s[j].0);
    }
}

/// Entries sorted by key, with no key twice.
#[derive(Debug)]
pub struct KeyMap<V> {
    entries: Vec<(i32, V)>,
}

impl<V> View for KeyMap<V> {
    type V = Map<i32, V>;

    open spec fn view(&self) -> Map<i32, V> {
        entries_map(self.seq())
    }
}

impl<V> KeyMap<V> {
    /// The entries in ascending key order.
    pub closed spec fn seq(&self) -> Seq<(i32, V)> {
        if keys_ascending(self.entries@) {
            self.entries@
        } else {
            Seq::empty()
        }
    }

    /// The entries of every map ascend by key.
    pub proof fn lemma_ascending(&self)
        ensures
            keys_ascending(self.seq()),
    {
    }

    #[verifier::type_invariant]
    spec fn inv(self) -> bool {
        keys_ascending(self.entries@)
    }

    /// An empty map.
    pub fn new() -> (r: Self)
        ensures
            r.seq() == Seq::<(i32, V)>::empty(),
            r@ == Map::<i32, V>::empty(),
    {
        let r = KeyMap { entries: Vec::new() };
        assert(r@ =~= Map::<i32, V>::empty());
        r
    }

    /// The number of entries.
    pub fn len(&self) -> (r: usize)
        ensures
            r == self.seq().len(),
            r == self@.len(),
    {
        proof {
            use_type_invariant(self);
            lemma_map_len(self.seq());
        }
        self.entries.len()
    }

    /// Where `k` is, or where it would go: `(true, i)` when the entry at `i`
    /// has key `k`; `(false, i)` when every entry before `i` has a smaller key
    /// and every entry from `i` on a larger one.
    fn locate(&self, k: i32) -> (r: (bool, usize))
        ensures
            r.1 <= self.seq().len(),
            r.0 ==> r.1 < self.seq().len() && self.seq()[r.1 as int].0 == k,
            !r.0 ==> forall|j: int| 0 <= j < r.1 ==> self.seq()[j].0 < k,
            !r.0 ==> forall|j: int| r.1 <= j < self.seq().len() ==> self.seq()[j].0 > k,
    {
        proof {
            use_type_invariant(self);
        }
        let mut i: usize = 0;
        while i < self.entries.len()
            invariant
                i <= self.entries@.len(),
                keys_ascending(self.entries@),
                forall|j: int| 0 <= j < i ==> self.entries@[j].0 < k,
            decreases self.entries@.len() - i,
        {
            if self.entries[i].0 == k {
                return (true, i);
            }
            if self.entries[i].0 > k {
                return (false, i);
            }
            i += 1;
        }
        (false, i)
    }

    /// Whether the map has an entry with key `k`.
    pub fn contains_key(&self, k: i32) -> (r: bool)
        ensures
            r == self@.contains_key(k),
    {
        let (found, i) = self.locate(k);
        proof {
            if !found {
                assert(!has_key(self.seq(), k));
            }
        }
        found
    }

    /// The value held for `k`, if any.
    pub fn get(&self, k: i32) -> (r: Option<&V>)
        ensures
            r matches Some(v) ==> self@.contains_key(k) && *v == self@[k],
            r is None ==> !self@.contains_key(k),
    {
        let (found, i) = self.locate(k);
        proof {
            use_type_invariant(self);
            if found {
                lemma_entry_in_map(self.seq(), i as int);
            } else {
                assert(!has_key(self.seq(), k));
            }
        }
        if found {
            Some(&self.entries[i].1)
        } else {
            None
        }
    }

    /// The key of the entry at position `i` in ascending order.
    pub fn key_at(&self, i: usize) -> (r: i32)
        requires
            i < self.seq().len(),
        ensures
            r == self.seq()[i as int].0,
            self@.contains_key(r),
    {
        proof {
            use_type_invariant(self);
            lemma_entry_in_map(self.seq(), i as int);
        }
        self.entries[i].0
    }

    /// The value of the entry at position `i` in ascending order.
    pub fn value_at(&self, i: usize) -> (r: &V)
        requires
            i < self.seq().len(),
        ensures
            *r == self.seq()[i as int].1,
            *r == self@[self.seq()[i as int].0],
    {
        proof {
            use_type_invariant(self);
            lemma_entry_in_map(self.seq(), i as int);
        }
        &self.entries[i].1
    }

    /// Sets the value held for `k` to `v`, and returns the value it replaced.
    pub fn insert(&mut self, k: i32, v: V) -> (r: Option<V>)
        ensures
            final(self)@ == old(self)@.insert(k, v),
            r matches Some(w) ==> old(self)@.contains_key(k) && w == old(self)@[k],
            r is None ==> !old(self)@.contains_key(k),
            final(self).seq().len() == old(self).seq().len() + if r is None { 1int } else { 0int },
    {
        proof {
            use_type_invariant(&*self);
        }
        let (found, i) = self.locate(k);
        let mut entries = self.take_entries();
        let ghost s0 = entries@;
        if found {
            proof {
                lemma_entry_in_map(s0, i as int);
            }
            let old_entry = entries.remove(i);
            entries.insert(i, (k, v));
            assert(entries@ =~= s0.update(i as int, (k, v)));
            proof {
                lemma_update_map(s0, i as int, v);
            }
            *self = KeyMap { entries };
            Some(old_entry.1)
        } else {
            entries.insert(i, (k, v));
            assert(entries@ =~= s0.insert(i as int, (k, v)));
            assert(keys_ascending(entries@));
            proof {
                assert(!has_key(s0, k));
                lemma_insert_map(s0, i as int, k, v);
            }
            *self = KeyMap { entries };
            None
        }
    }

    /// Replaces the value of the entry at position `i`, keeping its key.
    pub fn set_value_at(&mut self, i: usize, v: V)
        requires
            i < old(self).seq().len(),
        ensures
            final(self).seq() == old(self).seq().update(i as int, (old(self).seq()[i as int].0, v)),
            final(self)@ == old(self)@.insert(old(self).seq()[i as int].0, v),
    {
        let mut entries = self.take_entries();
        let ghost s0 = entries@;
        let k = entries[i].0;
        entries.remove(i);
        entries.insert(i, (k, v));
        assert(entries@ =~= s0.update(i as int, (k, v)));
        proof {
            lemma_update_map(s0, i as int, v);
        }
        *self = KeyMap { entries };
    }

    /// Moves the entries out, leaving the map empty.
    fn take_entries(&mut self) -> (r: Vec<(i32, V)>)
        ensures
            r@ == old(self).seq(),
            keys_ascending(r@),
    {
        proof {
            use_type_invariant(&*self);
        }
        let mut other = KeyMap::new();
        core::mem::swap(self, &mut other);
        proof {
            use_type_invariant(&other);
        }
        let KeyMap { entries } = other;
        entries
    }
}

/// Without its first entry, an ascending sequence stands for the map without
/// the first key.
proof fn lemma_drop_first<V>(s: Seq<(i32, V)>)
    requires
        keys_ascending(s),
        s.len() > 0,
    ensures
        keys_ascending(s.drop_first()),
        entries_map(s.drop_first()) == entries_map(s).remove(s[0].0),
{
    let t = s.drop_first();
    let m = entries_map(s).remove(s[0].0);
    assert forall|k: i32| has_key(t, k) <==> m.contains_key(k) by {
        if has_key(t, k) {
            let j = choose|j: int| 0 <= j < t.len() && t[j].0 == k;
            assert(s[j + 1].0 == k);
            assert(s[0].0 < s[j + 1].0);
        }
        if m.contains_key(k) {
            let j = choose|j: int| 0 <= j < s.len() && s[j].0 == k;
            assert(j != 0);
            assert(t[j - 1].0 == k);
        }
    }
    assert forall|k: i32| #[trigger] has_key(t, k) implies entries_map(t)[k] == m[k] by {
        let j = choose|j: int| 0 <= j < t.len() && t[j].0 == k;
        lemma_entry_in_map(t, j);
        lemma_entry_in_map(s, j + 1);
    }
    assert(entries_map(t) =~= m);
}

/// An ascending sequence stands for a finite map with one key per entry.
pub proof fn lemma_map_len<V>(s: Seq<(i32, V)>)
    requires
        keys_ascending(s),
    ensures
        entries_map(s).dom().finite(),
        entries_map(s).len() == s.len(),
    decreases s.len(),
{
    if s.len() == 0 {
        assert(entries_map(s).dom() =~= Set::<i32>::empty());
    } else {
        lemma_drop_first(s);
        lemma_map_len(s.drop_first());
        lemma_entry_in_map(s, 0);
        let d = entries_map(s).dom();
        let d1 = entries_map(s.drop_first()).dom();
        assert(d1 =~= d.remove(s[0].0));
        assert(d =~= d1.insert(s[0].0));
    }
}

/// Two ascending sequences that stand for the same map are the same
/// sequence: the map alone fixes the entries and their order.
pub proof fn lemma_entries_determined<V>(s1: Seq<(i32, V)>, s2: Seq<(i32, V)>)
    requires
        keys_ascending(s1),
        keys_ascending(s2),
        entries_map(s1) == entries_map(s2),
    ensures
        s1 == s2,
    decreases s1.len(),
{
    if s1.len() == 0 || s2.len() == 0 {
        if s1.len() > 0 {
            lemma_entry_in_map(s1, 0);
        }
        if s2.len() > 0 {
            lemma_entry_in_map(s2, 0);
        }
        assert(s1 =~= s2);
    } else {
        lemma_entry_in_map(s1, 0);
        lemma_entry_in_map(s2, 0);
        let j1 = choose|j: int| 0 <= j < s2.len() && s2[j].0 == s1[0].0;
        let j2 = choose|j: int| 0 <= j < s1.len() && s1[j].0 == s2[0].0;
        if j1 > 0 {
            assert(s2[0].0 < s2[j1].0);
        }
        if j2 > 0 {
            assert(s1[0].0 < s1[j2].0);
        }
        assert(s1[0].0 == s2[0].0);
        lemma_drop_first(s1);
        lemma_drop_first(s2);
        lemma_entries_determined(s1.drop_first(), s2.drop_first());
        assert(s1 =~= seq![s1[0]] + s1.drop_first());
        assert(s2 =~= seq![s2[0]] + s2.drop_first());
    }
}

/// Replacing the value at `i` in an ascending sequence replaces the value
/// held for its key.
proof fn lemma_update_map<V>(s: Seq<(i32, V)>, i: int, v: V)
    requires
        keys_ascending(s),
        0 <= i < s.len(),
    ensures
        entries_map(s.update(i, (s[i].0, v))) == entries_map(s).insert(s[i].0, v),
{
    let t = s.update(i, (s[i].0, v));
    assert(keys_ascending(t));
    assert forall|k: i32| has_key(t, k) == (has_key(s, k) || k == s[i].0) by {
        if has_key(s, k) {
            let j = choose|j: int| 0 <= j < s.len() && s[j].0 == k;
            assert(t[j].0 == k);
        }
        if has_key(t, k) {
            let j = choose|j: int| 0 <= j < t.len() && t[j].0 == k;
            assert(s[j].0 == k);
        }
    }
    assert forall|k: i32| #[trigger] has_key(t, k) implies entries_map(t)[k] == entries_map(s).insert(s[i].0, v)[k] by {
        let j = choose|j: int| 0 <= j < t.len() && t[j].0 == k;
        lemma_entry_in_map(t, j);
        if j != i {
            lemma_entry_in_map(s, j);
        }
    }
    assert(entries_map(t) =~= entries_map(s).insert(s[i].0, v));
}

/// Inserting an entry with a new key at its place in an ascending sequence
/// adds that key to the map.
proof fn lemma_insert_map<V>(s: Seq<(i32, V)>, i: int, k: i32, v: V)
    requires
        keys_ascending(s),
        keys_ascending(s.insert(i, (k, v))),
        0 <= i <= s.len(),
        !has_key(s, k),
    ensures
        entries_map(s.insert(i, (k, v))) == entries_map(s).insert(k, v),
{
    let t = s.insert(i, (k, v));
    assert forall|x: i32| has_key(t, x) == (has_key(s, x) || x == k) by {
        if has_key(s, x) {
            let j = choose|j: int| 0 <= j < s.len() && s[j].0 == x;
            if j < i {
                assert(t[j].0 == x);
            } else {
                assert(t[j + 1].0 == x);
            }
        }
        if x == k {
            assert(t[i].0 == k);
        }
        if has_key(t, x) {
            let j = choose|j: int| 0 <= j < t.len() && t[j].0 == x;
            if j < i {
                assert(s[j].0 == x);
            } else if j > i {
                assert(s[j - 1].0 == x);
            }
        }
    }
    assert forall|x: i32| #[trigger] has_key(t, x) implies entries_map(t)[x] == entries_map(s).insert(k, v)[x] by {
        let j = choose|j: int| 0 <= j < t.len() && t[j].0 == x;
        lemma_entry_in_map(t, j);
        if j < i {
            lemma_entry_in_map(s, j);
        } else if j > i {
            lemma_entry_in_map(s, j - 1);
        }
    }
    assert(entries_map(t) =~= entries_map(s).insert(k, v));
}

} // verus!
