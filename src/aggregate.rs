//! The aggregate of a run: the result text of every job that succeeded, keyed
//! by job key, and the snapshot text that stands for its whole content.
use vstd::prelude::*;
use crate::keymap::{KeyMap, keys_ascending, entries_map, has_key, lemma_entry_in_map, lemma_entries_determined, lemma_map_len};
use crate::keys::{format_key, key_text};

verus! {

/// What a snapshot of entries serialises to: a pretty-printed JSON object
/// with one member per pair, in the order given.
pub uninterp spec fn json_object_text(entries: Seq<(Seq<char>, Seq<char>)>) -> Seq<char>;

/// The text pairs that a vector of string pairs holds.
pub open spec fn pairs_view(entries: Seq<(String, String)>) -> Seq<(Seq<char>, Seq<char>)> {
    entries.map_values(|e: (String, String)| (e.0@, e.1@))
}

/// Relies on serde_json's pretty serializer, driven by serde's
/// `Serializer::collect_map`, to write the pairs, in the order given, as the
/// members of one JSON object, the same text as `serde_json::to_string_pretty`
/// of a map with those members. The serializer fails only where its writer
/// fails, and writing into a `Vec<u8>` does not fail; what it writes is
/// UTF-8. So the result is always present.
#[verifier::external_body]
fn pretty_json_object(entries: &Vec<(String, String)>) -> (r: Option<String>)
    ensures
        r is Some,
        r->Some_0@ == json_object_text(pairs_view(entries@)),
{
    let mut out: Vec<u8> = Vec::new();
    let mut ser = serde_json::Serializer::pretty(&mut out);
    match serde::Serializer::collect_map(&mut ser, entries.iter().map(|e| (&e.0, &e.1))) {
        Ok(()) => String::from_utf8(out).ok(),
        Err(_) => None,
    }
}

/// The entries with each value replaced by its text.
pub open spec fn texts_of(s: Seq<(i32, String)>) -> Seq<(i32, Seq<char>)> {
    s.map_values(|e: (i32, String)| (e.0, e.1@))
}

/// Taking the text of each value keeps the order of the keys, and the map
/// becomes the map of texts.
proof fn lemma_texts_of(s: Seq<(i32, String)>)
    requires
        keys_ascending(s),
    ensures
        keys_ascending(texts_of(s)),
        entries_map(texts_of(s)) == entries_map(s).map_values(|v: String| v@),
{
    let t = texts_of(s);
    assert forall|k: i32| has_key(t, k) <==> has_key(s, k) by {
        if has_key(t, k) {
            let j = choose|j: int| 0 <= j < t.len() && t[j].0 == k;
            assert(s[j].0 == k);
        }
        if has_key(s, k) {
            let j = choose|j: int| 0 <= j < s.len() && s[j].0 == k;
            assert(t[j].0 == k);
        }
    }
    assert forall|k: i32| #[trigger] has_key(t, k) implies entries_map(t)[k] == entries_map(s)[k]@ by {
        let j = choose|j: int| 0 <= j < t.len() && t[j].0 == k;
        lemma_entry_in_map(t, j);
        lemma_entry_in_map(s, j);
    }
    assert(entries_map(t) =~= entries_map(s).map_values(|v: String| v@));
}

/// The snapshot depends on the aggregate's content alone: two aggregates
/// that hold the same results have the same snapshot, whatever order their
/// entries were inserted in.
pub proof fn lemma_snapshot_determined(a1: Aggregate, a2: Aggregate)
    requires
        a1@ == a2@,
    ensures
        a1.snapshot_view() == a2.snapshot_view(),
{
    lemma_snapshot_view(a1);
    lemma_snapshot_view(a2);
    lemma_entries_determined(a1.texts(), a2.texts());
}

/// What the snapshot holds: `texts` ascends by key, has one entry per key of
/// the aggregate, and holds for each key the aggregate's result; the snapshot
/// renders each of its keys with `key_text`.
pub proof fn lemma_snapshot_view(a: Aggregate)
    ensures
        keys_ascending(a.texts()),
        entries_map(a.texts()) == a@,
        a.texts().len() == a@.len(),
        a@.dom().finite(),
        forall|i: int| 0 <= i < a.texts().len() ==> a@.contains_key(#[trigger] a.texts()[i].0)
            && a@[a.texts()[i].0] == a.texts()[i].1,
        forall|k: i32| #[trigger] a@.contains_key(k) ==> exists|i: int| 0 <= i < a.texts().len() && a.texts()[i].0 == k,
{
    a.entries.lemma_ascending();
    lemma_texts_of(a.entries.seq());
    assert(a@ =~= entries_map(a.entries.seq()).map_values(|v: String| v@));
    lemma_map_len(a.texts());
    assert forall|i: int| 0 <= i < a.texts().len() implies a@.contains_key(#[trigger] a.texts()[i].0)
        && a@[a.texts()[i].0] == a.texts()[i].1 by {
        lemma_entry_in_map(a.texts(), i);
    }
}

/// The map after inserting the pairs, one after the other, into `m`.
pub open spec fn inserted_all(m: Map<i32, Seq<char>>, p: Seq<(i32, Seq<char>)>) -> Map<i32, Seq<char>>
    decreases p.len(),
{
    if p.len() == 0 {
        m
    } else {
        inserted_all(m, p.drop_last()).insert(p.last().0, p.last().1)
    }
}

/// No key occurs twice among the pairs.
pub open spec fn keys_distinct(p: Seq<(i32, Seq<char>)>) -> bool {
    forall|i: int, j: int| 0 <= i < p.len() && 0 <= j < p.len() && i != j ==> p[i].0 != p[j].0
}

/// With distinct keys, the pair at `i` is what the map of the pairs holds
/// for its key.
proof fn lemma_distinct_entry(p: Seq<(i32, Seq<char>)>, i: int)
    requires
        keys_distinct(p),
        0 <= i < p.len(),
    ensures
        entries_map(p).contains_key(p[i].0),
        entries_map(p)[p[i].0] == p[i].1,
{
    assert(has_key(p, p[i].0));
    let j = choose|j: int| 0 <= j < p.len() && p[j].0 == p[i].0;
    assert(j == i);
}

/// Inserting pairs with distinct keys one after the other lays the map of
/// the pairs over `m`.
proof fn lemma_inserted_all(m: Map<i32, Seq<char>>, p: Seq<(i32, Seq<char>)>)
    requires
        keys_distinct(p),
    ensures
        inserted_all(m, p) == m.union_prefer_right(entries_map(p)),
    decreases p.len(),
{
    if p.len() == 0 {
        assert(entries_map(p) =~= Map::<i32, Seq<char>>::empty());
        assert(m.union_prefer_right(entries_map(p)) =~= m);
    } else {
        let q = p.drop_last();
        let last = p.last();
        assert(keys_distinct(q));
        lemma_inserted_all(m, q);
        let e = entries_map(q).insert(last.0, last.1);
        assert forall|k: i32| entries_map(p).contains_key(k) <==> e.contains_key(k) by {
            if has_key(p, k) && k != last.0 {
                let j = choose|j: int| 0 <= j < p.len() && p[j].0 == k;
                assert(q[j].0 == k);
            }
            if has_key(q, k) {
                let j = choose|j: int| 0 <= j < q.len() && q[j].0 == k;
                assert(p[j].0 == k);
            }
            if k == last.0 {
                assert(p[p.len() - 1].0 == k);
            }
        }
        assert forall|k: i32| #[trigger] entries_map(p).contains_key(k) implies entries_map(p)[k] == e[k] by {
            let j = choose|j: int| 0 <= j < p.len() && p[j].0 == k;
            lemma_distinct_entry(p, j);
            if j < p.len() - 1 {
                assert(q[j] == p[j]);
                lemma_distinct_entry(q, j);
            }
        }
        assert(entries_map(p) =~= e);
        assert(inserted_all(m, p) =~= m.union_prefer_right(entries_map(p)));
    }
}

/// Pairs with distinct keys that are the same pairs, in whatever order,
/// stand for the same map.
proof fn lemma_same_pairs(p1: Seq<(i32, Seq<char>)>, p2: Seq<(i32, Seq<char>)>)
    requires
        keys_distinct(p1),
        keys_distinct(p2),
        p1.to_set() == p2.to_set(),
    ensures
        entries_map(p1) == entries_map(p2),
{
    assert forall|k: i32| #[trigger] has_key(p1, k) implies has_key(p2, k) && entries_map(p1)[k] == entries_map(p2)[k] by {
        let i = choose|i: int| 0 <= i < p1.len() && p1[i].0 == k;
        assert(p1.to_set().contains(p1[i]));
        let j = choose|j: int| 0 <= j < p2.len() && p2[j] == p1[i];
        lemma_distinct_entry(p1, i);
        lemma_distinct_entry(p2, j);
    }
    assert forall|k: i32| #[trigger] has_key(p2, k) implies has_key(p1, k) by {
        let j = choose|j: int| 0 <= j < p2.len() && p2[j].0 == k;
        assert(p2.to_set().contains(p2[j]));
        let i = choose|i: int| 0 <= i < p1.len() && p1[i] == p2[j];
        assert(p1[i].0 == k);
    }
    assert(entries_map(p1) =~= entries_map(p2));
}

/// Inserts commute: inserting the same pairs with distinct keys into the
/// same map, in any two orders, gives aggregates with the same content and
/// the same snapshot.
pub proof fn lemma_insert_order_independent(
    a1: Aggregate,
    a2: Aggregate,
    m: Map<i32, Seq<char>>,
    p1: Seq<(i32, Seq<char>)>,
    p2: Seq<(i32, Seq<char>)>,
)
    requires
        keys_distinct(p1),
        keys_distinct(p2),
        p1.to_set() == p2.to_set(),
        a1@ == inserted_all(m, p1),
        a2@ == inserted_all(m, p2),
    ensures
        a1@ == a2@,
        a1.snapshot_view() == a2.snapshot_view(),
{
    lemma_inserted_all(m, p1);
    lemma_inserted_all(m, p2);
    lemma_same_pairs(p1, p2);
    lemma_snapshot_determined(a1, a2);
}

/// The error of an insert whose key the aggregate already holds.
#[derive(Debug, Clone, Copy, PartialEq, Eq, Structural)]
pub enum AggregateError {
    DuplicateKey,
}

/// The results of the jobs that succeeded, one entry per key.
#[derive(Debug)]
pub struct Aggregate {
    entries: KeyMap<String>,
}

impl View for Aggregate {
    type V = Map<i32, Seq<char>>;

    closed spec fn view(&self) -> Map<i32, Seq<char>> {
        self.entries@.map_values(|v: String| v@)
    }
}

impl Aggregate {
    /// The entries, each key with the text of its result, in ascending key
    /// order (see `lemma_snapshot_view`).
    pub closed spec fn texts(&self) -> Seq<(i32, Seq<char>)> {
        texts_of(self.entries.seq())
    }

    /// The snapshot of the aggregate: each key's text with its result, in
    /// ascending key order.
    pub open spec fn snapshot_view(&self) -> Seq<(Seq<char>, Seq<char>)> {
        self.texts().map_values(|e: (i32, Seq<char>)| (key_text(e.0 as int), e.1))
    }

    /// An empty aggregate.
    pub fn new() -> (r: Aggregate)
        ensures
            r@ == Map::<i32, Seq<char>>::empty(),
            r.snapshot_view() == Seq::<(Seq<char>, Seq<char>)>::empty(),
    {
        let r = Aggregate { entries: KeyMap::new() };
        assert(r@ =~= Map::<i32, Seq<char>>::empty());
        assert(r.snapshot_view() =~= Seq::<(Seq<char>, Seq<char>)>::empty());
        r
    }

    /// The number of entries.
    pub fn len(&self) -> (r: usize)
        ensures
            r == self@.len(),
            r == self.snapshot_view().len(),
    {
        assert(self@.dom() =~= self.entries@.dom());
        self.entries.len()
    }

    /// Whether the aggregate holds a result for `key`.
    pub fn contains_key(&self, key: i32) -> (r: bool)
        ensures
            r == self@.contains_key(key),
    {
        self.entries.contains_key(key)
    }

    /// The result held for `key`, if any.
    pub fn get(&self, key: i32) -> (r: Option<&String>)
        ensures
            r matches Some(v) ==> self@.contains_key(key) && v@ == self@[key],
            r is None ==> !self@.contains_key(key),
    {
        self.entries.get(key)
    }

    /// Adds the result `value` for `key`. A key that is already held is
    /// refused and the aggregate stays as it was.
    pub fn insert(&mut self, key: i32, value: String) -> (r: Result<(), AggregateError>)
        ensures
            r is Err <==> old(self)@.contains_key(key),
            r is Err ==> final(self)@ == old(self)@ && final(self).snapshot_view() == old(self).snapshot_view(),
            r is Ok ==> final(self)@ == old(self)@.insert(key, value@),
    {
        if self.entries.contains_key(key) {
            return Err(AggregateError::DuplicateKey);
        }
        let ghost text = value@;
        self.entries.insert(key, value);
        assert(self@ =~= old(self)@.insert(key, text));
        Ok(())
    }

    /// The snapshot's pairs: each key rendered by `format_key` with its
    /// result, in ascending key order.
    pub fn snapshot_entries(&self) -> (r: Vec<(String, String)>)
        ensures
            pairs_view(r@) == self.snapshot_view(),
    {
        let n = self.entries.len();
        let mut out: Vec<(String, String)> = Vec::new();
        let mut i: usize = 0;
        while i < n
            invariant
                n == self.entries.seq().len(),
                i <= n,
                out@.len() == i,
                pairs_view(out@) == self.snapshot_view().subrange(0, i as int),
            decreases n - i,
        {
            let key = self.entries.key_at(i);
            let value = self.entries.value_at(i);
            let pair = (format_key(key), value.clone());
            let ghost before = out@;
            out.push(pair);
            proof {
                assert(out@ == before.push(pair));
                assert(pairs_view(out@)[i as int] == self.snapshot_view()[i as int]);
                assert forall|j: int| 0 <= j < i implies pairs_view(out@)[j] == pairs_view(before)[j] by {
                    assert(out@[j] == before[j]);
                }
            }
            i += 1;
            assert(pairs_view(out@) =~= self.snapshot_view().subrange(0, i as int));
        }
        assert(self.snapshot_view().subrange(0, n as int) =~= self.snapshot_view());
        out
    }

    /// The snapshot as pretty-printed JSON text, one member per entry in
    /// ascending key order.
    pub fn snapshot_text(&self) -> (r: String)
        ensures
            r@ == json_object_text(self.snapshot_view()),
    {
        let entries = self.snapshot_entries();
        match pretty_json_object(&entries) {
            Some(text) => text,
            None => String::new(),
        }
    }
}

} // verus!
