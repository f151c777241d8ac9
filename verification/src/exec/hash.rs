//! Hash tables of integers and texts, and the numbering of keys by first
//! appearance that grouping is built on.
use crate::text::texts;
use ahash::{AHashMap, AHashSet, RandomState};
use vstd::prelude::*;

verus! {

/// `ahash::RandomState`, the seed of a hash table.
#[verifier::external_type_specification]
#[verifier::external_body]
pub struct ExRandomState(RandomState);

/// `ahash::AHashMap`, a hash map.
#[verifier::external_type_specification]
#[verifier::external_body]
#[verifier::reject_recursive_types(K)]
#[verifier::reject_recursive_types(V)]
#[verifier::reject_recursive_types(S)]
pub struct ExAHashMap<K, V, S>(AHashMap<K, V, S>);

/// `ahash::AHashSet`, a hash set.
#[verifier::external_type_specification]
#[verifier::external_body]
#[verifier::reject_recursive_types(T)]
#[verifier::reject_recursive_types(S)]
pub struct ExAHashSet<T, S>(AHashSet<T, S>);

/// What a map keyed by integers holds.
pub uninterp spec fn int_slots(m: AHashMap<u128, usize>) -> Map<u128, usize>;

/// What a map keyed by lists of texts holds.
pub uninterp spec fn text_slots(m: AHashMap<Vec<String>, usize>) -> Map<Seq<Seq<char>>, usize>;

/// What a set of integers holds.
pub uninterp spec fn int_members(s: AHashSet<i64>) -> Set<i64>;

/// What a set of texts holds.
pub uninterp spec fn text_members(s: AHashSet<String>) -> Set<Seq<char>>;

/// `AHashMap::new` makes an empty map.
#[verifier::external_body]
fn new_int_map() -> (m: AHashMap<u128, usize>)
    ensures
        int_slots(m).dom() == Set::<u128>::empty(),
{
    AHashMap::new()
}

/// `AHashMap::get` finds the value stored under a key.
#[verifier::external_body]
fn int_map_get(m: &AHashMap<u128, usize>, key: u128) -> (r: Option<usize>)
    ensures
        r == (if int_slots(*m).dom().contains(key) {
            Some(int_slots(*m)[key])
        } else {
            None
        }),
{
    m.get(&key).copied()
}

/// `AHashMap::insert` stores a value under a key.
#[verifier::external_body]
fn int_map_insert(m: &mut AHashMap<u128, usize>, key: u128, value: usize)
    ensures
        int_slots(*final(m)) == int_slots(*old(m)).insert(key, value),
{
    m.insert(key, value);
}

/// `AHashMap::new` makes an empty map.
#[verifier::external_body]
fn new_text_map() -> (m: AHashMap<Vec<String>, usize>)
    ensures
        text_slots(m).dom() == Set::<Seq<Seq<char>>>::empty(),
{
    AHashMap::new()
}

/// `AHashMap::get` finds the value stored under a key; keys with the same texts
/// are the same key.
#[verifier::external_body]
fn text_map_get(m: &AHashMap<Vec<String>, usize>, key: &Vec<String>) -> (r: Option<usize>)
    ensures
        r == (if text_slots(*m).dom().contains(texts(key@)) {
            Some(text_slots(*m)[texts(key@)])
        } else {
            None
        }),
{
    m.get(key).copied()
}

/// `AHashMap::insert` stores a value under a key.
#[verifier::external_body]
fn text_map_insert(m: &mut AHashMap<Vec<String>, usize>, key: Vec<String>, value: usize)
    ensures
        text_slots(*final(m)) == text_slots(*old(m)).insert(texts(key@), value),
{
    m.insert(key, value);
}

/// `AHashSet::new` makes an empty set.
#[verifier::external_body]
pub(crate) fn new_int_set() -> (s: AHashSet<i64>)
    ensures
        int_members(s) == Set::<i64>::empty(),
{
    AHashSet::new()
}

/// `AHashSet::insert` adds a member.
#[verifier::external_body]
pub(crate) fn int_set_insert(s: &mut AHashSet<i64>, v: i64)
    ensures
        int_members(*final(s)) == int_members(*old(s)).insert(v),
{
    s.insert(v);
}

/// `AHashSet::contains`: tells whether a number is a member.
#[verifier::external_body]
pub(crate) fn int_set_contains(s: &AHashSet<i64>, v: i64) -> (r: bool)
    ensures
        r == int_members(*s).contains(v),
{
    s.contains(&v)
}

/// `AHashSet::len` counts the members.
#[verifier::external_body]
pub(crate) fn int_set_len(s: &AHashSet<i64>) -> (n: usize)
    ensures
        n == int_members(*s).len(),
{
    s.len()
}

/// `AHashSet::new` makes an empty set.
#[verifier::external_body]
pub(crate) fn new_text_set() -> (s: AHashSet<String>)
    ensures
        text_members(s) == Set::<Seq<char>>::empty(),
{
    AHashSet::new()
}

/// `AHashSet::insert` adds a member.
#[verifier::external_body]
pub(crate) fn text_set_insert(s: &mut AHashSet<String>, v: String)
    ensures
        text_members(*final(s)) == text_members(*old(s)).insert(v@),
{
    s.insert(v);
}

/// `AHashSet::len` counts the members.
#[verifier::external_body]
pub(crate) fn text_set_len(s: &AHashSet<String>) -> (n: usize)
    ensures
        n == text_members(*s).len(),
{
    s.len()
}

/// The distinct members of a sequence, in the order in which they first appear.
pub open spec fn first_seen<K>(keys: Seq<K>) -> Seq<K>
    decreases keys.len(),
{
    if keys.len() == 0 {
        Seq::empty()
    } else {
        noted(first_seen(keys.drop_last()), keys.last())
    }
}

/// A list of distinct keys, with one more key if it is new.
pub open spec fn noted<K>(seen: Seq<K>, key: K) -> Seq<K> {
    if seen.contains(key) {
        seen
    } else {
        seen.push(key)
    }
}

/// How often a key appears.
pub open spec fn occurrences<K>(keys: Seq<K>, key: K) -> nat
    decreases keys.len(),
{
    if keys.len() == 0 {
        0
    } else {
        occurrences(keys.drop_last(), key) + if keys.last() == key {
            1nat
        } else {
            0nat
        }
    }
}

/// How often each distinct key appears, in the order of first appearance.
pub open spec fn tally<K>(keys: Seq<K>) -> Seq<nat> {
    Seq::new(first_seen(keys).len(), |i: int| occurrences(keys, first_seen(keys)[i]))
}

/// No key is listed twice.
pub proof fn lemma_first_seen_distinct<K>(keys: Seq<K>)
    ensures
        first_seen(keys).no_duplicates(),
        forall|k: K| #[trigger] first_seen(keys).contains(k) <==> keys.contains(k),
        first_seen(keys).len() <= keys.len(),
    decreases keys.len(),
{
    if keys.len() > 0 {
        let front = keys.drop_last();
        lemma_first_seen_distinct(front);
        let seen = first_seen(front);
        let now = first_seen(keys);
        assert forall|k: K| #[trigger] now.contains(k) <==> keys.contains(k) by {
            if now.contains(k) {
                let i = choose|i: int| 0 <= i < now.len() && now[i] == k;
                if i < seen.len() {
                    assert(seen.contains(k)) by {
                        assert(seen[i] == k);
                    }
                    let j = choose|j: int| 0 <= j < front.len() && front[j] == k;
                    assert(keys[j] == k);
                } else {
                    assert(keys[keys.len() - 1] == k);
                }
            }
            if keys.contains(k) {
                let j = choose|j: int| 0 <= j < keys.len() && keys[j] == k;
                if j < front.len() {
                    assert(front[j] == k);
                    assert(seen.contains(k));
                    let i = choose|i: int| 0 <= i < seen.len() && seen[i] == k;
                    assert(now[i] == k);
                } else {
                    if seen.contains(k) {
                    } else {
                        assert(now[now.len() - 1] == k);
                    }
                }
            }
        }
    }
}

/// Every key that appears is counted at least once, and none more often than
/// there are keys.
pub proof fn lemma_occurrences<K>(keys: Seq<K>, key: K)
    ensures
        occurrences(keys, key) <= keys.len(),
        occurrences(keys, key) > 0 <==> keys.contains(key),
    decreases keys.len(),
{
    if keys.len() > 0 {
        let front = keys.drop_last();
        lemma_occurrences(front, key);
        if keys.contains(key) {
            let j = choose|j: int| 0 <= j < keys.len() && keys[j] == key;
            if j < front.len() {
                assert(front[j] == key);
            }
        }
        if front.contains(key) {
            let j = choose|j: int| 0 <= j < front.len() && front[j] == key;
            assert(keys[j] == key);
        }
        if keys.last() == key {
            assert(keys[keys.len() - 1] == key);
        }
    }
}

/// The sum of the counts.
pub open spec fn total(counts: Seq<nat>) -> nat
    decreases counts.len(),
{
    if counts.len() == 0 {
        0
    } else {
        total(counts.drop_last()) + counts.last()
    }
}

/// Raising one count by one raises the sum by one.
proof fn lemma_total_update(counts: Seq<nat>, i: int)
    requires
        0 <= i < counts.len(),
    ensures
        total(counts.update(i, counts[i] + 1)) == total(counts) + 1,
    decreases counts.len(),
{
    let up = counts.update(i, counts[i] + 1);
    if i == counts.len() - 1 {
        assert(up.drop_last() =~= counts.drop_last());
    } else {
        lemma_total_update(counts.drop_last(), i);
        assert(up.drop_last() =~= counts.drop_last().update(i, counts[i] + 1));
    }
}

/// One more key changes the counts in one place.
pub proof fn lemma_tally_step<K>(keys: Seq<K>, key: K, i: int)
    requires
        noted(first_seen(keys), key).len() > i >= 0,
        noted(first_seen(keys), key)[i] == key,
    ensures
        first_seen(keys.push(key)) == noted(first_seen(keys), key),
        i < first_seen(keys).len() ==> tally(keys.push(key)) == tally(keys).update(
            i,
            tally(keys)[i] + 1,
        ),
        i == first_seen(keys).len() ==> tally(keys.push(key)) == tally(keys).push(1),
{
    let more = keys.push(key);
    assert(more.drop_last() =~= keys);
    let seen = first_seen(keys);
    let now = first_seen(more);
    lemma_first_seen_distinct(keys);
    lemma_first_seen_distinct(more);
    if i < seen.len() {
        assert(seen[i] == key);
        assert(seen.contains(key));
        assert(tally(more) =~= tally(keys).update(i, tally(keys)[i] + 1)) by {
            assert forall|j: int| 0 <= j < now.len() implies #[trigger] tally(more)[j] == tally(
                keys,
            ).update(i, tally(keys)[i] + 1)[j] by {
                if j != i {
                    assert(seen[j] != seen[i]);
                }
            }
        }
    } else {
        assert(!seen.contains(key));
        lemma_occurrences(keys, key);
        assert(!keys.contains(key));
        assert(tally(more) =~= tally(keys).push(1)) by {
            assert forall|j: int| 0 <= j < now.len() implies #[trigger] tally(more)[j]
                == tally(keys).push(1)[j] by {
                if j < seen.len() {
                    assert(seen.contains(seen[j]));
                    assert(now[j] == seen[j]);
                }
            }
        }
    }
}

/// Counting distinguishes keys and loses none: the counts of the distinct keys
/// add up to the number of keys.
pub proof fn law_tally_total<K>(keys: Seq<K>)
    ensures
        total(tally(keys)) == keys.len(),
    decreases keys.len(),
{
    if keys.len() > 0 {
        let front = keys.drop_last();
        let key = keys.last();
        law_tally_total(front);
        assert(keys =~= front.push(key));
        let seen = first_seen(front);
        if seen.contains(key) {
            let i = choose|i: int| 0 <= i < seen.len() && seen[i] == key;
            lemma_tally_step(front, key, i);
            lemma_total_update(tally(front), i);
        } else {
            lemma_tally_step(front, key, seen.len() as int);
            assert(tally(keys).drop_last() =~= tally(front));
        }
    }
}

/// The number of a key in a list of distinct keys.
pub open spec fn place<K>(seen: Seq<K>, key: K) -> int {
    choose|i: int| 0 <= i < seen.len() && seen[i] == key
}

/// Integer keys, numbered by first appearance.
pub struct KeyIndex {
    map: AHashMap<u128, usize>,
    keys: Vec<u128>,
}

impl View for KeyIndex {
    type V = Seq<u128>;

    closed spec fn view(&self) -> Seq<u128> {
        self.keys@
    }
}

impl KeyIndex {
    /// The map knows the number of every key, and only of those.
    pub closed spec fn wf(&self) -> bool {
        &&& forall|k: u128| #[trigger]
            int_slots(self.map).dom().contains(k) ==> {
                &&& int_slots(self.map)[k] < self.keys@.len()
                &&& self.keys@[int_slots(self.map)[k] as int] == k
            }
        &&& forall|i: int|
            0 <= i < self.keys@.len() ==> int_slots(self.map).dom().contains(
                #[trigger] self.keys@[i],
            ) && int_slots(self.map)[self.keys@[i]] == i
    }

    /// An index without keys.
    pub fn new() -> (x: Self)
        ensures
            x.wf(),
            x@ == Seq::<u128>::empty(),
    {
        KeyIndex { map: new_int_map(), keys: Vec::new() }
    }

    /// The number of keys.
    pub fn len(&self) -> (n: usize)
        ensures
            n == self@.len(),
    {
        self.keys.len()
    }

    /// The key with a number.
    pub fn key(&self, i: usize) -> (k: u128)
        requires
            i < self@.len(),
        ensures
            k == self@[i as int],
    {
        self.keys[i]
    }

    /// All keys, by their numbers.
    pub fn all(&self) -> (v: &Vec<u128>)
        ensures
            v@ == self@,
    {
        &self.keys
    }

    /// The number of a key, if it has one.
    pub fn find(&self, key: u128) -> (r: Option<usize>)
        requires
            self.wf(),
        ensures
            match r {
                Some(i) => i < self@.len() && self@[i as int] == key,
                None => !self@.contains(key),
            },
    {
        int_map_get(&self.map, key)
    }

    /// The number of a key, which is new if the key has not been seen.
    pub fn note(&mut self, key: u128) -> (i: usize)
        requires
            old(self).wf(),
        ensures
            final(self).wf(),
            final(self)@ == noted(old(self)@, key),
            i < final(self)@.len(),
            final(self)@[i as int] == key,
            i == old(self)@.len() <==> !old(self)@.contains(key),
    {
        match int_map_get(&self.map, key) {
            Some(i) => {
                assert(self@[i as int] == key);
                i
            },
            None => {
                let i: usize = self.keys.len();
                assert(!self.keys@.contains(key));
                int_map_insert(&mut self.map, key, i);
                self.keys.push(key);
                i
            },
        }
    }
}

/// Keys that are lists of texts, numbered by first appearance.
pub struct TextIndex {
    map: AHashMap<Vec<String>, usize>,
    keys: Vec<Vec<String>>,
}

/// The texts of each of several lists.
pub open spec fn text_lists(v: Seq<Vec<String>>) -> Seq<Seq<Seq<char>>> {
    Seq::new(v.len(), |i: int| texts(v[i]@))
}

impl View for TextIndex {
    type V = Seq<Seq<Seq<char>>>;

    closed spec fn view(&self) -> Seq<Seq<Seq<char>>> {
        text_lists(self.keys@)
    }
}

/// Copies a list of texts.
pub fn copy_texts(v: &Vec<String>) -> (out: Vec<String>)
    ensures
        texts(out@) == texts(v@),
{
    let mut out: Vec<String> = Vec::new();
    let mut i: usize = 0;
    while i < v.len()
        invariant
            i <= v@.len(),
            texts(out@) =~= texts(v@.take(i as int)),
            out@.len() == i,
        decreases v@.len() - i,
    {
        out.push(v[i].clone());
        i = i + 1;
        proof {
            assert forall|k: int| 0 <= k < i implies texts(out@)[k] == texts(v@.take(i as int))[k] by {
                if k < i - 1 {
                    assert(texts(v@.take(i - 1))[k] == v@[k]@);
                }
            }
        }
    }
    assert(v@.take(i as int) =~= v@);
    out
}

impl TextIndex {
    /// The map knows the number of every key, and only of those.
    pub closed spec fn wf(&self) -> bool {
        &&& forall|k: Seq<Seq<char>>| #[trigger]
            text_slots(self.map).dom().contains(k) ==> {
                &&& text_slots(self.map)[k] < self@.len()
                &&& self@[text_slots(self.map)[k] as int] == k
            }
        &&& forall|i: int|
            0 <= i < self@.len() ==> text_slots(self.map).dom().contains(#[trigger] self@[i])
                && text_slots(self.map)[self@[i]] == i
    }

    /// An index without keys.
    pub fn new() -> (x: Self)
        ensures
            x.wf(),
            x@ == Seq::<Seq<Seq<char>>>::empty(),
    {
        TextIndex { map: new_text_map(), keys: Vec::new() }
    }

    /// The number of keys.
    pub fn len(&self) -> (n: usize)
        ensures
            n == self@.len(),
    {
        self.keys.len()
    }

    /// The key with a number.
    pub fn key(&self, i: usize) -> (k: &Vec<String>)
        requires
            i < self@.len(),
        ensures
            texts(k@) == self@[i as int],
    {
        &self.keys[i]
    }

    /// The number of a key, which is new if the key has not been seen.
    pub fn note(&mut self, key: Vec<String>) -> (i: usize)
        requires
            old(self).wf(),
        ensures
            final(self).wf(),
            final(self)@ == noted(old(self)@, texts(key@)),
            i < final(self)@.len(),
            final(self)@[i as int] == texts(key@),
            i == old(self)@.len() <==> !old(self)@.contains(texts(key@)),
    {
        match text_map_get(&self.map, &key) {
            Some(i) => {
                assert(self@[i as int] == texts(key@));
                i
            },
            None => {
                let i: usize = self.keys.len();
                assert(!self@.contains(texts(key@)));
                let ghost before = self@;
                let ghost k = texts(key@);
                text_map_insert(&mut self.map, copy_texts(&key), i);
                self.keys.push(key);
                assert(self@ =~= before.push(k));
                assert forall|j: int| 0 <= j < self@.len() implies text_slots(
                    self.map,
                ).dom().contains(#[trigger] self@[j]) && text_slots(self.map)[self@[j]] == j by {
                    if j < before.len() {
                        assert(self@[j] == before[j]);
                        assert(before.contains(before[j]));
                    }
                }
                i
            },
        }
    }
}

} // verus!
