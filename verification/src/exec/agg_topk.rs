//! Counting with a bounded memory: when too many keys are counted, only the most
//! frequent stay.
use crate::exec::agg_heap::{
    before, by_count, kept, lemma_before_total, lemma_kept, ranks, room_for, top, top_counts,
    top_items, window,
};
use crate::exec::hash::KeyIndex;
use crate::exec::order::sort_numbers;
use crate::text::{
    bytes_less, lemma_bytes_less_total, lemma_bytes_less_transitive, lemma_encode_injective, str_less,
    text_less, texts,
};
use vstd::prelude::*;

verus! {

/// Counts after one more appearance of a key.
pub open spec fn bumped<K>(entries: Seq<(K, u64)>, key: K) -> Seq<(K, u64)> {
    if exists|i: int| 0 <= i < entries.len() && (#[trigger] entries[i]).0 == key {
        let i = choose|i: int| 0 <= i < entries.len() && (#[trigger] entries[i]).0 == key;
        entries.update(i, (key, (entries[i].1 + 1) as u64))
    } else {
        entries.push((key, 1u64))
    }
}

/// The counts in a list of counted keys.
pub open spec fn entry_counts<K>(entries: Seq<(K, u64)>) -> Seq<u64> {
    Seq::new(entries.len(), |i: int| entries[i].1)
}

/// Counted keys, picked by their numbers.
pub open spec fn picked<K>(entries: Seq<(K, u64)>, numbers: Seq<usize>) -> Seq<(K, u64)> {
    Seq::new(numbers.len(), |i: int| entries[numbers[i] as int])
}

/// The most frequent keys of a list.
pub open spec fn pruned_entries<K>(entries: Seq<(K, u64)>, room: nat) -> Seq<(K, u64)> {
    picked(entries, kept(by_count(entry_counts(entries)), entries.len(), room))
}

/// Counts after one more appearance of a key, cut down if they are too many.
pub open spec fn streamed_step<K>(
    entries: Seq<(K, u64)>,
    key: K,
    limit: usize,
    offset: usize,
    factor: usize,
) -> Seq<(K, u64)> {
    let more = bumped(entries, key);
    let room = room_for(limit, offset);
    if room > 0 && more.len() > room * factor {
        pruned_entries(more, room)
    } else {
        more
    }
}

/// Counts of keys that come one after another.
pub open spec fn streamed<K>(keys: Seq<K>, limit: usize, offset: usize, factor: usize) -> Seq<
    (K, u64),
>
    decreases keys.len(),
{
    if keys.len() == 0 {
        Seq::empty()
    } else {
        streamed_step(
            streamed(keys.drop_last(), limit, offset, factor),
            keys.last(),
            limit,
            offset,
            factor,
        )
    }
}

/// Larger counts are better, and of equal counts the smaller text.
pub open spec fn by_count_and_text(counts: Seq<u64>, ties: Seq<Seq<char>>) -> spec_fn(
    usize,
    usize,
) -> bool {
    |a: usize, b: usize|
        counts[a as int] > counts[b as int] || (counts[a as int] == counts[b as int] && text_less(
            ties[a as int],
            ties[b as int],
        ))
}

/// Counts with texts rank items.
pub proof fn lemma_count_and_text_ranks(counts: Seq<u64>, ties: Seq<Seq<char>>)
    ensures
        ranks(by_count_and_text(counts, ties)),
{
    let better = by_count_and_text(counts, ties);
    assert forall|a: usize, b: usize| #[trigger] better(a, b) implies !better(b, a) by {
        lemma_text_order(ties[a as int], ties[b as int], ties[b as int]);
    }
    assert forall|a: usize, b: usize, c: usize| #[trigger] better(a, c) implies #[trigger] better(
        a,
        b,
    ) || better(b, c) by {
        lemma_text_order(ties[a as int], ties[b as int], ties[c as int]);
    }
}

/// The order of texts is total and what lies between keeps it.
pub proof fn lemma_text_order(a: Seq<char>, b: Seq<char>, c: Seq<char>)
    ensures
        text_less(a, b) ==> !text_less(b, a),
        !text_less(a, b) && !text_less(b, a) ==> a == b,
        text_less(a, c) ==> text_less(a, b) || text_less(b, c),
        text_less(a, b) && text_less(b, c) ==> text_less(a, c),
        !text_less(a, a),
{
    let x = vstd::utf8::encode_utf8(a);
    let y = vstd::utf8::encode_utf8(b);
    let z = vstd::utf8::encode_utf8(c);
    lemma_bytes_less_total(x, y);
    lemma_bytes_less_total(y, x);
    lemma_bytes_less_total(x, x);
    lemma_bytes_less_total(x, z);
    lemma_bytes_less_total(y, z);
    if bytes_less(x, y) && bytes_less(y, z) {
        lemma_bytes_less_transitive(x, y, z);
    }
    if bytes_less(x, z) && bytes_less(z, y) {
        lemma_bytes_less_transitive(x, z, y);
    }
    if bytes_less(y, x) && bytes_less(x, z) {
        lemma_bytes_less_transitive(y, x, z);
    }
    if x == y {
        lemma_encode_injective(a, b);
    }
}

/// Counts of keys, cut down to the most frequent when they become too many.
pub struct StreamingTopK {
    index: KeyIndex,
    counts: Vec<u64>,
    limit: usize,
    offset: usize,
    prune_factor: usize,
}

impl View for StreamingTopK {
    type V = Seq<(u128, u64)>;

    closed spec fn view(&self) -> Seq<(u128, u64)> {
        Seq::new(self.counts@.len(), |i: int| (self.index@[i], self.counts@[i]))
    }
}

impl StreamingTopK {
    /// Every key has one count.
    pub closed spec fn wf(&self) -> bool {
        &&& self.index.wf()
        &&& self.index@.len() == self.counts@.len()
        &&& self.index@.no_duplicates()
    }

    /// The limit, the offset and the prune factor.
    pub closed spec fn settings(&self) -> (usize, usize, usize) {
        (self.limit, self.offset, self.prune_factor)
    }

    /// Whether every key can be counted once more.
    pub open spec fn countable(&self) -> bool {
        forall|i: int| 0 <= i < self@.len() ==> (#[trigger] self@[i]).1 < u64::MAX
    }

    /// Counts that are cut down when there are 64 times too many.
    pub fn new(limit: usize, offset: usize) -> (t: Self)
        ensures
            t.wf(),
            t@ == Seq::<(u128, u64)>::empty(),
            t.settings() == (limit, offset, 64usize),
    {
        StreamingTopK::with_prune_factor(limit, offset, 64)
    }

    /// Counts that are cut down when there are too many by a factor, which is at
    /// least four.
    pub fn with_prune_factor(limit: usize, offset: usize, prune_factor: usize) -> (t: Self)
        ensures
            t.wf(),
            t@ == Seq::<(u128, u64)>::empty(),
            t.settings() == (limit, offset, if prune_factor < 4 {
                4usize
            } else {
                prune_factor
            }),
    {
        let factor: usize = if prune_factor < 4 {
            4
        } else {
            prune_factor
        };
        let t = StreamingTopK {
            index: KeyIndex::new(),
            counts: Vec::new(),
            limit,
            offset,
            prune_factor: factor,
        };
        assert(t@ =~= Seq::<(u128, u64)>::empty());
        t
    }

    /// How many keys are counted.
    pub fn len(&self) -> (n: usize)
        ensures
            n == self@.len(),
    {
        self.counts.len()
    }

    /// A counted key.
    pub fn entry(&self, i: usize) -> (e: (u128, u64))
        requires
            self.wf(),
            i < self@.len(),
        ensures
            e == self@[i as int],
    {
        (self.index.key(i), self.counts[i])
    }

    /// Whether a key is counted.
    pub fn contains_key(&self, key: u128) -> (r: bool)
        requires
            self.wf(),
        ensures
            r == exists|i: int| 0 <= i < self@.len() && (#[trigger] self@[i]).0 == key,
    {
        match self.index.find(key) {
            Some(i) => {
                assert(self@[i as int].0 == key);
                true
            },
            None => {
                assert forall|i: int| 0 <= i < self@.len() implies (#[trigger] self@[i]).0
                    != key by {
                    assert(self.index@[i] != key);
                }
                false
            },
        }
    }

    /// Counts one more appearance of a key.
    pub fn inc(&mut self, key: u128)
        requires
            old(self).wf(),
            old(self).countable(),
        ensures
            final(self).wf(),
            final(self).settings() == old(self).settings(),
            final(self)@ == streamed_step(
                old(self)@,
                key,
                old(self).settings().0,
                old(self).settings().1,
                old(self).settings().2,
            ),
    {
        let ghost before = self@;
        let i: usize = self.index.note(key);
        if i < self.counts.len() {
            let c: u64 = self.counts[i];
            assert(before[i as int].0 == key);
            assert(before[i as int].1 == c);
            self.counts.set(i, c + 1);
            proof {
                let j = choose|j: int| 0 <= j < before.len() && (#[trigger] before[j]).0 == key;
                assert(self.index@[j] == self.index@[i as int]);
                assert(self@ =~= bumped(before, key));
            }
        } else {
            self.counts.push(1);
            proof {
                assert forall|j: int| 0 <= j < before.len() implies (#[trigger] before[j]).0
                    != key by {
                    assert(self.index@[j] != self.index@[i as int]) by {
                        assert(before[j].0 == old(self).index@[j]);
                    }
                }
                assert(self@ =~= bumped(before, key));
            }
        }
        self.maybe_prune();
    }

    /// The room that the counts should fit in.
    fn room(&self) -> (n: usize)
        ensures
            n == room_for(self.settings().0, self.settings().1),
    {
        if self.limit <= usize::MAX - self.offset {
            self.limit + self.offset
        } else {
            usize::MAX
        }
    }

    /// Cuts the counts down if they are too many.
    fn maybe_prune(&mut self)
        requires
            old(self).wf(),
        ensures
            final(self).wf(),
            final(self).settings() == old(self).settings(),
            final(self)@ == ({
                let room = room_for(old(self).settings().0, old(self).settings().1);
                if room > 0 && old(self)@.len() > room * old(self).settings().2 {
                    pruned_entries(old(self)@, room)
                } else {
                    old(self)@
                }
            }),
    {
        let need: usize = self.room();
        let factor: usize = self.prune_factor;
        assert(need * factor < 0x1_0000_0000_0000_0000_0000_0000_0000_0000) by (nonlinear_arith)
            requires
                0 <= need <= 0xffff_ffff_ffff_ffff,
                0 <= factor <= 0xffff_ffff_ffff_ffff,
        ;
        if need > 0 && self.counts.len() as u128 > need as u128 * factor as u128 {
            self.prune();
        }
    }

    /// Cuts the counts down to the most frequent keys.
    fn prune(&mut self)
        requires
            old(self).wf(),
        ensures
            final(self).wf(),
            final(self).settings() == old(self).settings(),
            final(self)@ == pruned_entries(
                old(self)@,
                room_for(old(self).settings().0, old(self).settings().1),
            ),
    {
        let need: usize = self.room();
        let ghost entries = self@;
        let ghost rule = by_count(entry_counts(entries));
        assert(entry_counts(entries) =~= self.counts@);
        let stay = self.kept_numbers(need);
        let mut index = KeyIndex::new();
        let mut counts: Vec<u64> = Vec::new();
        let mut i: usize = 0;
        while i < stay.len()
            invariant
                i <= stay@.len(),
                self.wf(),
                entries == self@,
                index.wf(),
                stay@.no_duplicates(),
                forall|k: int| 0 <= k < stay@.len() ==> #[trigger] stay@[k] < self.counts@.len(),
                index@ =~= Seq::new(i as nat, |k: int| self.index@[stay@[k] as int]),
                counts@ =~= Seq::new(i as nat, |k: int| self.counts@[stay@[k] as int]),
            decreases stay@.len() - i,
        {
            let s: usize = stay[i];
            let key: u128 = self.index.key(s);
            let ghost seen = index@;
            let place: usize = index.note(key);
            proof {
                assert forall|k: int| 0 <= k < seen.len() implies #[trigger] seen[k] != key by {
                    assert(stay@[k] != stay@[i as int]);
                }
                assert(!seen.contains(key));
            }
            counts.push(self.counts[s]);
            i = i + 1;
        }
        proof {
            assert forall|a: int, b: int| 0 <= a < b < index@.len() implies index@[a] != index@[b] by {
                assert(stay@[a] != stay@[b]);
            }
        }
        self.index = index;
        self.counts = counts;
        assert(self@ =~= picked(entries, stay@));
    }

    /// The numbers of the keys that stay.
    fn kept_numbers(&self, need: usize) -> (stay: Vec<usize>)
        requires
            self.wf(),
        ensures
            stay@ == kept(by_count(self.counts@), self.counts@.len(), need as nat),
            stay@.no_duplicates(),
            forall|k: int| 0 <= k < stay@.len() ==> #[trigger] stay@[k] < self.counts@.len(),
    {
        let ghost rule = by_count(self.counts@);
        let n: usize = self.counts.len();
        let counts = &self.counts;
        let better = |a: usize, b: usize| -> (r: bool)
            requires
                n > a,
                n > b,
            ensures
                r == rule(a, b),
        {
            counts[a] > counts[b]
        };
        proof {
            lemma_kept(rule, n as nat, need as nat);
        }
        crate::exec::agg_heap::keep_items(n, need, better, Ghost(rule))
    }

    /// The counted keys by descending count, from the offset on.
    pub fn top_entries(&self) -> (out: Vec<(u128, u64)>)
        requires
            self.wf(),
        ensures
            out@ == picked(
                self@,
                window(
                    Seq::new(self@.len(), |i: int| i as usize).sort_by(
                        before(by_count(entry_counts(self@))),
                    ),
                    self.settings().0 as nat,
                    self.settings().1 as nat,
                ),
            ),
    {
        let n: usize = self.counts.len();
        let counts = &self.counts;
        assert(entry_counts(self@) =~= self.counts@);
        let ghost leq = before(by_count(self.counts@));
        let mut all: Vec<usize> = Vec::new();
        let mut i: usize = 0;
        while i < n
            invariant
                i <= n,
                all@ =~= Seq::new(i as nat, |k: int| k as usize),
            decreases n - i,
        {
            all.push(i);
            i = i + 1;
        }
        proof {
            lemma_before_total(by_count(self.counts@));
        }
        let compare = |a: usize, b: usize| -> (r: bool)
            requires
                n > a,
                n > b,
            ensures
                r == leq(a, b),
        {
            counts[a] > counts[b] || (!(counts[b] > counts[a]) && a <= b)
        };
        let sorted = sort_numbers(&all, compare, Ghost(leq));
        proof {
            crate::exec::agg_heap::lemma_members(all@, sorted@, n);
        }
        let mut out: Vec<(u128, u64)> = Vec::new();
        let mut j: usize = self.offset;
        while j < sorted.len() && j - self.offset < self.limit
            invariant
                self.wf(),
                n == self@.len(),
                self.offset <= j,
                j <= sorted@.len() || j == self.offset,
                out@ =~= picked(
                    self@,
                    window(sorted@, (j - self.offset) as nat, self.offset as nat),
                ),
                j - self.offset <= self.limit,
                forall|k: int| 0 <= k < sorted@.len() ==> #[trigger] sorted@[k] < n,
            decreases sorted@.len() - j,
        {
            assert(sorted@[j as int] < n);
            out.push(self.entry(sorted[j]));
            j = j + 1;
        }
        out
    }

    /// The most frequent keys, most frequent first.
    pub fn finish(&self) -> (out: Vec<(u128, u64)>)
        requires
            self.wf(),
        ensures
            out@ == picked(
                self@,
                top(
                    by_count(entry_counts(self@)),
                    self@.len(),
                    self.settings().0,
                    self.settings().1,
                ),
            ),
    {
        assert(entry_counts(self@) =~= self.counts@);
        let t = top_counts(&self.counts, self.limit, self.offset);
        self.pick(&t)
    }

    /// The counted keys with the given numbers.
    fn pick(&self, t: &Vec<usize>) -> (out: Vec<(u128, u64)>)
        requires
            self.wf(),
            forall|k: int| 0 <= k < t@.len() ==> #[trigger] t@[k] < self@.len(),
        ensures
            out@ == picked(self@, t@),
    {
        let mut out: Vec<(u128, u64)> = Vec::new();
        let mut j: usize = 0;
        while j < t.len()
            invariant
                self.wf(),
                j <= t@.len(),
                forall|k: int| 0 <= k < t@.len() ==> #[trigger] t@[k] < self@.len(),
                out@ =~= picked(self@, t@.take(j as int)),
            decreases t@.len() - j,
        {
            assert(t@[j as int] < self@.len());
            out.push(self.entry(t[j]));
            j = j + 1;
        }
        assert(t@.take(j as int) =~= t@);
        out
    }

    /// The most frequent keys, most frequent first; of equally frequent keys the
    /// one with the smaller text comes first.
    pub fn finish_with_tie_key(&self, ties: &Vec<String>) -> (out: Vec<(u128, u64)>)
        requires
            self.wf(),
            ties@.len() == self@.len(),
        ensures
            out@ == picked(
                self@,
                top(
                    by_count_and_text(entry_counts(self@), texts(ties@)),
                    self@.len(),
                    self.settings().0,
                    self.settings().1,
                ),
            ),
    {
        assert(entry_counts(self@) =~= self.counts@);
        let ghost rule = by_count_and_text(self.counts@, texts(ties@));
        let n: usize = self.counts.len();
        let counts = &self.counts;
        let better = |a: usize, b: usize| -> (r: bool)
            requires
                n > a,
                n > b,
            ensures
                r == rule(a, b),
        {
            counts[a] > counts[b] || (counts[a] == counts[b] && str_less(
                ties[a].as_str(),
                ties[b].as_str(),
            ))
        };
        proof {
            lemma_count_and_text_ranks(self.counts@, texts(ties@));
        }
        let t = top_items(n, self.limit, self.offset, better, Ghost(rule));
        self.pick(&t)
    }
}

} // verus!
