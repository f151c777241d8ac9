//! Counts of texts.
use crate::exec::agg_topk::bumped;
use crate::exec::hash::TextIndex;
use crate::text::texts;
use vstd::prelude::*;

verus! {

/// Counts of texts, each text stored once.
pub struct Utf8CountArena {
    index: TextIndex,
    counts: Vec<u64>,
}

impl View for Utf8CountArena {
    type V = Seq<(Seq<char>, u64)>;

    closed spec fn view(&self) -> Seq<(Seq<char>, u64)> {
        Seq::new(self.counts@.len(), |i: int| (self.index@[i][0], self.counts@[i]))
    }
}

impl Utf8CountArena {
    /// Every text has one count, and no text is there twice.
    pub closed spec fn wf(&self) -> bool {
        &&& self.index.wf()
        &&& self.index@.len() == self.counts@.len()
        &&& self.index@.no_duplicates()
        &&& forall|i: int| 0 <= i < self.index@.len() ==> (#[trigger] self.index@[i]).len() == 1
    }

    /// Whether every text can be counted once more.
    pub open spec fn countable(&self) -> bool {
        forall|i: int| 0 <= i < self@.len() ==> (#[trigger] self@[i]).1 < u64::MAX
    }

    /// No counts.
    pub fn with_capacity(keys: usize) -> (a: Self)
        ensures
            a.wf(),
            a@ == Seq::<(Seq<char>, u64)>::empty(),
    {
        let _ = keys;
        let a = Utf8CountArena { index: TextIndex::new(), counts: Vec::new() };
        assert(a@ =~= Seq::<(Seq<char>, u64)>::empty());
        a
    }

    /// Counts one more appearance of a text.
    pub fn add(&mut self, s: &str)
        requires
            old(self).wf(),
            old(self).countable(),
        ensures
            final(self).wf(),
            final(self)@ == bumped(old(self)@, s@),
    {
        let ghost before = self@;
        let mut key: Vec<String> = Vec::new();
        key.push(String::from_str(s));
        let ghost k = texts(key@);
        assert(k =~= seq![s@]);
        let i: usize = self.index.note(key);
        if i < self.counts.len() {
            let c: u64 = self.counts[i];
            assert(before[i as int].0 == s@);
            assert(before[i as int].1 == c);
            self.counts.set(i, c + 1);
            proof {
                let j = choose|j: int| 0 <= j < before.len() && (#[trigger] before[j]).0 == s@;
                assert(self.index@[j] =~= k);
                assert(self.index@[j] == self.index@[i as int]);
                assert(self@ =~= bumped(before, s@));
            }
        } else {
            self.counts.push(1);
            proof {
                assert forall|j: int| 0 <= j < before.len() implies (#[trigger] before[j]).0
                    != s@ by {
                    let seen = old(self).index@;
                    assert(before[j].0 == seen[j][0]);
                    if seen[j][0] == s@ {
                        assert(seen[j] =~= k);
                        assert(seen.contains(k));
                    }
                }
                assert(self@ =~= bumped(before, s@));
            }
        }
    }

    /// The counts, each with its text.
    pub fn into_rows(self) -> (rows: Vec<(u64, String)>)
        requires
            self.wf(),
        ensures
            rows@.len() == self@.len(),
            forall|i: int|
                0 <= i < rows@.len() ==> (#[trigger] rows@[i]).0 == self@[i].1 && rows@[i].1@
                    == self@[i].0,
    {
        let mut rows: Vec<(u64, String)> = Vec::new();
        let mut i: usize = 0;
        while i < self.counts.len()
            invariant
                self.wf(),
                i <= self.counts@.len(),
                rows@.len() == i,
                forall|k: int|
                    0 <= k < i ==> (#[trigger] rows@[k]).0 == self@[k].1 && rows@[k].1@
                        == self@[k].0,
            decreases self.counts@.len() - i,
        {
            let key = self.index.key(i);
            assert(texts(key@).len() == 1);
            assert(texts(key@)[0] == key@[0]@);
            rows.push((self.counts[i], key[0].clone()));
            i = i + 1;
        }
        rows
    }
}

} // verus!
