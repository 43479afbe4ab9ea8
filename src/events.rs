//! Counting events by category.
use vstd::prelude::*;

verus! {

/// The total recorded for `category` in `entries`.
pub open spec fn count_in(entries: Seq<(Seq<char>, nat)>, category: Seq<char>) -> nat
    decreases entries.len(),
{
    if entries.len() == 0 {
        0
    } else {
        count_in(entries.drop_last(), category) + if entries.last().0 == category {
            entries.last().1
        } else {
            0
        }
    }
}

/// One counter per category, in the order the categories were first seen.
pub struct EventCounter {
    category_counter: Vec<(String, usize)>,
}

impl EventCounter {
    /// The categories and their counts, as plain values.
    pub closed spec fn entries(&self) -> Seq<(Seq<char>, nat)> {
        self.category_counter@.map_values(|e: (String, usize)| (e.0@, e.1 as nat))
    }

    /// How many events were recorded for `category`.
    pub open spec fn count(&self, category: Seq<char>) -> nat {
        count_in(self.entries(), category)
    }

    /// Whether `category` has an entry.
    pub open spec fn has(&self, category: Seq<char>) -> bool {
        exists|i: int| 0 <= i < self.entries().len() && (#[trigger] self.entries()[i]).0 == category
    }

    /// Each category has one entry.
    pub open spec fn wf(&self) -> bool {
        forall|i: int, j: int|
            0 <= i < j < self.entries().len() ==> (#[trigger] self.entries()[i]).0
                != (#[trigger] self.entries()[j]).0
    }

    pub fn new() -> (r: EventCounter)
        ensures
            r.wf(),
            r.entries() == Seq::<(Seq<char>, nat)>::empty(),
            forall|c: Seq<char>| r.count(c) == 0,
    {
        let r = EventCounter { category_counter: Vec::new() };
        assert(r.entries() =~= Seq::<(Seq<char>, nat)>::empty());
        r
    }

    fn position(&self, category: &str) -> (r: Option<usize>)
        ensures
            r matches Some(i) ==> i < self.entries().len() && self.entries()[i as int].0
                == category@,
            r is None ==> forall|i: int|
                0 <= i < self.entries().len() ==> self.entries()[i].0 != category@,
    {
        let owned = category.to_owned();
        let mut i: usize = 0;
        while i < self.category_counter.len()
            invariant
                i <= self.category_counter@.len(),
                owned@ == category@,
                forall|k: int| 0 <= k < i ==> self.entries()[k].0 != category@,
            decreases self.category_counter@.len() - i,
        {
            if self.category_counter[i].0 == owned {
                return Some(i);
            }
            i = i + 1;
        }
        None
    }

    /// Records one event of `category`, creating its counter if needed.
    pub fn record_event(&mut self, category: &str)
        requires
            old(self).wf(),
            old(self).count(category@) < usize::MAX,
        ensures
            final(self).wf(),
            final(self).count(category@) == old(self).count(category@) + 1,
            forall|c: Seq<char>| c != category@ ==> final(self).count(c) == old(self).count(c),
            old(self).has(category@) ==> exists|i: int|
                0 <= i < old(self).entries().len() && (#[trigger] old(self).entries()[i]).0
                    == category@ && final(self).entries() == old(self).entries().update(
                    i,
                    (category@, old(self).entries()[i].1 + 1),
                ),
            !old(self).has(category@) ==> final(self).entries() == old(self).entries().push(
                (category@, 1nat),
            ),
    {
        let ghost pre = self.entries();
        match self.position(category) {
            Some(i) => {
                proof {
                    lemma_count_is_entry(pre, category@, i as int);
                }
                let n = self.category_counter[i].1;
                let name = self.category_counter[i].0.clone();
                self.category_counter.set(i, (name, n + 1));
                proof {
                    let post = self.entries();
                    assert(post =~= pre.update(i as int, (category@, (n + 1) as nat)));
                    lemma_count_update(pre, i as int, (n + 1) as nat);
                }
            },
            None => {
                proof {
                    lemma_count_absent(pre, category@);
                }
                self.category_counter.push((category.to_owned(), 1));
                proof {
                    let post = self.entries();
                    assert(post =~= pre.push((category@, 1nat)));
                    assert(post.drop_last() =~= pre);
                }
            },
        }
    }

    /// The count for `category`; 0 if it was never seen.
    pub fn get_count(&self, category: &str) -> (r: usize)
        requires
            self.wf(),
        ensures
            r == self.count(category@),
    {
        match self.position(category) {
            Some(i) => {
                proof {
                    lemma_count_is_entry(self.entries(), category@, i as int);
                }
                self.category_counter[i].1
            },
            None => {
                proof {
                    lemma_count_absent(self.entries(), category@);
                }
                0
            },
        }
    }

    /// Every category with its count.
    pub fn snapshot(&self) -> (r: Vec<(String, usize)>)
        ensures
            r@.map_values(|e: (String, usize)| (e.0@, e.1 as nat)) == self.entries(),
    {
        let mut out: Vec<(String, usize)> = Vec::new();
        let mut i: usize = 0;
        while i < self.category_counter.len()
            invariant
                i <= self.category_counter@.len(),
                out@.map_values(|e: (String, usize)| (e.0@, e.1 as nat)) == self.entries().take(
                    i as int,
                ),
            decreases self.category_counter@.len() - i,
        {
            let name = self.category_counter[i].0.clone();
            let ghost prev = out@;
            out.push((name, self.category_counter[i].1));
            proof {
                let f = |e: (String, usize)| (e.0@, e.1 as nat);
                assert(prev.map_values(f) == self.entries().take(i as int));
                assert forall|k: int| 0 <= k <= i implies out@.map_values(f)[k]
                    == self.entries().take(i + 1)[k] by {
                    if k < i {
                        assert(out@[k] == prev[k]);
                        assert(prev.map_values(f)[k] == self.entries().take(i as int)[k]);
                    }
                }
                assert(out@.map_values(f) =~= self.entries().take(i + 1));
            }
            i = i + 1;
        }
        assert(self.entries().take(i as int) =~= self.entries());
        out
    }
}

proof fn lemma_count_absent(entries: Seq<(Seq<char>, nat)>, c: Seq<char>)
    requires
        forall|i: int| 0 <= i < entries.len() ==> entries[i].0 != c,
    ensures
        count_in(entries, c) == 0,
    decreases entries.len(),
{
    if entries.len() > 0 {
        lemma_count_absent(entries.drop_last(), c);
    }
}

/// With one entry per category, the count is that entry's number.
proof fn lemma_count_is_entry(entries: Seq<(Seq<char>, nat)>, c: Seq<char>, k: int)
    requires
        0 <= k < entries.len(),
        entries[k].0 == c,
        forall|i: int, j: int|
            0 <= i < j < entries.len() ==> (#[trigger] entries[i]).0 != (#[trigger] entries[j]).0,
    ensures
        count_in(entries, c) == entries[k].1,
    decreases entries.len(),
{
    if k == entries.len() - 1 {
        lemma_count_absent(entries.drop_last(), c);
    } else {
        lemma_count_is_entry(entries.drop_last(), c, k);
    }
}

/// Changing the number of entry `k` changes only the count of its category.
proof fn lemma_count_update(entries: Seq<(Seq<char>, nat)>, k: int, n: nat)
    requires
        0 <= k < entries.len(),
    ensures
        forall|c: Seq<char>|
            #[trigger] count_in(entries.update(k, (entries[k].0, n)), c) == if c == entries[k].0 {
                count_in(entries, c) - entries[k].1 + n
            } else {
                count_in(entries, c) as int
            },
    decreases entries.len(),
{
    let u = entries.update(k, (entries[k].0, n));
    if k < entries.len() - 1 {
        lemma_count_update(entries.drop_last(), k, n);
        assert(u.drop_last() =~= entries.drop_last().update(k, (entries[k].0, n)));
    } else {
        assert(u.drop_last() =~= entries.drop_last());
    }
    assert forall|c: Seq<char>| #[trigger] count_in(u, c) == if c == entries[k].0 {
        count_in(entries, c) - entries[k].1 + n
    } else {
        count_in(entries, c) as int
    } by {
        assert(count_in(u, c) == count_in(u.drop_last(), c) + if u.last().0 == c {
            u.last().1
        } else {
            0
        });
    }
}

} // verus!
