//! A cache that fetches each key on first use.
use vstd::prelude::*;

verus! {

/// The value stored for `key` in `entries`, if any.
pub open spec fn lookup(entries: Seq<(Seq<char>, Seq<char>)>, key: Seq<char>) -> Option<Seq<char>>
    decreases entries.len(),
{
    if entries.len() == 0 {
        None
    } else if entries.last().0 == key {
        Some(entries.last().1)
    } else {
        lookup(entries.drop_last(), key)
    }
}

/// Values fetched so far, and the function that fetches a missing one.
pub struct LazyCache<F> {
    cache: Vec<(String, String)>,
    fetcher: F,
}

impl<F: Fn(&str) -> Result<String, String>> LazyCache<F> {
    pub closed spec fn entries(&self) -> Seq<(Seq<char>, Seq<char>)> {
        self.cache@.map_values(|e: (String, String)| (e.0@, e.1@))
    }

    pub closed spec fn fetcher(&self) -> F {
        self.fetcher
    }

    pub fn new(fetcher: F) -> (r: LazyCache<F>)
        ensures
            r.entries() == Seq::<(Seq<char>, Seq<char>)>::empty(),
            r.fetcher() == fetcher,
    {
        let r = LazyCache { cache: Vec::new(), fetcher };
        assert(r.entries() =~= Seq::<(Seq<char>, Seq<char>)>::empty());
        r
    }

    fn find(&self, key: &str) -> (r: Option<usize>)
        ensures
            r matches Some(i) ==> i < self.entries().len() && lookup(self.entries(), key@) == Some(
                self.entries()[i as int].1,
            ),
            r is None ==> lookup(self.entries(), key@) is None,
    {
        let owned = key.to_owned();
        let mut i = self.cache.len();
        assert(self.entries().subrange(0, i as int) =~= self.entries());
        while i > 0
            invariant
                i <= self.entries().len(),
                owned@ == key@,
                lookup(self.entries(), key@) == lookup(self.entries().subrange(0, i as int), key@),
            decreases i,
        {
            assert(self.entries().subrange(0, i as int).drop_last() =~= self.entries().subrange(
                0,
                i - 1,
            ));
            if self.cache[i - 1].0 == owned {
                return Some(i - 1);
            }
            i = i - 1;
        }
        assert(self.entries().subrange(0, 0) =~= Seq::<(Seq<char>, Seq<char>)>::empty());
        None
    }

    /// The value for `key`: the stored one, or else what the fetcher returns,
    /// which is stored when it is a value and not an error.
    pub fn get(&mut self, key: &str) -> (r: Result<String, String>)
        requires
            old(self).fetcher().requires((key,)),
        ensures
            final(self).fetcher() == old(self).fetcher(),
            lookup(old(self).entries(), key@) matches Some(v) ==> r matches Ok(s) && s@ == v
                && final(self).entries() == old(self).entries(),
            lookup(old(self).entries(), key@) is None ==> old(self).fetcher().ensures((key,), r),
            lookup(old(self).entries(), key@) is None && r is Err ==> final(self).entries() == old(
                self,
            ).entries(),
            lookup(old(self).entries(), key@) is None && r is Ok ==> final(self).entries() == old(
                self,
            ).entries().push((key@, r->Ok_0@)),
            forall|k: Seq<char>|
                k != key@ ==> lookup(final(self).entries(), k) == lookup(old(self).entries(), k),
            r matches Ok(s) ==> lookup(final(self).entries(), key@) == Some(s@),
    {
        if let Some(i) = self.find(key) {
            return Ok(self.cache[i].1.clone());
        }
        let result = (self.fetcher)(key);
        match &result {
            Ok(v) => {
                let ghost pre = self.entries();
                self.cache.push((key.to_owned(), v.clone()));
                assert(self.entries() =~= pre.push((key@, v@)));
                assert(self.entries().drop_last() =~= pre);
            },
            Err(_) => {},
        }
        result
    }
}

} // verus!
