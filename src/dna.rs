//! Searching a DNA string for runs of bases described by a pattern such as
//! `A1-3,C1-2`: one or more parts, each a base followed by the least and the
//! most number of times it repeats. Positions count characters.
use vstd::prelude::*;

use crate::board::{all_digits, chars_of, digits_value, lemma_digits_prefix, views};

verus! {

/// One part of a pattern: `base` repeated at least `min` times; at most
/// `max` of the repeats are taken.
#[derive(Clone, Copy, Debug, PartialEq, Eq, Structural)]
pub struct DnaSpec {
    pub base: char,
    pub min: usize,
    pub max: usize,
}

/// `s` cut at each `sep`: one more piece than there are separators.
pub open spec fn split_on(s: Seq<char>, sep: char) -> Seq<Seq<char>>
    decreases s.len(),
{
    if s.len() == 0 {
        seq![Seq::empty()]
    } else {
        let p = split_on(s.drop_last(), sep);
        if s.last() == sep {
            p.push(Seq::empty())
        } else {
            p.update(p.len() - 1, p.last().push(s.last()))
        }
    }
}

/// A count as `usize` parses it: an optional `+`, then digits.
pub open spec fn parse_size(w: Seq<char>) -> Option<usize> {
    let d = if w.len() > 0 && w[0] == '+' {
        w.drop_first()
    } else {
        w
    };
    if d.len() > 0 && all_digits(d) && digits_value(d) <= usize::MAX {
        Some(digits_value(d) as usize)
    } else {
        None
    }
}

/// One part: its base, then the least and the most count separated by `-`
/// (anything after a second `-` is not read).
pub open spec fn parse_part(p: Seq<char>) -> Option<DnaSpec> {
    if p.len() == 0 {
        None
    } else {
        let f = split_on(p.drop_first(), '-');
        if f.len() < 2 {
            None
        } else {
            match (parse_size(f[0]), parse_size(f[1])) {
                (Some(min), Some(max)) => Some(DnaSpec { base: p[0], min, max }),
                _ => None,
            }
        }
    }
}

/// The parts of a pattern, separated by commas; `None` if one is malformed.
pub open spec fn parse_pattern(seq: Seq<char>) -> Option<Seq<DnaSpec>> {
    let parts = split_on(seq, ',');
    if forall|i: int| 0 <= i < parts.len() ==> (#[trigger] parse_part(parts[i])) is Some {
        Some(parts.map_values(|p: Seq<char>| parse_part(p)->Some_0))
    } else {
        None
    }
}

/// How many times `b` repeats in `s` from position `i` on.
pub open spec fn run_len(s: Seq<char>, i: int, b: char) -> nat
    decreases s.len() - i,
{
    if i < 0 || i >= s.len() || s[i] != b {
        0
    } else {
        1 + run_len(s, i + 1, b)
    }
}

/// Where a match of `specs` that starts at `i` ends, if there is one.
pub open spec fn match_end(s: Seq<char>, i: int, specs: Seq<DnaSpec>) -> Option<int>
    decreases specs.len(),
{
    if specs.len() == 0 {
        Some(i)
    } else {
        let c = run_len(s, i, specs[0].base);
        if c < specs[0].min {
            None
        } else {
            let take = if c < specs[0].max {
                c as int
            } else {
                specs[0].max as int
            };
            match_end(s, i + take, specs.drop_first())
        }
    }
}

pub(crate) fn split_chars(t: &Vec<char>, sep: char) -> (r: Vec<Vec<char>>)
    ensures
        views(r@) == split_on(t@, sep),
{
    let mut done: Vec<Vec<char>> = Vec::new();
    let mut cur: Vec<char> = Vec::new();
    let mut i: usize = 0;
    assert(views(done@.push(cur)) =~= split_on(t@.take(0), sep));
    while i < t.len()
        invariant
            i <= t@.len(),
            views(done@.push(cur)) == split_on(t@.take(i as int), sep),
        decreases t@.len() - i,
    {
        let c = t[i];
        let ghost p = split_on(t@.take(i as int), sep);
        assert(t@.take(i + 1).drop_last() =~= t@.take(i as int));
        if c == sep {
            done.push(cur);
            cur = Vec::new();
            assert(views(done@.push(cur)) =~= p.push(Seq::empty()));
        } else {
            cur.push(c);
            assert(views(done@.push(cur)) =~= p.update(p.len() - 1, p.last().push(c)));
        }
        i = i + 1;
    }
    assert(t@.take(i as int) =~= t@);
    done.push(cur);
    done
}

fn parse_size_exec(w: &Vec<char>) -> (r: Option<usize>)
    ensures
        r == parse_size(w@),
{
    let mut i: usize = 0;
    if w.len() > 0 && w[0] == '+' {
        i = 1;
    }
    let start = i;
    let ghost d = if w@.len() > 0 && w@[0] == '+' {
        w@.drop_first()
    } else {
        w@
    };
    assert(d =~= w@.subrange(start as int, w@.len() as int));
    if i >= w.len() {
        return None;
    }
    let mut v: usize = 0;
    while i < w.len()
        invariant
            start <= i <= w@.len(),
            d == (if w@.len() > 0 && w@[0] == '+' {
                w@.drop_first()
            } else {
                w@
            }),
            d == w@.subrange(start as int, w@.len() as int),
            v as nat == digits_value(d.take(i - start)),
            forall|j: int| 0 <= j < i - start ==> crate::board::is_digit(#[trigger] d[j]),
        decreases w@.len() - i,
    {
        let c = w[i];
        if c < '0' || c > '9' {
            assert(d[i - start] == c);
            assert(!all_digits(d));
            return None;
        }
        assert(d.take(i - start + 1).drop_last() =~= d.take(i - start));
        assert(d.take(i - start + 1).last() == c);
        let digit = ((c as u32) - ('0' as u32)) as usize;
        if v > (usize::MAX - digit) / 10 {
            proof {
                assert(v * 10 + digit > usize::MAX) by (nonlinear_arith)
                    requires
                        v > (usize::MAX - digit) / 10,
                        digit <= 9,
                ;
                lemma_digits_prefix(d, i - start + 1);
            }
            return None;
        }
        proof {
            assert(v * 10 + digit <= usize::MAX) by (nonlinear_arith)
                requires
                    v <= (usize::MAX - digit) / 10,
                    digit <= 9,
            ;
        }
        v = v * 10 + digit;
        i = i + 1;
    }
    assert(d.take(i - start) =~= d);
    Some(v)
}

fn parse_part_exec(p: &Vec<char>) -> (r: Option<DnaSpec>)
    ensures
        r == parse_part(p@),
{
    if p.len() == 0 {
        return None;
    }
    let mut rest: Vec<char> = Vec::new();
    let mut i: usize = 1;
    while i < p.len()
        invariant
            1 <= i <= p@.len(),
            rest@ == p@.subrange(1, i as int),
        decreases p@.len() - i,
    {
        rest.push(p[i]);
        assert(rest@ =~= p@.subrange(1, i + 1));
        i = i + 1;
    }
    assert(rest@ =~= p@.drop_first());
    let f = split_chars(&rest, '-');
    if f.len() < 2 {
        return None;
    }
    assert(f@[0]@ == split_on(p@.drop_first(), '-')[0]);
    assert(f@[1]@ == split_on(p@.drop_first(), '-')[1]);
    match (parse_size_exec(&f[0]), parse_size_exec(&f[1])) {
        (Some(min), Some(max)) => Some(DnaSpec { base: p[0], min, max }),
        _ => None,
    }
}

/// The parts of the pattern `seq`, or `None` if one is malformed.
pub fn parse_seq(seq: &str) -> (r: Option<Vec<DnaSpec>>)
    ensures
        r is Some <==> parse_pattern(seq@) is Some,
        r matches Some(v) ==> v@ == parse_pattern(seq@)->Some_0,
{
    let chars = chars_of(seq);
    let parts = split_chars(&chars, ',');
    let ghost ps = split_on(seq@, ',');
    let mut out: Vec<DnaSpec> = Vec::new();
    let mut i: usize = 0;
    while i < parts.len()
        invariant
            views(parts@) == ps,
            ps == split_on(seq@, ','),
            i <= parts@.len(),
            out@.len() == i,
            forall|j: int| 0 <= j < i ==> (#[trigger] parse_part(ps[j])) is Some,
            forall|j: int| 0 <= j < i ==> #[trigger] out@[j] == parse_part(ps[j])->Some_0,
        decreases parts@.len() - i,
    {
        assert(parts@[i as int]@ == ps[i as int]);
        match parse_part_exec(&parts[i]) {
            Some(spec) => out.push(spec),
            None => {
                assert(parse_part(ps[i as int]) is None);
                return None;
            },
        }
        i = i + 1;
    }
    assert(out@ =~= ps.map_values(|p: Seq<char>| parse_part(p)->Some_0));
    Some(out)
}

/// Where a match of `specs` starting at `start` ends, if there is one.
pub fn match_at(s: &Vec<char>, start: usize, specs: &Vec<DnaSpec>) -> (r: Option<usize>)
    requires
        start <= s@.len(),
    ensures
        r matches Some(e) ==> match_end(s@, start as int, specs@) == Some(e as int),
        r is None ==> match_end(s@, start as int, specs@) is None,
        r matches Some(e) ==> start <= e <= s@.len(),
{
    let mut idx = start;
    let mut k: usize = 0;
    assert(specs@.skip(0) =~= specs@);
    while k < specs.len()
        invariant
            start <= idx <= s@.len(),
            k <= specs@.len(),
            match_end(s@, start as int, specs@) == match_end(s@, idx as int, specs@.skip(k as int)),
        decreases specs@.len() - k,
    {
        let spec = specs[k];
        let mut count: usize = 0;
        while count < s.len() - idx && s[idx + count] == spec.base
            invariant
                idx <= s@.len(),
                count <= s@.len() - idx,
                run_len(s@, idx as int, spec.base) == count + run_len(
                    s@,
                    idx + count,
                    spec.base,
                ),
            decreases s@.len() - idx - count,
        {
            count = count + 1;
        }
        assert(run_len(s@, idx + count, spec.base) == 0);
        assert(specs@.skip(k as int)[0] == spec);
        assert(specs@.skip(k as int).drop_first() =~= specs@.skip(k + 1));
        if count < spec.min {
            return None;
        }
        let take = if count < spec.max {
            count
        } else {
            spec.max
        };
        idx = idx + take;
        k = k + 1;
    }
    assert(specs@.skip(k as int) =~= Seq::<DnaSpec>::empty());
    Some(idx)
}

/// The first match at or after `from`: its position and where it ends.
fn first_match(s: &Vec<char>, from: usize, specs: &Vec<DnaSpec>) -> (r: Option<(usize, usize)>)
    requires
        from <= s@.len(),
    ensures
        r matches Some((p, e)) ==> from <= p < s@.len() && match_end(s@, p as int, specs@) == Some(
            e as int,
        ) && p <= e <= s@.len() && forall|q: int|
            from <= q < p ==> (#[trigger] match_end(s@, q, specs@)) is None,
        r is None ==> forall|q: int|
            from <= q < s@.len() ==> (#[trigger] match_end(s@, q, specs@)) is None,
{
    let mut i = from;
    while i < s.len()
        invariant
            from <= i <= s@.len(),
            forall|q: int| from <= q < i ==> (#[trigger] match_end(s@, q, specs@)) is None,
        decreases s@.len() - i,
    {
        match match_at(s, i, specs) {
            Some(e) => {
                return Some((i, e));
            },
            None => {},
        }
        i = i + 1;
    }
    None
}

/// The matches that start at position `q` or later: where each starts and
/// where it ends.
pub open spec fn matches_from(s: Seq<char>, specs: Seq<DnaSpec>, q: int) -> Seq<(int, int)>
    decreases s.len() - q,
{
    if q < 0 || q >= s.len() {
        Seq::empty()
    } else {
        let rest = matches_from(s, specs, q + 1);
        match match_end(s, q, specs) {
            Some(e) => seq![(q, e)] + rest,
            None => rest,
        }
    }
}

/// Where each found match starts and ends.
pub open spec fn spans(r: Seq<(usize, String)>) -> Seq<(int, int)> {
    r.map_values(|x: (usize, String)| (x.0 as int, x.0 + x.1@.len()))
}

/// Positions without a match add nothing to the list of matches.
proof fn lemma_skip_unmatched(s: Seq<char>, specs: Seq<DnaSpec>, from: int, to: int)
    requires
        0 <= from <= to,
        forall|q: int| from <= q < to ==> (#[trigger] match_end(s, q, specs)) is None,
    ensures
        matches_from(s, specs, from) == matches_from(s, specs, to),
    decreases to - from,
{
    if from < to {
        lemma_skip_unmatched(s, specs, from + 1, to);
    }
}

/// Every match of the pattern `seq` in `s`, by position, with the matched
/// text; empty if the pattern is malformed.
pub fn subsequences(s: &str, seq: &str) -> (r: Vec<(usize, String)>)
    ensures
        parse_pattern(seq@) is None ==> r@.len() == 0,
        parse_pattern(seq@) matches Some(specs) ==> spans(r@) == matches_from(s@, specs, 0),
        forall|k: int|
            0 <= k < r@.len() ==> (#[trigger] r@[k]).1@ == s@.subrange(
                r@[k].0 as int,
                r@[k].0 + r@[k].1@.len(),
            ),
{
    let mut r: Vec<(usize, String)> = Vec::new();
    let mut it = SimpleDNAIter::new(s, seq);
    while it.position() < s.unicode_len()
        invariant
            it.text() == s@,
            it.pattern() == seq@,
            it.pos_spec() <= s@.len(),
            parse_pattern(seq@) is None ==> r@.len() == 0,
            parse_pattern(seq@) matches Some(specs) ==> spans(r@) + matches_from(
                s@,
                specs,
                it.pos_spec() as int,
            ) == matches_from(s@, specs, 0),
            forall|k: int|
                0 <= k < r@.len() ==> (#[trigger] r@[k]).1@ == s@.subrange(
                    r@[k].0 as int,
                    r@[k].0 + r@[k].1@.len(),
                ),
        decreases s@.len() - it.pos_spec(),
    {
        let ghost pos = it.pos_spec() as int;
        let ghost prev = r@;
        match it.next() {
            Some((p, sub)) => {
                r.push((p, sub.to_owned()));
                proof {
                    if let Some(specs) = parse_pattern(seq@) {
                        lemma_skip_unmatched(s@, specs, pos, p as int);
                        assert(matches_from(s@, specs, p as int) == seq![(p as int, p + sub@.len())]
                            + matches_from(s@, specs, p + 1));
                        assert(spans(r@) =~= spans(prev).push((p as int, p + sub@.len())));
                        assert(spans(r@) + matches_from(s@, specs, p + 1) =~= spans(prev)
                            + matches_from(s@, specs, pos));
                    }
                }
            },
            None => {
                proof {
                    if let Some(specs) = parse_pattern(seq@) {
                        lemma_skip_unmatched(s@, specs, pos, s@.len() as int);
                    }
                }
            },
        }
    }
    proof {
        if let Some(specs) = parse_pattern(seq@) {
            assert(matches_from(s@, specs, it.pos_spec() as int) =~= Seq::<(int, int)>::empty());
            assert(spans(r@) + Seq::<(int, int)>::empty() =~= spans(r@));
        }
    }
    r
}

/// Walks through the matches of a pattern one at a time, from the start of
/// the text; after a match the search goes on from the next position.
pub struct SimpleDNAIter<'a> {
    s: &'a str,
    seq: &'a str,
    current_pos: usize,
}

impl<'a> SimpleDNAIter<'a> {
    pub closed spec fn text(&self) -> Seq<char> {
        self.s@
    }

    pub closed spec fn pattern(&self) -> Seq<char> {
        self.seq@
    }

    pub closed spec fn pos_spec(&self) -> nat {
        self.current_pos as nat
    }

    pub fn new(s: &'a str, seq: &'a str) -> (r: SimpleDNAIter<'a>)
        ensures
            r.text() == s@,
            r.pattern() == seq@,
            r.pos_spec() == 0,
    {
        SimpleDNAIter { s, seq, current_pos: 0 }
    }

    /// Where the next search starts.
    pub fn position(&self) -> (r: usize)
        ensures
            r == self.pos_spec(),
    {
        self.current_pos
    }

    /// The next match: its position and its text. `None`, with the search at
    /// the end of the text, when there is none or the pattern is malformed.
    pub fn next(&mut self) -> (r: Option<(usize, &'a str)>)
        ensures
            final(self).text() == old(self).text(),
            final(self).pattern() == old(self).pattern(),
            final(self).pos_spec() > old(self).pos_spec() || (old(self).pos_spec() >= old(
                self,
            ).text().len() && final(self).pos_spec() == old(self).pos_spec()),
            final(self).pos_spec() <= old(self).text().len() || final(self).pos_spec() == old(
                self,
            ).pos_spec(),
            parse_pattern(old(self).pattern()) is None ==> r is None,
            r is None ==> final(self).pos_spec() >= old(self).text().len(),
            parse_pattern(old(self).pattern()) matches Some(specs) ==> match r {
                Some((p, sub)) => {
                    &&& old(self).pos_spec() <= p < old(self).text().len()
                    &&& match_end(old(self).text(), p as int, specs) == Some(p + sub@.len())
                    &&& sub@ == old(self).text().subrange(p as int, p + sub@.len())
                    &&& forall|q: int|
                        old(self).pos_spec() <= q < p ==> (#[trigger] match_end(
                            old(self).text(),
                            q,
                            specs,
                        )) is None
                    &&& final(self).pos_spec() == p + 1
                },
                None => forall|q: int|
                    old(self).pos_spec() <= q < old(self).text().len() ==> (#[trigger] match_end(
                        old(self).text(),
                        q,
                        specs,
                    )) is None,
            },
    {
        let n = self.s.unicode_len();
        let specs = match parse_seq(self.seq) {
            Some(v) => v,
            None => {
                if self.current_pos < n {
                    self.current_pos = n;
                }
                return None;
            },
        };
        if self.current_pos >= n {
            return None;
        }
        let chars = chars_of(self.s);
        match first_match(&chars, self.current_pos, &specs) {
            Some((p, e)) => {
                let sub = self.s.substring_char(p, e);
                self.current_pos = p + 1;
                Some((p, sub))
            },
            None => {
                self.current_pos = n;
                None
            },
        }
    }
}

/// The same walk as `SimpleDNAIter`, under the name used where it is driven
/// as an iterator.
pub struct DNAIter<'a> {
    inner: SimpleDNAIter<'a>,
}

impl<'a> DNAIter<'a> {
    pub fn new(s: &'a str, seq: &'a str) -> (r: DNAIter<'a>)
        ensures
            r.inner_spec().text() == s@,
            r.inner_spec().pattern() == seq@,
            r.inner_spec().pos_spec() == 0,
    {
        DNAIter { inner: SimpleDNAIter::new(s, seq) }
    }

    pub closed spec fn inner_spec(&self) -> SimpleDNAIter<'a> {
        self.inner
    }

    /// As `SimpleDNAIter::next`.
    pub fn next(&mut self) -> (r: Option<(usize, &'a str)>)
        ensures
            final(self).inner_spec().text() == old(self).inner_spec().text(),
            final(self).inner_spec().pattern() == old(self).inner_spec().pattern(),
            parse_pattern(old(self).inner_spec().pattern()) is None ==> r is None,
            r is None ==> final(self).inner_spec().pos_spec() >= old(self).inner_spec().text().len(),
            parse_pattern(old(self).inner_spec().pattern()) matches Some(specs) ==> match r {
                Some((p, sub)) => {
                    &&& old(self).inner_spec().pos_spec() <= p
                    &&& final(self).inner_spec().pos_spec() == p + 1
                    &&& match_end(old(self).inner_spec().text(), p as int, specs) == Some(
                        p + sub@.len(),
                    )
                    &&& sub@ == old(self).inner_spec().text().subrange(p as int, p + sub@.len())
                    &&& forall|q: int|
                        old(self).inner_spec().pos_spec() <= q < p ==> (#[trigger] match_end(
                            old(self).inner_spec().text(),
                            q,
                            specs,
                        )) is None
                },
                None => forall|q: int|
                    old(self).inner_spec().pos_spec() <= q < old(self).inner_spec().text().len()
                        ==> (#[trigger] match_end(old(self).inner_spec().text(), q, specs)) is None,
            },
    {
        self.inner.next()
    }
}

} // verus!
