//! Rolling-window word frequencies and throughput over ingested items.
//!
//! Pure and synchronous: the service layer feeds it items as they arrive.
pub mod text;
pub mod rank;

use vstd::prelude::*;
use std::collections::VecDeque;
use crate::event_pulse::text::{tokenize, tokens, stop_words, stop_word_list, lemma_tokens_len};
use crate::event_pulse::rank::{ranks_before, entry_before, entry_view, lemma_order};

verus! {

/// One ingested item: free text to tokenise and the millisecond timestamp
/// it arrived at.
#[derive(Clone, Debug)]
pub struct IngestedItem {
    pub text: String,
    pub ts_ms: i64,
}

/// The words of a token vector.
pub open spec fn words(v: Vec<String>) -> Seq<Seq<char>> {
    v@.map_values(|s: String| s@)
}

/// How often `w` occurs in a token list.
pub open spec fn count_in(ts: Seq<Seq<char>>, w: Seq<char>) -> int
    decreases ts.len(),
{
    if ts.len() == 0 {
        0
    } else {
        count_in(ts.drop_last(), w) + (if ts.last() == w { 1int } else { 0 })
    }
}

/// How often `w` occurs across the items of a window.
pub open spec fn occurrences(h: Seq<(i64, Seq<Seq<char>>)>, w: Seq<char>) -> int
    decreases h.len(),
{
    if h.len() == 0 {
        0
    } else {
        occurrences(h.drop_last(), w) + count_in(h.last().1, w)
    }
}

/// The number of tokens in a window.
pub open spec fn window_tokens(h: Seq<(i64, Seq<Seq<char>>)>) -> int
    decreases h.len(),
{
    if h.len() == 0 {
        0
    } else {
        window_tokens(h.drop_last()) + h.last().1.len()
    }
}

/// The items of a window stamped at or after `cutoff`, in order: every
/// item stamped before it is dropped.
pub open spec fn evict(h: Seq<(i64, Seq<Seq<char>>)>, cutoff: int) -> Seq<(i64, Seq<Seq<char>>)>
    decreases h.len(),
{
    if h.len() == 0 {
        h
    } else if h[0].0 < cutoff {
        evict(h.drop_first(), cutoff)
    } else {
        seq![h[0]] + evict(h.drop_first(), cutoff)
    }
}

/// Evicting from a window with one more item at its end.
pub proof fn lemma_evict_push(h: Seq<(i64, Seq<Seq<char>>)>, x: (i64, Seq<Seq<char>>), cutoff: int)
    ensures
        evict(h.push(x), cutoff) == evict(h, cutoff) + (if x.0 < cutoff {
            Seq::<(i64, Seq<Seq<char>>)>::empty()
        } else {
            seq![x]
        }),
    decreases h.len(),
{
    if h.len() == 0 {
        assert(h.push(x).drop_first() =~= h);
        assert(evict(h, cutoff) =~= h);
        assert(evict(h.push(x).drop_first(), cutoff) =~= Seq::<(i64, Seq<Seq<char>>)>::empty());
        assert(h.push(x)[0] == x);
    } else {
        lemma_evict_push(h.drop_first(), x, cutoff);
        assert(h.push(x).drop_first() =~= h.drop_first().push(x));
        assert(h.push(x)[0] == h[0]);
        if h[0].0 >= cutoff {
            let e = if x.0 < cutoff { Seq::<(i64, Seq<Seq<char>>)>::empty() } else { seq![x] };
            assert(seq![h[0]] + (evict(h.drop_first(), cutoff) + e) =~= (seq![h[0]] + evict(h.drop_first(), cutoff)) + e);
        }
    }
}

/// What evicting keeps: only items stamped at or after the cutoff, and
/// every one of them.
pub proof fn lemma_evict_props(h: Seq<(i64, Seq<Seq<char>>)>, cutoff: int)
    ensures
        forall|i: int| 0 <= i < evict(h, cutoff).len() ==> (#[trigger] evict(h, cutoff)[i]).0 >= cutoff,
        forall|i: int| 0 <= i < h.len() && (#[trigger] h[i]).0 >= cutoff ==> evict(h, cutoff).contains(h[i]),
    decreases h.len(),
{
    if h.len() > 0 {
        let t = h.drop_first();
        lemma_evict_props(t, cutoff);
        let e = evict(h, cutoff);
        let et = evict(t, cutoff);
        assert forall|i: int| 0 <= i < e.len() implies (#[trigger] e[i]).0 >= cutoff by {
            if h[0].0 >= cutoff && i > 0 {
                assert(e[i] == et[i - 1]);
            }
        }
        assert forall|i: int| 0 <= i < h.len() && (#[trigger] h[i]).0 >= cutoff implies e.contains(h[i]) by {
            if i == 0 {
                assert(e[0] == h[0]);
            } else {
                assert(h[i] == t[i - 1]);
                assert(et.contains(t[i - 1]));
                let j = choose|j: int| 0 <= j < et.len() && et[j] == t[i - 1];
                if h[0].0 >= cutoff {
                    assert(e[j + 1] == et[j]);
                } else {
                    assert(e[j] == et[j]);
                }
            }
        }
    }
}

/// Some entry of `r` is for word `w`.
pub open spec fn listed(r: Seq<(String, u64)>, w: Seq<char>) -> bool {
    exists|i: int| 0 <= i < r.len() && (#[trigger] r[i]).0@ == w
}

/// `r` is the trending list of window `h` cut at `top_n` entries: words
/// of the window with their counts, best first (higher count, then the
/// smaller word), and every word left out ranks below every word listed,
/// which leaves words out only once `top_n` entries are listed.
pub open spec fn trending_ok(h: Seq<(i64, Seq<Seq<char>>)>, top_n: int, r: Seq<(String, u64)>) -> bool {
    &&& r.len() <= top_n
    &&& forall|i: int| 0 <= i < r.len() ==> (#[trigger] r[i]).1 == occurrences(h, r[i].0@) && r[i].1 > 0
    &&& forall|i: int, j: int| 0 <= i < j < r.len() ==> ranks_before(entry_view(#[trigger] r[i]), entry_view(#[trigger] r[j]))
    &&& forall|w: Seq<char>| occurrences(h, w) > 0 && !listed(r, w) ==> {
        &&& r.len() == top_n
        &&& forall|i: int| 0 <= i < r.len() ==> ranks_before(entry_view(#[trigger] r[i]), (w, occurrences(h, w)))
    }
}

/// Entry `e` ranks below the last entry of `out` (any entry does when
/// `out` is empty).
pub open spec fn after_last(out: Seq<(String, u64)>, e: (String, u64)) -> bool {
    out.len() == 0 || ranks_before(entry_view(out.last()), entry_view(e))
}

pub struct AggregatorView {
    pub window_ms: i64,
    pub total_ingested: u64,
    /// The items inside the window, oldest first, with their tokens.
    pub history: Seq<(i64, Seq<Seq<char>>)>,
}

/// The aggregator after one more item: counted, its tokens appended to the
/// window, and the items older than the window dropped from its front.
pub open spec fn ingest_spec(v: AggregatorView, text: Seq<char>, ts_ms: i64) -> AggregatorView {
    AggregatorView {
        window_ms: v.window_ms,
        total_ingested: (v.total_ingested + 1) as u64,
        history: evict(v.history.push((ts_ms, tokens(text))), ts_ms - v.window_ms),
    }
}

/// Rolling-window word-frequency and throughput aggregator.
pub struct Aggregator {
    window_ms: i64,
    stop_words: Vec<String>,
    /// Each word in the window once, with its count.
    counts: Vec<(String, u64)>,
    history: VecDeque<(i64, Vec<String>)>,
    total_ingested: u64,
    /// The number of tokens in the window.
    window_token_count: u64,
}

/// The count a word has in window `h` plus the extra tokens `e`.
pub open spec fn tally(h: Seq<(i64, Seq<Seq<char>>)>, e: Seq<Seq<char>>, w: Seq<char>) -> int {
    occurrences(h, w) + count_in(e, w)
}

/// `c` lists every word with a positive tally once, with its tally as
/// count.
pub open spec fn represents(c: Seq<(String, u64)>, h: Seq<(i64, Seq<Seq<char>>)>, e: Seq<Seq<char>>) -> bool {
    &&& forall|i: int, j: int| 0 <= i < j < c.len() ==> (#[trigger] c[i]).0@ != (#[trigger] c[j]).0@
    &&& forall|i: int| 0 <= i < c.len() ==> (#[trigger] c[i]).1 == tally(h, e, c[i].0@) && c[i].1 > 0
    &&& forall|w: Seq<char>| #[trigger] tally(h, e, w) > 0 ==> exists|i: int| 0 <= i < c.len() && c[i].0@ == w
}

proof fn lemma_represents_same(
    c: Seq<(String, u64)>,
    h1: Seq<(i64, Seq<Seq<char>>)>,
    e1: Seq<Seq<char>>,
    h2: Seq<(i64, Seq<Seq<char>>)>,
    e2: Seq<Seq<char>>,
)
    requires
        represents(c, h1, e1),
        forall|w: Seq<char>| tally(h1, e1, w) == tally(h2, e2, w),
    ensures
        represents(c, h2, e2),
{
    assert forall|w: Seq<char>| #[trigger] tally(h2, e2, w) > 0 implies exists|i: int| 0 <= i < c.len() && c[i].0@ == w by {
        assert(tally(h1, e1, w) > 0);
    }
}

impl View for Aggregator {
    type V = AggregatorView;

    closed spec fn view(&self) -> AggregatorView {
        AggregatorView {
            window_ms: self.window_ms,
            total_ingested: self.total_ingested,
            history: self.history@.map_values(|e: (i64, Vec<String>)| (e.0, words(e.1))),
        }
    }
}

pub proof fn lemma_count_in_bounds(ts: Seq<Seq<char>>, w: Seq<char>)
    ensures
        0 <= count_in(ts, w) <= ts.len(),
    decreases ts.len(),
{
    if ts.len() > 0 {
        lemma_count_in_bounds(ts.drop_last(), w);
    }
}

pub proof fn lemma_occurrences_bounds(h: Seq<(i64, Seq<Seq<char>>)>, w: Seq<char>)
    ensures
        0 <= occurrences(h, w) <= window_tokens(h),
    decreases h.len(),
{
    if h.len() > 0 {
        lemma_occurrences_bounds(h.drop_last(), w);
        lemma_count_in_bounds(h.last().1, w);
    }
}

/// Occurrences split off the oldest item.
pub proof fn lemma_occurrences_front(h: Seq<(i64, Seq<Seq<char>>)>, w: Seq<char>)
    requires
        h.len() > 0,
    ensures
        occurrences(h, w) == count_in(h[0].1, w) + occurrences(h.drop_first(), w),
    decreases h.len(),
{
    let t = h.drop_first();
    if h.len() > 1 {
        lemma_occurrences_front(h.drop_last(), w);
        assert(h.drop_last().drop_first() =~= t.drop_last());
        assert(t.last() == h.last());
        assert(h.drop_last()[0] == h[0]);
        assert(occurrences(t, w) == occurrences(t.drop_last(), w) + count_in(t.last().1, w));
    } else {
        assert(occurrences(t, w) == 0);
        assert(occurrences(h.drop_last(), w) == 0);
        assert(h.last() == h[0]);
    }
}

pub proof fn lemma_window_tokens_nonneg(h: Seq<(i64, Seq<Seq<char>>)>)
    ensures
        window_tokens(h) >= 0,
    decreases h.len(),
{
    if h.len() > 0 {
        lemma_window_tokens_nonneg(h.drop_last());
    }
}

pub proof fn lemma_window_tokens_front(h: Seq<(i64, Seq<Seq<char>>)>)
    requires
        h.len() > 0,
    ensures
        window_tokens(h) == h[0].1.len() + window_tokens(h.drop_first()),
    decreases h.len(),
{
    let t = h.drop_first();
    if h.len() > 1 {
        lemma_window_tokens_front(h.drop_last());
        assert(h.drop_last().drop_first() =~= t.drop_last());
        assert(t.last() == h.last());
        assert(h.drop_last()[0] == h[0]);
        assert(window_tokens(t) == window_tokens(t.drop_last()) + t.last().1.len());
    } else {
        assert(window_tokens(t) == 0);
        assert(window_tokens(h.drop_last()) == 0);
        assert(h.last() == h[0]);
    }
}

/// Where `w` sits in `c`, if it does.
fn find_word(c: &Vec<(String, u64)>, w: &String) -> (r: Option<usize>)
    ensures
        r matches Some(i) ==> i < c@.len() && c@[i as int].0@ == w@,
        r is None ==> forall|i: int| 0 <= i < c@.len() ==> c@[i].0@ != w@,
{
    let mut i: usize = 0;
    while i < c.len()
        invariant
            i <= c@.len(),
            forall|j: int| 0 <= j < i ==> c@[j].0@ != w@,
        decreases c@.len() - i,
    {
        if c[i].0 == *w {
            return Some(i);
        }
        i += 1;
    }
    None
}

/// Counts one more occurrence of `w`.
fn bump(c: &mut Vec<(String, u64)>, w: &String, Ghost(h): Ghost<Seq<(i64, Seq<Seq<char>>)>>, Ghost(e): Ghost<Seq<Seq<char>>>)
    requires
        represents(old(c)@, h, e),
        tally(h, e, w@) + 1 <= u64::MAX,
    ensures
        represents(final(c)@, h, e.push(w@)),
{
    let ghost e2 = e.push(w@);
    proof {
        assert(e2.drop_last() =~= e);
        assert forall|x: Seq<char>| #[trigger] tally(h, e2, x) == tally(h, e, x) + (if x == w@ { 1int } else { 0 }) by {
            assert(e2.drop_last() =~= e);
        }
    }
    match find_word(c, w) {
        Some(i) => {
            let n = c[i].1;
            let s = c[i].0.clone();
            c.set(i, (s, n + 1));
            assert forall|j: int| 0 <= j < c@.len() implies (#[trigger] c@[j]).1 == tally(h, e2, c@[j].0@) && c@[j].1 > 0 by {
                if j != i {
                    assert(old(c)@[j] == c@[j]);
                    assert(old(c)@[j].0@ != old(c)@[i as int].0@);
                    assert(tally(h, e2, c@[j].0@) == tally(h, e, c@[j].0@));
                } else {
                    assert(tally(h, e2, c@[j].0@) == tally(h, e, w@) + 1);
                }
            }
            assert forall|w2: Seq<char>| #[trigger] tally(h, e2, w2) > 0 implies exists|j: int| 0 <= j < c@.len() && c@[j].0@ == w2 by {
                if w2 == w@ {
                    assert(c@[i as int].0@ == w2);
                } else {
                    assert(tally(h, e, w2) > 0);
                    let j = choose|j: int| 0 <= j < old(c)@.len() && old(c)@[j].0@ == w2;
                    assert(c@[j].0@ == w2);
                }
            }
            assert forall|a: int, b: int| 0 <= a < b < c@.len() implies (#[trigger] c@[a]).0@ != (#[trigger] c@[b]).0@ by {
                assert(old(c)@[a].0@ != old(c)@[b].0@);
            }
        },
        None => {
            assert(tally(h, e, w@) <= 0) by {
                if tally(h, e, w@) > 0 {
                    let j = choose|j: int| 0 <= j < old(c)@.len() && old(c)@[j].0@ == w@;
                }
            }
            proof {
                lemma_occurrences_bounds(h, w@);
                lemma_count_in_bounds(e, w@);
            }
            c.push((w.clone(), 1));
            assert forall|j: int| 0 <= j < c@.len() implies (#[trigger] c@[j]).1 == tally(h, e2, c@[j].0@) && c@[j].1 > 0 by {
                if j < old(c)@.len() {
                    assert(old(c)@[j] == c@[j]);
                    assert(tally(h, e2, c@[j].0@) == tally(h, e, c@[j].0@));
                }
            }
            assert forall|w2: Seq<char>| #[trigger] tally(h, e2, w2) > 0 implies exists|j: int| 0 <= j < c@.len() && c@[j].0@ == w2 by {
                if w2 == w@ {
                    assert(c@[old(c)@.len() as int].0@ == w2);
                } else {
                    assert(tally(h, e, w2) > 0);
                    let j = choose|j: int| 0 <= j < old(c)@.len() && old(c)@[j].0@ == w2;
                    assert(c@[j].0@ == w2);
                }
            }
            assert forall|a: int, b: int| 0 <= a < b < c@.len() implies (#[trigger] c@[a]).0@ != (#[trigger] c@[b]).0@ by {
                if b < old(c)@.len() {
                    assert(old(c)@[a].0@ != old(c)@[b].0@);
                } else {
                    assert(old(c)@[a] == c@[a]);
                    assert(old(c)@[a].1 == tally(h, e, old(c)@[a].0@));
                }
            }
        },
    }
}

/// Counts one occurrence of `w` less: `w` is the last extra token.  A word
/// whose count reaches zero leaves the list.
fn drop_one(c: &mut Vec<(String, u64)>, w: &String, Ghost(h): Ghost<Seq<(i64, Seq<Seq<char>>)>>, Ghost(e): Ghost<Seq<Seq<char>>>)
    requires
        represents(old(c)@, h, e),
        e.len() > 0,
        e.last() == w@,
    ensures
        represents(final(c)@, h, e.drop_last()),
{
    let ghost e2 = e.drop_last();
    proof {
        assert forall|x: Seq<char>| #[trigger] tally(h, e2, x) == tally(h, e, x) - (if x == w@ { 1int } else { 0 }) by {}
        lemma_occurrences_bounds(h, w@);
        lemma_count_in_bounds(e2, w@);
    }
    match find_word(c, w) {
        Some(i) => {
            let n = c[i].1;
            if n <= 1 {
                c.remove(i);
                assert forall|j: int| 0 <= j < c@.len() implies (#[trigger] c@[j]).1 == tally(h, e2, c@[j].0@) && c@[j].1 > 0 by {
                    if j < i {
                        assert(old(c)@[j] == c@[j]);
                        assert(old(c)@[j].0@ != old(c)@[i as int].0@);
                    } else {
                        assert(old(c)@[j + 1] == c@[j]);
                        assert(old(c)@[i as int].0@ != old(c)@[j + 1].0@);
                    }
                }
                assert forall|w2: Seq<char>| #[trigger] tally(h, e2, w2) > 0 implies exists|j: int| 0 <= j < c@.len() && c@[j].0@ == w2 by {
                    assert(w2 != w@);
                    assert(tally(h, e, w2) > 0);
                    let j = choose|j: int| 0 <= j < old(c)@.len() && old(c)@[j].0@ == w2;
                    if j < i {
                        assert(c@[j].0@ == w2);
                    } else {
                        assert(j != i);
                        assert(c@[j - 1].0@ == w2);
                    }
                }
                assert forall|a: int, b: int| 0 <= a < b < c@.len() implies (#[trigger] c@[a]).0@ != (#[trigger] c@[b]).0@ by {
                    let a1 = if a < i { a } else { a + 1 };
                    let b1 = if b < i { b } else { b + 1 };
                    assert(c@[a] == old(c)@[a1] && c@[b] == old(c)@[b1]);
                    assert(old(c)@[a1].0@ != old(c)@[b1].0@);
                }
            } else {
                let s = c[i].0.clone();
                c.set(i, (s, n - 1));
                assert forall|j: int| 0 <= j < c@.len() implies (#[trigger] c@[j]).1 == tally(h, e2, c@[j].0@) && c@[j].1 > 0 by {
                    if j != i {
                        assert(old(c)@[j] == c@[j]);
                        assert(old(c)@[j].0@ != old(c)@[i as int].0@);
                    }
                }
                assert forall|w2: Seq<char>| #[trigger] tally(h, e2, w2) > 0 implies exists|j: int| 0 <= j < c@.len() && c@[j].0@ == w2 by {
                    if w2 == w@ {
                        assert(c@[i as int].0@ == w2);
                    } else {
                        assert(tally(h, e, w2) > 0);
                        let j = choose|j: int| 0 <= j < old(c)@.len() && old(c)@[j].0@ == w2;
                        assert(c@[j].0@ == w2);
                    }
                }
                assert forall|a: int, b: int| 0 <= a < b < c@.len() implies (#[trigger] c@[a]).0@ != (#[trigger] c@[b]).0@ by {
                    assert(old(c)@[a].0@ != old(c)@[b].0@);
                }
            }
        },
        None => {
            assert(tally(h, e, w@) > 0);
            let ghost j = choose|j: int| 0 <= j < old(c)@.len() && old(c)@[j].0@ == w@;
            assert(c@[j].0@ == w@);
        },
    }
}

impl Aggregator {
    /// The aggregator's invariant: the stop word list is intact and the
    /// count list holds exactly the words of the window with their counts.
    pub closed spec fn wf(&self) -> bool {
        &&& words(self.stop_words) == stop_word_list()
        &&& represents(self.counts@, self@.history, seq![])
        &&& self.window_token_count == window_tokens(self@.history)
    }

    pub fn new(window_ms: i64) -> (a: Self)
        ensures
            a.wf(),
            a@ == (AggregatorView { window_ms, total_ingested: 0, history: seq![] }),
    {
        let a = Aggregator {
            window_ms,
            stop_words: stop_words(),
            counts: Vec::new(),
            history: VecDeque::new(),
            total_ingested: 0,
            window_token_count: 0,
        };
        assert(a@.history =~= seq![]);
        a
    }

    pub fn total_ingested(&self) -> (r: u64)
        ensures
            r == self@.total_ingested,
    {
        self.total_ingested
    }

    pub fn window_ms(&self) -> (r: i64)
        ensures
            r == self@.window_ms,
    {
        self.window_ms
    }

    /// The number of tokens inside the window.
    pub fn window_token_count(&self) -> (r: u64)
        requires
            self.wf(),
        ensures
            r == window_tokens(self@.history),
    {
        self.window_token_count
    }

    /// The number of items inside the window.
    pub fn items_in_window(&self) -> (r: usize)
        ensures
            r == self@.history.len(),
    {
        self.history.len()
    }

    /// Drops every item stamped before `cutoff_ms` from the window, and its
    /// tokens from the counts; the other items keep their order.
    fn evict_before(&mut self, cutoff_ms: i64)
        requires
            old(self).wf(),
        ensures
            final(self).wf(),
            final(self)@ == (AggregatorView { history: evict(old(self)@.history, cutoff_ms as int), ..old(self)@ }),
    {
        let ghost orig = self@.history;
        let ghost c = cutoff_ms as int;
        let n = self.history.len();
        let mut k: usize = 0;
        proof {
            assert(orig.take(0) =~= Seq::<(i64, Seq<Seq<char>>)>::empty());
            assert(orig.skip(0) + evict(orig.take(0), c) =~= orig);
        }
        while k < n
            invariant
                n == orig.len(),
                c == cutoff_ms as int,
                k <= n,
                self.wf(),
                self.window_ms == old(self).window_ms,
                self.total_ingested == old(self).total_ingested,
                self@.history == orig.skip(k as int) + evict(orig.take(k as int), c),
                self.history@.len() == self@.history.len(),
            decreases n - k,
        {
            let ghost h = self@.history;
            let ghost kept = evict(orig.take(k as int), c);
            proof {
                assert(h[0] == orig[k as int]);
                assert(orig.take(k + 1) =~= orig.take(k as int).push(orig[k as int]));
                lemma_evict_push(orig.take(k as int), orig[k as int], c);
                assert(h.drop_first() =~= orig.skip(k + 1) + kept);
            }
            let front = self.history.pop_front();
            let (ts, toks) = front.unwrap();
            let ghost rest = self@.history;
            let ghost wt = words(toks);
            proof {
                assert(rest =~= h.drop_first());
                assert(h[0] == (ts, wt));
                assert(orig[k as int] == (ts, wt));
                lemma_window_tokens_front(h);
                lemma_window_tokens_nonneg(rest);
            }
            if ts < cutoff_ms {
                proof {
                    lemma_evict_push(orig.take(k as int), orig[k as int], c);
                    assert(orig.take(k + 1) =~= orig.take(k as int).push(orig[k as int]));
                    assert(evict(orig.take(k + 1), c) =~= kept);
                    assert(rest =~= orig.skip(k + 1) + evict(orig.take(k + 1), c));
                    assert forall|x: Seq<char>| tally(h, seq![], x) == tally(rest, wt, x) by {
                        lemma_occurrences_front(h, x);
                    }
                    lemma_represents_same(self.counts@, h, seq![], rest, wt);
                    assert(wt.take(wt.len() as int) =~= wt);
                }
                self.window_token_count = self.window_token_count - toks.len() as u64;
                let mut j = toks.len();
                while j > 0
                    invariant
                        j <= toks@.len(),
                        wt == words(toks),
                        rest == self@.history,
                        self.window_ms == old(self).window_ms,
                        self.total_ingested == old(self).total_ingested,
                        self.window_token_count == window_tokens(rest),
                        words(self.stop_words) == stop_word_list(),
                        represents(self.counts@, rest, wt.take(j as int)),
                        rest == orig.skip(k + 1) + evict(orig.take(k + 1), c),
                    decreases j,
                {
                    proof {
                        assert(wt.take(j as int).drop_last() =~= wt.take(j - 1));
                        assert(wt.take(j as int).last() == toks@[j - 1]@);
                    }
                    drop_one(&mut self.counts, &toks[j - 1], Ghost(rest), Ghost(wt.take(j as int)));
                    j -= 1;
                }
                proof {
                    assert(wt.take(0) =~= Seq::<Seq<char>>::empty());
                }
            } else {
                self.history.push_back((ts, toks));
                proof {
                    let h2 = self@.history;
                    assert(h2 =~= rest.push((ts, wt)));
                    assert(h2.drop_last() =~= rest);
                    assert forall|x: Seq<char>| tally(h, seq![], x) == tally(h2, seq![], x) by {
                        lemma_occurrences_front(h, x);
                    }
                    lemma_represents_same(self.counts@, h, seq![], h2, seq![]);
                    lemma_evict_push(orig.take(k as int), orig[k as int], c);
                    assert(orig.take(k + 1) =~= orig.take(k as int).push(orig[k as int]));
                    assert(evict(orig.take(k + 1), c) =~= kept.push((ts, wt)));
                    assert(h2 =~= orig.skip(k + 1) + evict(orig.take(k + 1), c));
                }
            }
            k = k + 1;
        }
        proof {
            assert(orig.take(n as int) =~= orig);
            assert(self@.history =~= evict(orig, c));
        }
    }

    /// Tokenises `item.text`, folds its tokens into the window, and drops
    /// every item stamped more than `window_ms` before `item.ts_ms`.
    pub fn ingest(&mut self, item: &IngestedItem)
        requires
            old(self).wf(),
            old(self)@.total_ingested < u64::MAX,
            window_tokens(old(self)@.history) + item.text@.len() + 1 <= u64::MAX,
            i64::MIN <= item.ts_ms - old(self)@.window_ms <= i64::MAX,
        ensures
            final(self).wf(),
            final(self)@ == ingest_spec(old(self)@, item.text@, item.ts_ms),
    {
        self.total_ingested = self.total_ingested + 1;
        let toks = tokenize(item.text.as_str(), &self.stop_words);
        let ghost h = self@.history;
        let ghost wt = words(toks);
        proof {
            lemma_tokens_len(stop_word_list(), item.text@);
            assert(wt == tokens(item.text@));
            assert(wt.take(0) =~= Seq::<Seq<char>>::empty());
        }
        let mut j: usize = 0;
        while j < toks.len()
            invariant
                j <= toks@.len(),
                wt == words(toks),
                wt.len() <= item.text@.len() + 1,
                h == self@.history,
                self.window_ms == old(self).window_ms,
                self.total_ingested == old(self).total_ingested + 1,
                self.window_token_count == window_tokens(h),
                window_tokens(h) + item.text@.len() + 1 <= u64::MAX,
                words(self.stop_words) == stop_word_list(),
                represents(self.counts@, h, wt.take(j as int)),
            decreases toks@.len() - j,
        {
            proof {
                lemma_occurrences_bounds(h, toks@[j as int]@);
                lemma_count_in_bounds(wt.take(j as int), toks@[j as int]@);
                assert(wt.take(j as int).push(toks@[j as int]@) =~= wt.take(j + 1));
            }
            bump(&mut self.counts, &toks[j], Ghost(h), Ghost(wt.take(j as int)));
            j += 1;
        }
        self.window_token_count = self.window_token_count + toks.len() as u64;
        self.history.push_back((item.ts_ms, toks));
        proof {
            let h2 = self@.history;
            assert(h2 =~= h.push((item.ts_ms, wt)));
            assert(h2.drop_last() =~= h);
            assert(wt.take(wt.len() as int) =~= wt);
            assert forall|x: Seq<char>| tally(h, wt, x) == tally(h2, seq![], x) by {}
            lemma_represents_same(self.counts@, h, wt, h2, seq![]);
        }
        self.evict_before(item.ts_ms - self.window_ms);
    }

    /// The `top_n` words of the window with their counts, highest count
    /// first and ties in the words' order.
    pub fn trending(&self, top_n: usize) -> (r: Vec<(String, u64)>)
        requires
            self.wf(),
        ensures
            trending_ok(self@.history, top_n as int, r@),
    {
        let ghost h = self@.history;
        let ghost c = self.counts@;
        let mut out: Vec<(String, u64)> = Vec::new();
        loop
            invariant
                c == self.counts@,
                h == self@.history,
                represents(c, h, seq![]),
                out@.len() <= top_n,
                forall|i: int| 0 <= i < out@.len() ==> (#[trigger] out@[i]).1 == occurrences(h, out@[i].0@) && out@[i].1 > 0,
                forall|i: int, j: int| 0 <= i < j < out@.len() ==> ranks_before(entry_view(#[trigger] out@[i]), entry_view(#[trigger] out@[j])),
                forall|j: int| 0 <= j < c.len() ==> listed(out@, (#[trigger] c[j]).0@)
                    || forall|i: int| 0 <= i < out@.len() ==> ranks_before(entry_view(#[trigger] out@[i]), entry_view(c[j])),
            ensures
                trending_ok(h, top_n as int, out@),
            decreases top_n - out@.len(),
        {
            if out.len() >= top_n {
                proof {
                    assert forall|w: Seq<char>| occurrences(h, w) > 0 && !listed(out@, w) implies {
                        &&& out@.len() == top_n
                        &&& forall|i: int| 0 <= i < out@.len() ==> ranks_before(entry_view(#[trigger] out@[i]), (w, occurrences(h, w)))
                    } by {
                        assert(tally(h, seq![], w) == occurrences(h, w));
                        let k = choose|k: int| 0 <= k < c.len() && c[k].0@ == w;
                        assert(entry_view(c[k]) == (w, occurrences(h, w)));
                    }
                }
                break;
            }
            let mut best: Option<usize> = None;
            let mut j: usize = 0;
            while j < self.counts.len()
                invariant
                    c == self.counts@,
                    represents(c, h, seq![]),
                    j <= c.len(),
                    best matches Some(b) ==> b < j && after_last(out@, c[b as int]),
                    forall|k: int| 0 <= k < j && after_last(out@, #[trigger] c[k]) ==> (best matches Some(b) && (b == k
                        || ranks_before(entry_view(c[b as int]), entry_view(c[k])))),
                decreases c.len() - j,
            {
                let n = out.len();
                let cand = n == 0 || entry_before(&out[n - 1], &self.counts[j]);
                if cand {
                    match best {
                        None => {
                            best = Some(j);
                        },
                        Some(b) => {
                            let better = entry_before(&self.counts[j], &self.counts[b]);
                            proof {
                                assert(c[b as int].0@ != c[j as int].0@);
                                assert forall|k: int| 0 <= k < j && after_last(out@, #[trigger] c[k]) && k != b
                                    implies ranks_before(entry_view(c[b as int]), entry_view(c[k])) by {}
                                assert forall|k: int| 0 <= k < j && after_last(out@, #[trigger] c[k]) && better
                                    implies ranks_before(entry_view(c[j as int]), entry_view(c[k])) by {
                                    lemma_order(entry_view(c[j as int]), entry_view(c[b as int]), entry_view(c[k]));
                                }
                                lemma_order(entry_view(c[j as int]), entry_view(c[b as int]), entry_view(c[j as int]));
                            }
                            if better {
                                best = Some(j);
                            }
                        },
                    }
                }
                j += 1;
            }
            match best {
                None => {
                    proof {
                        assert forall|w: Seq<char>| occurrences(h, w) > 0 implies listed(out@, w) by {
                            assert(tally(h, seq![], w) == occurrences(h, w));
                            let k = choose|k: int| 0 <= k < c.len() && c[k].0@ == w;
                            if !listed(out@, c[k].0@) {
                                assert(after_last(out@, c[k]));
                            }
                        }
                    }
                    break;
                },
                Some(b) => {
                    let ghost old_out = out@;
                    let ghost cb = c[b as int];
                    proof {
                        assert(tally(h, seq![], cb.0@) == occurrences(h, cb.0@));
                        if listed(old_out, cb.0@) {
                            let i = choose|i: int| 0 <= i < old_out.len() && (#[trigger] old_out[i]).0@ == cb.0@;
                            let last = old_out.len() - 1;
                            assert(entry_view(old_out[i]) == entry_view(cb));
                            lemma_order(entry_view(old_out[i]), entry_view(old_out[last]), entry_view(cb));
                            assert(false);
                        }
                    }
                    let e = (self.counts[b].0.clone(), self.counts[b].1);
                    out.push(e);
                    proof {
                        assert(out@ =~= old_out.push(cb));
                        assert forall|j: int| 0 <= j < c.len() implies listed(out@, (#[trigger] c[j]).0@)
                            || forall|i: int| 0 <= i < out@.len() ==> ranks_before(entry_view(#[trigger] out@[i]), entry_view(c[j])) by {
                            if listed(old_out, c[j].0@) {
                                let i = choose|i: int| 0 <= i < old_out.len() && (#[trigger] old_out[i]).0@ == c[j].0@;
                                assert(out@[i] == old_out[i]);
                            } else if c[j].0@ == cb.0@ {
                                assert(out@[old_out.len() as int].0@ == c[j].0@);
                            } else {
                                assert(after_last(old_out, c[j]));
                                assert(j != b);
                                assert forall|i: int| 0 <= i < out@.len() implies ranks_before(entry_view(#[trigger] out@[i]), entry_view(c[j])) by {
                                    if i < old_out.len() {
                                        assert(out@[i] == old_out[i]);
                                    }
                                }
                            }
                        }
                        assert forall|i: int, k: int| 0 <= i < k < out@.len() implies ranks_before(entry_view(#[trigger] out@[i]), entry_view(#[trigger] out@[k])) by {
                            assert(out@[i] == old_out[i]);
                            if k < old_out.len() {
                                assert(out@[k] == old_out[k]);
                            }
                        }
                    }
                },
            }
        }
        out
    }

}


/// Ingesting an item keeps exactly the items stamped no earlier than
/// `window_ms` before it, whatever order they arrived in, with the new
/// item last, and counts it.
pub proof fn ingest_keeps_the_window(v: AggregatorView, text: Seq<char>, ts_ms: i64)
    requires
        v.window_ms >= 0,
    ensures
        ({
            let h = v.history.push((ts_ms, tokens(text)));
            let w = ingest_spec(v, text, ts_ms).history;
            &&& w.len() > 0 && w.last() == (ts_ms, tokens(text))
            &&& forall|i: int| 0 <= i < w.len() ==> (#[trigger] w[i]).0 >= ts_ms - v.window_ms
            &&& forall|i: int| 0 <= i < h.len() && (#[trigger] h[i]).0 >= ts_ms - v.window_ms ==> w.contains(h[i])
        }),
        ingest_spec(v, text, ts_ms).total_ingested == (v.total_ingested + 1) as u64,
{
    let cutoff = ts_ms - v.window_ms;
    lemma_evict_props(v.history.push((ts_ms, tokens(text))), cutoff);
    lemma_evict_push(v.history, (ts_ms, tokens(text)), cutoff);
}

/// In a trending list no word appears twice.
proof fn lemma_trending_distinct(h: Seq<(i64, Seq<Seq<char>>)>, top_n: int, r: Seq<(String, u64)>, i: int, j: int)
    requires
        trending_ok(h, top_n, r),
        0 <= i < r.len(),
        0 <= j < r.len(),
        i != j,
    ensures
        r[i].0@ != r[j].0@,
{
    if r[i].0@ == r[j].0@ {
        assert(entry_view(r[i]) == entry_view(r[j]));
        lemma_order(entry_view(r[i]), entry_view(r[i]), entry_view(r[i]));
        if i < j {
            assert(ranks_before(entry_view(r[i]), entry_view(r[j])));
        } else {
            assert(ranks_before(entry_view(r[j]), entry_view(r[i])));
        }
    }
}

/// Two trending lists of one window agree on their first `k` entries.
proof fn lemma_trending_agree(
    h: Seq<(i64, Seq<Seq<char>>)>,
    top_n: int,
    r1: Seq<(String, u64)>,
    r2: Seq<(String, u64)>,
    k: int,
)
    requires
        trending_ok(h, top_n, r1),
        trending_ok(h, top_n, r2),
        0 <= k <= r1.len(),
        k <= r2.len(),
    ensures
        forall|i: int| 0 <= i < k ==> entry_view(#[trigger] r1[i]) == entry_view(r2[i]),
    decreases k,
{
    if k > 0 {
        lemma_trending_agree(h, top_n, r1, r2, k - 1);
        let i = k - 1;
        let a = entry_view(r1[i]);
        let b = entry_view(r2[i]);
        if a != b {
            assert(a.0 != b.0);
            lemma_order(a, b, a);
            // Where `a` sits in the second list, `b` ranks above it.
            assert(ranks_before(b, a)) by {
                if listed(r2, a.0) {
                    let j = choose|j: int| 0 <= j < r2.len() && (#[trigger] r2[j]).0@ == a.0;
                    if j < i {
                        assert(entry_view(r1[j]) == entry_view(r2[j]));
                        lemma_trending_distinct(h, top_n, r1, j, i);
                    }
                    assert(j != i);
                    assert(entry_view(r2[j]) == a);
                } else {
                    assert(ranks_before(entry_view(r2[i]), (a.0, occurrences(h, a.0))));
                }
            }
            // Where `b` sits in the first list, `a` ranks above it.
            assert(ranks_before(a, b)) by {
                if listed(r1, b.0) {
                    let j = choose|j: int| 0 <= j < r1.len() && (#[trigger] r1[j]).0@ == b.0;
                    if j < i {
                        assert(entry_view(r1[j]) == entry_view(r2[j]));
                        lemma_trending_distinct(h, top_n, r2, j, i);
                    }
                    assert(j != i);
                    assert(entry_view(r1[j]) == b);
                } else {
                    assert(ranks_before(entry_view(r1[i]), (b.0, occurrences(h, b.0))));
                }
            }
        }
    }
}

/// The trending list of a window is determined: two lists that both meet
/// `trending_ok` for one window and one cut list the same words with the
/// same counts in the same order.
pub proof fn trending_is_determined(
    h: Seq<(i64, Seq<Seq<char>>)>,
    top_n: int,
    r1: Seq<(String, u64)>,
    r2: Seq<(String, u64)>,
)
    requires
        trending_ok(h, top_n, r1),
        trending_ok(h, top_n, r2),
    ensures
        r1.len() == r2.len(),
        forall|i: int| 0 <= i < r1.len() ==> entry_view(#[trigger] r1[i]) == entry_view(r2[i]),
{
    if r1.len() < r2.len() {
        lemma_trending_agree(h, top_n, r1, r2, r1.len() as int);
        let w = r2[r1.len() as int].0@;
        assert(!listed(r1, w)) by {
            if listed(r1, w) {
                let j = choose|j: int| 0 <= j < r1.len() && (#[trigger] r1[j]).0@ == w;
                assert(entry_view(r1[j]) == entry_view(r2[j]));
                lemma_trending_distinct(h, top_n, r2, j, r1.len() as int);
            }
        }
        assert(occurrences(h, w) > 0);
    } else if r2.len() < r1.len() {
        lemma_trending_agree(h, top_n, r1, r2, r2.len() as int);
        let w = r1[r2.len() as int].0@;
        assert(!listed(r2, w)) by {
            if listed(r2, w) {
                let j = choose|j: int| 0 <= j < r2.len() && (#[trigger] r2[j]).0@ == w;
                assert(entry_view(r1[j]) == entry_view(r2[j]));
                lemma_trending_distinct(h, top_n, r1, j, r2.len() as int);
            }
        }
        assert(occurrences(h, w) > 0);
    } else {
        lemma_trending_agree(h, top_n, r1, r2, r1.len() as int);
    }
}

} // verus!
