//! The midbrain matches what the organism hears of itself against the
//! efference copies of what it said, so that its own voice is no surprise.
//! Times are monotonic clock readings in nanoseconds.

use crate::message::EfferenceCopy;
use vstd::prelude::*;

verus! {

/// An echo is matched against copies sent less than this long ago (500 ms).
pub const ECHO_MATCH_WINDOW_NS: u64 = 500_000_000;

/// Copies are kept for this long (1 s).
pub const ECHO_RETENTION_NS: u64 = 1_000_000_000;

/// How long ago `then` was at `now`; a reading from the future counts as now.
pub open spec fn age(now: u64, then: u64) -> int {
    if now >= then { now - then } else { 0 }
}

/// The character contents of a list of strings.
pub open spec fn string_views(v: Seq<String>) -> Seq<Seq<char>> {
    v.map_values(|s: String| s@)
}

/// The pending copy `e` explains an echo of `tokens` heard at `now`.
pub open spec fn echo_matches(now: u64, e: (u64, EfferenceCopy), tokens: Seq<Seq<char>>) -> bool {
    age(now, e.0) < ECHO_MATCH_WINDOW_NS && string_views(e.1.expected_tokens@) == tokens
}

/// The pending copy `e` is still kept at `now`.
pub open spec fn still_recent(now: u64, e: (u64, EfferenceCopy)) -> bool {
    age(now, e.0) < ECHO_RETENTION_NS
}

/// The copies of `s` still kept at `now`, in order.
pub open spec fn keep_recent(s: Seq<(u64, EfferenceCopy)>, now: u64) -> Seq<(u64, EfferenceCopy)>
    decreases s.len(),
{
    if s.len() == 0 {
        Seq::empty()
    } else {
        let rest = keep_recent(s.drop_last(), now);
        if still_recent(now, s.last()) { rest.push(s.last()) } else { rest }
    }
}

/// The first pending copy that explains the echo, if any.
pub open spec fn first_match(s: Seq<(u64, EfferenceCopy)>, now: u64, tokens: Seq<Seq<char>>) -> Option<int> {
    if exists|m: int| 0 <= m < s.len() && echo_matches(now, #[trigger] s[m], tokens) {
        let m = choose|m: int|
            0 <= m < s.len() && echo_matches(now, #[trigger] s[m], tokens) && forall|j: int|
                0 <= j < m ==> !echo_matches(now, #[trigger] s[j], tokens);
        Some(m)
    } else {
        None
    }
}

/// The midbrain's record of copies awaiting their echo, with the time each arrived.
pub struct Midbrain {
    expected_echoes: Vec<(u64, EfferenceCopy)>,
}

impl View for Midbrain {
    type V = Seq<(u64, EfferenceCopy)>;

    closed spec fn view(&self) -> Seq<(u64, EfferenceCopy)> {
        self.expected_echoes@
    }
}

proof fn lemma_first_match_exists(s: Seq<(u64, EfferenceCopy)>, now: u64, tokens: Seq<Seq<char>>, m: int)
    requires
        0 <= m < s.len(),
        echo_matches(now, s[m], tokens),
        forall|j: int| 0 <= j < m ==> !echo_matches(now, #[trigger] s[j], tokens),
    ensures
        first_match(s, now, tokens) == Some(m),
{
    let w = choose|w: int|
        0 <= w < s.len() && echo_matches(now, #[trigger] s[w], tokens) && forall|j: int|
            0 <= j < w ==> !echo_matches(now, #[trigger] s[j], tokens);
    if w < m {
        assert(!echo_matches(now, s[w], tokens));
    }
    if m < w {
        assert(!echo_matches(now, s[m], tokens));
    }
}

/// Hearing oneself: right after a copy of an utterance is recorded, an echo
/// of exactly its tokens heard within the match window is explained by a
/// pending copy, so it brings no surprise.
pub proof fn lemma_own_echo_is_expected(pending: Seq<(u64, EfferenceCopy)>, sent_at: u64, copy: EfferenceCopy, heard_at: u64)
    requires
        age(heard_at, sent_at) < ECHO_MATCH_WINDOW_NS,
    ensures
        first_match(pending.push((sent_at, copy)), heard_at, string_views(copy.expected_tokens@)) is Some,
{
    let s = pending.push((sent_at, copy));
    assert(echo_matches(heard_at, s[pending.len() as int], string_views(copy.expected_tokens@)));
}

/// An echo that no pending copy explains is a surprise, and then nothing is
/// consumed beyond the copies that have expired.
pub proof fn lemma_unexplained_echo_consumes_nothing(pending: Seq<(u64, EfferenceCopy)>, now: u64, tokens: Seq<Seq<char>>)
    requires
        forall|m: int| 0 <= m < pending.len() ==> !echo_matches(now, #[trigger] pending[m], tokens),
    ensures
        first_match(pending, now, tokens) is None,
{
}

proof fn lemma_views_equal(v: Seq<String>, tokens: Seq<Seq<char>>)
    ensures
        string_views(v) == tokens <==> (v.len() == tokens.len() && forall|j: int|
            0 <= j < tokens.len() ==> #[trigger] v[j]@ == tokens[j]),
{
    if v.len() == tokens.len() && forall|j: int| 0 <= j < tokens.len() ==> #[trigger] v[j]@ == tokens[j] {
        assert(string_views(v) =~= tokens);
    }
    if string_views(v) == tokens {
        assert forall|j: int| 0 <= j < tokens.len() implies #[trigger] v[j]@ == tokens[j] by {
            assert(string_views(v)[j] == v[j]@);
        }
    }
}

proof fn lemma_least_match(s: Seq<(u64, EfferenceCopy)>, now: u64, tokens: Seq<Seq<char>>, i: int)
    requires
        0 <= i <= s.len(),
        forall|j: int| 0 <= j < i ==> !echo_matches(now, #[trigger] s[j], tokens),
        exists|m: int| i <= m < s.len() && echo_matches(now, #[trigger] s[m], tokens),
    ensures
        exists|m: int|
            0 <= m < s.len() && echo_matches(now, #[trigger] s[m], tokens) && forall|j: int|
                0 <= j < m ==> !echo_matches(now, #[trigger] s[j], tokens),
    decreases s.len() - i,
{
    if echo_matches(now, s[i], tokens) {
        assert(0 <= i < s.len() && echo_matches(now, s[i], tokens) && forall|j: int|
            0 <= j < i ==> !echo_matches(now, #[trigger] s[j], tokens));
    } else {
        let m = choose|m: int| i <= m < s.len() && echo_matches(now, #[trigger] s[m], tokens);
        assert(m != i);
        lemma_least_match(s, now, tokens, i + 1);
    }
}

/// The first match is a match, and no copy before it matches; when there is
/// no first match, no copy matches.
proof fn lemma_first_match_shape(s: Seq<(u64, EfferenceCopy)>, now: u64, tokens: Seq<Seq<char>>)
    ensures
        first_match(s, now, tokens) matches Some(m) ==> {
            &&& 0 <= m < s.len()
            &&& echo_matches(now, s[m], tokens)
            &&& forall|j: int| 0 <= j < m ==> !echo_matches(now, #[trigger] s[j], tokens)
        },
        first_match(s, now, tokens) is None ==> forall|j: int| 0 <= j < s.len() ==> !echo_matches(now, #[trigger] s[j], tokens),
{
    if exists|m: int| 0 <= m < s.len() && echo_matches(now, #[trigger] s[m], tokens) {
        lemma_least_match(s, now, tokens, 0);
    }
}

/// What explains an echo: a pending copy sent less than 500 ms before the
/// echo was heard whose expected tokens are the echo's tokens, all of them,
/// character for character and in order. The copy that is consumed is the
/// first such one; when there is none, the echo is a surprise.
pub proof fn lemma_echo_match_is_exact(pending: Seq<(u64, EfferenceCopy)>, now: u64, tokens: Seq<Seq<char>>)
    ensures
        first_match(pending, now, tokens) matches Some(m) ==> {
            &&& 0 <= m < pending.len()
            &&& (if now >= pending[m].0 { now - pending[m].0 } else { 0 }) < 500_000_000
            &&& pending[m].1.expected_tokens@.len() == tokens.len()
            &&& forall|j: int| 0 <= j < tokens.len() ==> #[trigger] pending[m].1.expected_tokens@[j]@ == tokens[j]
            &&& forall|p: int| 0 <= p < m && (if now >= pending[p].0 { now - pending[p].0 } else { 0 }) < 500_000_000
                && #[trigger] pending[p].1.expected_tokens@.len() == tokens.len()
                ==> exists|j: int| 0 <= j < tokens.len() && #[trigger] pending[p].1.expected_tokens@[j]@ != tokens[j]
        },
        first_match(pending, now, tokens) is None ==> forall|p: int|
            0 <= p < pending.len() && (if now >= pending[p].0 { now - pending[p].0 } else { 0 }) < 500_000_000
                && #[trigger] pending[p].1.expected_tokens@.len() == tokens.len()
                ==> exists|j: int| 0 <= j < tokens.len() && #[trigger] pending[p].1.expected_tokens@[j]@ != tokens[j],
{
    lemma_first_match_shape(pending, now, tokens);
    match first_match(pending, now, tokens) {
        Some(m) => {
            lemma_views_equal(pending[m].1.expected_tokens@, tokens);
            assert forall|p: int| 0 <= p < m && (if now >= pending[p].0 { now - pending[p].0 } else { 0 }) < 500_000_000
                && #[trigger] pending[p].1.expected_tokens@.len() == tokens.len()
                implies exists|j: int| 0 <= j < tokens.len() && #[trigger] pending[p].1.expected_tokens@[j]@ != tokens[j] by {
                assert(!echo_matches(now, pending[p], tokens));
                lemma_views_equal(pending[p].1.expected_tokens@, tokens);
            }
        },
        None => {
            assert forall|p: int| 0 <= p < pending.len() && (if now >= pending[p].0 { now - pending[p].0 } else { 0 }) < 500_000_000
                && #[trigger] pending[p].1.expected_tokens@.len() == tokens.len()
                implies exists|j: int| 0 <= j < tokens.len() && #[trigger] pending[p].1.expected_tokens@[j]@ != tokens[j] by {
                assert(!echo_matches(now, pending[p], tokens));
                lemma_views_equal(pending[p].1.expected_tokens@, tokens);
            }
        },
    }
}

/// Whether a pending copy was sent less than a second before `now`.
pub open spec fn sent_within_a_second(now: u64) -> spec_fn((u64, EfferenceCopy)) -> bool {
    |e: (u64, EfferenceCopy)| (if now >= e.0 { now - e.0 } else { 0 }) < 1_000_000_000
}

/// What the midbrain keeps after an echo: exactly the copies sent less than
/// a second before it, in their order (the standard filter).
pub proof fn lemma_keep_recent_is_last_second(s: Seq<(u64, EfferenceCopy)>, now: u64)
    ensures
        keep_recent(s, now) == s.filter(sent_within_a_second(now)),
    decreases s.len(),
{
    reveal(Seq::filter);
    if s.len() > 0 {
        lemma_keep_recent_is_last_second(s.drop_last(), now);
    }
}

fn tokens_equal(a: &Vec<String>, b: &Vec<String>) -> (res: bool)
    ensures
        res == (string_views(a@) == string_views(b@)),
{
    if a.len() != b.len() {
        assert(string_views(a@).len() != string_views(b@).len());
        return false;
    }
    let mut i: usize = 0;
    while i < a.len()
        invariant
            a.len() == b.len(),
            i <= a.len(),
            forall|j: int| 0 <= j < i ==> a@[j]@ == b@[j]@,
        decreases a.len() - i,
    {
        if a[i] != b[i] {
            assert(string_views(a@)[i as int] != string_views(b@)[i as int]);
            return false;
        }
        i = i + 1;
    }
    assert(string_views(a@) =~= string_views(b@));
    true
}

fn elapsed_since(now: u64, then: u64) -> (res: u64)
    ensures
        res == age(now, then),
{
    if now >= then { now - then } else { 0 }
}

/// Drops the copies that are no longer kept at `now`, keeping the order of the rest.
fn retain_recent(v: &mut Vec<(u64, EfferenceCopy)>, now: u64)
    ensures
        final(v)@ == keep_recent(old(v)@, now),
{
    let ghost orig = v@;
    let mut rest: Vec<(u64, EfferenceCopy)> = Vec::new();
    std::mem::swap(&mut rest, v);
    let mut rev: Vec<(u64, EfferenceCopy)> = Vec::new();
    while rest.len() > 0
        invariant
            rest@ + rev@.reverse() == orig,
            v@.len() == 0,
        decreases rest.len(),
    {
        let ghost before = rest@;
        let e = rest.pop().unwrap();
        let ghost rev_before = rev@;
        rev.push(e);
        proof {
            assert(rev@.reverse() =~= seq![e] + rev_before.reverse());
            assert(before =~= rest@.push(e));
            assert(rest@ + rev@.reverse() =~= before + rev_before.reverse());
        }
    }
    assert(rev@.reverse() =~= orig);
    let ghost total = orig.len();
    while rev.len() > 0
        invariant
            rev@.reverse() == orig.subrange(total - rev@.len(), total as int),
            rev@.len() <= total,
            total == orig.len(),
            v@ == keep_recent(orig.take(total - rev@.len()), now),
        decreases rev.len(),
    {
        let ghost rev_before = rev@;
        let e = rev.pop().unwrap();
        let ghost t = total - rev_before.len();
        proof {
            assert(rev_before =~= rev@.push(e));
            assert(rev_before.reverse() =~= seq![e] + rev@.reverse());
            assert(orig.subrange(t, total as int)[0] == e);
            assert(orig[t] == e);
            assert(rev@.reverse() =~= rev_before.reverse().subrange(1, rev_before.len() as int));
            assert(rev@.reverse() =~= orig.subrange(t + 1, total as int));
            assert(orig.take(t + 1).drop_last() =~= orig.take(t));
            assert(orig.take(t + 1).last() == e);
        }
        if elapsed_since(now, e.0) < ECHO_RETENTION_NS {
            v.push(e);
        }
    }
    assert(orig.take(total as int) =~= orig);
}

impl Midbrain {
    /// A midbrain with no pending copies.
    pub fn new() -> (m: Self)
        ensures
            m@ == Seq::<(u64, EfferenceCopy)>::empty(),
    {
        Midbrain { expected_echoes: Vec::new() }
    }

    /// The number of copies awaiting their echo.
    pub fn pending_len(&self) -> (n: usize)
        ensures
            n == self@.len(),
    {
        self.expected_echoes.len()
    }

    /// Records an outgoing copy that arrived at `now`; the caller then mutes
    /// the ear for the time of the utterance.
    pub fn handle_efference_copy(&mut self, now: u64, copy: EfferenceCopy)
        requires
            copy.timestamp > 0,
            copy.expected_tokens@.len() > 0,
        ensures
            final(self)@ == old(self)@.push((now, copy)),
    {
        self.expected_echoes.push((now, copy));
    }

    /// The position of the first pending copy that explains an echo of
    /// `echo_tokens` heard at `now`, if any.
    pub fn find_echo(&self, now: u64, echo_tokens: &Vec<String>) -> (r: Option<usize>)
        ensures
            match first_match(self@, now, string_views(echo_tokens@)) {
                Some(m) => 0 <= m < self@.len() && r == Some(m as usize),
                None => r is None,
            },
    {
        let ghost tokens = string_views(echo_tokens@);
        let mut i: usize = 0;
        while i < self.expected_echoes.len()
            invariant
                tokens == string_views(echo_tokens@),
                i <= self@.len(),
                forall|j: int| 0 <= j < i ==> !echo_matches(now, #[trigger] self@[j], tokens),
            decreases self@.len() - i,
        {
            let entry = &self.expected_echoes[i];
            assert(*entry == self@[i as int]);
            let fresh = elapsed_since(now, entry.0) < ECHO_MATCH_WINDOW_NS;
            let same = tokens_equal(&entry.1.expected_tokens, echo_tokens);
            if fresh && same {
                assert(echo_matches(now, self@[i as int], tokens));
                proof {
                    lemma_first_match_exists(self@, now, tokens, i as int);
                }
                return Some(i);
            }
            assert(!echo_matches(now, self@[i as int], tokens));
            i = i + 1;
        }
        proof {
            if exists|m: int| 0 <= m < self@.len() && echo_matches(now, #[trigger] self@[m], tokens) {
                let m = choose|m: int| 0 <= m < self@.len() && echo_matches(now, #[trigger] self@[m], tokens);
                assert(!echo_matches(now, self@[m], tokens));
            }
        }
        None
    }

    /// Matches an echo heard at `now`: the first pending copy that explains
    /// it is consumed, then copies older than the retention time are dropped.
    /// Returns the surprise: `false` (none) when a copy explained the echo,
    /// `true` otherwise.
    pub fn handle_proprioceptive_echo(&mut self, now: u64, echo_tokens: &Vec<String>) -> (surprised: bool)
        requires
            0 < echo_tokens@.len() < 100,
            old(self)@.len() <= 1000 || (old(self)@.len() == 1001 && exists|m: int|
                0 <= m < 1000 && echo_matches(now, #[trigger] old(self)@[m], string_views(echo_tokens@))),
        ensures
            match first_match(old(self)@, now, string_views(echo_tokens@)) {
                Some(m) => !surprised && final(self)@ == keep_recent(old(self)@.remove(m), now),
                None => surprised && final(self)@ == keep_recent(old(self)@, now),
            },
    {
        let found = self.find_echo(now, echo_tokens);
        let surprised = match found {
            Some(i) => {
                self.expected_echoes.remove(i);
                false
            },
            None => true,
        };
        retain_recent(&mut self.expected_echoes, now);
        surprised
    }
}

} // verus!
