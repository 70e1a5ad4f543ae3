use vstd::prelude::*;

use crate::captures::Captures;
use crate::span::Match;

verus! {

/// Where the next search starts after `m` was found: right after a
/// non-empty match, one byte further after an empty one.
pub open spec fn next_search(m: Match) -> int {
    if m.spec_is_empty() {
        m.spec_end() + 1int
    } else {
        m.spec_end() as int
    }
}

/// Whether a scan reports `m`, given the end of the match it reported last:
/// an empty match that ends where the last reported match ended is skipped.
pub open spec fn reports(last_match: Option<nat>, m: Match) -> bool {
    !(m.spec_is_empty() && last_match == Some(m.spec_end()))
}

/// Whether `m` may be found by a search at `at` in a haystack of `len`
/// bytes: it starts at or after `at` and ends within the haystack.
pub open spec fn found_within(m: Match, at: int, len: int) -> bool {
    &&& at <= m.spec_start()
    &&& m.spec_start() <= m.spec_end()
    &&& m.spec_end() <= len
}

/// A search engine, configured once and then only read.
///
/// The iteration methods ask for a haystack shorter than `usize::MAX`
/// bytes, which every byte slice is, so that the offset one past an empty
/// match at the end can be formed.
pub trait Matcher {
    type Captures: Captures;

    type Error: std::fmt::Display;

    /// What `find_at` answers for `haystack` and `at`.
    ///
    /// An engine verified against this trait defines it; the default says
    /// nothing of what is found.
    open spec fn spec_find_at(&self, haystack: Seq<u8>, at: int) -> Result<Option<Match>, Self::Error> {
        arbitrary()
    }

    /// What `captures_at` answers for `haystack` and `at`: the slots of the
    /// match found, or `None`.
    ///
    /// The default, like the default `captures_at`, finds nothing.
    open spec fn spec_captures_at(&self, haystack: Seq<u8>, at: int) -> Result<
        Option<Seq<Option<Match>>>,
        Self::Error,
    > {
        Ok(None)
    }

    /// Finds the first match that starts at or after `at`.
    fn find_at(&self, haystack: &[u8], at: usize) -> (r: Result<Option<Match>, Self::Error>)
        ensures
            r == self.spec_find_at(haystack@, at as int),
            r matches Ok(Some(m)) ==> found_within(m, at as int, haystack@.len() as int),
    ;

    /// Allocates a set of capture slots for this engine's groups: one slot
    /// for the whole match and one for each group.
    fn new_captures(&self) -> (r: Result<Self::Captures, Self::Error>)
        ensures
            r matches Ok(c) ==> forall|n: usize|
                call_ensures(Self::capture_count, (self,), n) ==> c.slots().len() == n + 1,
    ;

    /// The number of capture groups.
    fn capture_count(&self) -> (r: usize)
        default_ensures
            r == 0,
    {
        0
    }

    /// The slot of the group called `name`, or `None` where no group has
    /// that name.
    fn capture_index(&self, name: &str) -> (r: Option<usize>)
        default_ensures
            r is None,
    {
        None
    }

    /// Finds the first match in `haystack`.
    fn find(&self, haystack: &[u8]) -> (r: Result<Option<Match>, Self::Error>)
        ensures
            r == self.spec_find_at(haystack@, 0),
            r matches Ok(Some(m)) ==> found_within(m, 0, haystack@.len() as int),
    {
        self.find_at(haystack, 0)
    }

    /// Hands each match of `haystack` that [`scan`] reports from 0 on to
    /// `matched`, in order, until `matched` answers `true`.
    fn find_iter<F>(&self, haystack: &[u8], matched: F) -> (r: Result<(), Self::Error>)
        where F: FnMut(Match) -> bool
        requires
            haystack@.len() < usize::MAX,
            forall|m: Match| call_requires(matched, (m,)),
        ensures
            forall|query: spec_fn(int) -> Result<Option<Match>, Self::Error>|
                (forall|p: int| #[trigger] query(p) == self.spec_find_at(haystack@, p))
                    ==> visit_outcome(
                    matched,
                    #[trigger] scan(query, haystack@.len() as int, 0, None).0,
                    scan(query, haystack@.len() as int, 0, None).1,
                    r,
                ),
    {
        self.find_iter_at(haystack, 0, matched)
    }

    /// Hands each match of `haystack` that [`scan`] reports from `at` on to
    /// `matched`, in order, until `matched` answers `true`.
    ///
    /// Returns `Err` with the engine's error where a search fails.
    fn find_iter_at<F>(&self, haystack: &[u8], at: usize, mut matched: F) -> (r: Result<(), Self::Error>)
        where F: FnMut(Match) -> bool
        requires
            haystack@.len() < usize::MAX,
            forall|m: Match| call_requires(matched, (m,)),
        ensures
            forall|query: spec_fn(int) -> Result<Option<Match>, Self::Error>|
                (forall|p: int| #[trigger] query(p) == self.spec_find_at(haystack@, p))
                    ==> visit_outcome(
                    matched,
                    #[trigger] scan(query, haystack@.len() as int, at as int, None).0,
                    scan(query, haystack@.len() as int, at as int, None).1,
                    r,
                ),
    {
        // The same loop as the fallible form: a closure that calls the
        // captured callback could wrap it, but such a closure has no
        // contract that can be stated here.
        let ghost callback = matched;
        let ghost len = haystack@.len() as int;
        let ghost query = |p: int| self.spec_find_at(haystack@, p);
        let ghost full = scan(query, len, at as int, None);
        let ghost mut done: Seq<Match> = seq![];
        let mut last_end = at;
        let mut last_match: Option<usize> = None;
        let mut result: Result<(), Self::Error> = Ok(());
        proof {
            assert(done + full.0 =~= full.0);
        }
        loop
            invariant_except_break
                visited(matched, done, done.len() as int),
                result == Ok::<(), Self::Error>(()),
            invariant
                matched == callback,
                forall|m: Match| call_requires(matched, (m,)),
                len == haystack@.len(),
                len < usize::MAX,
                query == (|p: int| self.spec_find_at(haystack@, p)),
                full == scan(query, len, at as int, None),
                last_end == at || last_end <= len + 1,
                full.0 == done + scan(query, len, last_end as int, opt_nat(last_match)).0,
                full.1 == scan(query, len, last_end as int, opt_nat(last_match)).1,
            ensures
                matched == callback,
                visit_outcome(matched, full.0, full.1, result),
            decreases len + 1 - last_end,
        {
            if last_end > haystack.len() {
                proof {
                    assert(full.0 =~= done);
                }
                break;
            }
            let m = match self.find_at(haystack, last_end) {
                Err(e) => {
                    proof {
                        assert(full.0 =~= done);
                    }
                    result = Err(e);
                    break;
                },
                Ok(None) => {
                    proof {
                        assert(full.0 =~= done);
                    }
                    break;
                },
                Ok(Some(m)) => m,
            };
            let ghost before = opt_nat(last_match);
            let ghost rest = scan(query, len, next_search(m), Some(m.spec_end()));
            if m.start() == m.end() {
                last_end = m.end() + 1;
                if last_match == Some(m.end()) {
                    continue;
                }
            } else {
                last_end = m.end();
            }
            last_match = Some(m.end());
            let ghost prev = done;
            proof {
                assert(reports(before, m));
                assert(scan(query, len, last_end as int, opt_nat(last_match)) == rest);
                done = done.push(m);
                assert(full.0 =~= done + rest.0);
                assert(full.0[prev.len() as int] == m);
                assert(visited(matched, full.0, prev.len() as int));
            }
            if matched(m) {
                break;
            }
        }
        proof {
            assert forall|q: spec_fn(int) -> Result<Option<Match>, Self::Error>|
                (forall|p: int| #[trigger] q(p) == self.spec_find_at(haystack@, p)) implies
                #[trigger] scan(q, len, at as int, None) == full by {
                assert(q =~= query);
            }
        }
        result
    }

    /// Hands each match of `haystack` that [`scan`] reports from 0 on to
    /// `matched`, in order, until `matched` answers `Ok(true)` or `Err`.
    fn try_find_iter<F, E>(&self, haystack: &[u8], matched: F) -> (r: Result<
        Result<(), E>,
        Self::Error,
    >) where F: FnMut(Match) -> Result<bool, E>
        requires
            haystack@.len() < usize::MAX,
            forall|m: Match| call_requires(matched, (m,)),
        ensures
            forall|query: spec_fn(int) -> Result<Option<Match>, Self::Error>|
                (forall|p: int| #[trigger] query(p) == self.spec_find_at(haystack@, p))
                    ==> iteration_outcome(
                    matched,
                    #[trigger] scan(query, haystack@.len() as int, 0, None).0,
                    scan(query, haystack@.len() as int, 0, None).1,
                    r,
                ),
    {
        self.try_find_iter_at(haystack, 0, matched)
    }

    /// Hands each match of `haystack` that [`scan`] reports from `at` on to
    /// `matched`, in order, until `matched` answers `Ok(true)` or `Err`.
    ///
    /// Returns `Err` with the engine's error where a search fails, and
    /// `Ok(Err(e))` where `matched` returns `Err(e)`.
    fn try_find_iter_at<F, E>(&self, haystack: &[u8], at: usize, mut matched: F) -> (r: Result<
        Result<(), E>,
        Self::Error,
    >) where F: FnMut(Match) -> Result<bool, E>
        requires
            haystack@.len() < usize::MAX,
            forall|m: Match| call_requires(matched, (m,)),
        ensures
            forall|query: spec_fn(int) -> Result<Option<Match>, Self::Error>|
                (forall|p: int| #[trigger] query(p) == self.spec_find_at(haystack@, p))
                    ==> iteration_outcome(
                    matched,
                    #[trigger] scan(query, haystack@.len() as int, at as int, None).0,
                    scan(query, haystack@.len() as int, at as int, None).1,
                    r,
                ),
    {
        let ghost callback = matched;
        let ghost len = haystack@.len() as int;
        let ghost query = |p: int| self.spec_find_at(haystack@, p);
        let ghost full = scan(query, len, at as int, None);
        let ghost mut done: Seq<Match> = seq![];
        let mut last_end = at;
        let mut last_match: Option<usize> = None;
        let mut result: Result<Result<(), E>, Self::Error> = Ok(Ok(()));
        proof {
            assert(done + full.0 =~= full.0);
        }
        loop
            invariant_except_break
                continued(matched, done, done.len() as int),
                result == Ok::<Result<(), E>, Self::Error>(Ok(())),
            invariant
                matched == callback,
                forall|m: Match| call_requires(matched, (m,)),
                len == haystack@.len(),
                len < usize::MAX,
                query == (|p: int| self.spec_find_at(haystack@, p)),
                full == scan(query, len, at as int, None),
                last_end == at || last_end <= len + 1,
                full.0 == done + scan(query, len, last_end as int, opt_nat(last_match)).0,
                full.1 == scan(query, len, last_end as int, opt_nat(last_match)).1,
            ensures
                matched == callback,
                iteration_outcome(matched, full.0, full.1, result),
            decreases len + 1 - last_end,
        {
            if last_end > haystack.len() {
                proof {
                    assert(full.0 =~= done);
                }
                break;
            }
            let m = match self.find_at(haystack, last_end) {
                Err(e) => {
                    proof {
                        assert(full.0 =~= done);
                    }
                    result = Err(e);
                    break;
                },
                Ok(None) => {
                    proof {
                        assert(full.0 =~= done);
                    }
                    break;
                },
                Ok(Some(m)) => m,
            };
            let ghost before = opt_nat(last_match);
            let ghost rest = scan(query, len, next_search(m), Some(m.spec_end()));
            if m.start() == m.end() {
                last_end = m.end() + 1;
                if last_match == Some(m.end()) {
                    continue;
                }
            } else {
                last_end = m.end();
            }
            last_match = Some(m.end());
            let ghost prev = done;
            proof {
                assert(reports(before, m));
                assert(scan(query, len, last_end as int, opt_nat(last_match)) == rest);
                done = done.push(m);
                assert(full.0 =~= done + rest.0);
                assert(full.0[prev.len() as int] == m);
                assert(continued(matched, full.0, prev.len() as int));
            }
            match matched(m) {
                Ok(true) => break,
                Ok(false) => {},
                Err(e) => {
                    result = Ok(Err(e));
                    break;
                },
            }
        }
        proof {
            assert forall|q: spec_fn(int) -> Result<Option<Match>, Self::Error>|
                (forall|p: int| #[trigger] q(p) == self.spec_find_at(haystack@, p)) implies
                #[trigger] scan(q, len, at as int, None) == full by {
                assert(q =~= query);
            }
        }
        result
    }
    /// Searches for the first match that starts at or after `at` and
    /// writes it, with its groups, into `caps`; answers whether one was
    /// found. An engine without capture groups answers `Ok(false)`.
    fn captures_at(&self, haystack: &[u8], at: usize, caps: &mut Self::Captures) -> (r: Result<
        bool,
        Self::Error,
    >)
        ensures
            r matches Err(e) ==> self.spec_captures_at(haystack@, at as int) == Err::<
                Option<Seq<Option<Match>>>,
                Self::Error,
            >(e),
            r matches Ok(false) ==> self.spec_captures_at(haystack@, at as int) == Ok::<
                Option<Seq<Option<Match>>>,
                Self::Error,
            >(None),
            r matches Ok(true) ==> self.spec_captures_at(haystack@, at as int) == Ok::<
                Option<Seq<Option<Match>>>,
                Self::Error,
            >(Some(final(caps).slots())),
            r matches Ok(true) ==> captured_within(final(caps).slots(), at as int, haystack@.len() as int),
    ;

    /// Runs [`Matcher::captures_iter_at`] from offset 0.
    fn captures_iter<F>(&self, haystack: &[u8], caps: &mut Self::Captures, matched: F) -> (r: Result<
        (),
        Self::Error,
    >) where F: FnMut(&Self::Captures) -> bool
        requires
            haystack@.len() < usize::MAX,
            forall|c: Self::Captures| captured_within(c.slots(), 0, haystack@.len() as int) ==> call_requires(matched, (&c,)),
        ensures
            0 > haystack@.len() ==> r == Ok::<(), Self::Error>(()) && *final(caps) == *old(caps),
            forall|query: spec_fn(int) -> Result<Option<Seq<Option<Match>>>, Self::Error>|
                (forall|p: int| #[trigger] query(p) == self.spec_captures_at(haystack@, p))
                    ==> capture_visit_outcome(
                    matched,
                    #[trigger] scan_captures(query, haystack@.len() as int, 0, None).0,
                    scan_captures(query, haystack@.len() as int, 0, None).1,
                    r,
                    *final(caps),
                ),
    {
        self.captures_iter_at(haystack, 0, caps, matched)
    }

    /// Writes each match of `haystack` from `at` on, with its groups, into
    /// `caps` and hands `caps` to `matched`, until `matched` answers `true`.
    /// The matches handed over are the slot lists that [`scan_captures`]
    /// reports: an empty match moves the search one byte on, and one that
    /// ends where the last reported match ended is skipped.
    ///
    /// Returns `Err` with the engine's error where a search fails.
    fn captures_iter_at<F>(
        &self,
        haystack: &[u8],
        at: usize,
        caps: &mut Self::Captures,
        mut matched: F,
    ) -> (r: Result<(), Self::Error>) where F: FnMut(&Self::Captures) -> bool
        requires
            haystack@.len() < usize::MAX,
            forall|c: Self::Captures| captured_within(c.slots(), at as int, haystack@.len() as int) ==> call_requires(matched, (&c,)),
        ensures
            at as int > haystack@.len() ==> r == Ok::<(), Self::Error>(()) && *final(caps) == *old(caps),
            forall|query: spec_fn(int) -> Result<Option<Seq<Option<Match>>>, Self::Error>|
                (forall|p: int| #[trigger] query(p) == self.spec_captures_at(haystack@, p))
                    ==> capture_visit_outcome(
                    matched,
                    #[trigger] scan_captures(query, haystack@.len() as int, at as int, None).0,
                    scan_captures(query, haystack@.len() as int, at as int, None).1,
                    r,
                    *final(caps),
                ),
    {
        // The same loop as the fallible form: a closure that calls the
        // captured callback could wrap it, but such a closure has no
        // contract that can be stated here.
        let ghost callback = matched;
        let ghost len = haystack@.len() as int;
        let ghost query = |p: int| self.spec_captures_at(haystack@, p);
        let ghost full = scan_captures(query, len, at as int, None);
        let ghost mut done: Seq<Seq<Option<Match>>> = seq![];
        let ghost mut given: Seq<Self::Captures> = seq![];
        let mut last_end = at;
        let mut last_match: Option<usize> = None;
        let mut result: Result<(), Self::Error> = Ok(());
        proof {
            assert(done + full.0 =~= full.0);
        }
        loop
            invariant_except_break
                handed_visit(matched, given, done, done.len() as int),
                given.len() == done.len(),
                last_end == at ==> *caps == *old(caps),
                result == Ok::<(), Self::Error>(()),
            invariant
                matched == callback,
                forall|c: Self::Captures| captured_within(c.slots(), at as int, haystack@.len() as int) ==> call_requires(matched, (&c,)),
                len == haystack@.len(),
                len < usize::MAX,
                query == (|p: int| self.spec_captures_at(haystack@, p)),
                full == scan_captures(query, len, at as int, None),
                at <= last_end,
                last_end == at || last_end <= len + 1,
                full.0 == done + scan_captures(query, len, last_end as int, opt_nat(last_match)).0,
                full.1 == scan_captures(query, len, last_end as int, opt_nat(last_match)).1,
            ensures
                matched == callback,
                at > len ==> result == Ok::<(), Self::Error>(()) && *caps == *old(caps),
                capture_visit_outcome(matched, full.0, full.1, result, *caps),
            decreases len + 1 - last_end,
        {
            if last_end > haystack.len() {
                proof {
                    assert(full.0 =~= done);
                }
                break;
            }
            match self.captures_at(haystack, last_end, caps) {
                Err(e) => {
                    proof {
                        assert(full.0 =~= done);
                    }
                    result = Err(e);
                    break;
                },
                Ok(false) => {
                    proof {
                        assert(full.0 =~= done);
                    }
                    break;
                },
                Ok(true) => {},
            }
            let m = caps.as_match();
            let ghost slots = caps.slots();
            let ghost before = opt_nat(last_match);
            let ghost rest = scan_captures(query, len, next_search(m), Some(m.spec_end()));
            if m.start() == m.end() {
                last_end = m.end() + 1;
                if last_match == Some(m.end()) {
                    continue;
                }
            } else {
                last_end = m.end();
            }
            last_match = Some(m.end());
            let ghost prev = done;
            proof {
                assert(reports(before, m));
                assert(scan_captures(query, len, last_end as int, opt_nat(last_match)) == rest);
                done = done.push(slots);
                assert(full.0 =~= done + rest.0);
                assert(full.0[prev.len() as int] == slots);
                assert(handed_visit(matched, given, full.0, prev.len() as int));
            }
            let ghost seen = *caps;
            if matched(&*caps) {
                break;
            }
            proof {
                given = given.push(seen);
                assert(handed_visit(matched, given, done, done.len() as int));
            }
        }
        proof {
            assert forall|q: spec_fn(int) -> Result<Option<Seq<Option<Match>>>, Self::Error>|
                (forall|p: int| #[trigger] q(p) == self.spec_captures_at(haystack@, p)) implies
                #[trigger] scan_captures(q, len, at as int, None) == full by {
                assert(q =~= query);
            }
        }
        result
    }

    /// Runs [`Matcher::try_captures_iter_at`] from offset 0.
    fn try_captures_iter<F, E>(
        &self,
        haystack: &[u8],
        caps: &mut Self::Captures,
        matched: F,
    ) -> (r: Result<Result<(), E>, Self::Error>) where F: FnMut(&Self::Captures) -> Result<bool, E>
        requires
            haystack@.len() < usize::MAX,
            forall|c: Self::Captures| captured_within(c.slots(), 0, haystack@.len() as int) ==> call_requires(matched, (&c,)),
        ensures
            0 > haystack@.len() ==> r == Ok::<Result<(), E>, Self::Error>(Ok(())) && *final(caps) == *old(caps),
            forall|query: spec_fn(int) -> Result<Option<Seq<Option<Match>>>, Self::Error>|
                (forall|p: int| #[trigger] query(p) == self.spec_captures_at(haystack@, p))
                    ==> capture_outcome(
                    matched,
                    #[trigger] scan_captures(query, haystack@.len() as int, 0, None).0,
                    scan_captures(query, haystack@.len() as int, 0, None).1,
                    r,
                    *final(caps),
                ),
    {
        self.try_captures_iter_at(haystack, 0, caps, matched)
    }

    /// Writes each match of `haystack` from `at` on, with its groups, into
    /// `caps` and hands `caps` to `matched`, chosen as in
    /// [`Matcher::captures_iter_at`], until `matched` answers `Ok(true)` or
    /// `Err`.
    ///
    /// Returns `Err` with the engine's error where a search fails, and
    /// `Ok(Err(e))` where `matched` returns `Err(e)`.
    fn try_captures_iter_at<F, E>(
        &self,
        haystack: &[u8],
        at: usize,
        caps: &mut Self::Captures,
        mut matched: F,
    ) -> (r: Result<Result<(), E>, Self::Error>) where F: FnMut(&Self::Captures) -> Result<bool, E>
        requires
            haystack@.len() < usize::MAX,
            forall|c: Self::Captures| captured_within(c.slots(), at as int, haystack@.len() as int) ==> call_requires(matched, (&c,)),
        ensures
            at as int > haystack@.len() ==> r == Ok::<Result<(), E>, Self::Error>(Ok(())) && *final(caps) == *old(caps),
            forall|query: spec_fn(int) -> Result<Option<Seq<Option<Match>>>, Self::Error>|
                (forall|p: int| #[trigger] query(p) == self.spec_captures_at(haystack@, p))
                    ==> capture_outcome(
                    matched,
                    #[trigger] scan_captures(query, haystack@.len() as int, at as int, None).0,
                    scan_captures(query, haystack@.len() as int, at as int, None).1,
                    r,
                    *final(caps),
                ),
    {
        let ghost callback = matched;
        let ghost len = haystack@.len() as int;
        let ghost query = |p: int| self.spec_captures_at(haystack@, p);
        let ghost full = scan_captures(query, len, at as int, None);
        let ghost mut done: Seq<Seq<Option<Match>>> = seq![];
        let ghost mut given: Seq<Self::Captures> = seq![];
        let mut last_end = at;
        let mut last_match: Option<usize> = None;
        let mut result: Result<Result<(), E>, Self::Error> = Ok(Ok(()));
        proof {
            assert(done + full.0 =~= full.0);
        }
        loop
            invariant_except_break
                handed(matched, given, done, done.len() as int),
                given.len() == done.len(),
                last_end == at ==> *caps == *old(caps),
                result == Ok::<Result<(), E>, Self::Error>(Ok(())),
            invariant
                matched == callback,
                forall|c: Self::Captures| captured_within(c.slots(), at as int, haystack@.len() as int) ==> call_requires(matched, (&c,)),
                len == haystack@.len(),
                len < usize::MAX,
                query == (|p: int| self.spec_captures_at(haystack@, p)),
                full == scan_captures(query, len, at as int, None),
                at <= last_end,
                last_end == at || last_end <= len + 1,
                full.0 == done + scan_captures(query, len, last_end as int, opt_nat(last_match)).0,
                full.1 == scan_captures(query, len, last_end as int, opt_nat(last_match)).1,
            ensures
                matched == callback,
                at > len ==> result == Ok::<Result<(), E>, Self::Error>(Ok(())) && *caps == *old(caps),
                capture_outcome(matched, full.0, full.1, result, *caps),
            decreases len + 1 - last_end,
        {
            if last_end > haystack.len() {
                proof {
                    assert(full.0 =~= done);
                }
                break;
            }
            match self.captures_at(haystack, last_end, caps) {
                Err(e) => {
                    proof {
                        assert(full.0 =~= done);
                    }
                    result = Err(e);
                    break;
                },
                Ok(false) => {
                    proof {
                        assert(full.0 =~= done);
                    }
                    break;
                },
                Ok(true) => {},
            }
            let m = caps.as_match();
            let ghost slots = caps.slots();
            let ghost before = opt_nat(last_match);
            let ghost rest = scan_captures(query, len, next_search(m), Some(m.spec_end()));
            if m.start() == m.end() {
                last_end = m.end() + 1;
                if last_match == Some(m.end()) {
                    continue;
                }
            } else {
                last_end = m.end();
            }
            last_match = Some(m.end());
            let ghost prev = done;
            proof {
                assert(reports(before, m));
                assert(scan_captures(query, len, last_end as int, opt_nat(last_match)) == rest);
                done = done.push(slots);
                assert(full.0 =~= done + rest.0);
                assert(full.0[prev.len() as int] == slots);
                assert(handed(matched, given, full.0, prev.len() as int));
            }
            let ghost seen = *caps;
            match matched(&*caps) {
                Ok(true) => break,
                Ok(false) => {},
                Err(e) => {
                    result = Ok(Err(e));
                    break;
                },
            }
            proof {
                given = given.push(seen);
                assert(handed(matched, given, done, done.len() as int));
            }
        }
        proof {
            assert forall|q: spec_fn(int) -> Result<Option<Seq<Option<Match>>>, Self::Error>|
                (forall|p: int| #[trigger] q(p) == self.spec_captures_at(haystack@, p)) implies
                #[trigger] scan_captures(q, len, at as int, None) == full by {
                assert(q =~= query);
            }
        }
        result
    }

}

/// Slot 0 holds a match.
pub open spec fn holds_match(slots: Seq<Option<Match>>) -> bool {
    0 < slots.len() && slots[0] is Some
}

/// Slot 0 holds a match that a search at `at` in a haystack of `len`
/// bytes may find.
pub open spec fn captured_within(slots: Seq<Option<Match>>, at: int, len: int) -> bool {
    holds_match(slots) && found_within(slots[0]->Some_0, at, len)
}

/// The slot lists that a scan of a haystack of `len` bytes with capture
/// queries reports from `last_end` on, given the end of the match it
/// reported last, and the engine's error where a query fails before the end.
/// `query` gives the engine's answer to a capture query at each offset;
/// slot 0 of each answer, the whole match, decides where the next query
/// goes and whether the answer is reported, by the rules of [`scan`].
pub open spec fn scan_captures<X>(
    query: spec_fn(int) -> Result<Option<Seq<Option<Match>>>, X>,
    len: int,
    last_end: int,
    last_match: Option<nat>,
) -> (Seq<Seq<Option<Match>>>, Option<X>)
    decreases len + 1 - last_end,
{
    if last_end > len {
        (seq![], None)
    } else {
        match query(last_end) {
            Err(e) => (seq![], Some(e)),
            Ok(None) => (seq![], None),
            Ok(Some(slots)) => {
                if !captured_within(slots, last_end, len) {
                    // a capture query never answers such slots
                    (seq![], None)
                } else if reports(last_match, slots[0]->Some_0) {
                    let rest = scan_captures(
                        query,
                        len,
                        next_search(slots[0]->Some_0),
                        Some(slots[0]->Some_0.spec_end()),
                    );
                    (seq![slots] + rest.0, rest.1)
                } else {
                    scan_captures(query, len, next_search(slots[0]->Some_0), last_match)
                }
            },
        }
    }
}

/// For each of the first `k` reported slot lists `ss[i]`, `matched` was
/// handed a set `cs[i]` holding those slots and answered `Ok(false)`, go on.
pub open spec fn handed<C: Captures, F, E>(
    matched: F,
    cs: Seq<C>,
    ss: Seq<Seq<Option<Match>>>,
    k: int,
) -> bool
    where F: FnMut(&C) -> Result<bool, E>
{
    &&& 0 <= k <= cs.len()
    &&& k <= ss.len()
    &&& forall|i: int|
        0 <= i < k ==> (#[trigger] cs[i]).slots() == ss[i] && call_ensures(
            matched,
            (&cs[i],),
            Ok::<bool, E>(false),
        )
}

/// As [`handed`], for a callback that answers `false` to go on.
pub open spec fn handed_visit<C: Captures, F>(
    matched: F,
    cs: Seq<C>,
    ss: Seq<Seq<Option<Match>>>,
    k: int,
) -> bool
    where F: FnMut(&C) -> bool
{
    &&& 0 <= k <= cs.len()
    &&& k <= ss.len()
    &&& forall|i: int|
        0 <= i < k ==> (#[trigger] cs[i]).slots() == ss[i] && call_ensures(matched, (&cs[i],), false)
}

/// The result of handing sets that hold the reported slot lists `ss` to
/// `matched` in turn, where `err` is the engine's error after the last of
/// them and `last` is the set left at the end: either `matched` went on
/// through all of them and the scan ended (`Ok(Ok(()))`, or `Err` with the
/// engine's error), or it went on through the first `k` and then, handed
/// `last` holding `ss[k]`, stopped (`Ok(Ok(()))`) or failed (`Ok(Err(e))`).
pub open spec fn capture_outcome<C: Captures, F, E, X>(
    matched: F,
    ss: Seq<Seq<Option<Match>>>,
    err: Option<X>,
    r: Result<Result<(), E>, X>,
    last: C,
) -> bool
    where F: FnMut(&C) -> Result<bool, E>
{
    ||| (exists|cs: Seq<C>| #[trigger] handed(matched, cs, ss, ss.len() as int)) && match err {
        None => r == Ok::<Result<(), E>, X>(Ok(())),
        Some(x) => r == Err::<Result<(), E>, X>(x),
    }
    ||| exists|cs: Seq<C>, k: int|
        0 <= k < ss.len() && #[trigger] handed(matched, cs, ss, k) && last.slots() == ss[k]
            && match r {
            Ok(Ok(())) => call_ensures(matched, (&last,), Ok::<bool, E>(true)),
            Ok(Err(e)) => call_ensures(matched, (&last,), Err::<bool, E>(e)),
            Err(_) => false,
        }
}

/// As [`capture_outcome`], for a callback that answers `true` to stop.
pub open spec fn capture_visit_outcome<C: Captures, F, X>(
    matched: F,
    ss: Seq<Seq<Option<Match>>>,
    err: Option<X>,
    r: Result<(), X>,
    last: C,
) -> bool
    where F: FnMut(&C) -> bool
{
    ||| (exists|cs: Seq<C>| #[trigger] handed_visit(matched, cs, ss, ss.len() as int)) && match err {
        None => r == Ok::<(), X>(()),
        Some(x) => r == Err::<(), X>(x),
    }
    ||| r == Ok::<(), X>(()) && exists|cs: Seq<C>, k: int|
        0 <= k < ss.len() && #[trigger] handed_visit(matched, cs, ss, k) && last.slots() == ss[k]
            && call_ensures(matched, (&last,), true)
}

/// `Some(n)` as a `nat`, `None` as `None`.
pub open spec fn opt_nat(o: Option<usize>) -> Option<nat> {
    match o {
        Some(n) => Some(n as nat),
        None => None,
    }
}

/// The matches that a scan of a haystack of `len` bytes reports from
/// `last_end` on, given the end of the match it reported last, and the
/// engine's error where a search fails before the end. `query` gives the
/// engine's answer to a search at each offset.
pub open spec fn scan<X>(
    query: spec_fn(int) -> Result<Option<Match>, X>,
    len: int,
    last_end: int,
    last_match: Option<nat>,
) -> (Seq<Match>, Option<X>)
    decreases len + 1 - last_end,
{
    if last_end > len {
        (seq![], None)
    } else {
        match query(last_end) {
            Err(e) => (seq![], Some(e)),
            Ok(None) => (seq![], None),
            Ok(Some(m)) => {
                if !found_within(m, last_end, len) {
                    // a search never answers such a match
                    (seq![], None)
                } else if reports(last_match, m) {
                    let rest = scan(query, len, next_search(m), Some(m.spec_end()));
                    (seq![m] + rest.0, rest.1)
                } else {
                    scan(query, len, next_search(m), last_match)
                }
            },
        }
    }
}

/// `matched` answered `Ok(false)`, go on, for each of the first `k` matches of `ms`.
pub open spec fn continued<F, E>(matched: F, ms: Seq<Match>, k: int) -> bool
    where F: FnMut(Match) -> Result<bool, E>
{
    forall|i: int| 0 <= i < k ==> call_ensures(matched, (ms[i],), Ok(false))
}

/// `matched` answered `false`, go on, for each of the first `k` matches of `ms`.
pub open spec fn visited<F>(matched: F, ms: Seq<Match>, k: int) -> bool
    where F: FnMut(Match) -> bool
{
    forall|i: int| 0 <= i < k ==> call_ensures(matched, (ms[i],), false)
}

/// The result of handing the reported matches `ms` to `matched` in turn,
/// where `err` is the engine's error after the last of them, if any: either
/// `matched` went on through all of them and the scan ended (`Ok(())`, or
/// `Err` with the engine's error), or it went on through the first `k` and
/// answered `true`, stop, on match `k` (`Ok(())`).
pub open spec fn visit_outcome<F, X>(matched: F, ms: Seq<Match>, err: Option<X>, r: Result<(), X>) -> bool
    where F: FnMut(Match) -> bool
{
    ||| visited(matched, ms, ms.len() as int) && match err {
        None => r == Ok::<(), X>(()),
        Some(x) => r == Err::<(), X>(x),
    }
    ||| r == Ok::<(), X>(()) && exists|k: int|
        0 <= k < ms.len() && visited(matched, ms, k) && call_ensures(matched, (ms[k],), true)
}

/// The result of handing the reported matches `ms` to `matched` in turn,
/// where `err` is the engine's error after the last of them, if any: either
/// `matched` went on through all of them and the scan ended (`Ok(Ok(()))`,
/// or `Err` with the engine's error), or it went on through the first `k`
/// and then stopped (`Ok(Ok(()))`) or failed (`Ok(Err(e))`) on match `k`.
pub open spec fn iteration_outcome<F, E, X>(
    matched: F,
    ms: Seq<Match>,
    err: Option<X>,
    r: Result<Result<(), E>, X>,
) -> bool
    where F: FnMut(Match) -> Result<bool, E>
{
    ||| continued(matched, ms, ms.len() as int) && match err {
        None => r == Ok::<Result<(), E>, X>(Ok(())),
        Some(x) => r == Err::<Result<(), E>, X>(x),
    }
    ||| exists|k: int|
        0 <= k < ms.len() && continued(matched, ms, k) && match r {
            Ok(Ok(())) => call_ensures(matched, (ms[k],), Ok(true)),
            Ok(Err(e)) => call_ensures(matched, (ms[k],), Err(e)),
            Err(_) => false,
        }
}

} // verus!
