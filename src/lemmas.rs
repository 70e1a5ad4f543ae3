use vstd::prelude::*;

use crate::matcher::{captured_within, found_within, next_search, reports, scan, scan_captures};
use crate::span::Match;

verus! {

/// An engine that finds the empty match `[p, p)` at every offset `p` of a
/// haystack of `len` bytes, searched from `at` on, has a scan that ends
/// cleanly and reports exactly one match per offset `at..=len`, in order.
pub proof fn lemma_empty_everywhere<X>(
    query: spec_fn(int) -> Result<Option<Match>, X>,
    len: int,
    at: int,
)
    requires
        0 <= at <= len + 1,
        forall|p: int|
            at <= p <= len ==> (#[trigger] query(p) matches Ok(Some(m)) && m.spec_start() == p
                && m.spec_end() == p),
    ensures
        scan(query, len, at, None).1 is None,
        scan(query, len, at, None).0.len() == len + 1 - at,
        forall|i: int|
            0 <= i < len + 1 - at ==> (#[trigger] scan(query, len, at, None).0[i]).spec_start()
                == at + i && scan(query, len, at, None).0[i].spec_end() == at + i,
{
    lemma_empty_everywhere_from(query, len, at, None);
}

proof fn lemma_empty_everywhere_from<X>(
    query: spec_fn(int) -> Result<Option<Match>, X>,
    len: int,
    p: int,
    last_match: Option<nat>,
)
    requires
        0 <= p <= len + 1,
        last_match matches Some(e) ==> e < p,
        forall|q: int|
            p <= q <= len ==> (#[trigger] query(q) matches Ok(Some(m)) && m.spec_start() == q
                && m.spec_end() == q),
    ensures
        scan(query, len, p, last_match).1 is None,
        scan(query, len, p, last_match).0.len() == len + 1 - p,
        forall|i: int|
            0 <= i < len + 1 - p ==> (#[trigger] scan(query, len, p, last_match).0[i]).spec_start()
                == p + i && scan(query, len, p, last_match).0[i].spec_end() == p + i,
    decreases len + 1 - p,
{
    if p <= len {
        let m = query(p)->Ok_0->Some_0;
        assert(query(p) matches Ok(Some(_)));
        lemma_empty_everywhere_from(query, len, p + 1, Some(m.spec_end()));
        let rest = scan(query, len, p + 1, Some(m.spec_end()));
        assert(scan(query, len, p, last_match).0 == seq![m] + rest.0);
        assert forall|i: int| 0 <= i < len + 1 - p implies
            (#[trigger] scan(query, len, p, last_match).0[i]).spec_start() == p + i
                && scan(query, len, p, last_match).0[i].spec_end() == p + i by {
            if i > 0 {
                assert(scan(query, len, p, last_match).0[i] == rest.0[i - 1]);
            }
        }
    }
}

/// After a non-empty match `m` that ends at `e`, an empty match that a
/// search at `e` finds at `e` is not reported again: the scan goes on from
/// `e + 1`.
pub proof fn lemma_empty_after_match_skipped<X>(
    query: spec_fn(int) -> Result<Option<Match>, X>,
    len: int,
    at: int,
    last_match: Option<nat>,
    m: Match,
    z: Match,
)
    requires
        0 <= at <= len,
        query(at) == Ok::<Option<Match>, X>(Some(m)),
        at <= m.spec_start() < m.spec_end() <= len,
        query(m.spec_end() as int) == Ok::<Option<Match>, X>(Some(z)),
        z.spec_start() == m.spec_end(),
        z.spec_end() == m.spec_end(),
    ensures
        scan(query, len, at, last_match).0 == seq![m] + scan(
            query,
            len,
            m.spec_end() + 1int,
            Some(m.spec_end()),
        ).0,
        scan(query, len, at, last_match).1 == scan(query, len, m.spec_end() + 1int, Some(m.spec_end())).1,
{
    assert(reports(last_match, m));
    assert(next_search(m) == m.spec_end());
    assert(!reports(Some(m.spec_end()), z));
    assert(next_search(z) == m.spec_end() + 1);
    assert(scan(query, len, m.spec_end() as int, Some(m.spec_end())) == scan(
        query,
        len,
        m.spec_end() + 1int,
        Some(m.spec_end()),
    ));
}

/// An empty match found at an offset other than the end of the last
/// reported match is reported.
pub proof fn lemma_empty_elsewhere_reported<X>(
    query: spec_fn(int) -> Result<Option<Match>, X>,
    len: int,
    at: int,
    last_match: Option<nat>,
    z: Match,
)
    requires
        0 <= at <= len,
        query(at) == Ok::<Option<Match>, X>(Some(z)),
        at <= z.spec_start() == z.spec_end() <= len,
        last_match != Some(z.spec_end()),
    ensures
        scan(query, len, at, last_match).0 == seq![z] + scan(
            query,
            len,
            z.spec_end() + 1int,
            Some(z.spec_end()),
        ).0,
{
    assert(reports(last_match, z));
}

/// A scan reports matches in order and without overlap: each lies within
/// the haystack at or after the offset the scan starts from, and each ends
/// at or before the start of the next.
pub proof fn lemma_scan_ordered<X>(
    query: spec_fn(int) -> Result<Option<Match>, X>,
    len: int,
    last_end: int,
    last_match: Option<nat>,
)
    ensures
        forall|i: int|
            0 <= i < scan(query, len, last_end, last_match).0.len() ==> found_within(
                #[trigger] scan(query, len, last_end, last_match).0[i],
                last_end,
                len,
            ),
        forall|i: int, j: int|
            0 <= i < j < scan(query, len, last_end, last_match).0.len() ==> (#[trigger] scan(
                query,
                len,
                last_end,
                last_match,
            ).0[i]).spec_end() <= (#[trigger] scan(query, len, last_end, last_match).0[j]).spec_start(),
    decreases len + 1 - last_end,
{
    let ms = scan(query, len, last_end, last_match).0;
    if last_end <= len {
        if let Ok(Some(m)) = query(last_end) {
            if found_within(m, last_end, len) {
                if reports(last_match, m) {
                    lemma_scan_ordered(query, len, next_search(m), Some(m.spec_end()));
                    let rest = scan(query, len, next_search(m), Some(m.spec_end())).0;
                    assert(ms == seq![m] + rest);
                    assert forall|i: int| 0 <= i < ms.len() implies found_within(
                        #[trigger] ms[i],
                        last_end,
                        len,
                    ) by {
                        if i > 0 {
                            assert(ms[i] == rest[i - 1]);
                        }
                    }
                    assert forall|i: int, j: int| 0 <= i < j < ms.len() implies (
                    #[trigger] ms[i]).spec_end() <= (#[trigger] ms[j]).spec_start() by {
                        assert(ms[j] == rest[j - 1]);
                        if i > 0 {
                            assert(ms[i] == rest[i - 1]);
                        }
                    }
                } else {
                    lemma_scan_ordered(query, len, next_search(m), last_match);
                }
            }
        }
    }
}

/// A scan with capture queries reports slot lists whose whole matches, in
/// slot 0, come in order and without overlap: each lies within the haystack
/// at or after the offset the scan starts from, and each ends at or before
/// the start of the next.
pub proof fn lemma_scan_captures_ordered<X>(
    query: spec_fn(int) -> Result<Option<Seq<Option<Match>>>, X>,
    len: int,
    last_end: int,
    last_match: Option<nat>,
)
    ensures
        forall|i: int|
            0 <= i < scan_captures(query, len, last_end, last_match).0.len() ==> captured_within(
                #[trigger] scan_captures(query, len, last_end, last_match).0[i],
                last_end,
                len,
            ),
        forall|i: int, j: int|
            0 <= i < j < scan_captures(query, len, last_end, last_match).0.len() ==> (#[trigger] scan_captures(
                query,
                len,
                last_end,
                last_match,
            ).0[i])[0]->Some_0.spec_end() <= (#[trigger] scan_captures(
                query,
                len,
                last_end,
                last_match,
            ).0[j])[0]->Some_0.spec_start(),
    decreases len + 1 - last_end,
{
    let ss = scan_captures(query, len, last_end, last_match).0;
    if last_end <= len {
        if let Ok(Some(slots)) = query(last_end) {
            if captured_within(slots, last_end, len) {
                let m = slots[0]->Some_0;
                if reports(last_match, m) {
                    lemma_scan_captures_ordered(query, len, next_search(m), Some(m.spec_end()));
                    let rest = scan_captures(query, len, next_search(m), Some(m.spec_end())).0;
                    assert(ss == seq![slots] + rest);
                    assert forall|i: int| 0 <= i < ss.len() implies captured_within(
                        #[trigger] ss[i],
                        last_end,
                        len,
                    ) by {
                        if i > 0 {
                            assert(ss[i] == rest[i - 1]);
                        }
                    }
                    assert forall|i: int, j: int| 0 <= i < j < ss.len() implies (
                    #[trigger] ss[i])[0]->Some_0.spec_end() <= (#[trigger] ss[j])[0]->Some_0.spec_start() by {
                        assert(ss[j] == rest[j - 1]);
                        assert(captured_within(rest[j - 1], next_search(m), len));
                        if i > 0 {
                            assert(ss[i] == rest[i - 1]);
                        }
                    }
                } else {
                    lemma_scan_captures_ordered(query, len, next_search(m), last_match);
                }
            }
        }
    }
}

} // verus!
