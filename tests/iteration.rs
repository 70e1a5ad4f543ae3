use std::cell::Cell;

use grep_matcher::{Captures, Match, Matcher};

/// Slots held in a plain vector.
struct Slots(Vec<Option<Match>>);

impl Captures for Slots {
    fn len(&self) -> usize {
        self.0.len()
    }

    fn get(&self, i: usize) -> Option<Match> {
        self.0.get(i).copied().flatten()
    }

    fn interpolate<F>(&self, _name_to_index: F, _haystack: &[u8], _replacement: &[u8], _dst: &mut [u8])
    where
        F: FnMut(&str) -> Option<usize>,
    {
    }
}

/// Finds the empty match at every offset.
struct EmptyEverywhere;

impl Matcher for EmptyEverywhere {
    type Captures = Slots;
    type Error = String;

    fn find_at(&self, haystack: &[u8], at: usize) -> Result<Option<Match>, String> {
        if at <= haystack.len() {
            Ok(Some(Match::zero(at)))
        } else {
            Ok(None)
        }
    }

    fn new_captures(&self) -> Result<Slots, String> {
        Ok(Slots(vec![None]))
    }

    fn captures_at(&self, _haystack: &[u8], _at: usize, _caps: &mut Slots) -> Result<bool, String> {
        Ok(false)
    }
}

/// Behaves as the pattern `a*`: the longest run of `a` at the first offset
/// from `at` on, possibly empty.
struct RunOfA;

impl Matcher for RunOfA {
    type Captures = Slots;
    type Error = String;

    fn find_at(&self, haystack: &[u8], at: usize) -> Result<Option<Match>, String> {
        if at > haystack.len() {
            return Ok(None);
        }
        let mut end = at;
        while end < haystack.len() && haystack[end] == b'a' {
            end += 1;
        }
        Ok(Some(Match::new(at, end)))
    }

    fn new_captures(&self) -> Result<Slots, String> {
        Ok(Slots(vec![None]))
    }

    fn captures_at(&self, _haystack: &[u8], _at: usize, _caps: &mut Slots) -> Result<bool, String> {
        Ok(false)
    }
}

/// Finds `[1, 3)` when searched at or before offset 1, and nothing else.
struct OneSpan;

impl Matcher for OneSpan {
    type Captures = Slots;
    type Error = String;

    fn find_at(&self, _haystack: &[u8], at: usize) -> Result<Option<Match>, String> {
        if at <= 1 {
            Ok(Some(Match::new(1, 3)))
        } else {
            Ok(None)
        }
    }

    fn new_captures(&self) -> Result<Slots, String> {
        Ok(Slots(vec![None]))
    }

    fn captures_at(&self, _haystack: &[u8], _at: usize, _caps: &mut Slots) -> Result<bool, String> {
        Ok(false)
    }
}

/// Finds every single byte, counting the searches it is asked for.
struct EveryByte {
    queries: Cell<usize>,
}

impl Matcher for EveryByte {
    type Captures = Slots;
    type Error = String;

    fn find_at(&self, haystack: &[u8], at: usize) -> Result<Option<Match>, String> {
        self.queries.set(self.queries.get() + 1);
        if at < haystack.len() {
            Ok(Some(Match::new(at, at + 1)))
        } else {
            Ok(None)
        }
    }

    fn new_captures(&self) -> Result<Slots, String> {
        Ok(Slots(vec![None, None]))
    }

    fn capture_count(&self) -> usize {
        1
    }

    fn capture_index(&self, name: &str) -> Option<usize> {
        if name == "byte" {
            Some(1)
        } else {
            None
        }
    }

    /// Group 1 takes part only where the byte is a digit.
    fn captures_at(&self, haystack: &[u8], at: usize, caps: &mut Slots) -> Result<bool, String> {
        self.queries.set(self.queries.get() + 1);
        if at < haystack.len() {
            let m = Match::new(at, at + 1);
            caps.0[0] = Some(m);
            caps.0[1] = if haystack[at].is_ascii_digit() { Some(m) } else { None };
            Ok(true)
        } else {
            Ok(false)
        }
    }
}

/// Fails on every search.
struct Broken;

impl Matcher for Broken {
    type Captures = Slots;
    type Error = String;

    fn find_at(&self, _haystack: &[u8], _at: usize) -> Result<Option<Match>, String> {
        Err("engine failed".to_string())
    }

    fn new_captures(&self) -> Result<Slots, String> {
        Err("engine failed".to_string())
    }

    fn captures_at(&self, _haystack: &[u8], _at: usize, _caps: &mut Slots) -> Result<bool, String> {
        Ok(false)
    }
}

fn collect<M: Matcher>(m: &M, haystack: &[u8]) -> Result<Vec<Match>, M::Error> {
    let mut found = vec![];
    m.find_iter(haystack, |x| {
        found.push(x);
        false
    })?;
    Ok(found)
}

#[test]
fn empty_at_every_offset_gives_one_match_per_offset() {
    let found = collect(&EmptyEverywhere, b"abc").unwrap();
    assert_eq!(found, vec![Match::zero(0), Match::zero(1), Match::zero(2), Match::zero(3)]);
}

#[test]
fn empty_haystack_gives_one_empty_match() {
    let found = collect(&EmptyEverywhere, b"").unwrap();
    assert_eq!(found, vec![Match::zero(0)]);
}

#[test]
fn empty_match_after_a_match_ending_there_is_skipped() {
    let found = collect(&RunOfA, b"aab").unwrap();
    assert_eq!(found, vec![Match::new(0, 2), Match::zero(3)]);
}

#[test]
fn empty_matches_elsewhere_are_reported() {
    let found = collect(&RunOfA, b"baab").unwrap();
    assert_eq!(found, vec![Match::zero(0), Match::new(1, 3), Match::zero(4)]);
}

#[test]
fn single_match_found_and_iterated_once() {
    let hay = b"xabcx";
    assert_eq!(OneSpan.find(hay), Ok(Some(Match::new(1, 3))));
    let mut calls = vec![];
    let r = OneSpan.find_iter(hay, |m| {
        calls.push(m);
        false
    });
    assert_eq!(r, Ok(()));
    assert_eq!(calls, vec![Match::new(1, 3)]);
}

#[test]
fn find_at_later_offset_finds_nothing() {
    assert_eq!(OneSpan.find_at(b"xabcx", 2), Ok(None));
}

#[test]
fn callback_error_on_second_match_stops_after_two_searches() {
    let m = EveryByte { queries: Cell::new(0) };
    let mut seen = 0usize;
    let r: Result<Result<(), &str>, String> = m.try_find_iter(b"abcd", |_| {
        seen += 1;
        if seen == 2 {
            Err("handler failed")
        } else {
            Ok(false)
        }
    });
    assert_eq!(r, Ok(Err("handler failed")));
    assert_eq!(seen, 2);
    assert_eq!(m.queries.get(), 2);
}

#[test]
fn callback_stop_ends_iteration() {
    let m = EveryByte { queries: Cell::new(0) };
    let mut seen = vec![];
    let r = m.find_iter_at(b"abcd", 1, |x| {
        seen.push(x);
        x.end() == 3
    });
    assert_eq!(r, Ok(()));
    assert_eq!(seen, vec![Match::new(1, 2), Match::new(2, 3)]);
    assert_eq!(m.queries.get(), 2);
}

#[test]
fn try_iteration_runs_to_the_end() {
    let m = EveryByte { queries: Cell::new(0) };
    let mut seen = vec![];
    let r: Result<Result<(), ()>, String> = m.try_find_iter_at(b"abc", 1, |x| {
        seen.push(x);
        Ok(false)
    });
    assert_eq!(r, Ok(Ok(())));
    assert_eq!(seen, vec![Match::new(1, 2), Match::new(2, 3)]);
}

#[test]
fn start_past_the_end_reports_nothing() {
    let mut calls = 0;
    let r = EmptyEverywhere.find_iter_at(b"ab", 3, |_| {
        calls += 1;
        false
    });
    assert_eq!(r, Ok(()));
    assert_eq!(calls, 0);
}

#[test]
fn engine_error_surfaces() {
    assert_eq!(Broken.find(b"abc"), Err("engine failed".to_string()));
    let mut calls = 0;
    let r = Broken.find_iter(b"abc", |_| {
        calls += 1;
        false
    });
    assert_eq!(r, Err("engine failed".to_string()));
    assert_eq!(calls, 0);
    let t: Result<Result<(), ()>, String> = Broken.try_find_iter(b"abc", |_| Ok(false));
    assert_eq!(t, Err("engine failed".to_string()));
}

#[test]
fn captures_iteration_fills_slot_zero_with_the_match() {
    let m = EveryByte { queries: Cell::new(0) };
    let mut caps = m.new_captures().unwrap();
    let mut seen = vec![];
    let r = m.captures_iter(b"a1b", &mut caps, |c| {
        seen.push((c.as_match(), c.get(0), c.get(1)));
        false
    });
    assert_eq!(r, Ok(()));
    assert_eq!(
        seen,
        vec![
            (Match::new(0, 1), Some(Match::new(0, 1)), None),
            (Match::new(1, 2), Some(Match::new(1, 2)), Some(Match::new(1, 2))),
            (Match::new(2, 3), Some(Match::new(2, 3)), None),
        ]
    );
}

#[test]
fn captures_try_iteration_surfaces_callback_error() {
    let m = EveryByte { queries: Cell::new(0) };
    let mut caps = m.new_captures().unwrap();
    let r: Result<Result<(), Match>, String> =
        m.try_captures_iter_at(b"abcd", 1, &mut caps, |c| if c.as_match().end() == 3 { Err(c.as_match()) } else { Ok(false) });
    assert_eq!(r, Ok(Err(Match::new(2, 3))));
    assert_eq!(caps.get(0), Some(Match::new(2, 3)));
}

#[test]
fn captures_iteration_at_offset_and_stop() {
    let m = EveryByte { queries: Cell::new(0) };
    let mut caps = m.new_captures().unwrap();
    let mut seen = vec![];
    let r = m.captures_iter_at(b"abcd", 2, &mut caps, |c| {
        seen.push(c.as_match());
        true
    });
    assert_eq!(r, Ok(()));
    assert_eq!(seen, vec![Match::new(2, 3)]);
    let t: Result<Result<(), ()>, String> = m.try_captures_iter(b"ab", &mut caps, |_| Ok(false));
    assert_eq!(t, Ok(Ok(())));
}

#[test]
fn engine_without_groups_finds_no_captures() {
    assert_eq!(OneSpan.capture_count(), 0);
    assert_eq!(OneSpan.capture_index("name"), None);
    let mut caps = OneSpan.new_captures().unwrap();
    assert_eq!(OneSpan.captures_at(b"xabcx", 0, &mut caps), Ok(false));
    assert_eq!(caps.get(0), None);
    let mut calls = 0;
    let r = OneSpan.captures_iter(b"xabcx", &mut caps, |_| {
        calls += 1;
        false
    });
    assert_eq!(r, Ok(()));
    assert_eq!(calls, 0);
}

#[test]
fn capture_index_of_unknown_name_is_none() {
    let m = EveryByte { queries: Cell::new(0) };
    assert_eq!(m.capture_index("byte"), Some(1));
    assert_eq!(m.capture_index("missing"), None);
    assert_eq!(m.capture_count(), 1);
}

#[test]
fn captures_slots_and_lookups() {
    let caps = Slots(vec![Some(Match::new(0, 4)), None, Some(Match::new(1, 2))]);
    assert_eq!(caps.len(), 3);
    assert!(!caps.is_empty());
    assert_eq!(caps.as_match(), Match::new(0, 4));
    assert_eq!(caps.get(1), None);
    assert_eq!(caps.get(2), Some(Match::new(1, 2)));
    assert_eq!(caps.get(3), None);
    assert!(Slots(vec![]).is_empty());
}

#[test]
fn captures_engine_error_surfaces() {
    let mut caps = Slots(vec![None]);
    struct BrokenCaptures;
    impl Matcher for BrokenCaptures {
        type Captures = Slots;
        type Error = String;
        fn find_at(&self, _haystack: &[u8], _at: usize) -> Result<Option<Match>, String> {
            Ok(None)
        }
        fn new_captures(&self) -> Result<Slots, String> {
            Ok(Slots(vec![None]))
        }
        fn captures_at(&self, _haystack: &[u8], _at: usize, _caps: &mut Slots) -> Result<bool, String> {
            Err("no captures".to_string())
        }
    }
    let r = BrokenCaptures.captures_iter(b"abc", &mut caps, |_| false);
    assert_eq!(r, Err("no captures".to_string()));
}

/// Behaves as the pattern `a*` with one group around the whole run.
struct RunOfACaptures;

impl Matcher for RunOfACaptures {
    type Captures = Slots;
    type Error = String;

    fn find_at(&self, haystack: &[u8], at: usize) -> Result<Option<Match>, String> {
        RunOfA.find_at(haystack, at)
    }

    fn new_captures(&self) -> Result<Slots, String> {
        Ok(Slots(vec![None, None]))
    }

    fn capture_count(&self) -> usize {
        1
    }

    fn captures_at(&self, haystack: &[u8], at: usize, caps: &mut Slots) -> Result<bool, String> {
        match RunOfA.find_at(haystack, at)? {
            Some(m) => {
                caps.0[0] = Some(m);
                caps.0[1] = if m.is_empty() { None } else { Some(m) };
                Ok(true)
            }
            None => Ok(false),
        }
    }
}

#[test]
fn captures_iteration_skips_repeated_empty_match() {
    let m = RunOfACaptures;
    let mut caps = m.new_captures().unwrap();
    let mut seen = vec![];
    let r = m.captures_iter(b"aab", &mut caps, |c| {
        seen.push((c.as_match(), c.get(1)));
        false
    });
    assert_eq!(r, Ok(()));
    assert_eq!(seen, vec![(Match::new(0, 2), Some(Match::new(0, 2))), (Match::zero(3), None)]);
}

#[test]
fn captures_iteration_past_the_end_leaves_slots_alone() {
    let m = RunOfACaptures;
    let mut caps = Slots(vec![Some(Match::new(0, 1)), None]);
    let mut calls = 0;
    let r: Result<Result<(), ()>, String> = m.try_captures_iter_at(b"ab", 3, &mut caps, |_| {
        calls += 1;
        Ok(false)
    });
    assert_eq!(r, Ok(Ok(())));
    assert_eq!(calls, 0);
    assert_eq!(caps.get(0), Some(Match::new(0, 1)));
    assert_eq!(caps.get(1), None);
}
