use logmap::range::Range;
use logmap::regex_matcher::{effective_case_insensitive, RegexConfig, RegexMatcher};
use logmap::searcher::{find_all, find_in_ranges, Matcher, SearchState, Searcher};
use std::cell::RefCell;

fn matcher(pattern: &str) -> RegexMatcher {
    RegexMatcher::new(pattern, &RegexConfig::default()).unwrap()
}

#[test]
fn regex_config_defaults() {
    let c = RegexConfig::default();
    assert!(c.unicode);
    assert!(!c.case_insensitive && !c.case_smart && !c.multi_line && !c.octal);
    assert_eq!(c.size_limit, 100 * (1 << 20));
    assert_eq!(c.dfa_size_limit, 1000 * (1 << 20));
    assert_eq!(c.nest_limit, 250);
}

#[test]
fn case_insensitive_pattern_matches_upper_line() {
    let mut config = RegexConfig::default();
    config.case_insensitive = true;
    let m = RegexMatcher::new("error", &config).unwrap();
    let found = m.find(b"ERROR seen").unwrap().unwrap();
    assert_eq!(found.start(), 0);
    assert_eq!(found.len(), 5);
}

#[test]
fn case_sensitive_by_default() {
    let m = matcher("error");
    assert_eq!(m.find(b"ERROR seen").unwrap(), None);
}

#[test]
fn smart_case_folds_only_lowercase_patterns() {
    let mut config = RegexConfig::default();
    config.case_smart = true;
    assert!(effective_case_insensitive(&config, "error"));
    assert!(!effective_case_insensitive(&config, "Error"));
    assert!(!effective_case_insensitive(&config, "érrÉr"));
    let lower = RegexMatcher::new("error", &config).unwrap();
    assert!(lower.is_match(b"ERROR seen").unwrap());
    let upper = RegexMatcher::new("Error", &config).unwrap();
    assert!(!upper.is_match(b"ERROR seen").unwrap());
}

#[test]
fn invalid_pattern_is_reported() {
    let e = RegexMatcher::new("(", &RegexConfig::default()).err().unwrap();
    assert_eq!(e.pattern, "(");
}

#[test]
fn find_at_starts_at_offset() {
    let m = matcher("ab");
    assert_eq!(m.find_at(b"abxab", 1).unwrap(), Some(Range::new(3, 5)));
    assert_eq!(m.find_at(b"abxab", 4).unwrap(), None);
    assert!(m.is_match_at(b"abxab", 3).unwrap());
    assert!(!m.is_match_at(b"abxab", 5).unwrap());
}

#[test]
fn shortest_match_gives_end() {
    let m = matcher("b+");
    assert_eq!(m.shortest_match(b"abbbc").unwrap(), Some(4));
    assert_eq!(m.shortest_match_at(b"abbbc", 4).unwrap(), None);
}

#[test]
fn empty_pattern_reports_every_position_once() {
    let m = matcher("");
    let all = find_all(&m, b"abc").unwrap();
    assert_eq!(all, vec![Range::zero(0), Range::zero(1), Range::zero(2), Range::zero(3)]);
    assert!(all.len() <= 3 + 1);
}

#[test]
fn empty_match_after_match_end_is_skipped() {
    let m = matcher("a*");
    let all = find_all(&m, b"baaab").unwrap();
    assert_eq!(all, vec![Range::zero(0), Range::new(1, 4), Range::zero(5)]);
    for w in all.windows(2) {
        assert!(w[1].start() >= w[0].end());
    }
}

#[test]
fn find_iter_counts_calls_and_stops() {
    let m = matcher("x");
    let seen = RefCell::new(Vec::new());
    m.find_iter(b"axbxcx", |r| {
        seen.borrow_mut().push(r);
        true
    })
    .unwrap();
    assert_eq!(
        seen.borrow().clone(),
        vec![Range::new(1, 2), Range::new(3, 4), Range::new(5, 6)]
    );
    let first = RefCell::new(Vec::new());
    m.find_iter(b"axbxcx", |r| {
        first.borrow_mut().push(r);
        false
    })
    .unwrap();
    assert_eq!(first.borrow().clone(), vec![Range::new(1, 2)]);
}

#[test]
fn try_find_iter_hands_back_callback_error() {
    let m = matcher("x");
    let r = m.try_find_iter(b"axbx", |r| if r.start() == 3 { Err(r.start()) } else { Ok(true) });
    assert_eq!(r.unwrap(), Err(3));
    let done: Result<Result<(), usize>, _> = m.try_find_iter(b"axbx", |_| Ok(true));
    assert_eq!(done.unwrap(), Ok(()));
}

#[test]
fn match_slice_round_trip() {
    let content = b"aabbbc";
    let m = matcher("b+");
    let found = m.find(content).unwrap().unwrap();
    assert_eq!(found, Range::new(2, 5));
    let slice = &content[found.start()..found.end()];
    assert_eq!(m.find_at(slice, 0).unwrap(), Some(Range::new(0, slice.len())));
}

#[test]
fn find_in_ranges_is_relative_to_each_range() {
    let content = b"ab\nxab\nb";
    let m = matcher("b");
    let ranges = vec![Range::new(0, 2), Range::new(3, 6), Range::new(7, 8)];
    let found = find_in_ranges(&m, content, &ranges).unwrap();
    assert_eq!(found, vec![Range::new(1, 2), Range::new(2, 3), Range::new(0, 1)]);
}

#[test]
fn search_state_advances_past_matches() {
    let mut s = SearchState::new();
    assert_eq!(s.last_end, 0);
    assert!(s.advance(Range::new(0, 2)));
    assert_eq!(s.last_end, 2);
    assert_eq!(s.last_match, Some(2));
    assert!(!s.advance(Range::zero(2)));
    assert_eq!(s.last_end, 3);
    assert!(s.advance(Range::zero(3)));
    assert_eq!(s.last_end, 4);
    assert!(s.is_exhausted(3));
    assert!(!s.is_exhausted(4));
}

#[test]
fn searcher_starts_at_zero() {
    let buf = b"abc";
    let s = Searcher::new(buf);
    assert_eq!(s.pos(), 0);
}

#[test]
fn match_slice_round_trip_depends_on_context() {
    let content = b"ab";
    let m = matcher(r"\Bb");
    let found = m.find(content).unwrap().unwrap();
    assert_eq!(found, Range::new(1, 2));
    let slice = found.slice_of(content);
    assert_eq!(m.find_at(slice, 0).unwrap(), None);
}

#[test]
fn find_iter_skips_empty_match_at_last_end() {
    let m = matcher("a*");
    let seen = RefCell::new(Vec::new());
    m.find_iter(b"aab", |r| {
        seen.borrow_mut().push(r);
        true
    })
    .unwrap();
    assert_eq!(seen.borrow().clone(), vec![Range::new(0, 2), Range::new(3, 3)]);
}

#[test]
fn try_find_iter_stops_on_false() {
    let m = matcher("");
    let seen = RefCell::new(Vec::new());
    let r: Result<Result<(), usize>, _> = m.try_find_iter(b"abc", |r| {
        seen.borrow_mut().push(r);
        Ok(r.start() < 1)
    });
    assert_eq!(r.unwrap(), Ok(()));
    assert_eq!(seen.borrow().clone(), vec![Range::zero(0), Range::zero(1)]);
}

#[test]
fn size_limit_makes_compilation_fail() {
    let mut config = RegexConfig::default();
    config.size_limit = 0;
    assert!(RegexMatcher::new("a{100}", &config).is_err());
    assert!(RegexMatcher::new("a{100}", &RegexConfig::default()).is_ok());
}
