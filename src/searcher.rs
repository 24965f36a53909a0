//! The matching capability and the protocol that drives it over a buffer.
use crate::range::Range;
use vstd::prelude::*;

verus! {

/// Where a run of repeated searches stands: the next search start and the end of the
/// last match that was reported.
#[derive(Clone, Copy, Debug, PartialEq, Eq)]
pub struct SearchState {
    pub last_end: usize,
    pub last_match: Option<usize>,
}

/// The state that follows `s` once the search from `s.last_end` has found `m`.
pub open spec fn next_state(s: SearchState, m: Range) -> SearchState {
    SearchState {
        last_end: if m.lo() == m.hi() {
            (m.hi() + 1) as usize
        } else {
            m.hi()
        },
        last_match: Some(m.hi()),
    }
}

/// Whether `m`, found from state `s`, is handed to the caller: every match is, but an
/// empty one that ends where the last reported match ended.
pub open spec fn is_reported(s: SearchState, m: Range) -> bool {
    !(m.lo() == m.hi() && s.last_match == Some(m.hi()))
}

impl SearchState {
    /// The state before the first search: start at offset zero, nothing reported.
    pub fn new() -> (s: SearchState)
        ensures
            s.last_end == 0,
            s.last_match is None,
    {
        SearchState { last_end: 0, last_match: None }
    }

    /// True when the next search would start past the end of a buffer of `len` bytes.
    pub fn is_exhausted(&self, len: usize) -> (r: bool)
        ensures
            r <==> self.last_end > len,
    {
        self.last_end > len
    }

    /// Takes in the match `m` found from the current search start, moves the search
    /// start past it and tells whether `m` is to be reported.
    pub fn advance(&mut self, m: Range) -> (report: bool)
        requires
            old(self).last_end <= m.lo(),
            m.hi() < usize::MAX,
        ensures
            *final(self) == next_state(*old(self), m),
            report == is_reported(*old(self), m),
            final(self).last_end > old(self).last_end,
            final(self).last_end >= m.hi(),
    {
        let start = m.start();
        let end = m.end();
        let report = !(start == end && self.last_match == Some(end));
        if start == end {
            self.last_end = end + 1;
        } else {
            self.last_end = end;
        }
        self.last_match = Some(end);
        report
    }
}

/// The bounds of a match, or none where there is no match.
pub open spec fn bounds_of(r: Option<Range>) -> Option<(int, int)> {
    match r {
        Some(m) => Some((m.lo() as int, m.hi() as int)),
        None => None,
    }
}

/// The end of a match, or none where there is no match.
pub open spec fn end_of(f: Option<(int, int)>) -> Option<int> {
    match f {
        Some(b) => Some(b.1),
        None => None,
    }
}

/// Every range of `given` but the last was answered `true` by `matched`.
pub open spec fn all_but_last_accepted<F: Fn(Range) -> bool>(matched: F, given: Seq<Range>) -> bool {
    forall|i: int| 0 <= i < given.len() - 1 ==> matched.ensures((#[trigger] given[i],), true)
}

/// Every range of `given` but the last was answered `Ok(true)` by `matched`.
pub open spec fn all_but_last_ok<F: Fn(Range) -> Result<bool, E>, E>(
    matched: F,
    given: Seq<Range>,
) -> bool {
    forall|i: int| 0 <= i < given.len() - 1 ==> matched.ensures((#[trigger] given[i],), Ok(true))
}

/// `matched` was handed the first ranges of `run`, in order: each answered `true`, and
/// either the whole run was handed over or the last range handed over was answered
/// `false`.
pub open spec fn handed_over_until_false<F: Fn(Range) -> bool>(
    matched: F,
    run: Seq<(int, int)>,
) -> bool {
    exists|given: Seq<Range>|
        given.len() <= run.len() && #[trigger] bounds_seq(given) == run.subrange(
            0,
            given.len() as int,
        ) && all_but_last_accepted(matched, given) && ((given.len() == run.len() && (given.len()
            > 0 ==> matched.ensures((given.last(),), true))) || (given.len() > 0
            && matched.ensures((given.last(),), false)))
}

/// `matched` was handed the first ranges of `run`, in order: each answered `Ok(true)`,
/// and either the whole run was handed over and `res` is `Ok`, or the last range handed
/// over was answered `Ok(false)` and `res` is `Ok`, or it was answered with an error
/// and `res` is that error.
pub open spec fn handed_over_until_stop<F: Fn(Range) -> Result<bool, E>, E>(
    matched: F,
    run: Seq<(int, int)>,
    res: Result<(), E>,
) -> bool {
    exists|given: Seq<Range>|
        given.len() <= run.len() && #[trigger] bounds_seq(given) == run.subrange(
            0,
            given.len() as int,
        ) && all_but_last_ok(matched, given) && ((given.len() == run.len() && res is Ok && (
        given.len() > 0 ==> matched.ensures((given.last(),), Ok(true)))) || (given.len() > 0
            && res is Ok && matched.ensures((given.last(),), Ok(false))) || (given.len() > 0
            && res is Err && matched.ensures((given.last(),), Err(res->Err_0))))
}

/// What a matching capability finds, as a function of the buffer and the start.
pub trait MatchModel {
    /// The bounds of the first match in `content` that starts at or after `at`.
    spec fn found_at(&self, content: Seq<u8>, at: int) -> Option<(int, int)>;
}

/// A capability that finds the next match of some pattern in a byte buffer. Every
/// other search operation is built from `find_at`.
pub trait Matcher: MatchModel + Sized {
    type Error;

    /// True of a matcher whose searches never fail.
    spec fn infallible(&self) -> bool;

    /// The first match that starts at or after `at`, as offsets into `content`.
    fn find_at(&self, content: &[u8], at: usize) -> (r: Result<Option<Range>, Self::Error>)
        requires
            at <= content@.len(),
        ensures
            r matches Ok(x) ==> bounds_of(x) == self.found_at(content@, at as int),
            r matches Ok(Some(m)) ==> at <= m.lo() <= m.hi() <= content@.len(),
            self.infallible() ==> r is Ok,
    ;

    /// The first match in `content`.
    fn find(&self, content: &[u8]) -> (r: Result<Option<Range>, Self::Error>)
        ensures
            r matches Ok(x) ==> bounds_of(x) == self.found_at(content@, 0),
            r matches Ok(Some(m)) ==> m.lo() <= m.hi() <= content@.len(),
            self.infallible() ==> r is Ok,
    {
        self.find_at(content, 0)
    }

    /// Runs the search over `content`, handing each reported match to `matched` in
    /// order until `matched` returns `false` or no match is left. An empty match that
    /// ends where the last reported match ended is skipped.
    fn find_iter<F>(&self, content: &[u8], matched: F) -> (r: Result<(), Self::Error>) where
        F: Fn(Range) -> bool,

        requires
            content@.len() < usize::MAX,
            forall|m: Range| #[trigger] matched.requires((m,)),
        ensures
            r is Ok ==> handed_over_until_false(matched, reported_from(*self, content@, 0, None)),
            self.infallible() ==> r is Ok,
    {
        let ghost run = reported_from(*self, content@, 0, None);
        let ghost mut given: Seq<Range> = Seq::empty();
        let mut state = SearchState::new();
        loop
            invariant
                content@.len() < usize::MAX,
                forall|m: Range| #[trigger] matched.requires((m,)),
                run == reported_from(*self, content@, 0, None),
                bounds_seq(given) + reported_from(
                    *self,
                    content@,
                    state.last_end as int,
                    int_option(state.last_match),
                ) == run,
                forall|i: int| 0 <= i < given.len() ==> matched.ensures((#[trigger] given[i],), true),
            decreases content@.len() + 1 - state.last_end,
        {
            if state.is_exhausted(content.len()) {
                proof {
                    assert(reported_from(
                        *self,
                        content@,
                        state.last_end as int,
                        int_option(state.last_match),
                    ) =~= Seq::<(int, int)>::empty());
                    assert(bounds_seq(given) =~= run);
                    assert(given.len() == run.len());
                    assert(run.subrange(0, given.len() as int) =~= run);
                    assert(all_but_last_accepted(matched, given));
                    assert(handed_over_until_false(matched, run));
                }
                return Ok(());
            }
            let m = match self.find_at(content, state.last_end) {
                Err(e) => return Err(e),
                Ok(None) => {
                    proof {
                        assert(bounds_seq(given) =~= run);
                        assert(given.len() == run.len());
                        assert(run.subrange(0, given.len() as int) =~= run);
                        assert(all_but_last_accepted(matched, given));
                        assert(handed_over_until_false(matched, run));
                    }
                    return Ok(());
                },
                Ok(Some(m)) => m,
            };
            let ghost before = state;
            let ghost rest_before = reported_from(
                *self,
                content@,
                before.last_end as int,
                int_option(before.last_match),
            );
            if state.advance(m) {
                let answer = matched(m);
                let ghost b = (m.lo() as int, m.hi() as int);
                proof {
                    let rest = reported_from(
                        *self,
                        content@,
                        state.last_end as int,
                        int_option(state.last_match),
                    );
                    assert(rest_before == seq![b] + rest);
                    assert(bounds_seq(given.push(m)) =~= bounds_seq(given) + seq![b]);
                    assert(bounds_seq(given) + (seq![b] + rest) =~= bounds_seq(given.push(m))
                        + rest);
                    given = given.push(m);
                    assert(given.last() == m);
                }
                if !answer {
                    proof {
                        assert(bounds_seq(given) =~= run.subrange(0, given.len() as int));
                        assert(all_but_last_accepted(matched, given));
                    }
                    return Ok(());
                }
            }
        }
    }

    /// As `find_iter`, with a callback that may fail: its error stops the run and is
    /// handed back unchanged inside `Ok`; an error of `find_at` stops the run and is
    /// handed back as `Err`.
    fn try_find_iter<F, E>(&self, content: &[u8], matched: F) -> (r: Result<
        Result<(), E>,
        Self::Error,
    >) where F: Fn(Range) -> Result<bool, E>,

        requires
            content@.len() < usize::MAX,
            forall|m: Range| #[trigger] matched.requires((m,)),
        ensures
            r matches Ok(res) ==> handed_over_until_stop(
                matched,
                reported_from(*self, content@, 0, None),
                res,
            ),
            self.infallible() ==> r is Ok,
    {
        let ghost run = reported_from(*self, content@, 0, None);
        let ghost mut given: Seq<Range> = Seq::empty();
        let mut state = SearchState::new();
        loop
            invariant
                content@.len() < usize::MAX,
                forall|m: Range| #[trigger] matched.requires((m,)),
                run == reported_from(*self, content@, 0, None),
                bounds_seq(given) + reported_from(
                    *self,
                    content@,
                    state.last_end as int,
                    int_option(state.last_match),
                ) == run,
                forall|i: int|
                    0 <= i < given.len() ==> matched.ensures((#[trigger] given[i],), Ok(true)),
            decreases content@.len() + 1 - state.last_end,
        {
            if state.is_exhausted(content.len()) {
                proof {
                    assert(reported_from(
                        *self,
                        content@,
                        state.last_end as int,
                        int_option(state.last_match),
                    ) =~= Seq::<(int, int)>::empty());
                    assert(bounds_seq(given) =~= run);
                    assert(given.len() == run.len());
                    assert(run.subrange(0, given.len() as int) =~= run);
                    assert(all_but_last_ok(matched, given));
                    assert(handed_over_until_stop(matched, run, Ok::<(), E>(())));
                }
                return Ok(Ok(()));
            }
            let m = match self.find_at(content, state.last_end) {
                Err(e) => return Err(e),
                Ok(None) => {
                    proof {
                        assert(bounds_seq(given) =~= run);
                        assert(given.len() == run.len());
                        assert(run.subrange(0, given.len() as int) =~= run);
                        assert(all_but_last_ok(matched, given));
                        assert(handed_over_until_stop(matched, run, Ok::<(), E>(())));
                    }
                    return Ok(Ok(()));
                },
                Ok(Some(m)) => m,
            };
            let ghost before = state;
            let ghost rest_before = reported_from(
                *self,
                content@,
                before.last_end as int,
                int_option(before.last_match),
            );
            if state.advance(m) {
                let answer = matched(m);
                let ghost b = (m.lo() as int, m.hi() as int);
                proof {
                    let rest = reported_from(
                        *self,
                        content@,
                        state.last_end as int,
                        int_option(state.last_match),
                    );
                    assert(rest_before == seq![b] + rest);
                    assert(bounds_seq(given.push(m)) =~= bounds_seq(given) + seq![b]);
                    assert(bounds_seq(given) + (seq![b] + rest) =~= bounds_seq(given.push(m))
                        + rest);
                    given = given.push(m);
                    assert(given.last() == m);
                }
                match answer {
                    Ok(true) => {},
                    Ok(false) => {
                        proof {
                            assert(bounds_seq(given) =~= run.subrange(0, given.len() as int));
                            assert(all_but_last_ok(matched, given));
                        }
                        return Ok(Ok(()));
                    },
                    Err(err) => {
                        proof {
                            assert(bounds_seq(given) =~= run.subrange(0, given.len() as int));
                            assert(all_but_last_ok(matched, given));
                        }
                        return Ok(Err(err));
                    },
                }
            }
        }
    }

    /// True when some match starts in `content`.
    fn is_match(&self, content: &[u8]) -> (r: Result<bool, Self::Error>)
        ensures
            r matches Ok(b) ==> b == self.found_at(content@, 0) is Some,
            self.infallible() ==> r is Ok,
    {
        self.is_match_at(content, 0)
    }

    /// True when some match starts at or after `at`.
    fn is_match_at(&self, content: &[u8], at: usize) -> (r: Result<bool, Self::Error>)
        requires
            at <= content@.len(),
        ensures
            r matches Ok(b) ==> b == self.found_at(content@, at as int) is Some,
            self.infallible() ==> r is Ok,
    {
        match self.find_at(content, at) {
            Ok(m) => Ok(m.is_some()),
            Err(e) => Err(e),
        }
    }

    /// The end of the first match in `content`.
    fn shortest_match(&self, content: &[u8]) -> (r: Result<Option<usize>, Self::Error>)
        ensures
            r matches Ok(e) ==> int_option(e) == end_of(self.found_at(content@, 0)),
            r matches Ok(Some(e)) ==> e <= content@.len(),
            self.infallible() ==> r is Ok,
    {
        self.shortest_match_at(content, 0)
    }

    /// The end of the first match that starts at or after `at`.
    fn shortest_match_at(&self, content: &[u8], at: usize) -> (r: Result<
        Option<usize>,
        Self::Error,
    >)
        requires
            at <= content@.len(),
        ensures
            r matches Ok(e) ==> int_option(e) == end_of(self.found_at(content@, at as int)),
            r matches Ok(Some(e)) ==> at <= e <= content@.len(),
            self.infallible() ==> r is Ok,
    {
        match self.find_at(content, at) {
            Ok(Some(m)) => Ok(Some(m.end())),
            Ok(None) => Ok(None),
            Err(e) => Err(e),
        }
    }
}

/// Ranges that lie inside a buffer of `len` bytes, each ending at or before the next
/// one starts.
pub open spec fn in_order_within(v: Seq<Range>, len: nat) -> bool {
    &&& forall|i: int| 0 <= i < v.len() ==> (#[trigger] v[i]).lo() <= v[i].hi() <= len
    &&& forall|i: int| 0 <= i < v.len() - 1 ==> #[trigger] v[i].hi() <= v[i + 1].lo()
}

/// The bounds of the matches that a run of the search over `content` reports, when the
/// next search starts at `last_end` and the last reported match ended at `last_match`.
pub open spec fn reported_from<M: MatchModel>(
    matcher: M,
    content: Seq<u8>,
    last_end: int,
    last_match: Option<int>,
) -> Seq<(int, int)>
    decreases content.len() + 1 - last_end,
{
    if last_end < 0 || last_end > content.len() {
        Seq::empty()
    } else {
        match matcher.found_at(content, last_end) {
            None => Seq::empty(),
            Some(b) => if last_end <= b.0 <= b.1 <= content.len() {
                let next_end = if b.0 == b.1 {
                    b.1 + 1
                } else {
                    b.1
                };
                let rest = reported_from(matcher, content, next_end, Some(b.1));
                if b.0 == b.1 && last_match == Some(b.1) {
                    rest
                } else {
                    seq![b] + rest
                }
            } else {
                Seq::empty()
            },
        }
    }
}

/// The number of searches a run over `content` makes, when the next search starts at
/// `last_end`: none once the start is past the end, else one, followed by the rest of
/// the run when a match is found.
pub open spec fn search_count<M: MatchModel>(
    matcher: M,
    content: Seq<u8>,
    last_end: int,
    last_match: Option<int>,
) -> nat
    decreases content.len() + 1 - last_end,
{
    if last_end < 0 || last_end > content.len() {
        0
    } else {
        match matcher.found_at(content, last_end) {
            None => 1,
            Some(b) => if last_end <= b.0 <= b.1 <= content.len() {
                let next_end = if b.0 == b.1 {
                    b.1 + 1
                } else {
                    b.1
                };
                1 + search_count(matcher, content, next_end, Some(b.1))
            } else {
                1
            },
        }
    }
}

/// A run of the search over `content` from `last_end` makes at most
/// `content.len() + 1 - last_end` searches, whatever the matcher finds, empty matches
/// included: each search starts strictly after the one before, and none past the end.
pub proof fn lemma_search_count_bounded<M: MatchModel>(
    matcher: M,
    content: Seq<u8>,
    last_end: int,
    last_match: Option<int>,
)
    requires
        0 <= last_end <= content.len() + 1,
    ensures
        search_count(matcher, content, last_end, last_match) <= content.len() + 1 - last_end,
    decreases content.len() + 1 - last_end,
{
    if last_end <= content.len() {
        if let Some(b) = matcher.found_at(content, last_end) {
            if last_end <= b.0 <= b.1 <= content.len() {
                let next_end = if b.0 == b.1 {
                    b.1 + 1
                } else {
                    b.1
                };
                lemma_search_count_bounded(matcher, content, next_end, Some(b.1));
            }
        }
    }
}

/// The matches a run of the search reports lie inside `content`, at or after where the
/// run starts, and each starts at or after the end of the one before it. After an empty
/// match the next starts strictly later, since the next search starts one byte further
/// on, and the ends of the reported matches strictly increase. When the last reported
/// match ended at `x` at or before the start, every reported match ends after `x`.
pub proof fn lemma_reported_in_order<M: MatchModel>(
    matcher: M,
    content: Seq<u8>,
    last_end: int,
    last_match: Option<int>,
)
    ensures
        forall|i: int|
            0 <= i < reported_from(matcher, content, last_end, last_match).len() ==> last_end
                <= (#[trigger] reported_from(matcher, content, last_end, last_match)[i]).0
                <= reported_from(matcher, content, last_end, last_match)[i].1 <= content.len(),
        forall|i: int|
            0 <= i < reported_from(matcher, content, last_end, last_match).len() - 1 ==> (
            #[trigger] reported_from(matcher, content, last_end, last_match)[i]).1
                <= reported_from(matcher, content, last_end, last_match)[i + 1].0,
        forall|i: int|
            0 <= i < reported_from(matcher, content, last_end, last_match).len() - 1 ==> (
            #[trigger] reported_from(matcher, content, last_end, last_match)[i]).1
                < reported_from(matcher, content, last_end, last_match)[i + 1].1,
        forall|i: int|
            0 <= i < reported_from(matcher, content, last_end, last_match).len() - 1 ==> (
            #[trigger] reported_from(matcher, content, last_end, last_match)[i]).0
                == reported_from(matcher, content, last_end, last_match)[i].1 ==> reported_from(
                matcher,
                content,
                last_end,
                last_match,
            )[i].1 < reported_from(matcher, content, last_end, last_match)[i + 1].0,
        forall|i: int|
            last_match is Some && last_match->Some_0 <= last_end && 0 <= i < reported_from(
                matcher,
                content,
                last_end,
                last_match,
            ).len() ==> last_match->Some_0 < (#[trigger] reported_from(
                matcher,
                content,
                last_end,
                last_match,
            )[i]).1,
    decreases content.len() + 1 - last_end,
{
    let r = reported_from(matcher, content, last_end, last_match);
    if 0 <= last_end <= content.len() {
        if let Some(b) = matcher.found_at(content, last_end) {
            if last_end <= b.0 <= b.1 <= content.len() {
                let next_end = if b.0 == b.1 {
                    b.1 + 1
                } else {
                    b.1
                };
                lemma_reported_in_order(matcher, content, next_end, Some(b.1));
                let rest = reported_from(matcher, content, next_end, Some(b.1));
                assert forall|i: int| 0 <= i < rest.len() implies b.1 < (#[trigger] rest[i]).1 by {
                }
                if !(b.0 == b.1 && last_match == Some(b.1)) {
                    assert(r == seq![b] + rest);
                    assert forall|i: int| 0 <= i < r.len() - 1 implies (#[trigger] r[i]).1 <= r[i
                        + 1].0 && r[i].1 < r[i + 1].1 && (r[i].0 == r[i].1 ==> r[i].1 < r[i
                        + 1].0) by {
                        if i == 0 {
                            assert(r[1] == rest[0]);
                        } else {
                            assert(r[i] == rest[i - 1]);
                            assert(r[i + 1] == rest[i]);
                        }
                    }
                    assert forall|i: int| 0 <= i < r.len() implies last_end <= (#[trigger] r[i]).0
                        <= r[i].1 <= content.len() by {
                        if i > 0 {
                            assert(r[i] == rest[i - 1]);
                        }
                    }
                    assert forall|i: int|
                        last_match is Some && last_match->Some_0 <= last_end && 0 <= i < r.len()
                            implies last_match->Some_0 < (#[trigger] r[i]).1 by {
                        if i > 0 {
                            assert(r[i] == rest[i - 1]);
                        }
                    }
                } else {
                    assert(r == rest);
                }
            }
        }
    }
}

/// The bounds of each range of `v`.
pub open spec fn bounds_seq(v: Seq<Range>) -> Seq<(int, int)> {
    v.map_values(|r: Range| (r.lo() as int, r.hi() as int))
}

/// The option `o` as an integer.
pub open spec fn int_option(o: Option<usize>) -> Option<int> {
    match o {
        Some(x) => Some(x as int),
        None => None,
    }
}

/// Every match that a run of the search over `content` reports, in order.
pub fn find_all<M: Matcher>(matcher: &M, content: &[u8]) -> (r: Result<Vec<Range>, M::Error>)
    requires
        content@.len() < usize::MAX,
    ensures
        r matches Ok(v) ==> bounds_seq(v@) == reported_from(*matcher, content@, 0, None),
        r matches Ok(v) ==> in_order_within(v@, content@.len()) && v@.len() <= content@.len()
            + 1,
        matcher.infallible() ==> r is Ok,
{
    let mut found: Vec<Range> = Vec::new();
    let mut state = SearchState::new();
    loop
        invariant
            content@.len() < usize::MAX,
            state.last_end <= content@.len() + 1,
            found@.len() <= state.last_end,
            in_order_within(found@, content@.len()),
            forall|i: int| 0 <= i < found@.len() ==> #[trigger] found@[i].hi() <= state.last_end,
            bounds_seq(found@) + reported_from(
                *matcher,
                content@,
                state.last_end as int,
                int_option(state.last_match),
            ) == reported_from(*matcher, content@, 0, None),
        decreases content@.len() + 1 - state.last_end,
    {
        if state.is_exhausted(content.len()) {
            return Ok(found);
        }
        let m = match matcher.find_at(content, state.last_end) {
            Err(e) => return Err(e),
            Ok(None) => return Ok(found),
            Ok(Some(m)) => m,
        };
        let ghost before = state;
        let ghost seen = found@;
        if state.advance(m) {
            found.push(m);
        }
        proof {
            let b = (m.lo() as int, m.hi() as int);
            assert(matcher.found_at(content@, before.last_end as int) == Some(b));
            let rest = reported_from(
                *matcher,
                content@,
                state.last_end as int,
                int_option(state.last_match),
            );
            if is_reported(before, m) {
                assert(reported_from(
                    *matcher,
                    content@,
                    before.last_end as int,
                    int_option(before.last_match),
                ) == seq![b] + rest);
                assert(bounds_seq(found@) =~= bounds_seq(seen) + seq![b]);
                assert(bounds_seq(seen) + (seq![b] + rest) =~= bounds_seq(found@) + rest);
            } else {
                assert(found@ == seen);
            }
        }
    }
}

/// For each `i`, `parts[i]` is what a run of the search over the slice of `content` at
/// `ranges[i]` reports, and it lies in order within that slice.
pub open spec fn runs_per_range<M: Matcher>(
    matcher: M,
    content: Seq<u8>,
    parts: Seq<Seq<Range>>,
    ranges: Seq<Range>,
) -> bool {
    &&& parts.len() == ranges.len()
    &&& forall|i: int|
        0 <= i < parts.len() ==> in_order_within(#[trigger] parts[i], ranges[i].width())
            && bounds_seq(parts[i]) == reported_from(
            matcher,
            content.subrange(ranges[i].lo() as int, ranges[i].hi() as int),
            0,
            None,
        )
}

/// The matches in each of `ranges` of `content`, in the order of `ranges`, each as
/// offsets into the slice of its own range.
pub fn find_in_ranges<M: Matcher>(matcher: &M, content: &[u8], ranges: &Vec<Range>) -> (r: Result<
    Vec<Range>,
    M::Error,
>)
    requires
        content@.len() < usize::MAX,
        forall|i: int| 0 <= i < ranges@.len() ==> #[trigger] ranges@[i].hi() <= content@.len(),
    ensures
        r matches Ok(v) ==> exists|parts: Seq<Seq<Range>>|
            runs_per_range(*matcher, content@, parts, ranges@) && v@ == #[trigger] parts.flatten(),
        matcher.infallible() ==> r is Ok,
{
    let mut all: Vec<Range> = Vec::new();
    let ghost mut parts: Seq<Seq<Range>> = Seq::empty();
    let mut k: usize = 0;
    while k < ranges.len()
        invariant
            k <= ranges@.len(),
            content@.len() < usize::MAX,
            forall|i: int| 0 <= i < ranges@.len() ==> #[trigger] ranges@[i].hi() <= content@.len(),
            runs_per_range(*matcher, content@, parts, ranges@.subrange(0, k as int)),
            all@ == parts.flatten(),
        decreases ranges@.len() - k,
    {
        let range = ranges[k];
        let part = range.slice_of(content);
        let mut found = match find_all(matcher, part) {
            Ok(found) => found,
            Err(e) => return Err(e),
        };
        let ghost got = found@;
        all.append(&mut found);
        proof {
            parts.lemma_flatten_push(got);
            let old_parts = parts;
            parts = parts.push(got);
            let rs = ranges@.subrange(0, k + 1);
            assert forall|i: int| 0 <= i < parts.len() implies in_order_within(
                #[trigger] parts[i],
                rs[i].width(),
            ) && bounds_seq(parts[i]) == reported_from(
                *matcher,
                content@.subrange(rs[i].lo() as int, rs[i].hi() as int),
                0,
                None,
            ) by {
                if i < k {
                    assert(parts[i] == old_parts[i]);
                    assert(ranges@.subrange(0, k + 1)[i] == ranges@.subrange(0, k as int)[i]);
                }
            }
        }
        k = k + 1;
    }
    proof {
        assert(ranges@.subrange(0, k as int) =~= ranges@);
    }
    Ok(all)
}

/// A position within a buffer that is being searched.
pub struct Searcher<'a> {
    pos: usize,
    buf: &'a [u8],
}

impl<'a> Searcher<'a> {
    /// A searcher at the start of `buf`.
    pub fn new(buf: &'a [u8]) -> (s: Searcher<'a>)
        ensures
            s.position() == 0,
            s.buffer() == buf@,
    {
        Searcher { pos: 0, buf }
    }

    /// The current search position.
    pub closed spec fn position(self) -> nat {
        self.pos as nat
    }

    /// The bytes being searched.
    pub closed spec fn buffer(self) -> Seq<u8> {
        self.buf@
    }

    pub fn pos(&self) -> (r: usize)
        ensures
            r == self.position(),
    {
        self.pos
    }
}

} // verus!
