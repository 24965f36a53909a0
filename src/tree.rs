//! A hierarchy of pattern rules resolved top-down over the lines of a buffer.
use crate::lines::{line_ends, line_start, LineIndex};
use crate::range::Range;
use crate::regex_matcher::{folds_case, regex_compiles, regex_match_at, PatternError, RegexConfig, RegexMatcher};
use crate::searcher::{bounds_of, Matcher};
use vstd::prelude::*;

verus! {

/// A position inside a line: the line's number and a byte offset within its text.
#[derive(Clone, Copy, Debug, PartialEq, Eq, Structural)]
pub struct Cursor {
    pub line: usize,
    pub offset: usize,
}

/// The cursors kept from `parents` where a search was made: `found[i]` gives the bounds
/// of what the search on the line of `parents[i]` found, and each match found gives a
/// cursor on that line at the match's start, in the order of `parents`.
pub open spec fn narrowed(parents: Seq<Cursor>, found: Seq<Option<(int, int)>>) -> Seq<Cursor>
    decreases parents.len(),
{
    if parents.len() == 0 || found.len() == 0 {
        Seq::empty()
    } else {
        let rest = narrowed(parents.drop_last(), found.drop_last());
        match found.last() {
            Some(b) => rest.push(Cursor { line: parents.last().line, offset: b.0 as usize }),
            None => rest,
        }
    }
}

/// The bytes of line `n` of `content`, without its newline.
pub open spec fn line_text(content: Seq<u8>, n: int) -> Seq<u8> {
    content.subrange(line_start(line_ends(content), n), line_ends(content)[n])
}

/// What `matcher` finds on the line of each cursor of `parents`, from the cursor on.
pub open spec fn results_for<M: Matcher>(matcher: M, parents: Seq<Cursor>, content: Seq<u8>) -> Seq<
    Option<(int, int)>,
> {
    Seq::new(
        parents.len(),
        |i: int|
            matcher.found_at(line_text(content, parents[i].line as int), parents[i].offset as int),
    )
}

/// The number of bytes of line `k`, given where the lines end.
pub open spec fn line_width(ends: Seq<int>, k: int) -> int {
    ends[k] - line_start(ends, k)
}

/// Every cursor of `set` names a line that exists and an offset inside that line.
pub open spec fn within_lines(set: Seq<Cursor>, ends: Seq<int>) -> bool {
    forall|k: int|
        0 <= k < set.len() ==> (#[trigger] set[k]).line < ends.len() && set[k].offset
            <= line_width(ends, set[k].line as int)
}

/// `c` lies on the line of some cursor of `parent`, at or after it.
pub open spec fn has_origin(c: Cursor, parent: Seq<Cursor>) -> bool {
    exists|i: int| 0 <= i < parent.len() && parent[i].line == c.line && parent[i].offset <= c.offset
}

/// Every cursor of `child` lies on the line of some cursor of `parent`, at or after it,
/// and `child` has no more cursors than `parent`.
pub open spec fn refines(child: Seq<Cursor>, parent: Seq<Cursor>) -> bool {
    &&& child.len() <= parent.len()
    &&& forall|k: int| 0 <= k < child.len() ==> has_origin(#[trigger] child[k], parent)
}

/// What each search found is a match on the searched line, at or after the cursor.
pub open spec fn found_on_lines(
    parents: Seq<Cursor>,
    found: Seq<Option<(int, int)>>,
    ends: Seq<int>,
) -> bool {
    &&& found.len() == parents.len()
    &&& forall|i: int|
        0 <= i < found.len() ==> (#[trigger] found[i] matches Some(b) ==> parents[i].offset
            <= b.0 <= b.1 <= line_width(ends, parents[i].line as int))
}

proof fn lemma_narrowed(parents: Seq<Cursor>, found: Seq<Option<(int, int)>>, ends: Seq<int>)
    requires
        found_on_lines(parents, found, ends),
        within_lines(parents, ends),
        forall|k: int| 0 <= k < ends.len() ==> 0 <= #[trigger] ends[k] <= usize::MAX,
    ensures
        refines(narrowed(parents, found), parents),
        within_lines(narrowed(parents, found), ends),
    decreases parents.len(),
{
    if parents.len() > 0 {
        let p = parents.drop_last();
        let f = found.drop_last();
        assert forall|i: int| 0 <= i < f.len() implies (#[trigger] f[i] matches Some(b)
            ==> p[i].offset <= b.0 <= b.1 <= line_width(ends, p[i].line as int)) by {
            assert(found[i] == f[i]);
        }
        assert forall|k: int| 0 <= k < p.len() implies (#[trigger] p[k]).line < ends.len()
            && p[k].offset <= line_width(ends, p[k].line as int) by {
            assert(parents[k] == p[k]);
        }
        lemma_narrowed(p, f, ends);
        let rest = narrowed(p, f);
        let n = narrowed(parents, found);
        assert(n.len() <= rest.len() + 1);
        assert(rest.len() <= p.len());
        assert(n.len() <= parents.len());
        let j = parents.len() - 1;
        assert(parents[j].line < ends.len());
        assert(found[j] matches Some(b) ==> parents[j].offset <= b.0 <= b.1 <= line_width(
            ends,
            parents[j].line as int,
        ));
        assert(found[j] matches Some(b) ==> b.0 <= usize::MAX) by {
            if parents[j].line > 0 {
                assert(0 <= ends[parents[j].line - 1]);
            }
        }
        assert forall|k: int| 0 <= k < n.len() implies has_origin(#[trigger] n[k], parents) by {
            if k < rest.len() {
                assert(n[k] == rest[k]);
                assert(has_origin(rest[k], p));
                let i = choose|i: int|
                    0 <= i < p.len() && p[i].line == rest[k].line && p[i].offset <= rest[k].offset;
                assert(parents[i] == p[i]);
                assert(0 <= i < parents.len() && parents[i].line == n[k].line
                    && parents[i].offset <= n[k].offset);
            } else {
                assert(found[j] is Some);
                let b = found[j]->Some_0;
                assert(n[k] == Cursor { line: parents[j].line, offset: b.0 as usize });
                assert(0 <= j < parents.len() && parents[j].line == n[k].line
                    && parents[j].offset <= n[k].offset);
            }
        }
        assert forall|k: int| 0 <= k < n.len() implies (#[trigger] n[k]).line < ends.len()
            && n[k].offset <= line_width(ends, n[k].line as int) by {
            if k < rest.len() {
                assert(n[k] == rest[k]);
            }
        }
    }
}

/// The cursors of `parents` whose search found a match, moved to the match's start.
pub fn narrow(parents: &Vec<Cursor>, found: &Vec<Option<Range>>) -> (r: Vec<Cursor>)
    requires
        found@.len() == parents@.len(),
    ensures
        r@ == narrowed(parents@, found@.map_values(|o: Option<Range>| bounds_of(o))),
{
    let ghost bounds = found@.map_values(|o: Option<Range>| bounds_of(o));
    let mut r: Vec<Cursor> = Vec::new();
    let mut i: usize = 0;
    while i < parents.len()
        invariant
            i <= parents@.len(),
            found@.len() == parents@.len(),
            bounds == found@.map_values(|o: Option<Range>| bounds_of(o)),
            r@ == narrowed(parents@.subrange(0, i as int), bounds.subrange(0, i as int)),
        decreases parents@.len() - i,
    {
        proof {
            assert(parents@.subrange(0, i + 1).drop_last() =~= parents@.subrange(0, i as int));
            assert(bounds.subrange(0, i + 1).drop_last() =~= bounds.subrange(0, i as int));
        }
        match found[i] {
            Some(m) => r.push(Cursor { line: parents[i].line, offset: m.start() }),
            None => {},
        }
        i = i + 1;
    }
    proof {
        assert(parents@.subrange(0, i as int) =~= parents@);
        assert(bounds.subrange(0, i as int) =~= bounds);
    }
    r
}

/// What the expression compiled from `pattern` under `config` finds on the line of each
/// cursor of `parents`, from the cursor on.
pub open spec fn regex_results(
    pattern: Seq<char>,
    config: RegexConfig,
    parents: Seq<Cursor>,
    content: Seq<u8>,
) -> Seq<Option<(int, int)>> {
    Seq::new(
        parents.len(),
        |i: int|
            regex_match_at(
                pattern,
                folds_case(config, pattern),
                config,
                line_text(content, parents[i].line as int),
                parents[i].offset as int,
            ),
    )
}

/// The root's cursors: one at offset zero on each of `count` lines, in line order.
pub open spec fn every_line(count: nat) -> Seq<Cursor> {
    Seq::new(count, |k: int| Cursor { line: k as usize, offset: 0 })
}

/// The searches for one node: for each cursor of its parent, the first match of the
/// node's pattern in the cursor's line at or after the cursor.
fn search_lines<M: Matcher>(
    matcher: &M,
    parents: &Vec<Cursor>,
    content: &[u8],
    index: &LineIndex,
) -> (r: Result<Vec<Option<Range>>, M::Error>)
    requires
        index.source() == content@,
        within_lines(parents@, line_ends(content@)),
    ensures
        r matches Ok(found) ==> found@.map_values(|o: Option<Range>| bounds_of(o)) == results_for(
            *matcher,
            parents@,
            content@,
        ),
        r matches Ok(found) ==> found_on_lines(
            parents@,
            found@.map_values(|o: Option<Range>| bounds_of(o)),
            line_ends(content@),
        ),
        matcher.infallible() ==> r is Ok,
{
    let ghost ends = line_ends(content@);
    let ghost want = results_for(*matcher, parents@, content@);
    proof {
        crate::lines::lemma_line_ends_ordered(content@);
    }
    let mut found: Vec<Option<Range>> = Vec::new();
    let mut i: usize = 0;
    while i < parents.len()
        invariant
            i <= parents@.len(),
            index.source() == content@,
            ends == line_ends(content@),
            want == results_for(*matcher, parents@, content@),
            within_lines(parents@, ends),
            forall|q: int| 0 <= q < ends.len() ==> 0 <= #[trigger] ends[q] <= content@.len(),
            forall|q: int, w: int| 0 <= q < w < ends.len() ==> #[trigger] ends[q] < #[trigger] ends[w],
            found@.len() == i,
            forall|q: int| 0 <= q < i ==> bounds_of(#[trigger] found@[q]) == want[q],
            forall|q: int|
                0 <= q < i ==> (#[trigger] found@[q] matches Some(x) ==> parents@[q].offset
                    <= x.lo() <= x.hi() <= line_width(ends, parents@[q].line as int)),
        decreases parents@.len() - i,
    {
        let c = parents[i];
        assert(parents@[i as int] == c);
        let range = index.line_range(c.line);
        let line = range.slice_of(content);
        assert(line@ == line_text(content@, c.line as int));
        let m = match matcher.find_at(line, c.offset) {
            Ok(m) => m,
            Err(e) => return Err(e),
        };
        found.push(m);
        i = i + 1;
    }
    proof {
        let mapped = found@.map_values(|o: Option<Range>| bounds_of(o));
        assert(mapped =~= want);
        assert forall|q: int| 0 <= q < mapped.len() implies (#[trigger] mapped[q] matches Some(b)
            ==> parents@[q].offset <= b.0 <= b.1 <= line_width(ends, parents@[q].line as int)) by {
            assert(mapped[q] == bounds_of(found@[q]));
        }
    }
    Ok(found)
}

/// One rule of a pattern tree.
struct PatternNode {
    pub pattern: String,
    pub label: String,
    pub parent: usize,
}

/// A tree of pattern rules, kept as a list in which each node but the first (the root)
/// names a parent that comes before it, and children keep the order they were added in.
/// Resolution gives each node the cursors that satisfied it and all of its ancestors.
pub struct PatternTree {
    nodes: Vec<PatternNode>,
    cursors: Vec<Vec<Cursor>>,
}

impl PatternTree {
    /// The root exists, each other node comes after its parent, and each node has a
    /// set of cursors.
    pub closed spec fn wf(self) -> bool {
        &&& self.nodes@.len() >= 1
        &&& self.cursors@.len() == self.nodes@.len()
        &&& forall|j: int| 1 <= j < self.nodes@.len() ==> #[trigger] self.nodes@[j].parent < j
    }

    /// The number of rules.
    pub closed spec fn node_count_spec(self) -> nat {
        self.nodes@.len()
    }

    /// The rule that rule `j` was added under.
    pub closed spec fn parent_of(self, j: int) -> int {
        self.nodes@[j].parent as int
    }

    /// The pattern of rule `j`.
    pub closed spec fn pattern_of(self, j: int) -> Seq<char> {
        self.nodes@[j].pattern@
    }

    /// The label of rule `j`.
    pub closed spec fn label_of(self, j: int) -> Seq<char> {
        self.nodes@[j].label@
    }

    /// The cursors that rule `j` holds.
    pub closed spec fn cursor_set(self, j: int) -> Seq<Cursor> {
        self.cursors@[j]@
    }

    /// The two trees hold the same rules in the same places.
    pub open spec fn same_rules(self, other: PatternTree) -> bool {
        &&& self.node_count_spec() == other.node_count_spec()
        &&& forall|j: int|
            0 <= j < self.node_count_spec() ==> #[trigger] self.parent_of(j) == other.parent_of(j)
                && self.pattern_of(j) == other.pattern_of(j) && self.label_of(j)
                == other.label_of(j)
    }

    /// A tree of only a root rule, with no cursors.
    pub fn new(pattern: &str, label: &str) -> (t: PatternTree)
        ensures
            t.wf(),
            t.node_count_spec() == 1,
            t.pattern_of(0) == pattern@,
            t.label_of(0) == label@,
            t.cursor_set(0).len() == 0,
    {
        let root = PatternNode { pattern: pattern.to_string(), label: label.to_string(), parent: 0 };
        PatternTree { nodes: vec![root], cursors: vec![Vec::new()] }
    }

    /// Adds a rule under `parent`, after its existing children; returns the new node's number.
    pub fn add_child(&mut self, parent: usize, pattern: &str, label: &str) -> (id: usize)
        requires
            old(self).wf(),
            parent < old(self).node_count_spec(),
        ensures
            final(self).wf(),
            id == old(self).node_count_spec(),
            final(self).node_count_spec() == old(self).node_count_spec() + 1,
            final(self).parent_of(id as int) == parent,
            final(self).pattern_of(id as int) == pattern@,
            final(self).label_of(id as int) == label@,
            final(self).cursor_set(id as int).len() == 0,
            forall|j: int|
                0 <= j < old(self).node_count_spec() ==> #[trigger] final(self).parent_of(j)
                    == old(self).parent_of(j) && final(self).pattern_of(j) == old(self).pattern_of(
                    j,
                ) && final(self).label_of(j) == old(self).label_of(j) && final(self).cursor_set(j)
                    == old(self).cursor_set(j),
    {
        let id = self.nodes.len();
        let node = PatternNode { pattern: pattern.to_string(), label: label.to_string(), parent };
        self.nodes.push(node);
        self.cursors.push(Vec::new());
        id
    }

    /// The number of rules.
    pub fn node_count(&self) -> (r: usize)
        ensures
            r == self.node_count_spec(),
    {
        self.nodes.len()
    }

    /// The node that `node` was added under; the root names itself.
    pub fn parent(&self, node: usize) -> (r: usize)
        requires
            self.wf(),
            node < self.node_count_spec(),
        ensures
            r == self.parent_of(node as int),
    {
        self.nodes[node].parent
    }

    pub fn pattern(&self, node: usize) -> (r: &str)
        requires
            self.wf(),
            node < self.node_count_spec(),
        ensures
            r@ == self.pattern_of(node as int),
    {
        self.nodes[node].pattern.as_str()
    }

    pub fn label(&self, node: usize) -> (r: &str)
        requires
            self.wf(),
            node < self.node_count_spec(),
        ensures
            r@ == self.label_of(node as int),
    {
        self.nodes[node].label.as_str()
    }

    /// The cursors that `node` holds.
    pub fn cursors(&self, node: usize) -> (r: &Vec<Cursor>)
        requires
            self.wf(),
            node < self.node_count_spec(),
        ensures
            r@ == self.cursor_set(node as int),
    {
        &self.cursors[node]
    }
    /// Resolves the tree over the lines of `content`, searching with `matchers[j]` for
    /// node `j`. The root gets a cursor at offset zero on every line; then each node in
    /// turn, for each cursor of its parent in order, searches the cursor's line from the
    /// cursor on and, on a match, gets a cursor on that line at the match's start.
    pub fn resolve_with<M: Matcher>(
        &mut self,
        matchers: &Vec<M>,
        content: &[u8],
        index: &LineIndex,
    ) -> (r: Result<(), M::Error>)
        requires
            old(self).wf(),
            matchers@.len() == old(self).node_count_spec(),
            index.source() == content@,
        ensures
            final(self).wf(),
            final(self).same_rules(*old(self)),
            (forall|j: int| 0 <= j < matchers@.len() ==> #[trigger] matchers@[j].infallible())
                ==> r is Ok,
            r is Ok ==> final(self).cursor_set(0) == every_line(line_ends(content@).len()),
            r is Ok ==> forall|j: int|
                1 <= j < final(self).node_count_spec() ==> refines(
                    #[trigger] final(self).cursor_set(j),
                    final(self).cursor_set(final(self).parent_of(j)),
                ) && within_lines(final(self).cursor_set(j), line_ends(content@))
                    && final(self).cursor_set(j) == narrowed(
                    final(self).cursor_set(final(self).parent_of(j)),
                    results_for(
                        matchers@[j],
                        final(self).cursor_set(final(self).parent_of(j)),
                        content@,
                    ),
                ),
    {
        let ghost ends = line_ends(content@);
        let total = index.line_count();
        let mut root: Vec<Cursor> = Vec::new();
        let mut k: usize = 0;
        while k < total
            invariant
                k <= total,
                total == ends.len(),
                root@ =~= every_line(k as nat),
            decreases total - k,
        {
            root.push(Cursor { line: k, offset: 0 });
            k = k + 1;
        }
        proof {
            crate::lines::lemma_line_ends_ordered(content@);
            assert(content.len() == content@.len());
            assert forall|q: int| 0 <= q < root@.len() implies (#[trigger] root@[q]).line < ends.len()
                && root@[q].offset <= line_width(ends, root@[q].line as int) by {
                if q > 0 {
                    assert(ends[q - 1] < ends[q]);
                }
            }
        }
        let n = self.nodes.len();
        let mut sets: Vec<Vec<Cursor>> = Vec::new();
        sets.push(root);
        let mut j: usize = 1;
        while j < n
            invariant
                self.wf(),
                n == self.node_count_spec(),
                matchers@.len() == n,
                index.source() == content@,
                ends == line_ends(content@),
                forall|q: int| 0 <= q < ends.len() ==> 0 <= #[trigger] ends[q] <= usize::MAX,
                1 <= j <= n,
                sets@.len() == j,
                sets@[0]@ == every_line(ends.len()),
                forall|q: int| 0 <= q < j ==> within_lines(#[trigger] sets@[q]@, ends),
                forall|q: int|
                    1 <= q < j ==> refines(#[trigger] sets@[q]@, sets@[self.parent_of(q)]@),
                forall|q: int|
                    1 <= q < j ==> #[trigger] sets@[q]@ == narrowed(
                        sets@[self.parent_of(q)]@,
                        results_for(matchers@[q], sets@[self.parent_of(q)]@, content@),
                    ),
                *self == *old(self),
            decreases n - j,
        {
            let p = self.nodes[j].parent;
            assert(p < j);
            let found = match search_lines(&matchers[j], &sets[p], content, index) {
                Ok(found) => found,
                Err(e) => return Err(e),
            };
            let child = narrow(&sets[p], &found);
            proof {
                lemma_narrowed(
                    sets@[p as int]@,
                    found@.map_values(|o: Option<Range>| bounds_of(o)),
                    ends,
                );
            }
            sets.push(child);
            proof {
                assert(sets@[j as int]@ == child@);
                assert forall|q: int| 1 <= q < j + 1 implies refines(
                    #[trigger] sets@[q]@,
                    sets@[self.parent_of(q)]@,
                ) && sets@[q]@ == narrowed(
                    sets@[self.parent_of(q)]@,
                    results_for(matchers@[q], sets@[self.parent_of(q)]@, content@),
                ) by {
                    if q < j {
                        assert(self.nodes@[q].parent < q);
                    }
                }
            }
            j = j + 1;
        }
        self.cursors = sets;
        Ok(())
    }
    /// Compiles the pattern of every node under `config`, in node order; the first that
    /// fails is reported with its node's label.
    pub fn compile(&self, config: &RegexConfig) -> (r: Result<Vec<RegexMatcher>, ResolveError>)
        requires
            self.wf(),
        ensures
            r matches Ok(ms) ==> ms@.len() == self.node_count_spec(),
            r matches Ok(ms) ==> forall|j: int|
                0 <= j < ms@.len() ==> (#[trigger] ms@[j]).infallible() && ms@[j].pattern_spec()
                    == self.pattern_of(j) && ms@[j].config_spec() == *config && ms@[j].fold_spec()
                    == folds_case(*config, self.pattern_of(j)),
            r is Ok <==> all_compile(*self, *config),
            r matches Err(e) ==> exists|j: int|
                0 <= j < self.node_count_spec() && e.label@ == self.label_of(j)
                    && e.error.pattern@ == #[trigger] self.pattern_of(j),
    {
        let mut ms: Vec<RegexMatcher> = Vec::new();
        let mut j: usize = 0;
        while j < self.nodes.len()
            invariant
                self.wf(),
                j <= self.node_count_spec(),
                ms@.len() == j,
                forall|q: int|
                    0 <= q < j ==> regex_compiles(
                        #[trigger] self.pattern_of(q),
                        folds_case(*config, self.pattern_of(q)),
                        *config,
                    ),
                forall|q: int|
                    0 <= q < j ==> (#[trigger] ms@[q]).pattern_spec() == self.pattern_of(q)
                        && ms@[q].config_spec() == *config && ms@[q].fold_spec() == folds_case(
                        *config,
                        self.pattern_of(q),
                    ),
            decreases self.node_count_spec() - j,
        {
            let node = &self.nodes[j];
            match RegexMatcher::new(node.pattern.as_str(), config) {
                Ok(m) => ms.push(m),
                Err(error) => {
                    let e = ResolveError { label: node.label.clone(), error };
                    assert(self.pattern_of(j as int) == node.pattern@);
                    return Err(e);
                },
            }
            j = j + 1;
        }
        Ok(ms)
    }

    /// Compiles every pattern under `config`, failing on the first that does not
    /// compile before any line is searched, then resolves the tree over the lines of
    /// `content` as `resolve_with` does.
    pub fn resolve(&mut self, content: &[u8], index: &LineIndex, config: &RegexConfig) -> (r:
        Result<(), ResolveError>)
        requires
            old(self).wf(),
            index.source() == content@,
        ensures
            final(self).wf(),
            final(self).same_rules(*old(self)),
            r is Ok <==> all_compile(*old(self), *config),
            r matches Err(e) ==> exists|j: int|
                0 <= j < old(self).node_count_spec() && e.label@ == old(self).label_of(j)
                    && e.error.pattern@ == #[trigger] old(self).pattern_of(j),
            r is Err ==> *final(self) == *old(self),
            r is Ok ==> final(self).cursor_set(0) == every_line(line_ends(content@).len()),
            r is Ok ==> forall|j: int|
                1 <= j < final(self).node_count_spec() ==> refines(
                    #[trigger] final(self).cursor_set(j),
                    final(self).cursor_set(final(self).parent_of(j)),
                ) && within_lines(final(self).cursor_set(j), line_ends(content@))
                    && final(self).cursor_set(j) == narrowed(
                    final(self).cursor_set(final(self).parent_of(j)),
                    regex_results(
                        final(self).pattern_of(j),
                        *config,
                        final(self).cursor_set(final(self).parent_of(j)),
                        content@,
                    ),
                ),
    {
        let matchers = match self.compile(config) {
            Ok(ms) => ms,
            Err(e) => return Err(e),
        };
        let searched = self.resolve_with(&matchers, content, index);
        assert(searched is Ok);
        proof {
            assert forall|j: int| 1 <= j < self.node_count_spec() implies #[trigger] results_for(
                matchers@[j],
                self.cursor_set(self.parent_of(j)),
                content@,
            ) == regex_results(
                self.pattern_of(j),
                *config,
                self.cursor_set(self.parent_of(j)),
                content@,
            ) by {
                assert(results_for(matchers@[j], self.cursor_set(self.parent_of(j)), content@)
                    =~= regex_results(
                    self.pattern_of(j),
                    *config,
                    self.cursor_set(self.parent_of(j)),
                    content@,
                ));
            }
        }
        Ok(())
    }
}

/// Every pattern of `t` compiles under `config`.
pub open spec fn all_compile(t: PatternTree, config: RegexConfig) -> bool {
    forall|j: int|
        0 <= j < t.node_count_spec() ==> regex_compiles(
            #[trigger] t.pattern_of(j),
            folds_case(config, t.pattern_of(j)),
            config,
        )
}

/// A pattern of a tree that did not compile, with the label of its node.
#[derive(Debug)]
pub struct ResolveError {
    pub label: String,
    pub error: PatternError,
}

/// The preset rules: a root that holds every line, labelled `parent`, with the rule
/// `xxx` under it.
pub fn get_patterns() -> (t: PatternTree)
    ensures
        t.wf(),
        t.node_count_spec() == 2,
        t.pattern_of(0) == ""@,
        t.label_of(0) == "parent"@,
        t.cursor_set(0).len() == 0,
        t.parent_of(1) == 0,
        t.pattern_of(1) == "xxx"@,
        t.label_of(1) == "xxx"@,
        t.cursor_set(1).len() == 0,
{
    let mut t = PatternTree::new("", "parent");
    let ghost root_only = t;
    t.add_child(0, "xxx", "xxx");
    assert(t.parent_of(0) == root_only.parent_of(0));
    t
}

} // verus!
