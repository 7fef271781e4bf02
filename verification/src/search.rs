//! Search index: compiles a pattern, flags matching nodes with `hit`, and
//! computes the disjoint coverage count of a manual pattern.
//!
//! Coverage sums `own`, never `total`: own counts are disjoint across nodes,
//! so a match spanning both an ancestor and a descendant is not counted
//! twice.

use crate::flame::child_sum;
use crate::flame::counts_ok;
use crate::flame::node_ok;
use crate::flame::own_sum;
use crate::flame::FlameGraph;
use crate::flame::StackIdentifier;
use crate::flame::StackNode;
use vstd::prelude::*;
use vstd::string::StringSliceAdditionalSpecFns;

verus! {

/// Does the regex engine accept `pattern`?  A function of the pattern text
/// alone: syntax and the default size limit depend on nothing else.
pub uninterp spec fn pattern_ok(pattern: Seq<char>) -> bool;

/// Does the regex denoted by a valid `pattern` match anywhere inside `text`?
pub uninterp spec fn regex_matches(pattern: Seq<char>, text: Seq<char>) -> bool;

/// Relies on regex::Regex::new: compilation succeeds or fails depending on
/// the pattern text alone.
#[verifier::external_body]
fn regex_compiles(pattern: &str) -> (r: bool)
    ensures
        r == pattern_ok(pattern@),
{
    regex::Regex::new(pattern).is_ok()
}

/// Relies on regex::Regex::new and regex::Regex::is_match: for a valid
/// pattern, whether it matches somewhere in `text` is a function of the two
/// strings alone.
#[verifier::external_body]
fn regex_match(pattern: &str, text: &str) -> (r: Option<bool>)
    ensures
        r is Some <==> pattern_ok(pattern@),
        r is Some ==> r->0 == regex_matches(pattern@, text@),
{
    match regex::Regex::new(pattern) {
        Ok(re) => Some(re.is_match(text)),
        Err(_) => None,
    }
}

/// The successive non-overlapping match ranges (byte offsets into the
/// UTF-8 encoding) that a valid `pattern` finds in `text`, left to right.
pub uninterp spec fn regex_find_ranges(pattern: Seq<char>, text: Seq<char>) -> Seq<(int, int)>;

/// Relies on regex::Regex::new and regex::Regex::find_iter: for a valid
/// pattern, the successive non-overlapping match ranges are a function of
/// the two strings alone; they lie within the text's byte length, run left
/// to right without overlapping, and there is at least one exactly when
/// the pattern matches.
#[verifier::external_body]
fn regex_find(pattern: &str, text: &str) -> (r: Option<Vec<(usize, usize)>>)
    ensures
        r is Some <==> pattern_ok(pattern@),
        r is Some ==> r->0@.map_values(|p: (usize, usize)| (p.0 as int, p.1 as int))
            == regex_find_ranges(pattern@, text@),
        r is Some ==> forall|i: int|
            0 <= i < r->0@.len() ==> (#[trigger] r->0@[i]).0 <= r->0@[i].1 && r->0@[i].1
                <= text.spec_bytes().len(),
        r is Some ==> forall|i: int|
            0 <= i < r->0@.len() - 1 ==> (#[trigger] r->0@[i]).1 <= r->0@[i + 1].0,
        r is Some ==> ((r->0@.len() > 0) <==> regex_matches(pattern@, text@)),
{
    match regex::Regex::new(pattern) {
        Ok(re) => Some(re.find_iter(text).map(|m| (m.start(), m.end())).collect()),
        Err(_) => None,
    }
}

/// The alternating non-match and match segments of a text of byte length
/// `n`, cut at the given ranges: from position `pos` and range `i` on,
/// first the gap before the next range (not a match), then the range
/// itself (a match), and after the last range the remaining tail; empty
/// pieces are dropped.
pub open spec fn segments_of(pos: int, n: int, ranges: Seq<(int, int)>, i: int) -> Seq<
    (int, int, bool),
>
    decreases ranges.len() - i,
{
    if i < 0 || i >= ranges.len() {
        if pos < n {
            seq![(pos, n, false)]
        } else {
            Seq::empty()
        }
    } else {
        let s = ranges[i].0;
        let e = ranges[i].1;
        let gap: Seq<(int, int, bool)> = if pos < s {
            seq![(pos, s, false)]
        } else {
            Seq::empty()
        };
        let hit: Seq<(int, int, bool)> = if s < e {
            seq![(s, e, true)]
        } else {
            Seq::empty()
        };
        gap + hit + segments_of(e, n, ranges, i + 1)
    }
}

/// Cut `[0, text_len)` into non-match and match byte ranges along the
/// pattern's match ranges of a text: the presentation layer styles each
/// piece.  `None` exactly for an invalid pattern.
pub fn highlight_segments(pattern: &str, text: &str) -> (r: Option<Vec<(usize, usize, bool)>>)
    ensures
        r is Some <==> pattern_ok(pattern@),
        r is Some ==> r->0@.map_values(|t: (usize, usize, bool)| (t.0 as int, t.1 as int, t.2))
            == segments_of(
            0,
            text.spec_bytes().len() as int,
            regex_find_ranges(pattern@, text@),
            0,
        ),
{
    let ranges = match regex_find(pattern, text) {
        None => {
            return None;
        },
        Some(v) => v,
    };
    let ghost rs = regex_find_ranges(pattern@, text@);
    let n = text.as_bytes().len();
    let mut segs: Vec<(usize, usize, bool)> = Vec::new();
    let mut pos: usize = 0;
    let mut i: usize = 0;
    let m = ranges.len();
    while i < m
        invariant
            m == ranges@.len(),
            i <= m,
            n == text.spec_bytes().len(),
            rs == ranges@.map_values(|p: (usize, usize)| (p.0 as int, p.1 as int)),
            forall|j: int|
                0 <= j < m ==> (#[trigger] ranges@[j]).0 <= ranges@[j].1 && ranges@[j].1 <= n,
            forall|j: int| 0 <= j < m - 1 ==> (#[trigger] ranges@[j]).1 <= ranges@[j + 1].0,
            i < m ==> pos <= ranges@[i as int].0 || pos == ranges@[i as int].1,
            i > 0 ==> pos == ranges@[i - 1].1,
            i == 0 ==> pos == 0,
            pos <= n,
            segments_of(0, n as int, rs, 0) == segs@.map_values(
                |t: (usize, usize, bool)| (t.0 as int, t.1 as int, t.2),
            ) + segments_of(pos as int, n as int, rs, i as int),
        decreases m - i,
    {
        let (s, e) = ranges[i];
        let ghost pre = segs@;
        proof {
            assert(rs[i as int] == (s as int, e as int));
            if i > 0 {
                assert(ranges@[i - 1].1 <= ranges@[i as int].0);
            }
        }
        if pos < s {
            segs.push((pos, s, false));
        }
        if s < e {
            segs.push((s, e, true));
        }
        proof {
            let f = |t: (usize, usize, bool)| (t.0 as int, t.1 as int, t.2);
            let gap: Seq<(int, int, bool)> = if (pos as int) < s {
                seq![(pos as int, s as int, false)]
            } else {
                Seq::empty()
            };
            let hit: Seq<(int, int, bool)> = if (s as int) < e {
                seq![(s as int, e as int, true)]
            } else {
                Seq::empty()
            };
            assert(segs@.map_values(f) =~= pre.map_values(f) + gap + hit);
            assert(segments_of(pos as int, n as int, rs, i as int) == gap + hit + segments_of(
                e as int,
                n as int,
                rs,
                i + 1,
            ));
            assert(pre.map_values(f) + (gap + hit + segments_of(e as int, n as int, rs, i + 1))
                =~= (pre.map_values(f) + gap + hit) + segments_of(e as int, n as int, rs, i + 1));
        }
        pos = e;
        i += 1;
    }
    if pos < n {
        let ghost pre = segs@;
        segs.push((pos, n, false));
        proof {
            let f = |t: (usize, usize, bool)| (t.0 as int, t.1 as int, t.2);
            assert(segments_of(pos as int, n as int, rs, i as int) =~= seq![
                (pos as int, n as int, false),
            ]);
            assert(segs@.map_values(f) =~= pre.map_values(f) + seq![
                (pos as int, n as int, false),
            ]);
        }
    } else {
        proof {
            assert(segments_of(pos as int, n as int, rs, i as int) =~= Seq::<
                (int, int, bool),
            >::empty());
        }
    }
    proof {
        let f = |t: (usize, usize, bool)| (t.0 as int, t.1 as int, t.2);
        assert(segs@.map_values(f) + Seq::<(int, int, bool)>::empty() =~= segs@.map_values(f));
    }
    Some(segs)
}

/// Why a search request was rejected.
#[derive(Clone, Copy, Debug, PartialEq, Eq, Structural)]
pub enum SearchError {
    /// The pattern text is not a valid regular expression.
    InvalidPattern,
}

/// A search pattern: the raw text and whether the user typed it (manual) or
/// it was derived from the current selection (auto).  Only manual patterns
/// drive coverage statistics.
pub struct SearchPattern {
    pub text: String,
    pub is_manual: bool,
}

impl SearchPattern {
    /// Build a pattern, accepting exactly the texts the regex engine accepts.
    pub fn compile(text: &str, is_manual: bool) -> (r: Result<SearchPattern, SearchError>)
        ensures
            r is Ok <==> pattern_ok(text@),
            r is Ok ==> r->Ok_0.text@ == text@ && r->Ok_0.is_manual == is_manual,
            r is Err ==> r->Err_0 == SearchError::InvalidPattern,
    {
        if regex_compiles(text) {
            Ok(SearchPattern { text: text.to_owned(), is_manual })
        } else {
            Err(SearchError::InvalidPattern)
        }
    }
}

/// Sum of `own` over the nodes whose `hit` flag is set.
pub open spec fn hit_own_sum(nodes: Seq<StackNode>) -> int
    decreases nodes.len(),
{
    if nodes.len() == 0 {
        0
    } else {
        hit_own_sum(nodes.drop_last()) + (if nodes.last().hit {
            nodes.last().own as int
        } else {
            0
        })
    }
}

/// The hit-sum never exceeds the own-sum.
pub proof fn lemma_hit_le_own(nodes: Seq<StackNode>)
    ensures
        hit_own_sum(nodes) <= own_sum(nodes),
        hit_own_sum(nodes) >= 0,
    decreases nodes.len(),
{
    if nodes.len() > 0 {
        lemma_hit_le_own(nodes.drop_last());
    }
}

/// The own-sum splits at any prefix boundary.
pub proof fn lemma_own_sum_split(nodes: Seq<StackNode>, k: int)
    requires
        0 <= k <= nodes.len(),
    ensures
        own_sum(nodes) == own_sum(nodes.subrange(0, k)) + own_sum(
            nodes.subrange(k, nodes.len() as int),
        ),
    decreases nodes.len() - k,
{
    if k == nodes.len() {
        assert(nodes.subrange(0, k) =~= nodes);
    } else {
        lemma_own_sum_split(nodes, k + 1);
        assert(nodes.subrange(0, k + 1).drop_last() =~= nodes.subrange(0, k));
        assert(own_sum(nodes.subrange(0, k + 1)) == own_sum(nodes.subrange(0, k)) + nodes[k].own);
        lemma_own_sum_rest_step(nodes, k);
    }
}

/// Peeling the first element off a suffix own-sum.
proof fn lemma_own_sum_rest_step(nodes: Seq<StackNode>, k: int)
    requires
        0 <= k < nodes.len(),
    ensures
        own_sum(nodes.subrange(k, nodes.len() as int)) == nodes[k].own + own_sum(
            nodes.subrange(k + 1, nodes.len() as int),
        ),
    decreases nodes.len() - k,
{
    let s = nodes.subrange(k, nodes.len() as int);
    if s.len() == 1 {
        assert(own_sum(s.drop_last()) == 0);
    } else {
        assert(s.drop_last() =~= nodes.subrange(k, nodes.len() - 1));
        lemma_own_sum_rest_step(nodes.subrange(0, nodes.len() - 1), k);
        assert(nodes.subrange(0, nodes.len() - 1).subrange(k, nodes.len() - 1) =~= nodes.subrange(
            k,
            nodes.len() - 1,
        ));
        assert(nodes.subrange(0, nodes.len() - 1).subrange(k + 1, nodes.len() - 1) =~= nodes
            .subrange(k + 1, nodes.len() - 1));
        assert(nodes.subrange(k + 1, nodes.len() as int).drop_last() =~= nodes.subrange(
            k + 1,
            nodes.len() - 1,
        ));
    }
}

/// The own-sum of any arena slice is non-negative.
pub proof fn lemma_own_sum_nonneg(nodes: Seq<StackNode>)
    ensures
        own_sum(nodes) >= 0,
    decreases nodes.len(),
{
    if nodes.len() > 0 {
        lemma_own_sum_nonneg(nodes.drop_last());
    }
}

/// The hit-sum only depends on `hit` and `own`, position by position.
pub proof fn lemma_hit_own_sum_congruence(n1: Seq<StackNode>, n2: Seq<StackNode>)
    requires
        n1.len() == n2.len(),
        forall|i: int| 0 <= i < n1.len() ==> n2[i].own == n1[i].own && n2[i].hit == n1[i].hit,
    ensures
        hit_own_sum(n2) == hit_own_sum(n1),
    decreases n1.len(),
{
    if n1.len() > 0 {
        lemma_hit_own_sum_congruence(n1.drop_last(), n2.drop_last());
    }
}

impl FlameGraph {
    /// Every node's `hit` flag agrees with `pattern` matched against the
    /// node's display name.
    pub open spec fn hits_match(self, pattern: Seq<char>) -> bool {
        forall|i: int|
            0 <= i < self.nodes@.len() ==> #[trigger] self.nodes@[i].hit == regex_matches(
                pattern,
                self.nodes@[i].key.name@,
            )
    }

    /// Recompute the `hit` flag of every node against `pattern`, and for a
    /// manual pattern recompute the coverage count (the sum of `own` over
    /// matched nodes).  An invalid pattern is rejected and the previous hit
    /// state and coverage are retained untouched.
    pub fn apply_pattern(&mut self, pattern: &SearchPattern) -> (r: Result<(), SearchError>)
        requires
            old(self).wf(),
        ensures
            final(self).wf(),
            r is Ok <==> pattern_ok(pattern.text@),
            r is Err ==> *final(self) == *old(self) && r->Err_0 == SearchError::InvalidPattern,
            r is Ok ==> final(self).hits_match(pattern.text@),
            r is Ok ==> final(self).nodes@.len() == old(self).nodes@.len(),
            r is Ok ==> (forall|i: int|
                0 <= i < old(self).nodes@.len() ==> {
                    &&& (#[trigger] final(self).nodes@[i]).key == old(self).nodes@[i].key
                    &&& final(self).nodes@[i].id == old(self).nodes@[i].id
                    &&& final(self).nodes@[i].parent == old(self).nodes@[i].parent
                    &&& final(self).nodes@[i].children == old(self).nodes@[i].children
                    &&& final(self).nodes@[i].own == old(self).nodes@[i].own
                    &&& final(self).nodes@[i].total == old(self).nodes@[i].total
                    &&& final(self).nodes@[i].level == old(self).nodes@[i].level
                }),
            r is Ok && pattern.is_manual ==> final(self).hit_coverage == Some(
                hit_own_sum(final(self).nodes@) as u64,
            ),
            r is Ok && !pattern.is_manual ==> final(self).hit_coverage == old(self).hit_coverage,
    {
        if !regex_compiles(&pattern.text) {
            return Err(SearchError::InvalidPattern);
        }
        let ghost orig = self.nodes@;
        let mut cov: u64 = 0;
        let mut k: usize = 0;
        let n = self.nodes.len();
        while k < n
            invariant
                self.wf(),
                pattern_ok(pattern.text@),
                n == self.nodes@.len(),
                k <= n,
                orig.len() == n,
                forall|i: int|
                    0 <= i < n ==> {
                        &&& (#[trigger] self.nodes@[i]).key == orig[i].key
                        &&& self.nodes@[i].id == orig[i].id
                        &&& self.nodes@[i].parent == orig[i].parent
                        &&& self.nodes@[i].children == orig[i].children
                        &&& self.nodes@[i].own == orig[i].own
                        &&& self.nodes@[i].total == orig[i].total
                        &&& self.nodes@[i].level == orig[i].level
                    },
                forall|i: int|
                    k <= i < n ==> (#[trigger] self.nodes@[i].hit) == orig[i].hit,
                forall|i: int|
                    0 <= i < k ==> (#[trigger] self.nodes@[i].hit) == regex_matches(
                        pattern.text@,
                        self.nodes@[i].key.name@,
                    ),
                cov as int == hit_own_sum(self.nodes@.subrange(0, k as int)),
                self.hit_coverage == old(self).hit_coverage,
            decreases n - k,
        {
            let ghost pre = self.nodes@;
            let name_matches = regex_match(&pattern.text, self.nodes[k].key.name.as_str());
            let hit = name_matches.unwrap();
            self.nodes[k].hit = hit;
            proof {
                let cur = self.nodes@;
                assert forall|i: int| 0 <= i < cur.len() implies #[trigger] node_ok(cur, i) by {
                    assert(node_ok(pre, i));
                    assert forall|pp: int, ii: int|
                        0 <= pp < pre.len() && crate::flame::in_children(pre, pp, ii)
                            implies crate::flame::in_children(cur, pp, ii) by {
                        let kk = choose|kk: int|
                            0 <= kk < pre[pp].children@.len() && pre[pp].children@[kk] == ii;
                        assert(cur[pp].children@[kk] == ii);
                    }
                }
                assert forall|i: int| 0 <= i < cur.len() implies #[trigger] counts_ok(cur, i) by {
                    assert(counts_ok(pre, i));
                    assert(node_ok(pre, i));
                    crate::flame::lemma_child_sum_congruence(pre, cur, pre[i].children@);
                }
                crate::flame::lemma_own_sum_congruence(pre, cur);
                // coverage stays within u64 range: it is bounded by the own-sum,
                // which the invariant ties to the root total
                lemma_own_sum_split(cur, k + 1);
                lemma_own_sum_nonneg(cur.subrange(k + 1, cur.len() as int));
                lemma_hit_le_own(cur.subrange(0, k as int));
                assert(cur.subrange(0, k + 1).drop_last() =~= cur.subrange(0, k as int));
                assert(hit_own_sum(cur.subrange(0, k as int)) == hit_own_sum(
                    pre.subrange(0, k as int),
                )) by {
                    assert(cur.subrange(0, k as int) =~= pre.subrange(0, k as int));
                }
                lemma_own_sum_split(cur, k as int);
                assert(own_sum(cur.subrange(0, k as int)) + own_sum(
                    cur.subrange(k as int, cur.len() as int),
                ) == own_sum(cur));
                assert(hit_own_sum(cur.subrange(0, k + 1)) <= own_sum(cur.subrange(0, k + 1)))
                    by {
                    lemma_hit_le_own(cur.subrange(0, k + 1));
                }
                lemma_own_sum_nonneg(cur.subrange(k + 1, cur.len() as int));
            }
            if hit {
                let ow = self.nodes[k].own;
                proof {
                    let cur = self.nodes@;
                    lemma_own_sum_split(cur, k + 1);
                    lemma_own_sum_nonneg(cur.subrange(k + 1, cur.len() as int));
                    lemma_hit_le_own(cur.subrange(0, k + 1));
                    assert(cov + ow <= own_sum(cur.subrange(0, k + 1)));
                    assert(own_sum(cur) == own_sum(cur.subrange(0, k + 1)) + own_sum(
                        cur.subrange(k + 1, cur.len() as int),
                    ));
                }
                cov = cov + ow;
            }
            k = k + 1;
        }
        proof {
            assert(self.nodes@.subrange(0, n as int) =~= self.nodes@);
        }
        if pattern.is_manual {
            self.hit_coverage = Some(cov);
        }
        Ok(())
    }

    /// Reset all `hit` flags and forget the coverage statistic.
    pub fn clear_search(&mut self)
        requires
            old(self).wf(),
        ensures
            final(self).wf(),
            final(self).nodes@.len() == old(self).nodes@.len(),
            forall|i: int|
                0 <= i < old(self).nodes@.len() ==> {
                    &&& (#[trigger] final(self).nodes@[i]).key == old(self).nodes@[i].key
                    &&& final(self).nodes@[i].id == old(self).nodes@[i].id
                    &&& final(self).nodes@[i].parent == old(self).nodes@[i].parent
                    &&& final(self).nodes@[i].children == old(self).nodes@[i].children
                    &&& final(self).nodes@[i].own == old(self).nodes@[i].own
                    &&& final(self).nodes@[i].total == old(self).nodes@[i].total
                    &&& final(self).nodes@[i].level == old(self).nodes@[i].level
                    &&& final(self).nodes@[i].hit == false
                },
            final(self).hit_coverage is None,
    {
        let n = self.nodes.len();
        let ghost orig = self.nodes@;
        let mut k: usize = 0;
        while k < n
            invariant
                self.wf(),
                n == self.nodes@.len(),
                k <= n,
                orig.len() == n,
                forall|i: int|
                    0 <= i < n ==> {
                        &&& (#[trigger] self.nodes@[i]).key == orig[i].key
                        &&& self.nodes@[i].id == orig[i].id
                        &&& self.nodes@[i].parent == orig[i].parent
                        &&& self.nodes@[i].children == orig[i].children
                        &&& self.nodes@[i].own == orig[i].own
                        &&& self.nodes@[i].total == orig[i].total
                        &&& self.nodes@[i].level == orig[i].level
                    },
                forall|i: int| 0 <= i < k ==> (#[trigger] self.nodes@[i].hit) == false,
            decreases n - k,
        {
            let ghost pre = self.nodes@;
            self.nodes[k].hit = false;
            proof {
                let cur = self.nodes@;
                assert forall|i: int| 0 <= i < cur.len() implies #[trigger] node_ok(cur, i) by {
                    assert(node_ok(pre, i));
                    assert forall|pp: int, ii: int|
                        0 <= pp < pre.len() && crate::flame::in_children(pre, pp, ii)
                            implies crate::flame::in_children(cur, pp, ii) by {
                        let kk = choose|kk: int|
                            0 <= kk < pre[pp].children@.len() && pre[pp].children@[kk] == ii;
                        assert(cur[pp].children@[kk] == ii);
                    }
                }
                assert forall|i: int| 0 <= i < cur.len() implies #[trigger] counts_ok(cur, i) by {
                    assert(counts_ok(pre, i));
                    assert(node_ok(pre, i));
                    crate::flame::lemma_child_sum_congruence(pre, cur, pre[i].children@);
                }
                crate::flame::lemma_own_sum_congruence(pre, cur);
            }
            k = k + 1;
        }
        self.hit_coverage = None;
    }
}

/// The first hit node with identifier in `[lo, hi)`, if any.
pub open spec fn first_hit_in(nodes: Seq<StackNode>, lo: int, hi: int) -> Option<int>
    decreases hi - lo,
{
    if lo < 0 || lo >= hi || hi > nodes.len() {
        None
    } else if nodes[lo].hit {
        Some(lo)
    } else {
        first_hit_in(nodes, lo + 1, hi)
    }
}

/// The last hit node with identifier in `[lo, hi)`, if any.
pub open spec fn last_hit_in(nodes: Seq<StackNode>, lo: int, hi: int) -> Option<int>
    decreases hi - lo,
{
    if lo < 0 || lo >= hi || hi > nodes.len() {
        None
    } else if nodes[hi - 1].hit {
        Some(hi - 1)
    } else {
        last_hit_in(nodes, lo, hi - 1)
    }
}

impl FlameGraph {
    /// The next matched node after `from` in identifier order, wrapping
    /// around to the beginning; `None` when nothing matches.
    pub fn next_match(&self, from: StackIdentifier) -> (r: Option<StackIdentifier>)
        requires
            from < self.nodes@.len(),
        ensures
            r == (match first_hit_in(self.nodes@, from + 1, self.nodes@.len() as int) {
                Some(i) => Some(i as StackIdentifier),
                None => match first_hit_in(self.nodes@, 0, from + 1) {
                    Some(i) => Some(i as StackIdentifier),
                    None => None::<StackIdentifier>,
                },
            }),
    {
        let n = self.nodes.len();
        match self.scan_hit_forward(from + 1, n) {
            Some(i) => Some(i),
            None => self.scan_hit_forward(0, from + 1),
        }
    }

    /// The previous matched node before `from` in identifier order,
    /// wrapping around to the end; `None` when nothing matches.
    pub fn prev_match(&self, from: StackIdentifier) -> (r: Option<StackIdentifier>)
        requires
            from < self.nodes@.len(),
        ensures
            r == (match last_hit_in(self.nodes@, 0, from as int) {
                Some(i) => Some(i as StackIdentifier),
                None => match last_hit_in(self.nodes@, from as int, self.nodes@.len() as int) {
                    Some(i) => Some(i as StackIdentifier),
                    None => None::<StackIdentifier>,
                },
            }),
    {
        let n = self.nodes.len();
        match self.scan_hit_backward(0, from) {
            Some(i) => Some(i),
            None => self.scan_hit_backward(from, n),
        }
    }

    /// First hit in `[lo, hi)`, scanned forward.
    fn scan_hit_forward(&self, lo: usize, hi: usize) -> (r: Option<StackIdentifier>)
        requires
            lo <= hi,
            hi <= self.nodes@.len(),
        ensures
            r == (match first_hit_in(self.nodes@, lo as int, hi as int) {
                Some(i) => Some(i as StackIdentifier),
                None => None::<StackIdentifier>,
            }),
    {
        let mut k = lo;
        while k < hi
            invariant
                lo <= k <= hi,
                hi <= self.nodes@.len(),
                first_hit_in(self.nodes@, lo as int, hi as int) == first_hit_in(
                    self.nodes@,
                    k as int,
                    hi as int,
                ),
            decreases hi - k,
        {
            if self.nodes[k].hit {
                return Some(k);
            }
            k += 1;
        }
        None
    }

    /// Last hit in `[lo, hi)`, scanned backward.
    fn scan_hit_backward(&self, lo: usize, hi: usize) -> (r: Option<StackIdentifier>)
        requires
            lo <= hi,
            hi <= self.nodes@.len(),
        ensures
            r == (match last_hit_in(self.nodes@, lo as int, hi as int) {
                Some(i) => Some(i as StackIdentifier),
                None => None::<StackIdentifier>,
            }),
    {
        let mut k = hi;
        while k > lo
            invariant
                lo <= k <= hi,
                hi <= self.nodes@.len(),
                last_hit_in(self.nodes@, lo as int, hi as int) == last_hit_in(
                    self.nodes@,
                    lo as int,
                    k as int,
                ),
            decreases k,
        {
            if self.nodes[k - 1].hit {
                return Some(k - 1);
            }
            k -= 1;
        }
        None
    }
}

/// Coverage never exceeds the root total: own counts are disjoint, and the
/// tree invariant makes the root total their sum.
pub proof fn lemma_coverage_bounded(g: FlameGraph)
    requires
        g.wf(),
    ensures
        hit_own_sum(g.nodes@) <= g.nodes@[0].total,
{
    lemma_hit_le_own(g.nodes@);
}

/// Compiling the same pattern twice is idempotent: two arenas with the same
/// names and own counts whose hit flags both agree with one pattern carry
/// identical hit sets and identical coverage.
pub proof fn lemma_search_idempotent(g1: FlameGraph, g2: FlameGraph, pattern: Seq<char>)
    requires
        g1.hits_match(pattern),
        g2.hits_match(pattern),
        g1.nodes@.len() == g2.nodes@.len(),
        forall|i: int|
            0 <= i < g1.nodes@.len() ==> (#[trigger] g1.nodes@[i]).key.name@
                == g2.nodes@[i].key.name@ && g1.nodes@[i].own == g2.nodes@[i].own,
    ensures
        forall|i: int| 0 <= i < g1.nodes@.len() ==> (#[trigger] g1.nodes@[i]).hit
            == g2.nodes@[i].hit,
        hit_own_sum(g1.nodes@) == hit_own_sum(g2.nodes@),
{
    assert forall|i: int|
        0 <= i < g1.nodes@.len() implies (#[trigger] g1.nodes@[i]).hit == g2.nodes@[i].hit by {
        assert(g1.nodes@[i].hit == regex_matches(pattern, g1.nodes@[i].key.name@));
        assert(g2.nodes@[i].hit == regex_matches(pattern, g2.nodes@[i].key.name@));
    }
    lemma_hit_own_sum_congruence(g1.nodes@, g2.nodes@);
}

} // verus!
