//! Stack arena: the flame-graph tree.
//!
//! All nodes live in one vector, addressed by stable integer identifiers that
//! are assigned monotonically and never reused.  A node's children are kept in
//! first-seen order; merging of traces is decided by frame identity
//! `(name, file, line)`, never by position.

use vstd::prelude::*;

verus! {

/// Stable handle of one node in the arena.
pub type StackIdentifier = usize;

/// Identity of one call-stack entry: function name, file, line.
#[derive(Clone, Debug)]
pub struct FrameKey {
    pub name: String,
    pub file: String,
    pub line: u64,
}

impl FrameKey {
    /// Mathematical identity of the frame; two frames merge exactly when
    /// their identities are equal.
    pub open spec fn ident(self) -> (Seq<char>, Seq<char>, u64) {
        (self.name@, self.file@, self.line)
    }

    /// A copy with the same identity.
    pub fn duplicate(&self) -> (r: FrameKey)
        ensures
            r.ident() == self.ident(),
    {
        FrameKey { name: self.name.clone(), file: self.file.clone(), line: self.line }
    }

    pub fn key_eq(&self, other: &FrameKey) -> (r: bool)
        ensures
            r == (self.ident() == other.ident()),
    {
        let same = self.name == other.name && self.file == other.file && self.line == other.line;
        proof {
            if same {
                assert(self.ident() == other.ident());
            }
        }
        same
    }
}

/// One node of the flame-graph tree.
#[derive(Clone, Debug)]
pub struct StackNode {
    pub id: StackIdentifier,
    pub key: FrameKey,
    /// Back-reference by id; the synthetic root has none.
    pub parent: Option<StackIdentifier>,
    /// Child ids in first-seen order.
    pub children: Vec<StackIdentifier>,
    /// Samples in which this node was the leaf frame.
    pub own: u64,
    /// Own samples plus all descendants' totals.
    pub total: u64,
    /// Depth; the root is at level 0.
    pub level: usize,
    /// Cached search flag: does the current pattern match this node's name.
    pub hit: bool,
}

/// Sum of `total` over a sequence of child ids.
pub open spec fn child_sum(nodes: Seq<StackNode>, ch: Seq<usize>) -> int
    decreases ch.len(),
{
    if ch.len() == 0 {
        0
    } else {
        child_sum(nodes, ch.drop_last()) + nodes[ch.last() as int].total
    }
}

/// Sum of `own` over all nodes of the arena.
pub open spec fn own_sum(nodes: Seq<StackNode>) -> int
    decreases nodes.len(),
{
    if nodes.len() == 0 {
        0
    } else {
        own_sum(nodes.drop_last()) + nodes.last().own
    }
}

/// Does `i` occur in the children list of node `p`?
pub open spec fn in_children(nodes: Seq<StackNode>, p: int, i: int) -> bool {
    exists|k: int| 0 <= k < nodes[p].children@.len() && nodes[p].children@[k] == i
}

/// Structural well-formedness of node `i`: identifiers, parent and child
/// links, levels, and distinctness of children.
pub open spec fn node_ok(nodes: Seq<StackNode>, i: int) -> bool {
    &&& nodes[i].id == i
    &&& nodes[i].level <= i
    &&& (i == 0 <==> nodes[i].parent is None)
    &&& (i == 0 ==> nodes[i].level == 0)
    &&& (i > 0 ==> {
        let p = nodes[i].parent->0 as int;
        &&& 0 <= p < i
        &&& in_children(nodes, p, i)
    })
    &&& (forall|k: int|
        0 <= k < nodes[i].children@.len() ==> {
            let c = #[trigger] nodes[i].children@[k] as int;
            &&& i < c < nodes.len()
            &&& nodes[c].parent is Some
            &&& nodes[c].parent->0 == i
            &&& nodes[c].level == nodes[i].level + 1
        })
    &&& (forall|k1: int, k2: int|
        0 <= k1 < k2 < nodes[i].children@.len() ==> nodes[i].children@[k1]
            != nodes[i].children@[k2])
}

/// Counting invariant of node `i`: its total is its own count plus the sum
/// of its children's totals.
pub open spec fn counts_ok(nodes: Seq<StackNode>, i: int) -> bool {
    nodes[i].total as int == nodes[i].own + child_sum(nodes, nodes[i].children@)
}

/// The sum of totals over any children list is non-negative.
pub proof fn lemma_child_sum_nonneg(nodes: Seq<StackNode>, ch: Seq<usize>)
    ensures
        child_sum(nodes, ch) >= 0,
    decreases ch.len(),
{
    if ch.len() > 0 {
        lemma_child_sum_nonneg(nodes, ch.drop_last());
    }
}

/// Each member's total is bounded by the sum over the list.
pub proof fn lemma_child_sum_member(nodes: Seq<StackNode>, ch: Seq<usize>, k: int)
    requires
        0 <= k < ch.len(),
    ensures
        child_sum(nodes, ch) >= nodes[ch[k] as int].total,
    decreases ch.len(),
{
    if k == ch.len() - 1 {
        lemma_child_sum_nonneg(nodes, ch.drop_last());
    } else {
        lemma_child_sum_member(nodes, ch.drop_last(), k);
    }
}

/// The sum only depends on the totals of the listed nodes.
pub proof fn lemma_child_sum_congruence(n1: Seq<StackNode>, n2: Seq<StackNode>, ch: Seq<usize>)
    requires
        forall|k: int|
            0 <= k < ch.len() ==> n2[#[trigger] ch[k] as int].total == n1[ch[k] as int].total,
    ensures
        child_sum(n2, ch) == child_sum(n1, ch),
    decreases ch.len(),
{
    if ch.len() > 0 {
        lemma_child_sum_congruence(n1, n2, ch.drop_last());
    }
}

/// Raising one listed node's total by `delta` raises the sum by `delta`,
/// provided the node occurs exactly once (witness position `k0`).
pub proof fn lemma_child_sum_update(
    n1: Seq<StackNode>,
    n2: Seq<StackNode>,
    ch: Seq<usize>,
    c: usize,
    k0: int,
    delta: int,
)
    requires
        0 <= k0 < ch.len(),
        ch[k0] == c,
        forall|k: int| 0 <= k < ch.len() && k != k0 ==> ch[k] != c,
        n2[c as int].total == n1[c as int].total + delta,
        forall|k: int|
            0 <= k < ch.len() && ch[k] != c ==> n2[#[trigger] ch[k] as int].total == n1[ch[k]
                as int].total,
    ensures
        child_sum(n2, ch) == child_sum(n1, ch) + delta,
    decreases ch.len(),
{
    if k0 == ch.len() - 1 {
        lemma_child_sum_congruence(n1, n2, ch.drop_last());
    } else {
        lemma_child_sum_update(n1, n2, ch.drop_last(), c, k0, delta);
    }
}

/// Appending a child id adds that node's total to the sum.
pub proof fn lemma_child_sum_push(nodes: Seq<StackNode>, ch: Seq<usize>, c: usize)
    ensures
        child_sum(nodes, ch.push(c)) == child_sum(nodes, ch) + nodes[c as int].total,
{
    assert(ch.push(c).drop_last() =~= ch);
}

/// The own-sum only depends on the `own` fields, position by position.
pub proof fn lemma_own_sum_congruence(n1: Seq<StackNode>, n2: Seq<StackNode>)
    requires
        n1.len() == n2.len(),
        forall|i: int| 0 <= i < n1.len() ==> n2[i].own == n1[i].own,
    ensures
        own_sum(n2) == own_sum(n1),
    decreases n1.len(),
{
    if n1.len() > 0 {
        lemma_own_sum_congruence(n1.drop_last(), n2.drop_last());
    }
}

/// Raising the `own` of the node at `i0` by `delta` raises the own-sum by
/// `delta`.
pub proof fn lemma_own_sum_update(n1: Seq<StackNode>, n2: Seq<StackNode>, i0: int, delta: int)
    requires
        n1.len() == n2.len(),
        0 <= i0 < n1.len(),
        n2[i0].own == n1[i0].own + delta,
        forall|i: int| 0 <= i < n1.len() && i != i0 ==> n2[i].own == n1[i].own,
    ensures
        own_sum(n2) == own_sum(n1) + delta,
    decreases n1.len(),
{
    if i0 == n1.len() - 1 {
        lemma_own_sum_congruence(n1.drop_last(), n2.drop_last());
    } else {
        lemma_own_sum_update(n1.drop_last(), n2.drop_last(), i0, delta);
    }
}

/// Appending a node adds its `own` to the own-sum.
pub proof fn lemma_own_sum_push(nodes: Seq<StackNode>, n: StackNode)
    ensures
        own_sum(nodes.push(n)) == own_sum(nodes) + n.own,
{
    assert(nodes.push(n).drop_last() =~= nodes);
}

/// First child of `ch` (from position `k` on) whose frame identity is `key`.
pub open spec fn find_child_from(
    nodes: Seq<StackNode>,
    ch: Seq<usize>,
    k: int,
    key: (Seq<char>, Seq<char>, u64),
) -> Option<usize>
    decreases ch.len() - k,
{
    if k < 0 || k >= ch.len() {
        None
    } else if nodes[ch[k] as int].key.ident() == key {
        Some(ch[k])
    } else {
        find_child_from(nodes, ch, k + 1, key)
    }
}

/// First child of node `i` whose frame identity is `key`; `None` if no child
/// merges with that frame.
pub open spec fn find_child(nodes: Seq<StackNode>, i: int, key: (Seq<char>, Seq<char>, u64)) -> Option<
    usize,
> {
    find_child_from(nodes, nodes[i].children@, 0, key)
}

/// Child lookup depends only on the children list of `i` and the frame
/// identities of the listed nodes.
pub proof fn lemma_find_child_from_congruence(
    n1: Seq<StackNode>,
    n2: Seq<StackNode>,
    ch: Seq<usize>,
    k: int,
    key: (Seq<char>, Seq<char>, u64),
)
    requires
        forall|j: int|
            0 <= j < ch.len() ==> n2[#[trigger] ch[j] as int].key.ident() == n1[ch[j]
                as int].key.ident(),
    ensures
        find_child_from(n2, ch, k, key) == find_child_from(n1, ch, k, key),
    decreases ch.len() - k,
{
    if 0 <= k < ch.len() {
        lemma_find_child_from_congruence(n1, n2, ch, k + 1, key);
    }
}

/// A found child is a member of the children list.
pub proof fn lemma_find_child_from_member(
    nodes: Seq<StackNode>,
    ch: Seq<usize>,
    k: int,
    key: (Seq<char>, Seq<char>, u64),
)
    requires
        find_child_from(nodes, ch, k, key) is Some,
    ensures
        exists|j: int|
            k <= j < ch.len() && ch[j] == find_child_from(nodes, ch, k, key)->0 && nodes[#[trigger] ch[j] as int].key.ident()
                == key,
    decreases ch.len() - k,
{
    if 0 <= k < ch.len() {
        if nodes[ch[k] as int].key.ident() != key {
            lemma_find_child_from_member(nodes, ch, k + 1, key);
        }
    }
}

/// Appending a non-matching list member does not disturb a failed lookup;
/// the appended child itself is then found.
pub proof fn lemma_find_child_from_push(
    nodes: Seq<StackNode>,
    ch: Seq<usize>,
    k: int,
    c: usize,
    key: (Seq<char>, Seq<char>, u64),
)
    requires
        0 <= k <= ch.len(),
        find_child_from(nodes, ch, k, key) is None,
        nodes[c as int].key.ident() == key,
    ensures
        find_child_from(nodes, ch.push(c), k, key) == Some(c),
    decreases ch.len() - k,
{
    if k == ch.len() {
        assert(ch.push(c)[k] == c);
    } else {
        assert(ch.push(c)[k] == ch[k]);
        lemma_find_child_from_push(nodes, ch, k + 1, c, key);
    }
}

/// Fields of a node that aggregation never alters.
pub open spec fn same_identity(a: StackNode, b: StackNode) -> bool {
    &&& a.id == b.id
    &&& a.key == b.key
    &&& a.parent == b.parent
    &&& a.level == b.level
    &&& a.hit == b.hit
}

/// The merge path of `frames` below node `id`: at every step the first child
/// with the frame's identity, stopping early where no child matches.
pub open spec fn path_spec(nodes: Seq<StackNode>, id: int, frames: Seq<FrameKey>) -> Seq<usize>
    decreases frames.len(),
{
    if frames.len() == 0 {
        Seq::empty()
    } else {
        match find_child(nodes, id, frames[0].ident()) {
            None => Seq::empty(),
            Some(c) => seq![c] + path_spec(nodes, c as int, frames.drop_first()),
        }
    }
}

/// The chain of identifiers from the root down to `id`, inclusive; at each
/// step the parent back-reference is followed (always strictly downward in a
/// well-formed arena).
pub open spec fn ancestor_seq(nodes: Seq<StackNode>, id: int) -> Seq<usize>
    decreases id,
{
    if id <= 0 {
        seq![0usize]
    } else if nodes[id].parent is Some && 0 <= nodes[id].parent->0 < id {
        ancestor_seq(nodes, nodes[id].parent->0 as int).push(id as usize)
    } else {
        seq![id as usize]
    }
}

/// The flame-graph tree: an append-only arena rooted at node 0, plus the
/// coverage statistic of the most recent manual search.
pub struct FlameGraph {
    pub nodes: Vec<StackNode>,
    /// `Some(c)` after a manual pattern was applied; `c` is the sum of `own`
    /// over all matched nodes.
    pub hit_coverage: Option<u64>,
}

impl FlameGraph {
    /// Well-formedness: structure, per-node counting invariant, every total
    /// bounded by the root total, and the root total equal to the sum of all
    /// `own` counts.
    pub open spec fn wf(self) -> bool {
        &&& self.nodes@.len() >= 1
        &&& (forall|i: int| 0 <= i < self.nodes@.len() ==> #[trigger] node_ok(self.nodes@, i))
        &&& (forall|i: int| 0 <= i < self.nodes@.len() ==> #[trigger] counts_ok(self.nodes@, i))
        &&& (forall|i: int|
            0 <= i < self.nodes@.len() ==> #[trigger] self.nodes@[i].total <= self.nodes@[0].total)
        &&& self.nodes@[0].total as int == own_sum(self.nodes@)
        &&& self.nodes@[0].own == 0
    }

    /// A fresh tree: only the synthetic root, with no samples.
    pub fn new() -> (g: FlameGraph)
        ensures
            g.wf(),
            g.nodes@.len() == 1,
            g.nodes@[0].total == 0,
            g.nodes@[0].own == 0,
            g.nodes@[0].children@.len() == 0,
            g.nodes@[0].hit == false,
            g.hit_coverage is None,
    {
        let root = StackNode {
            id: 0,
            key: FrameKey { name: String::from_str("all"), file: String::new(), line: 0 },
            parent: None,
            children: Vec::new(),
            own: 0,
            total: 0,
            level: 0,
            hit: false,
        };
        let mut nodes: Vec<StackNode> = Vec::new();
        nodes.push(root);
        let g = FlameGraph { nodes, hit_coverage: None };
        proof {
            assert(node_ok(g.nodes@, 0));
            assert(child_sum(g.nodes@, g.nodes@[0].children@) == 0);
            assert(own_sum(g.nodes@.drop_last()) == 0);
        }
        g
    }

    /// The synthetic root node.
    pub fn root(&self) -> (r: &StackNode)
        requires
            self.wf(),
        ensures
            *r == self.nodes@[0],
    {
        &self.nodes[0]
    }

    /// Node lookup by identifier; `None` exactly for ids never assigned.
    pub fn get_stack(&self, id: StackIdentifier) -> (r: Option<&StackNode>)
        ensures
            id < self.nodes@.len() ==> r == Some(&self.nodes@[id as int]),
            id >= self.nodes@.len() ==> r is None,
    {
        if id < self.nodes.len() {
            Some(&self.nodes[id])
        } else {
            None
        }
    }

    /// First child of `id` merging with `key`, in first-seen order.
    fn find_child_exec(&self, id: usize, key: &FrameKey) -> (r: Option<usize>)
        requires
            id < self.nodes@.len(),
            node_ok(self.nodes@, id as int),
        ensures
            r == find_child(self.nodes@, id as int, key.ident()),
            r is Some ==> r->0 < self.nodes@.len(),
    {
        let ch = &self.nodes[id].children;
        let ghost chs = ch@;
        let mut k: usize = 0;
        while k < ch.len()
            invariant
                chs == ch@,
                ch@ == self.nodes@[id as int].children@,
                id < self.nodes@.len(),
                node_ok(self.nodes@, id as int),
                k <= ch@.len(),
                find_child_from(self.nodes@, ch@, 0, key.ident()) == find_child_from(
                    self.nodes@,
                    ch@,
                    k as int,
                    key.ident(),
                ),
            decreases ch@.len() - k,
        {
            let c = ch[k];
            assert(c < self.nodes@.len() && c > id);
            if self.nodes[c].key.key_eq(key) {
                return Some(c);
            }
            k += 1;
        }
        None
    }

    /// Merge `frames[d..]` below node `id` and settle the pending sample
    /// weight: when the trace is exhausted the weight lands in `own`, else it
    /// is pushed onto the matching (or freshly created) child's `total` and
    /// the walk continues there.
    ///
    /// On entry every node satisfies the counting invariant except `id`,
    /// whose `total` already carries the weight; on return the whole arena
    /// satisfies it again.
    #[verifier::rlimit(100)]
    fn insert_at(&mut self, id: usize, frames: &Vec<FrameKey>, d: usize, weight: u64)
        requires
            id < old(self).nodes@.len(),
            d <= frames@.len(),
            id != 0 || d < frames@.len(),
            forall|i: int|
                0 <= i < old(self).nodes@.len() ==> #[trigger] node_ok(old(self).nodes@, i),
            forall|i: int|
                0 <= i < old(self).nodes@.len() && i != id ==> #[trigger] counts_ok(
                    old(self).nodes@,
                    i,
                ),
            old(self).nodes@[id as int].total as int == old(self).nodes@[id as int].own
                + child_sum(old(self).nodes@, old(self).nodes@[id as int].children@) + weight,
            forall|i: int|
                0 <= i < old(self).nodes@.len() ==> #[trigger] old(self).nodes@[i].total <= old(
                    self,
                ).nodes@[0].total,
            old(self).nodes@[0].total as int == own_sum(old(self).nodes@) + weight,
            old(self).nodes@[0].own == 0,
        ensures
            ({
                let oldn = old(self).nodes@;
                let newn = final(self).nodes@;
                let p = path_spec(
                    newn,
                    id as int,
                    frames@.subrange(d as int, frames@.len() as int),
                );
                &&& oldn.len() <= newn.len() <= oldn.len() + (frames@.len() - d)
                &&& final(self).hit_coverage == old(self).hit_coverage
                &&& p.len() == frames@.len() - d
                &&& (forall|j: int|
                    0 <= j < oldn.len() && j != id && !p.contains(j as usize) ==> (
                    #[trigger] newn[j]) == oldn[j])
                &&& same_identity(newn[id as int], oldn[id as int])
                &&& newn[id as int].total == oldn[id as int].total
                &&& newn[id as int].own == oldn[id as int].own + (if d == frames@.len() {
                    weight as int
                } else {
                    0
                })
                &&& (forall|t: int| 0 <= t < p.len() ==> id < #[trigger] p[t] < newn.len())
                &&& (forall|t: int|
                    0 <= t < p.len() && #[trigger] p[t] < oldn.len() ==> same_identity(
                        newn[p[t] as int],
                        oldn[p[t] as int],
                    ) && newn[p[t] as int].total == oldn[p[t] as int].total + weight && newn[p[t]
                        as int].own == oldn[p[t] as int].own + (if t == p.len() - 1 {
                        weight as int
                    } else {
                        0
                    }))
                &&& (forall|t: int|
                    0 <= t < p.len() && #[trigger] p[t] >= oldn.len() ==> newn[p[t] as int].total
                        == weight && newn[p[t] as int].own == (if t == p.len() - 1 {
                        weight as int
                    } else {
                        0
                    }) && newn[p[t] as int].hit == false && newn[p[t] as int].key.ident()
                        == frames@[d + t].ident())
                &&& (forall|j: int|
                    0 <= j < oldn.len() ==> same_identity(#[trigger] newn[j], oldn[j]))
                &&& (forall|i: int| 0 <= i < newn.len() ==> #[trigger] node_ok(newn, i))
                &&& (forall|i: int| 0 <= i < newn.len() ==> #[trigger] counts_ok(newn, i))
                &&& (forall|i: int|
                    0 <= i < newn.len() ==> #[trigger] newn[i].total <= newn[0].total)
                &&& newn[0].total == oldn[0].total
                &&& newn[0].total as int == own_sum(newn)
                &&& newn[0].own == 0
            }),
        decreases frames@.len() - d,
    {
        let ghost oldn = self.nodes@;
        if d == frames.len() {
            // The trace is exhausted: the pending weight is this node's own.
            proof {
                lemma_child_sum_nonneg(oldn, oldn[id as int].children@);
            }
            let ow = self.nodes[id].own;
            self.nodes[id].own = ow + weight;
            proof {
                let newn = self.nodes@;
                assert(path_spec(newn, id as int, frames@.subrange(d as int, frames@.len() as int))
                    =~= Seq::<usize>::empty());
                assert forall|i: int| 0 <= i < newn.len() implies #[trigger] node_ok(newn, i) by {
                    assert(node_ok(oldn, i));
                    assert forall|pp: int, ii: int|
                        0 <= pp < oldn.len() && in_children(oldn, pp, ii) implies in_children(
                        newn,
                        pp,
                        ii,
                    ) by {
                        let k = choose|k: int|
                            0 <= k < oldn[pp].children@.len() && oldn[pp].children@[k] == ii;
                        assert(newn[pp].children@[k] == ii);
                    }
                }
                assert forall|i: int| 0 <= i < newn.len() implies #[trigger] counts_ok(newn, i) by {
                    assert(node_ok(oldn, i));
                    assert(counts_ok(oldn, i) || i == id);
                    lemma_child_sum_congruence(oldn, newn, oldn[i].children@);
                }
                lemma_own_sum_update(oldn, newn, id as int, weight as int);
            }
        } else {
            let key = &frames[d];
            let found = self.find_child_exec(id, key);
            let ghost fkey = key.ident();
            let c: usize;
            match found {
                Some(c0) => {
                    c = c0;
                    proof {
                        lemma_find_child_from_member(oldn, oldn[id as int].children@, 0, fkey);
                        assert(node_ok(oldn, id as int));
                    }
                    let t0 = self.nodes[c].total;
                    proof {
                        let k = choose|k: int|
                            0 <= k < oldn[id as int].children@.len() && oldn[id as int].children@[k]
                                == c && oldn[c as int].key.ident() == fkey;
                        lemma_child_sum_member(oldn, oldn[id as int].children@, k);
                        lemma_child_sum_nonneg(oldn, oldn[id as int].children@);
                    }
                    self.nodes[c].total = t0 + weight;
                },
                None => {
                    c = self.nodes.len();
                    proof {
                        assert(node_ok(oldn, id as int));
                        assert(oldn[id as int].level <= id < oldn.len() <= usize::MAX);
                    }
                    let level = self.nodes[id].level + 1;
                    let node = StackNode {
                        id: c,
                        key: key.duplicate(),
                        parent: Some(id),
                        children: Vec::new(),
                        own: 0,
                        total: weight,
                        level,
                        hit: false,
                    };
                    proof {
                        lemma_child_sum_nonneg(oldn, oldn[id as int].children@);
                    }
                    self.nodes.push(node);
                    self.nodes[id].children.push(c);
                    proof {
                        lemma_own_sum_push(oldn, node);
                    }
                },
            }
            let ghost midn = self.nodes@;
            proof {
                // Re-establish the invariants for the recursive call: all
                // counts hold except at `c`, which now carries the weight.
                assert(id < c < midn.len());
                assert forall|i: int| 0 <= i < midn.len() implies #[trigger] node_ok(midn, i) by {
                    if i < oldn.len() {
                        assert(node_ok(oldn, i));
                    }
                    assert forall|pp: int, ii: int|
                        0 <= pp < oldn.len() && in_children(oldn, pp, ii) implies in_children(
                        midn,
                        pp,
                        ii,
                    ) by {
                        let k = choose|k: int|
                            0 <= k < oldn[pp].children@.len() && oldn[pp].children@[k] == ii;
                        assert(midn[pp].children@[k] == ii);
                    }
                    if c >= oldn.len() {
                        // the freshly created node and its parent's new link
                        assert(midn[id as int].children@ == oldn[id as int].children@.push(c));
                        if i == c {
                            assert(midn[c as int].children@.len() == 0);
                            assert(in_children(midn, id as int, c as int)) by {
                                assert(midn[id as int].children@[oldn[id as int].children@.len()
                                    as int] == c);
                            }
                        }
                    }
                }
                assert forall|i: int|
                    0 <= i < midn.len() && i != c implies #[trigger] counts_ok(midn, i) by {
                    if i == id {
                        if c < oldn.len() {
                            let k = choose|k: int|
                                0 <= k < oldn[id as int].children@.len() && oldn[id
                                    as int].children@[k] == c && oldn[c as int].key.ident() == fkey;
                            assert(node_ok(oldn, id as int));
                            lemma_child_sum_update(
                                oldn,
                                midn,
                                oldn[id as int].children@,
                                c,
                                k,
                                weight as int,
                            );
                        } else {
                            lemma_child_sum_push(midn, oldn[id as int].children@, c);
                            lemma_child_sum_congruence(oldn, midn, oldn[id as int].children@);
                        }
                    } else {
                        assert(counts_ok(oldn, i));
                        // `c` occurs in no other children list
                        assert forall|k: int|
                            0 <= k < oldn[i].children@.len() implies midn[#[trigger] oldn[i].children@[k] as int].total
                            == oldn[oldn[i].children@[k] as int].total by {
                            assert(node_ok(oldn, i));
                            if oldn[i].children@[k] == c {
                                assert(c < oldn.len());
                                assert(node_ok(oldn, id as int));
                                let kc = choose|kc: int|
                                    0 <= kc < oldn[id as int].children@.len() && oldn[id
                                        as int].children@[kc] == c && oldn[c as int].key.ident()
                                        == fkey;
                                assert(oldn[c as int].parent->0 == id);
                                assert(oldn[c as int].parent->0 == i);
                                assert(false);
                            }
                        }
                        lemma_child_sum_congruence(oldn, midn, oldn[i].children@);
                    }
                }
                if c < oldn.len() {
                    assert(node_ok(oldn, c as int));
                    lemma_child_sum_congruence(oldn, midn, oldn[c as int].children@);
                    assert(counts_ok(oldn, c as int));
                    assert(midn[c as int].total as int == midn[c as int].own + child_sum(
                        midn,
                        midn[c as int].children@,
                    ) + weight);
                } else {
                    assert(child_sum(midn, midn[c as int].children@) == 0);
                }
                assert forall|i: int|
                    0 <= i < midn.len() implies #[trigger] midn[i].total <= midn[0].total by {
                    if i == c as int {
                        if c < oldn.len() {
                            let k = choose|k: int|
                                0 <= k < oldn[id as int].children@.len() && oldn[id
                                    as int].children@[k] == c && oldn[c as int].key.ident() == fkey;
                            lemma_child_sum_member(oldn, oldn[id as int].children@, k);
                            lemma_child_sum_nonneg(oldn, oldn[id as int].children@);
                        } else {
                            lemma_child_sum_nonneg(oldn, oldn[id as int].children@);
                        }
                    }
                }
                if c >= oldn.len() {
                    lemma_own_sum_congruence(
                        oldn.push(midn[c as int]),
                        midn,
                    );
                } else {
                    lemma_own_sum_congruence(oldn, midn);
                }
            }
            self.insert_at(c, frames, d + 1, weight);
            proof {
                let newn = self.nodes@;
                let subrec = frames@.subrange(d + 1 as int, frames@.len() as int);
                let prec = path_spec(newn, c as int, subrec);
                // `id` and its children list were untouched by the recursion.
                assert forall|t: int| 0 <= t < prec.len() implies c < #[trigger] prec[t] by {}
                assert(!prec.contains(id));
                assert(node_ok(midn, id as int));
                assert(id < midn.len());
                assert(newn[id as int] == midn[id as int]);
                // the lookup for frames[d] in the final arena still yields c
                assert forall|k: int|
                    0 <= k < newn[id as int].children@.len() implies newn[#[trigger] newn[id
                    as int].children@[k] as int].key.ident() == midn[newn[id
                    as int].children@[k] as int].key.ident() by {
                    let cc = newn[id as int].children@[k];
                    assert(id < cc < midn.len());
                    if cc != c && !prec.contains(cc) {
                        assert(newn[cc as int] == midn[cc as int]);
                    } else if cc == c {
                        assert(same_identity(newn[c as int], midn[c as int]));
                    } else {
                        let t = choose|t: int| 0 <= t < prec.len() && prec[t] == cc;
                        assert(prec[t] == cc && prec[t] < midn.len());
                        assert(same_identity(newn[cc as int], midn[cc as int]));
                    }
                }
                if c < oldn.len() {
                    lemma_find_child_from_congruence(
                        oldn,
                        midn,
                        oldn[id as int].children@,
                        0,
                        fkey,
                    );
                } else {
                    lemma_find_child_from_congruence(
                        oldn,
                        midn,
                        oldn[id as int].children@,
                        0,
                        fkey,
                    );
                    lemma_find_child_from_push(midn, oldn[id as int].children@, 0, c, fkey);
                }
                lemma_find_child_from_congruence(midn, newn, newn[id as int].children@, 0, fkey);
                assert(find_child(newn, id as int, fkey) == Some(c));
                let sub = frames@.subrange(d as int, frames@.len() as int);
                assert(sub[0] == frames@[d as int]);
                assert(sub.drop_first() =~= subrec);
                let p = path_spec(newn, id as int, sub);
                assert(p == seq![c] + prec);
                assert(p.len() == 1 + prec.len());
                assert forall|t: int| 1 <= t < p.len() implies p[t] == prec[t - 1] by {}
                assert forall|x: usize| #[trigger] p.contains(x) implies x == c || prec.contains(
                    x,
                ) by {
                    let i = choose|i: int| 0 <= i < p.len() && p[i] == x;
                    if i > 0 {
                        assert(prec[i - 1] == x);
                    }
                }
                assert forall|x: usize| prec.contains(x) implies #[trigger] p.contains(x) by {
                    let i = choose|i: int| 0 <= i < prec.len() && prec[i] == x;
                    assert(p[i + 1] == x);
                }
                assert(p.contains(c)) by {
                    assert(p[0] == c);
                }
                // untouched nodes
                assert forall|j: int|
                    0 <= j < oldn.len() && j != id && !p.contains(j as usize) implies newn[j]
                    == oldn[j] by {
                    assert(midn[j] == oldn[j]);
                    assert(!prec.contains(j as usize));
                    assert(newn[j] == midn[j]);
                }
                // path-node claims, translated through the middle state
                assert forall|t: int|
                    0 <= t < p.len() && #[trigger] p[t] < oldn.len() implies {
                    let cc = p[t] as int;
                    &&& same_identity(newn[cc], oldn[cc])
                    &&& newn[cc].total == oldn[cc].total + weight
                    &&& newn[cc].own == oldn[cc].own + (if t == p.len() - 1 {
                        weight as int
                    } else {
                        0
                    })
                } by {
                    if t == 0 {
                        assert(p[0] == c);
                    } else {
                        assert(p[t] == prec[t - 1]);
                        assert(prec[t - 1] != c);
                        assert(midn[p[t] as int] == oldn[p[t] as int]);
                    }
                }
                assert forall|t: int|
                    0 <= t < p.len() && #[trigger] p[t] >= oldn.len() implies {
                    let cc = p[t] as int;
                    &&& newn[cc].total == weight
                    &&& newn[cc].own == (if t == p.len() - 1 {
                        weight as int
                    } else {
                        0
                    })
                    &&& newn[cc].hit == false
                    &&& newn[cc].key.ident() == frames@[d + t].ident()
                } by {
                    if t == 0 {
                        assert(p[0] == c);
                        if c >= oldn.len() {
                            assert(same_identity(newn[c as int], midn[c as int]));
                            assert(midn[c as int].key.ident() == frames@[d as int].ident());
                        }
                    } else {
                        assert(p[t] == prec[t - 1]);
                        assert(p[t] > c);
                        if p[t] >= midn.len() {
                        } else {
                            assert(c >= oldn.len() ==> midn.len() == oldn.len() + 1);
                            assert(p[t] < oldn.len() + 1 ==> p[t] < midn.len());
                            assert(midn[p[t] as int] == oldn[p[t] as int]);
                        }
                    }
                }
            }
        }
    }

    /// Merge one stack trace into the tree with the given sample weight.
    ///
    /// The path of `frames` is walked from the root, matching children by
    /// frame identity in first-seen order and allocating fresh identifiers
    /// for frames never seen on that path; every node on the path gains
    /// `weight` on `total` and the final node gains it on `own`.  A trace
    /// without frames changes nothing.
    pub fn insert_trace(&mut self, frames: &Vec<FrameKey>, weight: u64)
        requires
            old(self).wf(),
            old(self).nodes@[0].total + weight <= u64::MAX,
        ensures
            final(self).wf(),
            final(self).hit_coverage == old(self).hit_coverage,
            frames@.len() == 0 ==> *final(self) == *old(self),
            old(self).nodes@.len() <= final(self).nodes@.len() <= old(self).nodes@.len()
                + frames@.len(),
            forall|j: int|
                0 <= j < old(self).nodes@.len() ==> same_identity(
                    #[trigger] final(self).nodes@[j],
                    old(self).nodes@[j],
                ),
            frames@.len() > 0 ==> ({
                let oldn = old(self).nodes@;
                let newn = final(self).nodes@;
                let p = path_spec(newn, 0, frames@);
                &&& newn[0].total == oldn[0].total + weight
                &&& p.len() == frames@.len()
                &&& (forall|j: int|
                    0 < j < oldn.len() && !p.contains(j as usize) ==> (#[trigger] newn[j])
                        == oldn[j])
                &&& (forall|t: int| 0 <= t < p.len() ==> 0 < #[trigger] p[t] < newn.len())
                &&& (forall|t: int|
                    0 <= t < p.len() && #[trigger] p[t] < oldn.len() ==> same_identity(
                        newn[p[t] as int],
                        oldn[p[t] as int],
                    ) && newn[p[t] as int].total == oldn[p[t] as int].total + weight && newn[p[t]
                        as int].own == oldn[p[t] as int].own + (if t == p.len() - 1 {
                        weight as int
                    } else {
                        0
                    }))
                &&& (forall|t: int|
                    0 <= t < p.len() && #[trigger] p[t] >= oldn.len() ==> newn[p[t] as int].total
                        == weight && newn[p[t] as int].own == (if t == p.len() - 1 {
                        weight as int
                    } else {
                        0
                    }) && newn[p[t] as int].hit == false && newn[p[t] as int].key.ident()
                        == frames@[t].ident())
            }),
    {
        if frames.len() == 0 {
            return ;
        }
        let ghost oldn = self.nodes@;
        let t0 = self.nodes[0].total;
        self.nodes[0].total = t0 + weight;
        let ghost midn = self.nodes@;
        proof {
            assert forall|i: int| 0 <= i < midn.len() implies #[trigger] node_ok(midn, i) by {
                assert(node_ok(oldn, i));
                assert forall|pp: int, ii: int|
                    0 <= pp < oldn.len() && in_children(oldn, pp, ii) implies in_children(
                    midn,
                    pp,
                    ii,
                ) by {
                    let k = choose|k: int|
                        0 <= k < oldn[pp].children@.len() && oldn[pp].children@[k] == ii;
                    assert(midn[pp].children@[k] == ii);
                }
            }
            assert forall|i: int| 0 <= i < midn.len() && i != 0 implies #[trigger] counts_ok(
                midn,
                i,
            ) by {
                assert(counts_ok(oldn, i));
                assert forall|k: int|
                    0 <= k < oldn[i].children@.len() implies midn[#[trigger] oldn[i].children@[k] as int].total
                    == oldn[oldn[i].children@[k] as int].total by {
                    assert(node_ok(oldn, i));
                }
                lemma_child_sum_congruence(oldn, midn, oldn[i].children@);
            }
            assert(counts_ok(oldn, 0));
            assert(node_ok(oldn, 0));
            lemma_child_sum_congruence(oldn, midn, oldn[0].children@);
            lemma_own_sum_congruence(oldn, midn);
        }
        self.insert_at(0, frames, 0, weight);
        proof {
            let newn = self.nodes@;
            assert(frames@.subrange(0, frames@.len() as int) =~= frames@);
            let psub = path_spec(newn, 0, frames@.subrange(0 as usize as int, frames@.len() as int));
            let p = path_spec(newn, 0, frames@);
            assert(psub == p);
            assert forall|t: int| 0 <= t < p.len() implies p[t] == #[trigger] psub[t] by {}
            assert forall|j: int|
                0 < j < oldn.len() && !p.contains(j as usize) implies newn[j] == oldn[j] by {
                assert(newn[j] == midn[j]);
            }
            assert forall|t: int|
                0 <= t < p.len() && #[trigger] p[t] < oldn.len() implies {
                let c = p[t] as int;
                &&& same_identity(newn[c], oldn[c])
                &&& newn[c].total == oldn[c].total + weight
                &&& newn[c].own == oldn[c].own + (if t == p.len() - 1 {
                    weight as int
                } else {
                    0
                })
            } by {
                assert(p[t] > 0);
                assert(midn[p[t] as int] == oldn[p[t] as int]);
            }
            assert forall|j: int|
                0 <= j < oldn.len() implies same_identity(#[trigger] newn[j], oldn[j]) by {
                if j == 0 {
                    assert(same_identity(newn[0], midn[0]));
                } else if p.contains(j as usize) {
                    let t = choose|t: int| 0 <= t < p.len() && p[t] == j as usize;
                    assert(psub[t] == p[t]);
                    assert(psub[t] < oldn.len());
                    assert(midn.len() == oldn.len());
                    assert(same_identity(newn[psub[t] as int], midn[psub[t] as int]));
                    assert(midn[j] == oldn[j]);
                } else {
                    assert(newn[j] == midn[j]);
                }
            }
        }
    }

    /// The chain of identifiers from the true root down to `id`, inclusive.
    pub fn get_ancestors(&self, stack_id: StackIdentifier) -> (r: Vec<StackIdentifier>)
        requires
            self.wf(),
            stack_id < self.nodes@.len(),
        ensures
            r@ == ancestor_seq(self.nodes@, stack_id as int),
        decreases stack_id,
    {
        proof {
            assert(node_ok(self.nodes@, stack_id as int));
        }
        match self.nodes[stack_id].parent {
            None => {
                let mut v: Vec<StackIdentifier> = Vec::new();
                v.push(stack_id);
                proof {
                    assert(v@ =~= ancestor_seq(self.nodes@, stack_id as int));
                }
                v
            },
            Some(p) => {
                let mut v = self.get_ancestors(p);
                v.push(stack_id);
                v
            },
        }
    }

    /// Number of samples aggregated into the whole tree.
    pub fn total_count(&self) -> (r: u64)
        requires
            self.wf(),
        ensures
            r == self.nodes@[0].total,
    {
        self.nodes[0].total
    }
}

} // verus!
