//! Layout engine: recursive width allocation with visibility culling.
//!
//! A node's horizontal budget is its parent's budget scaled by the ratio of
//! the totals, floored to whole columns — except on the active zoom path,
//! where the zoomed-past child takes the parent's entire budget and every
//! sibling collapses to zero.  A node is emitted only when its row is inside
//! the viewport and its floored width is positive; a subtree below the
//! bottom edge is pruned, propagating only a "more rows below" flag.

use crate::flame::ancestor_seq;
use crate::flame::child_sum;
use crate::flame::counts_ok;
use crate::flame::lemma_child_sum_member;
use crate::flame::lemma_child_sum_nonneg;
use crate::flame::node_ok;
use crate::flame::FlameGraph;
use crate::flame::StackIdentifier;
use crate::flame::StackNode;
use vstd::arithmetic::div_mod::lemma_div_is_ordered;
use vstd::arithmetic::div_mod::lemma_div_multiples_vanish;
use vstd::arithmetic::div_mod::lemma_div_pos_is_pos;
use vstd::arithmetic::div_mod::lemma_fundamental_div_mod;
use vstd::arithmetic::div_mod::lemma_mod_bound;
use vstd::arithmetic::mul::lemma_mul_inequality;
use vstd::arithmetic::mul::lemma_mul_is_distributive_add;
use vstd::arithmetic::mul::lemma_mul_is_distributive_add_other_way;
use vstd::prelude::*;

verus! {

/// One renderable flame-graph row.
#[derive(Clone, Copy, Debug, PartialEq, Eq, Structural)]
pub struct FlameRow {
    pub x: u16,
    pub y: u16,
    pub width: u16,
    pub stack_id: StackIdentifier,
    pub is_hit: bool,
}

/// The active zoom: the zoomed node and the precomputed chain from the true
/// root down to it.
pub struct ZoomState {
    pub zoom_stack: StackIdentifier,
    pub ancestors: Vec<StackIdentifier>,
}

/// A zoom state is coherent with the arena when its chain really is the
/// ancestor chain of its node.
pub open spec fn zoom_wf(nodes: Seq<StackNode>, zoom: Option<ZoomState>) -> bool {
    match zoom {
        None => true,
        Some(z) => z.zoom_stack < nodes.len() && z.ancestors@ == ancestor_seq(
            nodes,
            z.zoom_stack as int,
        ),
    }
}

/// Is `c` inside the subtree rooted at `anc` (inclusively)?
pub open spec fn in_subtree(nodes: Seq<StackNode>, anc: usize, c: usize) -> bool {
    ancestor_seq(nodes, c as int).contains(anc)
}

/// Is `id` on the root-to-zoom path, or inside the zoomed subtree?  Only
/// such nodes may emit rows while a zoom is active.
pub open spec fn in_zoom_scope(nodes: Seq<StackNode>, z: usize, id: usize) -> bool {
    ancestor_seq(nodes, z as int).contains(id) || in_subtree(nodes, z, id)
}

/// What holds of every row emitted below node `id` with budget `budget` at
/// vertical position `y`.
pub open spec fn row_ok(
    nodes: Seq<StackNode>,
    id: usize,
    y: u16,
    y_max: u16,
    budget: u16,
    r: FlameRow,
) -> bool {
    &&& 0 < r.width <= budget
    &&& y <= r.y < y_max
    &&& r.stack_id < nodes.len()
    &&& in_subtree(nodes, id, r.stack_id)
    &&& r.is_hit == nodes[r.stack_id as int].hit
}

/// The first listed child (from position `k` on) lying on `chain`.
pub open spec fn find_on_path(ch: Seq<usize>, k: int, chain: Seq<usize>) -> Option<usize>
    decreases ch.len() - k,
{
    if k < 0 || k >= ch.len() {
        None
    } else if chain.contains(ch[k]) {
        Some(ch[k])
    } else {
        find_on_path(ch, k + 1, chain)
    }
}

/// The child of `id` that is zoomed past, if a zoom is active and one of
/// `id`'s children lies on the root-to-zoom chain.
pub open spec fn zoomed_child_spec(nodes: Seq<StackNode>, id: int, zoom: Option<ZoomState>) -> Option<
    usize,
> {
    match zoom {
        None => None,
        Some(z) => find_on_path(
            nodes[id].children@,
            0,
            ancestor_seq(nodes, z.zoom_stack as int),
        ),
    }
}

/// The horizontal budget handed to child `c` of `id`: the zoomed-past child
/// takes the parent's entire budget and every sibling collapses to zero;
/// otherwise the parent's budget scaled by the ratio of the totals, floored
/// to whole columns (zero when the parent has no samples).
pub open spec fn child_budget_spec(
    nodes: Seq<StackNode>,
    id: int,
    c: int,
    budget: u16,
    zoomed: Option<usize>,
) -> u16 {
    match zoomed {
        Some(zc) => if c == zc as int {
            budget
        } else {
            0u16
        },
        None => if nodes[id].total == 0 {
            0u16
        } else {
            ((budget as int * nodes[c].total as int) / nodes[id].total as int) as u16
        },
    }
}

/// The rows emitted below node `id` and the "more rows below" flag, as a
/// function of the arena, the position, the budget, the viewport, the level
/// offset and the zoom: the node's own row when it is inside the viewport,
/// past the level offset and has positive width, followed by its children's
/// rows at the budgets of `child_budget_spec`; a subtree below the bottom
/// edge emits nothing and reports `true` exactly when its width is
/// positive.
pub open spec fn layout_of(
    nodes: Seq<StackNode>,
    id: int,
    x: int,
    y: u16,
    budget: u16,
    y_max: u16,
    level_offset: int,
    zoom: Option<ZoomState>,
) -> (Seq<FlameRow>, bool)
    decreases nodes.len() - id, nodes[id].children@.len() + 1,
{
    if id < 0 || id >= nodes.len() {
        (Seq::<FlameRow>::empty(), false)
    } else if !(y < y_max && budget > 0) {
        (Seq::<FlameRow>::empty(), y >= y_max && budget > 0)
    } else {
        let after = nodes[id].level >= level_offset;
        let own = if after {
            seq![
                FlameRow {
                    x: x as u16,
                    y,
                    width: budget,
                    stack_id: id as usize,
                    is_hit: nodes[id].hit,
                },
            ]
        } else {
            Seq::<FlameRow>::empty()
        };
        let cy = if after {
            (y + 1) as u16
        } else {
            y
        };
        let zoomed = zoomed_child_spec(nodes, id, zoom);
        let rec = layout_children_of(
            nodes,
            id,
            0,
            x,
            0,
            cy,
            budget,
            y_max,
            level_offset,
            zoom,
            zoomed,
        );
        (own + rec.0, rec.1)
    }
}

/// The rows of `id`'s children from position `k` on, with `x_off` columns
/// already taken by the earlier siblings.
pub open spec fn layout_children_of(
    nodes: Seq<StackNode>,
    id: int,
    k: int,
    x: int,
    x_off: int,
    cy: u16,
    budget: u16,
    y_max: u16,
    level_offset: int,
    zoom: Option<ZoomState>,
    zoomed: Option<usize>,
) -> (Seq<FlameRow>, bool)
    decreases nodes.len() - id, nodes[id].children@.len() - k,
{
    if id < 0 || id >= nodes.len() || k < 0 || k >= nodes[id].children@.len() {
        (Seq::<FlameRow>::empty(), false)
    } else {
        let c = nodes[id].children@[k] as int;
        if !(id < c < nodes.len()) {
            (Seq::<FlameRow>::empty(), false)
        } else {
            let cb = child_budget_spec(nodes, id, c, budget, zoomed);
            let crec = layout_of(nodes, c, x + x_off, cy, cb, y_max, level_offset, zoom);
            let rest = layout_children_of(
                nodes,
                id,
                k + 1,
                x,
                x_off + cb,
                cy,
                budget,
                y_max,
                level_offset,
                zoom,
                zoomed,
            );
            (crec.0 + rest.0, crec.1 || rest.1)
        }
    }
}

/// The ancestor chain ends at the node itself and therefore contains it.
pub proof fn lemma_chain_last(nodes: Seq<StackNode>, id: int)
    requires
        0 <= id,
    ensures
        ancestor_seq(nodes, id).len() >= 1,
        ancestor_seq(nodes, id).last() == id as usize,
        ancestor_seq(nodes, id).contains(id as usize),
    decreases id,
{
    let ch = ancestor_seq(nodes, id);
    if id <= 0 {
        assert(ch[0] == 0usize);
    } else if nodes[id].parent is Some && 0 <= nodes[id].parent->0 < id {
        lemma_chain_last(nodes, nodes[id].parent->0 as int);
        assert(ch.last() == id as usize);
        assert(ch[ch.len() - 1] == id as usize);
    } else {
        assert(ch[0] == id as usize);
    }
}

/// In a structurally well-formed arena, a child's chain is its parent's
/// chain extended by the child.
pub proof fn lemma_chain_child(nodes: Seq<StackNode>, id: usize, c: usize)
    requires
        c < nodes.len(),
        nodes[c as int].parent is Some,
        nodes[c as int].parent->0 == id,
        id < c,
    ensures
        ancestor_seq(nodes, c as int) == ancestor_seq(nodes, id as int).push(c),
        ancestor_seq(nodes, c as int).contains(id),
{
    lemma_chain_last(nodes, id as int);
    let pch = ancestor_seq(nodes, id as int);
    assert(pch.contains(id));
    let k = choose|k: int| 0 <= k < pch.len() && pch[k] == id;
    assert(pch.push(c)[k] == id);
}

/// Chain membership is transitive: an ancestor of an ancestor is an
/// ancestor.
pub proof fn lemma_chain_trans(nodes: Seq<StackNode>, x: int, c: usize, a: usize)
    requires
        forall|i: int| 0 <= i < nodes.len() ==> #[trigger] node_ok(nodes, i),
        0 <= x < nodes.len(),
        ancestor_seq(nodes, x).contains(c),
        ancestor_seq(nodes, c as int).contains(a),
    ensures
        ancestor_seq(nodes, x).contains(a),
    decreases x,
{
    if x <= 0 {
        assert(ancestor_seq(nodes, x) =~= seq![0usize]);
        assert(c == 0);
    } else {
        assert(node_ok(nodes, x));
        let p = nodes[x].parent->0 as int;
        let pch = ancestor_seq(nodes, p);
        assert(ancestor_seq(nodes, x) == pch.push(x as usize));
        if c == x as usize {
        } else {
            let k = choose|k: int|
                0 <= k < pch.push(x as usize).len() && (#[trigger] pch.push(x as usize)[k]) == c;
            assert(pch[k] == c);
            assert(pch.contains(c));
            lemma_chain_trans(nodes, p, c, a);
            let j = choose|j: int| 0 <= j < pch.len() && pch[j] == a;
            assert(pch.push(x as usize)[j] == a);
        }
    }
}

/// Every member of an ancestor chain is a valid identifier no larger than
/// the chain's node.
pub proof fn lemma_chain_bounds(nodes: Seq<StackNode>, z: int)
    requires
        forall|i: int| 0 <= i < nodes.len() ==> #[trigger] node_ok(nodes, i),
        0 <= z < nodes.len(),
    ensures
        forall|k: int|
            0 <= k < ancestor_seq(nodes, z).len() ==> (#[trigger] ancestor_seq(nodes, z)[k])
                <= z && ancestor_seq(nodes, z)[k] < nodes.len(),
    decreases z,
{
    if z <= 0 {
    } else {
        assert(node_ok(nodes, z));
        let p = nodes[z].parent->0 as int;
        lemma_chain_bounds(nodes, p);
        let pch = ancestor_seq(nodes, p);
        assert(ancestor_seq(nodes, z) == pch.push(z as usize));
        assert forall|k: int|
            0 <= k < ancestor_seq(nodes, z).len() implies (#[trigger] ancestor_seq(nodes, z)[k])
            <= z && ancestor_seq(nodes, z)[k] < nodes.len() by {
            if k < pch.len() {
                assert(pch[k] <= p);
            }
        }
    }
}

/// If a strict ancestor of `z` is `id`, then some child of `id` also lies
/// on the chain of `z`.
pub proof fn lemma_chain_successor(nodes: Seq<StackNode>, z: int, id: usize)
    requires
        forall|i: int| 0 <= i < nodes.len() ==> #[trigger] node_ok(nodes, i),
        0 <= z < nodes.len(),
        ancestor_seq(nodes, z).contains(id),
        id as int != z,
    ensures
        exists|k: int|
            0 <= k < nodes[id as int].children@.len() && ancestor_seq(nodes, z).contains(
                #[trigger] nodes[id as int].children@[k],
            ),
    decreases z,
{
    if z <= 0 {
        assert(ancestor_seq(nodes, z) =~= seq![0usize]);
        assert(id == 0);
        assert(false);
    } else {
        assert(node_ok(nodes, z));
        let p = nodes[z].parent->0 as int;
        let pch = ancestor_seq(nodes, p);
        assert(ancestor_seq(nodes, z) == pch.push(z as usize));
        if id as int == p {
            // the successor is z itself, a child of id
            let k = choose|k: int|
                0 <= k < nodes[p].children@.len() && nodes[p].children@[k] == z;
            lemma_chain_last(nodes, z);
            assert(ancestor_seq(nodes, z).contains(nodes[id as int].children@[k]));
        } else {
            let j = choose|j: int|
                0 <= j < pch.push(z as usize).len() && (#[trigger] pch.push(z as usize)[j]) == id;
            assert(pch[j] == id);
            assert(pch.contains(id));
            lemma_chain_successor(nodes, p, id);
            let k = choose|k: int|
                0 <= k < nodes[id as int].children@.len() && pch.contains(
                    nodes[id as int].children@[k],
                );
            let jj = choose|jj: int|
                0 <= jj < pch.len() && pch[jj] == nodes[id as int].children@[k];
            assert(pch.push(z as usize)[jj] == nodes[id as int].children@[k]);
        }
    }
}

/// A floored proportional share never exceeds the whole.
pub proof fn lemma_scaled_le(b: int, t: int, total: int)
    requires
        0 <= b,
        0 <= t <= total,
        0 < total,
    ensures
        0 <= (b * t) / total <= b,
{
    assert(b * t >= 0) by (nonlinear_arith)
        requires
            b >= 0,
            t >= 0,
    ;
    lemma_div_pos_is_pos(b * t, total);
    lemma_mul_inequality(t, total, b);
    assert(t * b == b * t) by (nonlinear_arith);
    assert(total * b == b * total) by (nonlinear_arith);
    lemma_div_is_ordered(b * t, b * total, total);
    lemma_div_multiples_vanish(b, total);
    assert(total * b / total == b);
}

/// Floored shares of two parts never exceed the floored share of the sum.
pub proof fn lemma_scaled_add(b: int, t1: int, t2: int, total: int)
    requires
        0 <= b,
        0 <= t1,
        0 <= t2,
        0 < total,
    ensures
        (b * t1) / total + (b * t2) / total <= (b * (t1 + t2)) / total,
{
    let q1 = (b * t1) / total;
    let r1 = (b * t1) % total;
    let q2 = (b * t2) / total;
    let r2 = (b * t2) % total;
    lemma_fundamental_div_mod(b * t1, total);
    lemma_fundamental_div_mod(b * t2, total);
    lemma_mod_bound(b * t1, total);
    lemma_mod_bound(b * t2, total);
    lemma_mul_is_distributive_add(b, t1, t2);
    assert(b * (t1 + t2) == total * q1 + r1 + total * q2 + r2);
    lemma_mul_is_distributive_add_other_way(total, q1, q2);
    assert(total * (q1 + q2) <= b * (t1 + t2));
    lemma_div_is_ordered(total * (q1 + q2), b * (t1 + t2), total);
    lemma_div_multiples_vanish(q1 + q2, total);
}

/// The budgets handed to a run of children fit inside the parent's budget:
/// the sum of the floored proportional shares of any children whose totals
/// sum to at most the parent's total is at most the parent's budget.
pub proof fn lemma_children_budgets_fit(b: int, parts: Seq<int>, total: int)
    requires
        0 <= b,
        0 < total,
        forall|k: int| 0 <= k < parts.len() ==> 0 <= #[trigger] parts[k],
        sum_of(parts) <= total,
    ensures
        sum_scaled(b, parts, total) <= b,
{
    lemma_sum_scaled_le_scaled_sum(b, parts, total);
    lemma_sum_nonneg(parts);
    lemma_scaled_le(b, sum_of(parts), total);
}

/// Plain sum of a sequence of integers.
pub open spec fn sum_of(parts: Seq<int>) -> int
    decreases parts.len(),
{
    if parts.len() == 0 {
        0
    } else {
        sum_of(parts.drop_last()) + parts.last()
    }
}

/// Sum of the floored proportional shares of the parts.
pub open spec fn sum_scaled(b: int, parts: Seq<int>, total: int) -> int
    decreases parts.len(),
{
    if parts.len() == 0 {
        0
    } else {
        sum_scaled(b, parts.drop_last(), total) + (b * parts.last()) / total
    }
}

proof fn lemma_sum_nonneg(parts: Seq<int>)
    requires
        forall|k: int| 0 <= k < parts.len() ==> 0 <= #[trigger] parts[k],
    ensures
        sum_of(parts) >= 0,
    decreases parts.len(),
{
    if parts.len() > 0 {
        lemma_sum_nonneg(parts.drop_last());
    }
}

proof fn lemma_sum_scaled_le_scaled_sum(b: int, parts: Seq<int>, total: int)
    requires
        0 <= b,
        0 < total,
        forall|k: int| 0 <= k < parts.len() ==> 0 <= #[trigger] parts[k],
    ensures
        sum_scaled(b, parts, total) <= (b * sum_of(parts)) / total,
    decreases parts.len(),
{
    if parts.len() == 0 {
        lemma_div_pos_is_pos(0, total);
        assert(b * 0 == 0) by (nonlinear_arith);
    } else {
        lemma_sum_scaled_le_scaled_sum(b, parts.drop_last(), total);
        lemma_sum_nonneg(parts.drop_last());
        lemma_scaled_add(b, sum_of(parts.drop_last()), parts.last(), total);
    }
}

/// The child-total sum over a prefix never exceeds the sum over the whole
/// list.
pub proof fn lemma_child_sum_prefix_le(nodes: Seq<StackNode>, ch: Seq<usize>, k: int)
    requires
        0 <= k <= ch.len(),
    ensures
        child_sum(nodes, ch.subrange(0, k)) <= child_sum(nodes, ch),
    decreases ch.len(),
{
    if k == ch.len() {
        assert(ch.subrange(0, k) =~= ch);
    } else {
        assert(ch.subrange(0, k) =~= ch.drop_last().subrange(0, k));
        lemma_child_sum_prefix_le(nodes, ch.drop_last(), k);
    }
}

/// Extending a prefix by one element adds that node's total.
pub proof fn lemma_child_sum_prefix_step(nodes: Seq<StackNode>, ch: Seq<usize>, k: int)
    requires
        0 <= k < ch.len(),
    ensures
        child_sum(nodes, ch.subrange(0, k + 1)) == child_sum(nodes, ch.subrange(0, k))
            + nodes[ch[k] as int].total,
{
    assert(ch.subrange(0, k + 1).drop_last() =~= ch.subrange(0, k));
    assert(ch.subrange(0, k + 1).last() == ch[k]);
}

/// Membership scan over a list of identifiers.
fn ids_contain(v: &Vec<StackIdentifier>, x: StackIdentifier) -> (r: bool)
    ensures
        r == v@.contains(x),
{
    let mut k: usize = 0;
    while k < v.len()
        invariant
            k <= v@.len(),
            forall|j: int| 0 <= j < k ==> v@[j] != x,
        decreases v@.len() - k,
    {
        if v[k] == x {
            return true;
        }
        k += 1;
    }
    false
}

impl FlameGraph {
    /// The first child of `id` lying on the zoom path (the zoomed node or
    /// one of its ancestors), if any.
    fn find_zoomed_child(&self, id: usize, zoom: &ZoomState) -> (r: Option<usize>)
        requires
            self.wf(),
            id < self.nodes@.len(),
            zoom.zoom_stack < self.nodes@.len(),
            zoom.ancestors@ == ancestor_seq(self.nodes@, zoom.zoom_stack as int),
        ensures
            r == find_on_path(
                self.nodes@[id as int].children@,
                0,
                ancestor_seq(self.nodes@, zoom.zoom_stack as int),
            ),
            r is None ==> forall|k: int|
                0 <= k < self.nodes@[id as int].children@.len() ==> !ancestor_seq(
                    self.nodes@,
                    zoom.zoom_stack as int,
                ).contains(#[trigger] self.nodes@[id as int].children@[k]),
            r is Some ==> r->0 < self.nodes@.len() && id < r->0 && ancestor_seq(
                self.nodes@,
                zoom.zoom_stack as int,
            ).contains(r->0) && crate::flame::in_children(self.nodes@, id as int, r->0 as int),
    {
        proof {
            assert(node_ok(self.nodes@, id as int));
            lemma_chain_last(self.nodes@, zoom.zoom_stack as int);
        }
        let ghost chain = ancestor_seq(self.nodes@, zoom.zoom_stack as int);
        let ghost ch = self.nodes@[id as int].children@;
        let n = self.nodes[id].children.len();
        let mut k: usize = 0;
        while k < n
            invariant
                self.wf(),
                id < self.nodes@.len(),
                node_ok(self.nodes@, id as int),
                ch == self.nodes@[id as int].children@,
                chain == ancestor_seq(self.nodes@, zoom.zoom_stack as int),
                n == ch.len(),
                k <= n,
                zoom.zoom_stack < self.nodes@.len(),
                zoom.ancestors@ == ancestor_seq(self.nodes@, zoom.zoom_stack as int),
                ancestor_seq(self.nodes@, zoom.zoom_stack as int).contains(zoom.zoom_stack),
                find_on_path(ch, 0, chain) == find_on_path(ch, k as int, chain),
                forall|j: int|
                    0 <= j < k ==> !ancestor_seq(self.nodes@, zoom.zoom_stack as int).contains(
                        #[trigger] self.nodes@[id as int].children@[j],
                    ),
            decreases n - k,
        {
            let c = self.nodes[id].children[k];
            proof {
                assert(ch[k as int] == c);
            }
            if c == zoom.zoom_stack || ids_contain(&zoom.ancestors, c) {
                proof {
                    assert(chain.contains(c));
                    assert(find_on_path(ch, k as int, chain) == Some(c));
                    assert(crate::flame::in_children(self.nodes@, id as int, c as int)) by {
                        assert(self.nodes@[id as int].children@[k as int] == c);
                    }
                }
                return Some(c);
            }
            proof {
                assert(!chain.contains(c));
            }
            k += 1;
        }
        None
    }

    /// Lay out the subtree of `id` into `rows`, depth first: emit the node's
    /// own row when it is inside the viewport and past the level offset,
    /// then divide the budget among the children.  Returns whether some
    /// pruned descendant would have been visible below the bottom edge.
    #[verifier::rlimit(100)]
    fn layout_rec(
        &self,
        id: usize,
        x: u16,
        y: u16,
        budget: u16,
        y_max: u16,
        level_offset: usize,
        zoom: &Option<ZoomState>,
        rows: &mut Vec<FlameRow>,
    ) -> (more: bool)
        requires
            self.wf(),
            id < self.nodes@.len(),
            zoom_wf(self.nodes@, *zoom),
            x as int + budget as int <= u16::MAX as int,
        ensures
            final(rows)@ == old(rows)@ + layout_of(
                self.nodes@,
                id as int,
                x as int,
                y,
                budget,
                y_max,
                level_offset as int,
                *zoom,
            ).0,
            more == layout_of(
                self.nodes@,
                id as int,
                x as int,
                y,
                budget,
                y_max,
                level_offset as int,
                *zoom,
            ).1,
            final(rows)@.len() >= old(rows)@.len(),
            final(rows)@.subrange(0, old(rows)@.len() as int) == old(rows)@,
            budget == 0 ==> final(rows)@ == old(rows)@,
            forall|j: int|
                old(rows)@.len() <= j < final(rows)@.len() ==> row_ok(
                    self.nodes@,
                    id,
                    y,
                    y_max,
                    budget,
                    #[trigger] final(rows)@[j],
                ),
            (zoom is Some && in_zoom_scope(self.nodes@, zoom->0.zoom_stack, id)) ==> forall|
                j: int,
            |
                old(rows)@.len() <= j < final(rows)@.len() ==> in_zoom_scope(
                    self.nodes@,
                    zoom->0.zoom_stack,
                    (#[trigger] final(rows)@[j]).stack_id,
                ),
        decreases self.nodes@.len() - id,
    {
        let ghost nodes = self.nodes@;
        let ghost orig = rows@;
        proof {
            assert(node_ok(nodes, id as int));
            lemma_chain_last(nodes, id as int);
        }
        let ghost lo = level_offset as int;
        if !(y < y_max && budget > 0) {
            proof {
                assert(layout_of(nodes, id as int, x as int, y, budget, y_max, lo, *zoom).0
                    =~= Seq::<FlameRow>::empty());
                assert(rows@ =~= orig + Seq::<FlameRow>::empty());
            }
            return y >= y_max && budget > 0;
        }
        let after_offset = self.nodes[id].level >= level_offset;
        if after_offset {
            let row = FlameRow { x, y, width: budget, stack_id: id, is_hit: self.nodes[id].hit };
            rows.push(row);
            proof {
                assert(rows@.subrange(0, orig.len() as int) =~= orig);
                assert(in_subtree(nodes, id, id));
            }
        }
        let ghost base = rows@;
        let total = self.nodes[id].total;
        let zoomed: Option<usize> = match zoom {
            Some(zs) => self.find_zoomed_child(id, zs),
            None => None,
        };
        let ghost zspec = if zoom is Some {
            Some(zoom->0.zoom_stack)
        } else {
            None
        };
        proof {
            if zoom is Some && in_zoom_scope(nodes, zoom->0.zoom_stack, id) && zoomed is None {
                // no child lies on the zoom path, so `id` is the zoomed node
                // itself or already inside the zoomed subtree
                let z = zoom->0.zoom_stack;
                if ancestor_seq(nodes, z as int).contains(id) && id != z {
                    lemma_chain_successor(nodes, z as int, id);
                    assert(false);
                }
            }
        }
        let ghost ch = nodes[id as int].children@;
        let cy: u16 = if after_offset {
            y + 1
        } else {
            y
        };
        proof {
            assert(zoomed == zoomed_child_spec(nodes, id as int, *zoom));
            let lc0 = layout_children_of(
                nodes,
                id as int,
                0,
                x as int,
                0,
                cy,
                budget,
                y_max,
                lo,
                *zoom,
                zoomed,
            );
            assert(rows@.subrange(base.len() as int, rows@.len() as int) =~= Seq::<
                FlameRow,
            >::empty());
            assert(Seq::<FlameRow>::empty() + lc0.0 =~= lc0.0);
        }
        let n = self.nodes[id].children.len();
        let mut k: usize = 0;
        let mut x_off: u16 = 0;
        let mut more = false;
        while k < n
            invariant
                self.wf(),
                nodes == self.nodes@,
                id < nodes.len(),
                node_ok(nodes, id as int),
                counts_ok(nodes, id as int),
                ch == nodes[id as int].children@,
                n == ch.len(),
                k <= n,
                total == nodes[id as int].total,
                y < y_max,
                0 < budget,
                x as int + budget as int <= u16::MAX as int,
                zoom_wf(nodes, *zoom),
                zspec == (if zoom is Some {
                    Some(zoom->0.zoom_stack)
                } else {
                    None::<usize>
                }),
                zoomed is Some ==> zoom is Some && zoomed->0 < nodes.len() && ancestor_seq(
                    nodes,
                    zoom->0.zoom_stack as int,
                ).contains(zoomed->0) && crate::flame::in_children(
                    nodes,
                    id as int,
                    zoomed->0 as int,
                ),
                zoomed is None && zoom is Some ==> forall|kk: int|
                    0 <= kk < ch.len() ==> !ancestor_seq(
                        nodes,
                        zoom->0.zoom_stack as int,
                    ).contains(#[trigger] ch[kk]),
                (zoom is Some && in_zoom_scope(nodes, zoom->0.zoom_stack, id) && zoomed is None)
                    ==> in_subtree(nodes, zoom->0.zoom_stack, id),
                // budget bookkeeping
                zoomed is None && total > 0 ==> x_off as int <= (budget as int * child_sum(
                    nodes,
                    ch.subrange(0, k as int),
                )) / total as int && x_off <= budget,
                zoomed is None && total == 0 ==> x_off == 0,
                zoomed is Some ==> (if ch.subrange(0, k as int).contains(zoomed->0) {
                    x_off == budget
                } else {
                    x_off == 0
                }),
                x_off <= budget,
                // the rows and flag so far, against the specified layout
                after_offset == (nodes[id as int].level >= lo),
                lo == level_offset as int,
                cy == (if after_offset {
                    (y + 1) as u16
                } else {
                    y
                }),
                zoomed == zoomed_child_spec(nodes, id as int, *zoom),
                layout_children_of(
                    nodes,
                    id as int,
                    0,
                    x as int,
                    0,
                    cy,
                    budget,
                    y_max,
                    lo,
                    *zoom,
                    zoomed,
                ).0 == rows@.subrange(base.len() as int, rows@.len() as int)
                    + layout_children_of(
                    nodes,
                    id as int,
                    k as int,
                    x as int,
                    x_off as int,
                    cy,
                    budget,
                    y_max,
                    lo,
                    *zoom,
                    zoomed,
                ).0,
                layout_children_of(
                    nodes,
                    id as int,
                    0,
                    x as int,
                    0,
                    cy,
                    budget,
                    y_max,
                    lo,
                    *zoom,
                    zoomed,
                ).1 == (more || layout_children_of(
                    nodes,
                    id as int,
                    k as int,
                    x as int,
                    x_off as int,
                    cy,
                    budget,
                    y_max,
                    lo,
                    *zoom,
                    zoomed,
                ).1),
                // row bookkeeping
                rows@.len() >= base.len(),
                rows@.subrange(0, base.len() as int) == base,
                base.subrange(0, orig.len() as int) == orig,
                base.len() >= orig.len(),
                forall|j: int|
                    orig.len() <= j < base.len() ==> row_ok(
                        nodes,
                        id,
                        y,
                        y_max,
                        budget,
                        #[trigger] base[j],
                    ),
                forall|j: int|
                    base.len() <= j < rows@.len() ==> row_ok(
                        nodes,
                        id,
                        y,
                        y_max,
                        budget,
                        #[trigger] rows@[j],
                    ),
                (zoom is Some && in_zoom_scope(nodes, zoom->0.zoom_stack, id)) ==> forall|j: int|
                    orig.len() <= j < rows@.len() ==> in_zoom_scope(
                        nodes,
                        zoom->0.zoom_stack,
                        (#[trigger] rows@[j]).stack_id,
                    ),
            decreases n - k,
        {
            let c = self.nodes[id].children[k];
            proof {
                assert(ch[k as int] == c);
                assert(id < c < nodes.len());
            }
            let ct = self.nodes[c].total;
            proof {
                lemma_child_sum_member(nodes, ch, k as int);
                lemma_child_sum_nonneg(nodes, ch);
                assert(ct <= total);
            }
            let cb: u16;
            match zoomed {
                Some(zc) => {
                    if zc == c {
                        cb = budget;
                        proof {
                            // the zoomed child occurs only once, so it was not
                            // in the processed prefix
                            if ch.subrange(0, k as int).contains(zc) {
                                let j = choose|j: int|
                                    0 <= j < k && (#[trigger] ch.subrange(0, k as int)[j]) == zc;
                                assert(ch[j] == zc);
                                assert(false);
                            }
                        }
                    } else {
                        cb = 0;
                    }
                },
                None => {
                    if total == 0 {
                        cb = 0;
                    } else {
                        proof {
                            assert((budget as int) * (ct as int) <= u16::MAX as int * u64::MAX
                                as int) by (nonlinear_arith)
                                requires
                                    0 <= budget as int <= u16::MAX as int,
                                    0 <= ct as int <= u64::MAX as int,
                            ;
                        }
                        let w128 = (budget as u128) * (ct as u128) / (total as u128);
                        proof {
                            lemma_scaled_le(budget as int, ct as int, total as int);
                        }
                        cb = w128 as u16;
                    }
                },
            }
            proof {
                // the child budget still fits beside the earlier ones
                if zoomed is None && total > 0 {
                    lemma_child_sum_prefix_step(nodes, ch, k as int);
                    lemma_child_sum_prefix_le(nodes, ch, k + 1);
                    lemma_child_sum_nonneg(nodes, ch.subrange(0, k as int));
                    lemma_child_sum_nonneg(nodes, ch.subrange(0, k + 1));
                    lemma_scaled_add(
                        budget as int,
                        child_sum(nodes, ch.subrange(0, k as int)),
                        ct as int,
                        total as int,
                    );
                    lemma_scaled_le(
                        budget as int,
                        child_sum(nodes, ch.subrange(0, k + 1)),
                        total as int,
                    );
                }
                assert(x_off as int + cb as int <= budget as int);
            }
            let ghost before = rows@;
            let ghost x_off0 = x_off;
            let ghost more0 = more;
            let cmore = self.layout_rec(c, x + x_off, cy, cb, y_max, level_offset, zoom, rows);
            more = more || cmore;
            proof {
                assert(nodes[c as int].parent is Some && nodes[c as int].parent->0 == id);
                lemma_chain_child(nodes, id, c);
                // prefix of this call's rows is untouched
                assert(rows@.subrange(0, base.len() as int) =~= base) by {
                    assert(rows@.subrange(0, before.len() as int) == before);
                    assert forall|j: int| 0 <= j < base.len() implies rows@[j] == base[j] by {
                        assert(rows@.subrange(0, before.len() as int)[j] == before[j]);
                        assert(before.subrange(0, base.len() as int)[j] == base[j]);
                    }
                }
                assert forall|j: int|
                    base.len() <= j < rows@.len() implies row_ok(
                    nodes,
                    id,
                    y,
                    y_max,
                    budget,
                    #[trigger] rows@[j],
                ) by {
                    if j < before.len() {
                        assert(rows@.subrange(0, before.len() as int)[j] == before[j]);
                        assert(rows@[j] == before[j]);
                    } else {
                        assert(row_ok(nodes, c, cy, y_max, cb, rows@[j]));
                        lemma_chain_trans(nodes, rows@[j].stack_id as int, c, id);
                    }
                }
                if zoom is Some && in_zoom_scope(nodes, zoom->0.zoom_stack, id) {
                    let z = zoom->0.zoom_stack;
                    assert forall|j: int|
                        orig.len() <= j < rows@.len() implies in_zoom_scope(
                        nodes,
                        z,
                        (#[trigger] rows@[j]).stack_id,
                    ) by {
                        if j < before.len() {
                            assert(rows@.subrange(0, before.len() as int)[j] == before[j]);
                            assert(rows@[j] == before[j]);
                        } else {
                            // rows appended by the child call
                            if zoomed is Some {
                                let zc = zoomed->0;
                                if c == zc {
                                    assert(in_zoom_scope(nodes, z, c));
                                    assert(row_ok(nodes, c, cy, y_max, cb, rows@[j]));
                                } else {
                                    assert(cb == 0);
                                    assert(rows@.len() == before.len());
                                    assert(false);
                                }
                            } else {
                                // whole scope is inside the zoomed subtree
                                assert(in_subtree(nodes, z, id));
                                assert(ancestor_seq(nodes, c as int) == ancestor_seq(
                                    nodes,
                                    id as int,
                                ).push(c));
                                let jj = choose|jj: int|
                                    0 <= jj < ancestor_seq(nodes, id as int).len() && (
                                    #[trigger] ancestor_seq(nodes, id as int)[jj]) == z;
                                assert(ancestor_seq(nodes, c as int)[jj] == z);
                                assert(in_subtree(nodes, z, c));
                                assert(in_zoom_scope(nodes, z, c));
                                assert(row_ok(nodes, c, cy, y_max, cb, rows@[j]));
                            }
                        }
                    }
                }
                // x_off bookkeeping for the next round
                if zoomed is Some {
                    assert(ch.subrange(0, k + 1) =~= ch.subrange(0, k as int).push(c));
                    if ch.subrange(0, k + 1).contains(zoomed->0) {
                    }
                }
            }
            x_off = x_off + cb;
            k += 1;
            proof {
                // fold this child into the specified layout
                let cbs = child_budget_spec(nodes, id as int, c as int, budget, zoomed);
                assert(cb == cbs);
                let childspec = layout_of(
                    nodes,
                    c as int,
                    x as int + x_off0 as int,
                    cy,
                    cb,
                    y_max,
                    lo,
                    *zoom,
                );
                assert(rows@ == before + childspec.0);
                assert(cmore == childspec.1);
                let lck0 = layout_children_of(
                    nodes,
                    id as int,
                    k - 1,
                    x as int,
                    x_off0 as int,
                    cy,
                    budget,
                    y_max,
                    lo,
                    *zoom,
                    zoomed,
                );
                let lck1 = layout_children_of(
                    nodes,
                    id as int,
                    k as int,
                    x as int,
                    x_off as int,
                    cy,
                    budget,
                    y_max,
                    lo,
                    *zoom,
                    zoomed,
                );
                assert(0 <= k - 1 < ch.len());
                assert((id as int) < (c as int) && (c as int) < nodes.len());
                assert(lck0.0 == childspec.0 + lck1.0);
                assert(lck0.1 == (childspec.1 || lck1.1));
                let sub_old = before.subrange(base.len() as int, before.len() as int);
                let sub_new = rows@.subrange(base.len() as int, rows@.len() as int);
                assert(sub_new =~= sub_old + childspec.0) by {
                    assert forall|j: int| 0 <= j < sub_new.len() implies sub_new[j] == (sub_old
                        + childspec.0)[j] by {
                        if j < sub_old.len() {
                            assert(rows@[base.len() + j] == before[base.len() + j]);
                        } else {
                            assert(rows@[base.len() + j] == childspec.0[j - sub_old.len()]);
                        }
                    }
                }
                let lc0 = layout_children_of(
                    nodes,
                    id as int,
                    0,
                    x as int,
                    0,
                    cy,
                    budget,
                    y_max,
                    lo,
                    *zoom,
                    zoomed,
                );
                assert(lc0.0 == sub_old + lck0.0);
                assert(sub_old + (childspec.0 + lck1.0) =~= (sub_old + childspec.0) + lck1.0);
                assert(lc0.0 == sub_new + lck1.0);
                assert(lc0.1 == (more0 || lck0.1));
                assert(lc0.1 == (more || lck1.1));
            }
            proof {
                if zoomed is Some {
                    let zc = zoomed->0;
                    assert(ch.subrange(0, k as int) =~= ch.subrange(0, k - 1).push(c));
                    if c == zc {
                        assert(ch.subrange(0, k as int).last() == zc);
                        assert(ch.subrange(0, k as int).contains(zc));
                    } else {
                        assert forall|j: int|
                            0 <= j < k implies (ch.subrange(0, k as int)[j] == zc) == (j < k - 1
                            && ch.subrange(0, k - 1)[j] == zc) by {}
                        if ch.subrange(0, k as int).contains(zc) {
                            let j = choose|j: int|
                                0 <= j < k && (#[trigger] ch.subrange(0, k as int)[j]) == zc;
                            assert(ch.subrange(0, k - 1)[j] == zc);
                            assert(ch.subrange(0, k - 1).contains(zc));
                        } else if ch.subrange(0, k - 1).contains(zc) {
                            let j = choose|j: int|
                                0 <= j < k - 1 && (#[trigger] ch.subrange(0, k - 1)[j]) == zc;
                            assert(ch.subrange(0, k as int)[j] == zc);
                        }
                    }
                }
            }
        }
        proof {
            assert(rows@.subrange(0, orig.len() as int) =~= orig) by {
                assert forall|j: int| 0 <= j < orig.len() implies rows@[j] == orig[j] by {
                    assert(rows@.subrange(0, base.len() as int)[j] == base[j]);
                    assert(base.subrange(0, orig.len() as int)[j] == orig[j]);
                }
            }
            assert forall|j: int|
                orig.len() <= j < rows@.len() implies row_ok(
                nodes,
                id,
                y,
                y_max,
                budget,
                #[trigger] rows@[j],
            ) by {
                if j < base.len() {
                    assert(rows@.subrange(0, base.len() as int)[j] == base[j]);
                    assert(rows@[j] == base[j]);
                }
            }
            // assemble the specified layout from the own row and the
            // children's rows
            let lcn = layout_children_of(
                nodes,
                id as int,
                k as int,
                x as int,
                x_off as int,
                cy,
                budget,
                y_max,
                lo,
                *zoom,
                zoomed,
            );
            let lc0 = layout_children_of(
                nodes,
                id as int,
                0,
                x as int,
                0,
                cy,
                budget,
                y_max,
                lo,
                *zoom,
                zoomed,
            );
            let sub = rows@.subrange(base.len() as int, rows@.len() as int);
            assert(lcn.0 =~= Seq::<FlameRow>::empty());
            assert(sub + Seq::<FlameRow>::empty() =~= sub);
            assert(lc0.0 == sub);
            assert(lc0.1 == more);
            let full = layout_of(nodes, id as int, x as int, y, budget, y_max, lo, *zoom);
            let ownspec: Seq<FlameRow> = if after_offset {
                seq![
                    FlameRow {
                        x: (x as int) as u16,
                        y,
                        width: budget,
                        stack_id: (id as int) as usize,
                        is_hit: nodes[id as int].hit,
                    },
                ]
            } else {
                Seq::<FlameRow>::empty()
            };
            assert(full.0 == ownspec + lc0.0);
            assert(full.1 == lc0.1);
            assert(base =~= orig + ownspec);
            assert(rows@ =~= base + sub) by {
                assert forall|j: int| 0 <= j < rows@.len() implies rows@[j] == (base + sub)[j] by {
                    if j < base.len() {
                        assert(rows@.subrange(0, base.len() as int)[j] == base[j]);
                    } else {
                        assert(sub[j - base.len()] == rows@[j]);
                    }
                }
            }
            assert((orig + ownspec) + sub =~= orig + (ownspec + sub));
            assert(rows@ == orig + full.0);
        }
        more
    }

    /// Produce the renderable rows for the current viewport: proportional
    /// widths from the root budget `viewport_width`, rows `0` to
    /// `viewport_height - 1`, levels before `level_offset` suppressed, and,
    /// under a zoom, only the zoom path and the zoomed subtree.  The second
    /// result reports whether more rows lie below the bottom edge.
    pub fn compute_visible(
        &self,
        viewport_width: u16,
        viewport_height: u16,
        level_offset: usize,
        zoom: &Option<ZoomState>,
    ) -> (r: (Vec<FlameRow>, bool))
        requires
            self.wf(),
            zoom_wf(self.nodes@, *zoom),
        ensures
            r.0@ == layout_of(
                self.nodes@,
                0,
                0,
                0,
                viewport_width,
                viewport_height,
                level_offset as int,
                *zoom,
            ).0,
            r.1 == layout_of(
                self.nodes@,
                0,
                0,
                0,
                viewport_width,
                viewport_height,
                level_offset as int,
                *zoom,
            ).1,
            forall|j: int|
                0 <= j < r.0@.len() ==> row_ok(
                    self.nodes@,
                    0,
                    0,
                    viewport_height,
                    viewport_width,
                    #[trigger] r.0@[j],
                ),
            zoom is Some ==> forall|j: int|
                0 <= j < r.0@.len() ==> in_zoom_scope(
                    self.nodes@,
                    zoom->0.zoom_stack,
                    (#[trigger] r.0@[j]).stack_id,
                ),
    {
        let mut rows: Vec<FlameRow> = Vec::new();
        proof {
            if zoom is Some {
                lemma_chain_last(self.nodes@, zoom->0.zoom_stack as int);
                lemma_chain_bounds(self.nodes@, zoom->0.zoom_stack as int);
                let chz = ancestor_seq(self.nodes@, zoom->0.zoom_stack as int);
                assert(chz[0] == 0usize) by {
                    lemma_chain_first(self.nodes@, zoom->0.zoom_stack as int);
                }
                assert(chz.contains(0usize));
                assert(in_zoom_scope(self.nodes@, zoom->0.zoom_stack, 0));
            }
        }
        let more = self.layout_rec(
            0,
            0,
            0,
            viewport_width,
            viewport_height,
            level_offset,
            zoom,
            &mut rows,
        );
        proof {
            assert(Seq::<FlameRow>::empty() + layout_of(
                self.nodes@,
                0,
                0,
                0,
                viewport_width,
                viewport_height,
                level_offset as int,
                *zoom,
            ).0 =~= layout_of(
                self.nodes@,
                0,
                0,
                0,
                viewport_width,
                viewport_height,
                level_offset as int,
                *zoom,
            ).0);
        }
        (rows, more)
    }
}

/// A well-formed ancestor chain starts at the true root.
pub proof fn lemma_chain_first(nodes: Seq<StackNode>, z: int)
    requires
        forall|i: int| 0 <= i < nodes.len() ==> #[trigger] node_ok(nodes, i),
        0 <= z < nodes.len(),
    ensures
        ancestor_seq(nodes, z).len() >= 1,
        ancestor_seq(nodes, z)[0] == 0usize,
    decreases z,
{
    if z <= 0 {
    } else {
        assert(node_ok(nodes, z));
        let p = nodes[z].parent->0 as int;
        lemma_chain_first(nodes, p);
        assert(ancestor_seq(nodes, z) == ancestor_seq(nodes, p).push(z as usize));
    }
}

} // verus!
