//! Ordered-Stacks index: a flat, sorted projection of the tree for the
//! tabular view.  One entry per node, rebuilt from the tree whenever the
//! counts, the sort column or the search pattern change.  Sorting is by the
//! chosen count, descending, with ties broken by name ascending (byte
//! order of the UTF-8 encoding, which agrees with code-point order).

use crate::flame::FlameGraph;
use vstd::prelude::*;
use vstd::relations::sorted_by;
use vstd::string::StringSliceAdditionalSpecFns;
use vstd::seq_lib::lemma_multiset_commutative;
use vstd::multiset::Multiset;
use vstd::utf8::encode_utf8;

verus! {

/// One row of the tabular view.
#[derive(Clone, Debug)]
pub struct OrderedStacksEntry {
    pub name: String,
    pub own: u64,
    pub total: u64,
    pub visible: bool,
}

/// Which count column orders the table.
#[derive(Clone, Copy, Debug, PartialEq, Eq, Structural)]
pub enum SortColumn {
    Total,
    Own,
}

/// The count an entry is ordered by under the given column.
pub open spec fn sort_key(col: SortColumn, e: OrderedStacksEntry) -> u64 {
    match col {
        SortColumn::Total => e.total,
        SortColumn::Own => e.own,
    }
}

/// Byte-wise lexicographic order.
pub open spec fn bytes_le(a: Seq<u8>, b: Seq<u8>) -> bool
    decreases a.len(),
{
    if a.len() == 0 {
        true
    } else if b.len() == 0 {
        false
    } else if a[0] < b[0] {
        true
    } else if a[0] > b[0] {
        false
    } else {
        bytes_le(a.drop_first(), b.drop_first())
    }
}

/// Table order: larger count first; equal counts in ascending name order.
pub open spec fn entry_le(col: SortColumn, a: OrderedStacksEntry, b: OrderedStacksEntry) -> bool {
    ||| sort_key(col, a) > sort_key(col, b)
    ||| (sort_key(col, a) == sort_key(col, b) && bytes_le(
        encode_utf8(a.name@),
        encode_utf8(b.name@),
    ))
}

/// The table order as a relation, for use with `sorted_by`.
pub open spec fn table_le(col: SortColumn) -> spec_fn(OrderedStacksEntry, OrderedStacksEntry) -> bool {
    |a: OrderedStacksEntry, b: OrderedStacksEntry| entry_le(col, a, b)
}

/// Byte order is total.
pub proof fn lemma_bytes_le_total(a: Seq<u8>, b: Seq<u8>)
    ensures
        bytes_le(a, b) || bytes_le(b, a),
    decreases a.len(),
{
    if a.len() > 0 && b.len() > 0 && a[0] == b[0] {
        lemma_bytes_le_total(a.drop_first(), b.drop_first());
    }
}

/// Byte order is transitive.
pub proof fn lemma_bytes_le_trans(a: Seq<u8>, b: Seq<u8>, c: Seq<u8>)
    requires
        bytes_le(a, b),
        bytes_le(b, c),
    ensures
        bytes_le(a, c),
    decreases a.len(),
{
    if a.len() > 0 && b.len() > 0 && c.len() > 0 {
        if a[0] == b[0] && b[0] == c[0] {
            lemma_bytes_le_trans(a.drop_first(), b.drop_first(), c.drop_first());
        }
    }
}

/// The table order is total.
pub proof fn lemma_entry_le_total(col: SortColumn, a: OrderedStacksEntry, b: OrderedStacksEntry)
    ensures
        entry_le(col, a, b) || entry_le(col, b, a),
{
    lemma_bytes_le_total(encode_utf8(a.name@), encode_utf8(b.name@));
}

/// The table order is transitive.
pub proof fn lemma_entry_le_trans(
    col: SortColumn,
    a: OrderedStacksEntry,
    b: OrderedStacksEntry,
    c: OrderedStacksEntry,
)
    requires
        entry_le(col, a, b),
        entry_le(col, b, c),
    ensures
        entry_le(col, a, c),
{
    if sort_key(col, a) == sort_key(col, b) && sort_key(col, b) == sort_key(col, c) {
        lemma_bytes_le_trans(
            encode_utf8(a.name@),
            encode_utf8(b.name@),
            encode_utf8(c.name@),
        );
    }
}

/// Byte-wise comparison of two names.
fn name_le(a: &str, b: &str) -> (r: bool)
    ensures
        r == bytes_le(a.spec_bytes(), b.spec_bytes()),
{
    let ab = a.as_bytes();
    let bb = b.as_bytes();
    proof {
        assert(ab@.subrange(0, ab@.len() as int) =~= ab@);
        assert(bb@.subrange(0, bb@.len() as int) =~= bb@);
    }
    let mut i: usize = 0;
    loop
        invariant
            ab@ == a.spec_bytes(),
            bb@ == b.spec_bytes(),
            i <= ab@.len(),
            i <= bb@.len(),
            bytes_le(ab@, bb@) == bytes_le(
                ab@.subrange(i as int, ab@.len() as int),
                bb@.subrange(i as int, bb@.len() as int),
            ),
        decreases ab@.len() - i,
    {
        let ghost asub = ab@.subrange(i as int, ab@.len() as int);
        let ghost bsub = bb@.subrange(i as int, bb@.len() as int);
        if i == ab.len() {
            proof {
                assert(asub.len() == 0);
            }
            return true;
        }
        if i == bb.len() {
            proof {
                assert(bsub.len() == 0 && asub.len() > 0);
            }
            return false;
        }
        let x = ab[i];
        let y = bb[i];
        proof {
            assert(asub[0] == x && bsub[0] == y);
        }
        if x < y {
            return true;
        }
        if x > y {
            return false;
        }
        proof {
            assert(asub.drop_first() =~= ab@.subrange(i + 1, ab@.len() as int));
            assert(bsub.drop_first() =~= bb@.subrange(i + 1, bb@.len() as int));
        }
        i += 1;
    }
}

/// Does `entry_le(col, a, b)` hold?  Executable mirror of the table order.
fn entry_le_exec(col: SortColumn, a: &OrderedStacksEntry, b: &OrderedStacksEntry) -> (r: bool)
    ensures
        r == entry_le(col, *a, *b),
{
    let ka = match col {
        SortColumn::Total => a.total,
        SortColumn::Own => a.own,
    };
    let kb = match col {
        SortColumn::Total => b.total,
        SortColumn::Own => b.own,
    };
    if ka > kb {
        true
    } else if ka < kb {
        false
    } else {
        name_le(a.name.as_str(), b.name.as_str())
    }
}

/// Inserting an element anywhere in a sequence adds it to the multiset.
proof fn lemma_insert_to_multiset<A>(s: Seq<A>, i: int, e: A)
    requires
        0 <= i <= s.len(),
    ensures
        s.insert(i, e).to_multiset() =~= s.to_multiset().insert(e),
{
    broadcast use vstd::seq_lib::group_to_multiset_ensures;

    let l = s.subrange(0, i);
    let r = s.subrange(i, s.len() as int);
    assert(s.insert(i, e) =~= l + (seq![e] + r));
    assert(s =~= l + r);
    lemma_multiset_commutative(l, seq![e] + r);
    lemma_multiset_commutative(seq![e], r);
    lemma_multiset_commutative(l, r);
    assert(seq![e] =~= Seq::<A>::empty().push(e));
    assert(Seq::<A>::empty().push(e).to_multiset() =~= Seq::<A>::empty().to_multiset().insert(e));
    assert(Seq::<A>::empty().to_multiset() =~= Multiset::<A>::empty()) by {
        assert(Seq::<A>::empty().to_multiset().len() == 0);
    }
}

/// The Ordered-Stacks index: the sorted entries, the column they are
/// sorted by, and the degraded-mode flag raised when a non-empty manual
/// pattern matched nothing (the table then shows every entry instead of an
/// empty view).
pub struct OrderedStacks {
    pub entries: Vec<OrderedStacksEntry>,
    pub sorted_column: SortColumn,
    pub search_pattern_ignored_because_of_no_match: bool,
}

impl OrderedStacks {
    /// Rebuild the index from the tree.  `has_manual` says whether a manual
    /// search pattern is active; the nodes' `hit` flags are assumed current
    /// (recomputed by the search index).  One entry is made per node, then
    /// the list is sorted by `col`.
    pub fn rebuild(g: &FlameGraph, has_manual: bool, col: SortColumn) -> (r: OrderedStacks)
        requires
            g.wf(),
        ensures
            r.sorted_column == col,
            sorted_by(r.entries@, table_le(col)),
            r.entries@.len() == g.nodes@.len(),
            // the multiset of rows is exactly one row per node
            r.entries@.to_multiset() =~= Seq::new(
                g.nodes@.len(),
                |i: int|
                    OrderedStacksEntry {
                        name: g.nodes@[i].key.name,
                        own: g.nodes@[i].own,
                        total: g.nodes@[i].total,
                        visible: !has_manual || g.nodes@[i].hit || !(exists|j: int|
                            0 <= j < g.nodes@.len() && (#[trigger] g.nodes@[j].hit)),
                    },
            ).to_multiset(),
            // degraded mode: a manual pattern that matches nothing shows all
            r.search_pattern_ignored_because_of_no_match == (has_manual && !(exists|j: int|
                0 <= j < g.nodes@.len() && (#[trigger] g.nodes@[j].hit))),
            r.search_pattern_ignored_because_of_no_match ==> forall|k: int|
                0 <= k < r.entries@.len() ==> (#[trigger] r.entries@[k]).visible,
    {
        let n = g.nodes.len();
        // first pass: does any node hit?
        let mut any_hit = false;
        let mut k: usize = 0;
        while k < n
            invariant
                n == g.nodes@.len(),
                k <= n,
                any_hit == (exists|j: int| 0 <= j < k && (#[trigger] g.nodes@[j].hit)),
            decreases n - k,
        {
            if g.nodes[k].hit {
                any_hit = true;
                proof {
                    assert(g.nodes@[k as int].hit);
                }
            }
            k += 1;
        }
        let ghost anyh = exists|j: int| 0 <= j < g.nodes@.len() && (#[trigger] g.nodes@[j].hit);
        let ghost target = Seq::new(
            g.nodes@.len(),
            |i: int|
                OrderedStacksEntry {
                    name: g.nodes@[i].key.name,
                    own: g.nodes@[i].own,
                    total: g.nodes@[i].total,
                    visible: !has_manual || g.nodes@[i].hit || !anyh,
                },
        );
        // second pass: build and insertion-sort the entries
        let mut entries: Vec<OrderedStacksEntry> = Vec::new();
        proof {
            assert(entries@ =~= target.subrange(0, 0));
        }
        let mut k: usize = 0;
        while k < n
            invariant
                g.wf(),
                n == g.nodes@.len(),
                k <= n,
                anyh == (exists|j: int| 0 <= j < g.nodes@.len() && (#[trigger] g.nodes@[j].hit)),
                any_hit == anyh,
                target.len() == n,
                forall|i: int|
                    0 <= i < n ==> #[trigger] target[i] == (OrderedStacksEntry {
                        name: g.nodes@[i].key.name,
                        own: g.nodes@[i].own,
                        total: g.nodes@[i].total,
                        visible: !has_manual || g.nodes@[i].hit || !anyh,
                    }),
                sorted_by(entries@, table_le(col)),
                entries@.to_multiset() =~= target.subrange(0, k as int).to_multiset(),
                entries@.len() == k,
                has_manual && !anyh ==> forall|j: int|
                    0 <= j < entries@.len() ==> (#[trigger] entries@[j]).visible,
                !has_manual ==> forall|j: int|
                    0 <= j < entries@.len() ==> (#[trigger] entries@[j]).visible,
            decreases n - k,
        {
            broadcast use vstd::seq_lib::group_to_multiset_ensures;

            let node = &g.nodes[k];
            let visible = !has_manual || node.hit || !any_hit;
            let e = OrderedStacksEntry {
                name: node.key.name.clone(),
                own: node.own,
                total: node.total,
                visible,
            };
            proof {
                assert(e == target[k as int]);
            }
            // find the insertion point: past every entry that precedes `e`
            let mut p: usize = 0;
            let elen = entries.len();
            while p < elen && entry_le_exec(col, &entries[p], &e)
                invariant
                    elen == entries@.len(),
                    p <= elen,
                    forall|j: int| 0 <= j < p ==> entry_le(col, #[trigger] entries@[j], e),
                decreases elen - p,
            {
                p += 1;
            }
            let ghost before = entries@;
            entries.insert(p, e);
            proof {
                let leq = table_le(col);
                lemma_insert_to_multiset(before, p as int, e);
                assert(target.subrange(0, k + 1).drop_last() =~= target.subrange(0, k as int));
                assert(target.subrange(0, k + 1).to_multiset() =~= target.subrange(
                    0,
                    k as int,
                ).to_multiset().insert(target[k as int])) by {
                    assert(target.subrange(0, k + 1) =~= target.subrange(0, k as int).push(
                        target[k as int],
                    ));
                }
                assert forall|i: int, j: int|
                    0 <= i < j < entries@.len() implies #[trigger] leq(
                    entries@[i],
                    entries@[j],
                ) by {
                    if j < p {
                        assert(entries@[i] == before[i] && entries@[j] == before[j]);
                    } else if i < p && j == p {
                        assert(entries@[i] == before[i]);
                        assert(leq(before[i], e));
                    } else if i < p && j > p {
                        assert(entries@[i] == before[i] && entries@[j] == before[j - 1]);
                    } else if i == p {
                        assert(entries@[j] == before[j - 1]);
                        assert(p < elen ==> !leq(before[p as int], e));
                        if p < elen {
                            lemma_entry_le_total(col, e, before[p as int]);
                            assert(leq(e, before[p as int]));
                            if j - 1 > p {
                                assert(leq(before[p as int], before[j - 1]));
                                lemma_entry_le_trans(col, e, before[p as int], before[j - 1]);
                            }
                        }
                    } else {
                        assert(entries@[i] == before[i - 1] && entries@[j] == before[j - 1]);
                    }
                }
            }
            k += 1;
        }
        proof {
            assert(target.subrange(0, n as int) =~= target);
            assert(target =~= Seq::new(
                g.nodes@.len(),
                |i: int|
                    OrderedStacksEntry {
                        name: g.nodes@[i].key.name,
                        own: g.nodes@[i].own,
                        total: g.nodes@[i].total,
                        visible: !has_manual || g.nodes@[i].hit || !(exists|j: int|
                            0 <= j < g.nodes@.len() && (#[trigger] g.nodes@[j].hit)),
                    },
            ));
        }
        OrderedStacks {
            entries,
            sorted_column: col,
            search_pattern_ignored_because_of_no_match: has_manual && !any_hit,
        }
    }
}

} // verus!
