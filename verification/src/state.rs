//! View state: the zoom stack, the selection, navigation among visible
//! rows and along parent/child edges, the active search pattern and the
//! view kind.  All navigation is by stable identifiers, which stay valid
//! while the tree grows.

use crate::flame::node_ok;
use crate::flame::FlameGraph;
use crate::flame::StackIdentifier;
use crate::layout::FlameRow;
use crate::layout::ZoomState;
use crate::search::SearchPattern;
use vstd::prelude::*;

verus! {

/// The two mutually exclusive views.
#[derive(Clone, Copy, Debug, PartialEq, Eq, Structural)]
pub enum ViewKind {
    FlameGraph,
    Table,
}

/// One zoom level: the node whose subtree takes the full width.
#[derive(Clone, Copy, Debug, PartialEq, Eq, Structural)]
pub struct ZoomEntry {
    pub stack_id: StackIdentifier,
}

/// Cursor and scroll position of the tabular view.
#[derive(Clone, Copy, Debug, PartialEq, Eq, Structural, Default)]
pub struct TableViewState {
    pub selected: usize,
    pub offset: usize,
}

/// First row showing the given stack, if any.
pub open spec fn row_index(rows: Seq<FlameRow>, sel: StackIdentifier) -> Option<int>
    decreases rows.len(),
{
    if rows.len() == 0 {
        None
    } else if rows[0].stack_id == sel {
        Some(0)
    } else {
        match row_index(rows.drop_first(), sel) {
            None => None,
            Some(i) => Some(i + 1),
        }
    }
}

/// The interactive state of the flame-graph view.
pub struct FlamegraphState {
    pub view_kind: ViewKind,
    pub selected: StackIdentifier,
    pub level_offset: usize,
    pub zoom_stack: Vec<ZoomEntry>,
    pub search_pattern: Option<SearchPattern>,
    pub freeze: bool,
    pub table_state: TableViewState,
}

impl FlamegraphState {
    /// Every identifier the state refers to exists in the tree.  Because
    /// the tree is append-only, this is preserved as the tree grows.
    pub open spec fn valid_for(self, g: FlameGraph) -> bool {
        &&& self.selected < g.nodes@.len()
        &&& forall|k: int|
            0 <= k < self.zoom_stack@.len() ==> (#[trigger] self.zoom_stack@[k]).stack_id
                < g.nodes@.len()
    }

    pub fn new() -> (r: FlamegraphState)
        ensures
            r.view_kind == ViewKind::FlameGraph,
            r.selected == 0,
            r.level_offset == 0,
            r.zoom_stack@.len() == 0,
            r.search_pattern is None,
            r.freeze == false,
            forall|g: FlameGraph| g.wf() ==> r.valid_for(g),
    {
        FlamegraphState {
            view_kind: ViewKind::FlameGraph,
            selected: 0,
            level_offset: 0,
            zoom_stack: Vec::new(),
            search_pattern: None,
            freeze: false,
            table_state: TableViewState { selected: 0, offset: 0 },
        }
    }

    /// The innermost zoom level, if any.
    pub fn get_zoom(&self) -> (r: Option<ZoomEntry>)
        ensures
            self.zoom_stack@.len() == 0 <==> r is None,
            self.zoom_stack@.len() > 0 ==> r == Some(self.zoom_stack@.last()),
    {
        if self.zoom_stack.len() == 0 {
            None
        } else {
            Some(self.zoom_stack[self.zoom_stack.len() - 1])
        }
    }

    /// Zoom into `stack_id`.  Valid only for an identifier that exists in
    /// the tree; anything else is refused and changes nothing.
    pub fn zoom(&mut self, g: &FlameGraph, stack_id: StackIdentifier) -> (ok: bool)
        requires
            g.wf(),
            old(self).valid_for(*g),
        ensures
            final(self).valid_for(*g),
            ok <==> stack_id < g.nodes@.len(),
            ok ==> final(self).zoom_stack@ == old(self).zoom_stack@.push(
                ZoomEntry { stack_id },
            ) && final(self).selected == stack_id,
            !ok ==> *final(self) == *old(self),
            final(self).view_kind == old(self).view_kind,
            final(self).search_pattern == old(self).search_pattern,
            final(self).freeze == old(self).freeze,
    {
        if stack_id < g.nodes.len() {
            self.zoom_stack.push(ZoomEntry { stack_id });
            self.selected = stack_id;
            true
        } else {
            false
        }
    }

    /// Leave the innermost zoom level; a no-op at the outermost level.
    pub fn unzoom(&mut self)
        ensures
            old(self).zoom_stack@.len() == 0 ==> *final(self) == *old(self),
            old(self).zoom_stack@.len() > 0 ==> final(self).zoom_stack@ == old(
                self,
            ).zoom_stack@.drop_last() && final(self).selected == old(self).selected,
            final(self).view_kind == old(self).view_kind,
            final(self).search_pattern == old(self).search_pattern,
    {
        if self.zoom_stack.len() > 0 {
            self.zoom_stack.pop();
        }
    }

    /// The zoom state the layout engine consumes: the innermost zoomed
    /// node with its recomputed ancestor chain.
    pub fn zoom_state(&self, g: &FlameGraph) -> (r: Option<ZoomState>)
        requires
            g.wf(),
            self.valid_for(*g),
        ensures
            crate::layout::zoom_wf(g.nodes@, r),
            r is Some <==> self.zoom_stack@.len() > 0,
            r is Some ==> r->0.zoom_stack == self.zoom_stack@.last().stack_id,
    {
        if self.zoom_stack.len() == 0 {
            None
        } else {
            let top = self.zoom_stack[self.zoom_stack.len() - 1].stack_id;
            let ancestors = g.get_ancestors(top);
            Some(ZoomState { zoom_stack: top, ancestors })
        }
    }

    /// Move the selection to an existing identifier; anything else is
    /// refused.
    pub fn select(&mut self, g: &FlameGraph, stack_id: StackIdentifier) -> (ok: bool)
        requires
            g.wf(),
            old(self).valid_for(*g),
        ensures
            final(self).valid_for(*g),
            ok <==> stack_id < g.nodes@.len(),
            ok ==> final(self).selected == stack_id,
            !ok ==> *final(self) == *old(self),
            final(self).zoom_stack@ == old(self).zoom_stack@,
    {
        if stack_id < g.nodes.len() {
            self.selected = stack_id;
            true
        } else {
            false
        }
    }

    /// Move to the parent, regardless of visibility; the root stays put.
    pub fn move_left(&mut self, g: &FlameGraph)
        requires
            g.wf(),
            old(self).valid_for(*g),
        ensures
            final(self).valid_for(*g),
            final(self).selected == (match g.nodes@[old(self).selected as int].parent {
                Some(p) => p,
                None => old(self).selected,
            }),
            final(self).zoom_stack@ == old(self).zoom_stack@,
            final(self).view_kind == old(self).view_kind,
    {
        proof {
            assert(node_ok(g.nodes@, self.selected as int));
        }
        match g.nodes[self.selected].parent {
            Some(p) => {
                self.selected = p;
            },
            None => {},
        }
    }

    /// Move to the first child, regardless of visibility; a leaf stays
    /// put.
    pub fn move_right(&mut self, g: &FlameGraph)
        requires
            g.wf(),
            old(self).valid_for(*g),
        ensures
            final(self).valid_for(*g),
            final(self).selected == (if g.nodes@[old(self).selected as int].children@.len() > 0 {
                g.nodes@[old(self).selected as int].children@[0]
            } else {
                old(self).selected
            }),
            final(self).zoom_stack@ == old(self).zoom_stack@,
            final(self).view_kind == old(self).view_kind,
    {
        proof {
            assert(node_ok(g.nodes@, self.selected as int));
        }
        let sel = self.selected;
        if g.nodes[sel].children.len() > 0 {
            self.selected = g.nodes[sel].children[0];
        }
    }

    /// Move the selection one visible row up (towards the first row).
    pub fn move_up(&mut self, g: &FlameGraph, rows: &Vec<FlameRow>)
        requires
            g.wf(),
            old(self).valid_for(*g),
            forall|j: int| 0 <= j < rows@.len() ==> (#[trigger] rows@[j]).stack_id < g.nodes@.len(),
        ensures
            final(self).valid_for(*g),
            final(self).selected == (match row_index(rows@, old(self).selected) {
                Some(i) => if i > 0 {
                    rows@[i - 1].stack_id
                } else {
                    old(self).selected
                },
                None => old(self).selected,
            }),
            final(self).zoom_stack@ == old(self).zoom_stack@,
    {
        proof {
            vstd::std_specs::vec::axiom_spec_len(rows);
        }
        match find_row(rows, self.selected) {
            Some(i) => {
                proof {
                    assert(row_index(rows@, old(self).selected) == Some(i as int));
                    assert(rows@[i as int].stack_id < g.nodes@.len());
                }
                if i > 0 {
                    proof {
                        assert(rows@[i - 1].stack_id < g.nodes@.len());
                    }
                    self.selected = rows[i - 1].stack_id;
                }
            },
            None => {},
        }
    }

    /// Move the selection one visible row down (towards the last row).
    pub fn move_down(&mut self, g: &FlameGraph, rows: &Vec<FlameRow>)
        requires
            g.wf(),
            old(self).valid_for(*g),
            forall|j: int| 0 <= j < rows@.len() ==> (#[trigger] rows@[j]).stack_id < g.nodes@.len(),
        ensures
            final(self).valid_for(*g),
            final(self).selected == (match row_index(rows@, old(self).selected) {
                Some(i) => if i + 1 < rows@.len() {
                    rows@[i + 1].stack_id
                } else {
                    old(self).selected
                },
                None => old(self).selected,
            }),
            final(self).zoom_stack@ == old(self).zoom_stack@,
    {
        proof {
            vstd::std_specs::vec::axiom_spec_len(rows);
        }
        match find_row(rows, self.selected) {
            Some(i) => {
                proof {
                    assert(row_index(rows@, old(self).selected) == Some(i as int));
                    assert(i < rows@.len());
                }
                if i + 1 < rows.len() {
                    proof {
                        assert(rows@[i + 1].stack_id < g.nodes@.len());
                    }
                    self.selected = rows[i + 1].stack_id;
                }
            },
            None => {},
        }
    }

    /// Switch between the flame-graph and the tabular view.
    pub fn toggle_view(&mut self)
        ensures
            final(self).view_kind == (match old(self).view_kind {
                ViewKind::FlameGraph => ViewKind::Table,
                ViewKind::Table => ViewKind::FlameGraph,
            }),
            final(self).selected == old(self).selected,
            final(self).zoom_stack@ == old(self).zoom_stack@,
            final(self).search_pattern == old(self).search_pattern,
            final(self).freeze == old(self).freeze,
    {
        self.view_kind = match self.view_kind {
            ViewKind::FlameGraph => ViewKind::Table,
            ViewKind::Table => ViewKind::FlameGraph,
        };
    }

    /// Suspend or resume the reader's consumption of fresh snapshots; the
    /// sampler keeps running either way.
    pub fn toggle_freeze(&mut self)
        ensures
            final(self).freeze == !old(self).freeze,
            final(self).selected == old(self).selected,
            final(self).zoom_stack@ == old(self).zoom_stack@,
            final(self).view_kind == old(self).view_kind,
            final(self).search_pattern == old(self).search_pattern,
    {
        self.freeze = !self.freeze;
    }
}

/// First row showing `sel`, scanned front to back.
fn find_row(rows: &Vec<FlameRow>, sel: StackIdentifier) -> (r: Option<usize>)
    ensures
        match row_index(rows@, sel) {
            None => r is None,
            Some(i) => r == Some(i as usize) && 0 <= i < rows@.len() && rows@[i].stack_id == sel,
        },
{
    proof {
        assert(rows@.subrange(0, rows@.len() as int) =~= rows@);
    }
    let mut k: usize = 0;
    while k < rows.len()
        invariant
            k <= rows@.len(),
            forall|j: int| 0 <= j < k ==> (#[trigger] rows@[j]).stack_id != sel,
            row_index(rows@, sel) == (match row_index(
                rows@.subrange(k as int, rows@.len() as int),
                sel,
            ) {
                None => None::<int>,
                Some(i) => Some(i + k),
            }),
        decreases rows@.len() - k,
    {
        let ghost sub = rows@.subrange(k as int, rows@.len() as int);
        if rows[k].stack_id == sel {
            proof {
                assert(sub[0].stack_id == sel);
            }
            return Some(k);
        }
        proof {
            assert(sub[0].stack_id != sel);
            assert(sub.drop_first() =~= rows@.subrange(k + 1, rows@.len() as int));
        }
        k += 1;
    }
    proof {
        assert(rows@.subrange(k as int, rows@.len() as int).len() == 0);
    }
    None
}

} // verus!
