//! The dashboard model behind the rendered widget: the application state,
//! the widget wrapper the presentation layer reads, the help tags, and the
//! header and status texts.  Everything here computes plain values; styling
//! and terminal drawing live outside the library.

use crate::flame::FlameGraph;
use crate::fmt::dec_str;
use crate::fmt::duration_string;
use crate::fmt::duration_text;
use crate::fmt::hundredths_str;
use crate::fmt::pad_to_width;
use crate::fmt::percent_hundredths;
use crate::fmt::percent_string;
use crate::fmt::spaces;
use crate::fmt::u64_to_string;
use crate::ordered::OrderedStacks;
use crate::ordered::SortColumn;
use crate::sampler::SamplerState;
use crate::sampler::SamplerStatus;
use crate::state::FlamegraphState;
use crate::state::ViewKind;
use vstd::prelude::*;

verus! {

/// Where the flame graph came from: a static trace file, or a live
/// process.
pub enum FlameGraphInput {
    File(String),
    Pid(u64, Option<String>),
}

/// The text being typed into the search prompt.
pub struct InputBuffer {
    pub buffer: String,
    pub cursor_pos: usize,
}

/// The application: the tree, the view state, the tabular index, the input
/// source, and the latest sampler status, if live.
pub struct App {
    pub flamegraph: FlameGraph,
    pub flamegraph_state: FlamegraphState,
    pub ordered_stacks: OrderedStacks,
    pub flamegraph_input: FlameGraphInput,
    pub sampler_state: Option<SamplerState>,
    pub input_buffer: Option<InputBuffer>,
    pub transient_message: Option<String>,
}

impl App {
    /// A coherent application: well-formed tree, state that points at
    /// existing identifiers, and a coverage count within the root total.
    pub open spec fn wf(self) -> bool {
        &&& self.flamegraph.wf()
        &&& self.flamegraph_state.valid_for(self.flamegraph)
        &&& (self.flamegraph.hit_coverage is Some ==> self.flamegraph.hit_coverage->0
            <= self.flamegraph.nodes@[0].total)
    }

    /// A fresh application over an empty tree.
    pub fn new(flamegraph_input: FlameGraphInput) -> (r: App)
        ensures
            r.wf(),
            r.flamegraph.nodes@.len() == 1,
            r.flamegraph_state.selected == 0,
            r.flamegraph_input == flamegraph_input,
            r.sampler_state is None,
            r.input_buffer is None,
            r.transient_message is None,
    {
        let flamegraph = FlameGraph::new();
        let ordered_stacks = OrderedStacks::rebuild(&flamegraph, false, SortColumn::Total);
        App {
            flamegraph,
            flamegraph_state: FlamegraphState::new(),
            ordered_stacks,
            flamegraph_input,
            sampler_state: None,
            input_buffer: None,
            transient_message: None,
        }
    }

    pub fn flamegraph(&self) -> (r: &FlameGraph)
        ensures
            r == &self.flamegraph,
    {
        &self.flamegraph
    }

    pub fn flamegraph_state(&self) -> (r: &FlamegraphState)
        ensures
            r == &self.flamegraph_state,
    {
        &self.flamegraph_state
    }

    pub fn sampler_state(&self) -> (r: &Option<SamplerState>)
        ensures
            r == &self.sampler_state,
    {
        &self.sampler_state
    }
}

/// Measurements the renderer feeds back after a frame.
#[derive(Clone, Debug, Default)]
pub struct FlamelensWidgetState {
    pub frame_height: u16,
    pub frame_width: u16,
    pub render_time_ms: u64,
    pub cursor_position: Option<(u16, u16)>,
}

/// The widget: a read-only view over the application for one frame.
pub struct FlamelensWidget<'a> {
    pub app: &'a App,
}

/// Key-hint pairs shown at the bottom of the screen.
pub struct HelpTags {
    pub tags: Vec<(&'static str, &'static str)>,
    pub default_tags: Vec<(&'static str, &'static str)>,
}

/// One key-hint pair has the given key and action texts.
pub open spec fn tag_is(t: (&'static str, &'static str), key: &'static str, action: &'static str) -> bool {
    t.0@ == key@ && t.1@ == action@
}

/// The rendered text of a run of tags: `[key: action] ` each.
pub open spec fn tags_text(ts: Seq<(&'static str, &'static str)>) -> Seq<char>
    decreases ts.len(),
{
    if ts.len() == 0 {
        Seq::empty()
    } else {
        tags_text(ts.drop_last()) + seq!['['] + ts.last().0@ + seq![':', ' '] + ts.last().1@
            + seq![']', ' ']
    }
}

impl HelpTags {
    /// Start with the hints every view shares.
    pub fn new() -> (r: HelpTags)
        ensures
            r.tags@.len() == 0,
            r.default_tags@.len() == 3,
            r.default_tags@[0].0@ == "r"@ && r.default_tags@[0].1@ == "reset"@,
            r.default_tags@[1].0@ == "tab"@ && r.default_tags@[1].1@ == "switch view"@,
            r.default_tags@[2].0@ == "q"@ && r.default_tags@[2].1@ == "quit"@,
    {
        let mut default_tags: Vec<(&'static str, &'static str)> = Vec::new();
        default_tags.push(("r", "reset"));
        default_tags.push(("tab", "switch view"));
        default_tags.push(("q", "quit"));
        HelpTags { tags: Vec::new(), default_tags }
    }

    /// Add one view-specific hint.
    pub fn add(&mut self, tag: &'static str, description: &'static str)
        ensures
            final(self).tags@ == old(self).tags@.push((tag, description)),
            final(self).default_tags@ == old(self).default_tags@,
    {
        self.tags.push((tag, description));
    }

    /// The full hint line: a leading space, the view-specific tags, then
    /// the shared ones.
    pub fn line_text(&self) -> (r: String)
        ensures
            r@ == seq![' '] + tags_text(self.tags@ + self.default_tags@),
    {
        proof {
            reveal_strlit(" ");
            reveal_strlit("[");
            reveal_strlit(": ");
            reveal_strlit("] ");
        }
        let mut s = String::from_str(" ");
        let ghost all = self.tags@ + self.default_tags@;
        let n1 = self.tags.len();
        let n2 = self.default_tags.len();
        proof {
            assert(all.subrange(0, 0) =~= Seq::<(&'static str, &'static str)>::empty());
        }
        let mut k: usize = 0;
        while k < n1
            invariant
                n1 == self.tags@.len(),
                k <= n1,
                all == self.tags@ + self.default_tags@,
                s@ == seq![' '] + tags_text(all.subrange(0, k as int)),
            decreases n1 - k,
        {
            let p = self.tags[k];
            proof {
                assert(all[k as int] == p);
            }
            s.append("[");
            s.append(p.0);
            s.append(": ");
            s.append(p.1);
            s.append("] ");
            proof {
                reveal_strlit("[");
                reveal_strlit(": ");
                reveal_strlit("] ");
                assert(all.subrange(0, k + 1).drop_last() =~= all.subrange(0, k as int));
                assert(all.subrange(0, k + 1).last() == all[k as int]);
                assert(s@ =~= seq![' '] + tags_text(all.subrange(0, k + 1)));
            }
            k += 1;
        }
        let mut j: usize = 0;
        while j < n2
            invariant
                n1 == self.tags@.len(),
                n2 == self.default_tags@.len(),
                j <= n2,
                all == self.tags@ + self.default_tags@,
                s@ == seq![' '] + tags_text(all.subrange(0, n1 + j)),
            decreases n2 - j,
        {
            let p = self.default_tags[j];
            proof {
                assert(all[n1 + j] == p);
            }
            s.append("[");
            s.append(p.0);
            s.append(": ");
            s.append(p.1);
            s.append("] ");
            proof {
                reveal_strlit("[");
                reveal_strlit(": ");
                reveal_strlit("] ");
                assert(all.subrange(0, n1 + j + 1).drop_last() =~= all.subrange(0, n1 + j));
                assert(all.subrange(0, n1 + j + 1).last() == all[n1 + j]);
                assert(s@ =~= seq![' '] + tags_text(all.subrange(0, n1 + j + 1)));
            }
            j += 1;
        }
        proof {
            assert(all.subrange(0, n1 + n2) =~= all);
        }
        s
    }
}

/// A text padded with spaces on the right to at least `width` characters.
pub open spec fn padded_text(s: Seq<char>, width: int) -> Seq<char> {
    s + spaces(width - s.len())
}

/// The count-statistics bracket: optional label, the count, its percentage
/// of the whole, and under a zoom its percentage of the zoomed subtree.
pub open spec fn count_stats_text(
    name: Option<Seq<char>>,
    count: int,
    total: int,
    zoomed_total: Option<int>,
) -> Seq<char> {
    seq!['['] + (match name {
        Some(n) => n + seq![':', ' '],
        None => Seq::empty(),
    }) + dec_str(count) + " samples, "@ + hundredths_str(percent_hundredths(count, total))
        + "% of all"@ + (match zoomed_total {
        Some(z) => seq![',', ' '] + hundredths_str(percent_hundredths(count, z)) + "% of zoomed"@,
        None => Seq::empty(),
    }) + seq![']']
}

/// The header text for a live process: process id, optional info, the
/// sampler's lifecycle, the sampled duration, and the freeze notice.
pub open spec fn pid_header_text(
    pid: int,
    info: Option<Seq<char>>,
    sampler: Option<SamplerState>,
    frozen: bool,
) -> Seq<char> {
    "Process: "@ + dec_str(pid) + (match info {
        Some(i) => seq![' ', '['] + i + seq![']'],
        None => Seq::empty(),
    }) + (match sampler {
        Some(st) => (if st.status is Running {
            " [Running]"@
        } else {
            " [Exited]"@
        }) + " [Duration: "@ + duration_text(st.total_sampled_duration_ms as int / 1000) + seq![']']
            + (if frozen {
            " [Frozen; press 'z' again to unfreeze]"@
        } else {
            Seq::<char>::empty()
        }),
        None => Seq::empty(),
    })
}

/// The command-mode status lines are exactly: the match statistics of a
/// manual search (with the no-match notice in the table view), then the
/// selected stack's statistics in the flame-graph view, then any transient
/// message.
#[verifier::inline]
pub open spec fn command_lines_ok(app: App, width: u16, r: Seq<(&'static str, String)>) -> bool {
    let g = app.flamegraph;
    let st = app.flamegraph_state;
    let root_total = g.nodes@[0].total as int;
    let ztot = if st.zoom_stack@.len() > 0 {
        Some(g.nodes@[st.zoom_stack@.last().stack_id as int].total as int)
    } else {
        None::<int>
    };
    let manual = match st.search_pattern {
        Some(p) => p.is_manual,
        None => false,
    };
    let show_match = manual && g.hit_coverage is Some;
    let fg = st.view_kind is FlameGraph;
    let n_match: int = if show_match {
        1
    } else {
        0
    };
    let n_sel: int = if fg {
        1
    } else {
        0
    };
    let n_msg: int = if app.transient_message is Some {
        1
    } else {
        0
    };
    &&& r.len() == n_match + n_sel + n_msg
    &&& (show_match ==> (r[0]).0@ == "Match"@ && (r[0]).1@ == padded_text(
        seq!['"'] + st.search_pattern->0.text@ + seq!['"', ' '] + count_stats_text(
            None,
            g.hit_coverage->0 as int,
            root_total,
            ztot,
        ) + (if st.view_kind is Table
            && app.ordered_stacks.search_pattern_ignored_because_of_no_match {
            " (no match; showing all)"@
        } else {
            Seq::<char>::empty()
        }),
        width as int,
    ))
    &&& (fg ==> (r[n_match]).0@ == "Selected"@ && (r[n_match]).1@ == padded_text(
        g.nodes@[st.selected as int].key.name@ + seq![' '] + count_stats_text(
            None,
            g.nodes@[st.selected as int].total as int,
            root_total,
            ztot,
        ),
        width as int,
    ))
    &&& (app.transient_message is Some ==> (r[n_match + n_sel]).0@ == "Info"@ && (r[n_match
        + n_sel]).1@ == app.transient_message->0@)
}

impl<'a> FlamelensWidget<'a> {
    pub fn new(app: &'a App) -> (r: Self)
        ensures
            r.app == app,
    {
        Self { app }
    }

    /// Which of the two views is active.
    pub fn view_kind(&self) -> (r: ViewKind)
        ensures
            r == self.app.flamegraph_state.view_kind,
    {
        self.app.flamegraph_state.view_kind
    }

    pub fn is_table_view(&self) -> (r: bool)
        ensures
            r == (self.app.flamegraph_state.view_kind is Table),
    {
        match self.app.flamegraph_state.view_kind {
            ViewKind::Table => true,
            ViewKind::FlameGraph => false,
        }
    }

    pub fn is_flamegraph_view(&self) -> (r: bool)
        ensures
            r == (self.app.flamegraph_state.view_kind is FlameGraph),
    {
        match self.app.flamegraph_state.view_kind {
            ViewKind::FlameGraph => true,
            ViewKind::Table => false,
        }
    }

    /// The key hints for the active view: navigation, zoom and search in
    /// the flame-graph view; cursor, scrolling and sorting in the table
    /// view; search repetition only under a manual pattern; the freeze
    /// toggle only for a live process.
    pub fn get_help_tags(&self) -> (r: HelpTags)
        ensures
            r.default_tags@.len() == 3,
            tag_is(r.default_tags@[0], "r", "reset"),
            tag_is(r.default_tags@[1], "tab", "switch view"),
            tag_is(r.default_tags@[2], "q", "quit"),
            self.app.flamegraph_state.view_kind is FlameGraph ==> {
                let manual = match self.app.flamegraph_state.search_pattern {
                    Some(p) => p.is_manual,
                    None => false,
                };
                let live = self.app.flamegraph_input is Pid;
                &&& r.tags@.len() == 5 + (if manual {
                    1int
                } else {
                    0int
                }) + (if live {
                    1int
                } else {
                    0int
                })
                &&& tag_is(r.tags@[0], "hjkl", "move cursor")
                &&& tag_is(r.tags@[1], "f/b", "scroll")
                &&& tag_is(r.tags@[2], "enter/esc", "zoom")
                &&& tag_is(r.tags@[3], "/", "search")
                &&& tag_is(r.tags@[4], "#", "search like cursor")
                &&& (manual ==> tag_is(r.tags@[5], "n/N", "next/prev search"))
                &&& (live ==> tag_is(
                    r.tags@[r.tags@.len() - 1],
                    "z",
                    if self.app.flamegraph_state.freeze {
                        "unfreeze"
                    } else {
                        "freeze"
                    },
                ))
            },
            self.app.flamegraph_state.view_kind is Table ==> {
                &&& r.tags@.len() == 5
                &&& tag_is(r.tags@[0], "j/k", "move cursor")
                &&& tag_is(r.tags@[1], "f/b", "scroll")
                &&& tag_is(r.tags@[2], "1", "sort by total")
                &&& tag_is(r.tags@[3], "2", "sort by own")
                &&& tag_is(r.tags@[4], "/", "filter")
            },
    {
        let mut help_tags = HelpTags::new();
        if self.is_flamegraph_view() {
            help_tags.add("hjkl", "move cursor");
            help_tags.add("f/b", "scroll");
            help_tags.add("enter/esc", "zoom");
            help_tags.add("/", "search");
            help_tags.add("#", "search like cursor");
            let manual = match &self.app.flamegraph_state.search_pattern {
                Some(p) => p.is_manual,
                None => false,
            };
            if manual {
                help_tags.add("n/N", "next/prev search");
            }
            match &self.app.flamegraph_input {
                FlameGraphInput::Pid(_, _) => {
                    if self.app.flamegraph_state.freeze {
                        help_tags.add("z", "unfreeze");
                    } else {
                        help_tags.add("z", "freeze");
                    }
                },
                FlameGraphInput::File(_) => {},
            }
        } else {
            help_tags.add("j/k", "move cursor");
            help_tags.add("f/b", "scroll");
            help_tags.add("1", "sort by total");
            help_tags.add("2", "sort by own");
            help_tags.add("/", "filter");
        }
        help_tags
    }

    /// The bracketed count statistics of a stack or a match.
    pub fn get_count_stats_str(
        name: Option<&str>,
        count: u64,
        total_count: u64,
        zoomed_total_count: Option<u64>,
    ) -> (r: String)
        ensures
            r@ == count_stats_text(
                match name {
                    Some(n) => Some(n@),
                    None => None,
                },
                count as int,
                total_count as int,
                match zoomed_total_count {
                    Some(z) => Some(z as int),
                    None => None,
                },
            ),
    {
        proof {
            reveal_strlit("[");
            reveal_strlit(": ");
            reveal_strlit(", ");
            reveal_strlit("]");
        }
        let mut s = String::from_str("[");
        match name {
            Some(n) => {
                s.append(n);
                s.append(": ");
            },
            None => {},
        }
        let c = u64_to_string(count);
        s.append(c.as_str());
        s.append(" samples, ");
        let pct = percent_string(count, total_count);
        s.append(pct.as_str());
        s.append("% of all");
        match zoomed_total_count {
            Some(z) => {
                s.append(", ");
                let zpct = percent_string(count, z);
                s.append(zpct.as_str());
                s.append("% of zoomed");
            },
            None => {},
        }
        s.append("]");
        proof {
            assert(s@ =~= count_stats_text(
                match name {
                    Some(n) => Some(n@),
                    None => None,
                },
                count as int,
                total_count as int,
                match zoomed_total_count {
                    Some(z) => Some(z as int),
                    None => None,
                },
            ));
        }
        s
    }

    /// The header line: the file path for a static source; the process id,
    /// status, sampled duration and freeze notice for a live one.
    pub fn get_header_text(&self) -> (r: String)
        ensures
            r@ == (match self.app.flamegraph_input {
                FlameGraphInput::File(path) => path@,
                FlameGraphInput::Pid(pid, info) => pid_header_text(
                    pid as int,
                    match info {
                        Some(i) => Some(i@),
                        None => None,
                    },
                    self.app.sampler_state,
                    self.app.flamegraph_state.freeze,
                ),
            }),
    {
        match &self.app.flamegraph_input {
            FlameGraphInput::File(path) => path.clone(),
            FlameGraphInput::Pid(pid, info) => {
                proof {
                    reveal_strlit("Process: ");
                    reveal_strlit(" [");
                    reveal_strlit("]");
                    reveal_strlit(" [Running]");
                    reveal_strlit(" [Exited]");
                    reveal_strlit(" [Duration: ");
                }
                let mut s = String::from_str("Process: ");
                let p = u64_to_string(*pid);
                s.append(p.as_str());
                match info {
                    Some(i) => {
                        s.append(" [");
                        s.append(i.as_str());
                        s.append("]");
                    },
                    None => {},
                }
                match &self.app.sampler_state {
                    Some(st) => {
                        match &st.status {
                            SamplerStatus::Running => s.append(" [Running]"),
                            _ => s.append(" [Exited]"),
                        }
                        s.append(" [Duration: ");
                        let d = duration_string(st.total_sampled_duration_ms / 1000);
                        s.append(d.as_str());
                        s.append("]");
                        if self.app.flamegraph_state.freeze {
                            proof {
                                reveal_strlit(" [Frozen; press 'z' again to unfreeze]");
                            }
                            s.append(" [Frozen; press 'z' again to unfreeze]");
                        }
                    },
                    None => {},
                }
                proof {
                    assert(s@ =~= pid_header_text(
                        *pid as int,
                        match info {
                            Some(i) => Some(i@),
                            None => None,
                        },
                        self.app.sampler_state,
                        self.app.flamegraph_state.freeze,
                    ));
                }
                s
            },
        }
    }

    /// The prompt line shown while a search is being typed.
    pub fn get_status_text_buffer(&self) -> (r: Vec<(&'static str, String)>)
        requires
            self.app.input_buffer is Some,
        ensures
            r@.len() == 1,
            r@[0].0@ == "Search"@,
            r@[0].1@ == self.app.input_buffer->0.buffer@,
    {
        let mut lines: Vec<(&'static str, String)> = Vec::new();
        match &self.app.input_buffer {
            Some(b) => {
                lines.push(("Search", b.buffer.clone()));
            },
            None => {},
        }
        lines
    }

    /// Where the terminal cursor belongs while typing a search: just past
    /// the typed text, on the prompt row.
    pub fn get_cursor_position(&self, status_area_bottom: u16) -> (r: Option<(u16, u16)>)
        ensures
            self.app.input_buffer is None ==> r is None,
            self.app.input_buffer is Some ==> r is Some && (r->0).0 == (
            if self.app.input_buffer->0.cursor_pos <= u16::MAX {
                self.app.input_buffer->0.cursor_pos as u16
            } else {
                u16::MAX
            }) && (r->0).1 == (if status_area_bottom > 0 {
                (status_area_bottom - 1) as u16
            } else {
                0u16
            }),
    {
        match &self.app.input_buffer {
            Some(b) => {
                let x = if b.cursor_pos <= u16::MAX as usize {
                    b.cursor_pos as u16
                } else {
                    u16::MAX
                };
                let y = if status_area_bottom > 0 {
                    status_area_bottom - 1
                } else {
                    0
                };
                Some((x, y))
            },
            None => None,
        }
    }

    /// The status lines below the main area; see `command_lines_ok` for
    /// the exact lines.
    #[verifier::rlimit(100)]
    pub fn get_status_text_command(&self, width: u16) -> (r: Vec<(&'static str, String)>)
        requires
            self.app.wf(),
        ensures
            command_lines_ok(*self.app, width, r@),
    {
        let g = &self.app.flamegraph;
        let state = &self.app.flamegraph_state;
        let stack = &g.nodes[state.selected];
        let root_total = g.nodes[0].total;
        let zoom_total: Option<u64> = match state.get_zoom() {
            Some(z) => {
                proof {
                    assert(state.zoom_stack@.last().stack_id < g.nodes@.len());
                }
                Some(g.nodes[z.stack_id].total)
            },
            None => None,
        };
        let ghost ztot: Option<int> = match zoom_total {
            Some(z) => Some(z as int),
            None => None,
        };
        let mut lines: Vec<(&'static str, String)> = Vec::new();
        let manual = match &state.search_pattern {
            Some(p) => p.is_manual,
            None => false,
        };
        if manual {
            match (&state.search_pattern, &g.hit_coverage) {
                (Some(p), Some(cov)) => {
                    proof {
                        reveal_strlit("\"");
                        reveal_strlit("\" ");
                    }
                    let mut text = String::from_str("\"");
                    text.append(p.text.as_str());
                    text.append("\" ");
                    let stats = Self::get_count_stats_str(None, *cov, root_total, zoom_total);
                    text.append(stats.as_str());
                    let ghost notice: Seq<char> = if state.view_kind is Table
                        && self.app.ordered_stacks.search_pattern_ignored_because_of_no_match {
                        " (no match; showing all)"@
                    } else {
                        Seq::<char>::empty()
                    };
                    if self.is_table_view()
                        && self.app.ordered_stacks.search_pattern_ignored_because_of_no_match {
                        proof {
                            reveal_strlit(" (no match; showing all)");
                        }
                        text.append(" (no match; showing all)");
                    }
                    proof {
                        assert(text@ =~= seq!['"'] + p.text@ + seq!['"', ' '] + count_stats_text(
                            None,
                            *cov as int,
                            root_total as int,
                            ztot,
                        ) + notice);
                    }
                    let ghost base = text@;
                    pad_to_width(&mut text, width as usize);
                    proof {
                        assert(text@ == padded_text(base, width as int));
                    }
                    lines.push(("Match", text));
                },
                _ => {},
            }
        }
        if self.is_flamegraph_view() {
            let mut text = stack.key.name.clone();
            proof {
                reveal_strlit(" ");
            }
            text.append(" ");
            let stats = Self::get_count_stats_str(None, stack.total, root_total, zoom_total);
            text.append(stats.as_str());
            proof {
                assert(text@ =~= stack.key.name@ + seq![' '] + count_stats_text(
                    None,
                    stack.total as int,
                    root_total as int,
                    ztot,
                ));
            }
            let ghost base = text@;
            pad_to_width(&mut text, width as usize);
            proof {
                assert(text@ == padded_text(base, width as int));
            }
            lines.push(("Selected", text));
        }
        match &self.app.transient_message {
            Some(m) => {
                lines.push(("Info", m.clone()));
            },
            None => {},
        }
        proof {
            reveal_strlit("Match");
            reveal_strlit("Selected");
            reveal_strlit("Info");
            assert(command_lines_ok(*self.app, width, lines@));
        }
        lines
    }

    /// The status lines for the current mode: while a search is being
    /// typed, exactly one prompt line echoing the buffer; otherwise the
    /// command summary.
    pub fn get_status_text(&self, width: u16) -> (r: Vec<(&'static str, String)>)
        requires
            self.app.wf(),
        ensures
            self.app.input_buffer is Some ==> r@.len() == 1 && (r@[0]).0@ == "Search"@ && (
            r@[0]).1@ == self.app.input_buffer->0.buffer@,
            self.app.input_buffer is None ==> command_lines_ok(*self.app, width, r@),
    {
        if self.app.input_buffer.is_some() {
            self.get_status_text_buffer()
        } else {
            self.get_status_text_command(width)
        }
    }
}

} // verus!
