use flamelens::flame::{FlameGraph, FrameKey};
use flamelens::layout::ZoomState;
use flamelens::ordered::{OrderedStacks, SortColumn};
use flamelens::parse::parse_trace_line;
use flamelens::sampler::{BridgeEvent, SamplerBridge, SamplerStatus};
use flamelens::search::{SearchError, SearchPattern};
use flamelens::state::FlamegraphState;

fn frames(path: &str) -> Vec<FrameKey> {
    path.split(';')
        .map(|name| FrameKey {
            name: name.to_string(),
            file: String::new(),
            line: 0,
        })
        .collect()
}

fn sample_graph() -> FlameGraph {
    let mut g = FlameGraph::new();
    for _ in 0..3 {
        g.insert_trace(&frames("main;foo;bar"), 1);
    }
    for _ in 0..2 {
        g.insert_trace(&frames("main;foo;baz"), 1);
    }
    g
}

fn find_by_name<'a>(g: &'a FlameGraph, name: &str) -> &'a flamelens::flame::StackNode {
    g.nodes
        .iter()
        .find(|n| n.key.name == name)
        .expect("node should exist")
}

#[test]
fn aggregation_scenario_counts() {
    let g = sample_graph();
    assert_eq!(g.nodes[0].total, 5);
    assert_eq!(g.nodes[0].own, 0);
    let main = find_by_name(&g, "main");
    assert_eq!((main.total, main.own), (5, 0));
    let foo = find_by_name(&g, "foo");
    assert_eq!((foo.total, foo.own), (5, 0));
    let bar = find_by_name(&g, "bar");
    assert_eq!((bar.total, bar.own), (3, 3));
    let baz = find_by_name(&g, "baz");
    assert_eq!((baz.total, baz.own), (2, 2));
}

#[test]
fn aggregation_invariant_total_is_own_plus_children() {
    let g = sample_graph();
    for node in &g.nodes {
        let child_sum: u64 = node.children.iter().map(|c| g.nodes[*c].total).sum();
        assert_eq!(node.total, node.own + child_sum);
    }
}

#[test]
fn aggregation_merges_by_identity_not_order() {
    let mut g = FlameGraph::new();
    g.insert_trace(&frames("a;b"), 1);
    g.insert_trace(&frames("a;c"), 1);
    g.insert_trace(&frames("a;b"), 1);
    // "a" has exactly two children, and "a;b" merged into one node
    let a = find_by_name(&g, "a");
    assert_eq!(a.children.len(), 2);
    let b = find_by_name(&g, "b");
    assert_eq!(b.total, 2);
}

#[test]
fn aggregation_empty_trace_changes_nothing() {
    let mut g = sample_graph();
    let before = g.nodes.len();
    g.insert_trace(&Vec::new(), 7);
    assert_eq!(g.nodes.len(), before);
    assert_eq!(g.nodes[0].total, 5);
}

#[test]
fn search_scenario_coverage() {
    let mut g = sample_graph();
    let p = SearchPattern::compile("ba.", true).expect("pattern should compile");
    g.apply_pattern(&p).expect("pattern should apply");
    assert!(find_by_name(&g, "bar").hit);
    assert!(find_by_name(&g, "baz").hit);
    assert!(!find_by_name(&g, "main").hit);
    assert!(!find_by_name(&g, "foo").hit);
    assert_eq!(g.hit_coverage, Some(5));
}

#[test]
fn search_idempotent() {
    let mut g1 = sample_graph();
    let p = SearchPattern::compile("ba.", true).expect("pattern should compile");
    g1.apply_pattern(&p).expect("pattern should apply");
    let hits1: Vec<bool> = g1.nodes.iter().map(|n| n.hit).collect();
    let cov1 = g1.hit_coverage;
    g1.apply_pattern(&p).expect("pattern should apply");
    let hits2: Vec<bool> = g1.nodes.iter().map(|n| n.hit).collect();
    assert_eq!(hits1, hits2);
    assert_eq!(cov1, g1.hit_coverage);
}

#[test]
fn search_invalid_pattern_is_rejected() {
    match SearchPattern::compile("ba[", true) {
        Err(e) => assert_eq!(e, SearchError::InvalidPattern),
        Ok(_) => panic!("an unclosed class should not compile"),
    }
    // an invalid pattern leaves previous hit state untouched
    let mut g = sample_graph();
    let good = SearchPattern::compile("bar", true).expect("pattern should compile");
    g.apply_pattern(&good).expect("pattern should apply");
    let bad = SearchPattern {
        text: "ba[".to_string(),
        is_manual: true,
    };
    assert!(g.apply_pattern(&bad).is_err());
    assert!(find_by_name(&g, "bar").hit);
    assert_eq!(g.hit_coverage, Some(3));
}

#[test]
fn search_auto_pattern_keeps_coverage() {
    let mut g = sample_graph();
    let manual = SearchPattern::compile("bar", true).expect("pattern should compile");
    g.apply_pattern(&manual).expect("pattern should apply");
    assert_eq!(g.hit_coverage, Some(3));
    let auto = SearchPattern::compile("baz", false).expect("pattern should compile");
    g.apply_pattern(&auto).expect("pattern should apply");
    // hit flags follow the auto pattern, but coverage is untouched
    assert!(find_by_name(&g, "baz").hit);
    assert!(!find_by_name(&g, "bar").hit);
    assert_eq!(g.hit_coverage, Some(3));
}

#[test]
fn search_clear_resets_hits_and_coverage() {
    let mut g = sample_graph();
    let p = SearchPattern::compile("ba.", true).expect("pattern should compile");
    g.apply_pattern(&p).expect("pattern should apply");
    g.clear_search();
    assert!(g.nodes.iter().all(|n| !n.hit));
    assert_eq!(g.hit_coverage, None);
}

#[test]
fn coverage_never_exceeds_root_total() {
    let mut g = sample_graph();
    let p = SearchPattern::compile(".", true).expect("pattern should compile");
    g.apply_pattern(&p).expect("pattern should apply");
    assert!(g.hit_coverage.unwrap() <= g.nodes[0].total);
}

#[test]
fn layout_proportional_widths() {
    let g = sample_graph();
    let (rows, more) = g.compute_visible(100, 10, 0, &None);
    assert!(!more);
    // one row per node: all, main, foo, bar, baz
    assert_eq!(rows.len(), 5);
    let row_of = |name: &str| {
        let id = find_by_name(&g, name).id;
        rows.iter().find(|r| r.stack_id == id).expect("row")
    };
    assert_eq!(rows[0].width, 100);
    assert_eq!(row_of("main").width, 100);
    assert_eq!(row_of("foo").width, 100);
    assert_eq!(row_of("bar").width, 60); // floor(100 * 3/5)
    assert_eq!(row_of("baz").width, 40); // floor(100 * 2/5)
    assert_eq!(row_of("bar").y, 3);
    assert_eq!(row_of("baz").y, 3);
}

#[test]
fn layout_children_fit_inside_parent() {
    let mut g = FlameGraph::new();
    g.insert_trace(&frames("a"), 1);
    g.insert_trace(&frames("b"), 1);
    g.insert_trace(&frames("c"), 1);
    let (rows, _) = g.compute_visible(100, 10, 0, &None);
    let children_width: u64 = rows.iter().filter(|r| r.y == 1).map(|r| r.width as u64).sum();
    assert!(children_width <= 100);
}

#[test]
fn layout_viewport_culling_reports_more_rows() {
    let g = sample_graph();
    let (rows, more) = g.compute_visible(100, 2, 0, &None);
    // only "all" and "main" fit; deeper rows are culled
    assert_eq!(rows.len(), 2);
    assert!(more);
}

#[test]
fn layout_zero_width_emits_nothing() {
    let g = sample_graph();
    let (rows, more) = g.compute_visible(0, 10, 0, &None);
    assert!(rows.is_empty());
    assert!(!more);
}

#[test]
fn zoom_scenario_full_width_subtree_only() {
    let g = sample_graph();
    let bar = find_by_name(&g, "bar").id;
    let zoom = Some(ZoomState {
        zoom_stack: bar,
        ancestors: g.get_ancestors(bar),
    });
    let (rows, _) = g.compute_visible(100, 10, 0, &zoom);
    // the emitted set is the root-to-bar path plus bar's subtree
    let baz = find_by_name(&g, "baz").id;
    assert!(rows.iter().all(|r| r.stack_id != baz));
    let bar_row = rows.iter().find(|r| r.stack_id == bar).expect("bar row");
    assert_eq!(bar_row.width, 100);
    // every emitted row takes the full width along the path
    assert!(rows.iter().all(|r| r.width == 100));
    assert_eq!(rows.len(), 4); // all, main, foo, bar
}

#[test]
fn zoom_state_navigation() {
    let g = sample_graph();
    let mut st = FlamegraphState::new();
    let bar = find_by_name(&g, "bar").id;
    assert!(st.zoom(&g, bar));
    assert_eq!(st.selected, bar);
    let zs = st.zoom_state(&g).expect("zoomed");
    assert_eq!(zs.zoom_stack, bar);
    // the ancestor chain runs from the true root down to bar
    assert_eq!(zs.ancestors.first(), Some(&0));
    assert_eq!(zs.ancestors.last(), Some(&bar));
    st.unzoom();
    assert!(st.zoom_state(&g).is_none());
    st.unzoom(); // a no-op at the outermost level
    assert!(st.zoom_state(&g).is_none());
}

#[test]
fn navigation_parent_child_and_rows() {
    let g = sample_graph();
    let mut st = FlamegraphState::new();
    // right: into first child, regardless of visibility
    st.move_right(&g);
    assert_eq!(g.nodes[st.selected].key.name, "main");
    st.move_right(&g);
    assert_eq!(g.nodes[st.selected].key.name, "foo");
    // left: back to the parent
    st.move_left(&g);
    assert_eq!(g.nodes[st.selected].key.name, "main");
    st.move_left(&g);
    st.move_left(&g); // the root stays put
    assert_eq!(st.selected, 0);
    // up and down move among visible rows
    let (rows, _) = g.compute_visible(100, 10, 0, &None);
    st.move_down(&g, &rows);
    assert_eq!(g.nodes[st.selected].key.name, "main");
    st.move_up(&g, &rows);
    assert_eq!(st.selected, 0);
    st.move_up(&g, &rows); // the first row stays put
    assert_eq!(st.selected, 0);
}

#[test]
fn ordered_stacks_sorted_by_total_with_name_ties() {
    let mut g = sample_graph();
    let p = SearchPattern::compile(".", true).expect("pattern should compile");
    g.apply_pattern(&p).expect("pattern should apply");
    let idx = OrderedStacks::rebuild(&g, false, SortColumn::Total);
    assert_eq!(idx.entries.len(), g.nodes.len());
    for w in idx.entries.windows(2) {
        assert!(
            w[0].total > w[1].total || (w[0].total == w[1].total && w[0].name <= w[1].name)
        );
    }
    // equal totals (all=5, main=5, foo=5) tie-break ascending by name
    assert_eq!(idx.entries[0].name, "all");
    assert_eq!(idx.entries[1].name, "foo");
    assert_eq!(idx.entries[2].name, "main");
}

#[test]
fn ordered_stacks_sorted_by_own() {
    let g = sample_graph();
    let idx = OrderedStacks::rebuild(&g, false, SortColumn::Own);
    for w in idx.entries.windows(2) {
        assert!(w[0].own > w[1].own || (w[0].own == w[1].own && w[0].name <= w[1].name));
    }
    assert_eq!(idx.entries[0].name, "bar");
    assert_eq!(idx.entries[1].name, "baz");
}

#[test]
fn ordered_stacks_visibility_follows_manual_pattern() {
    let mut g = sample_graph();
    let p = SearchPattern::compile("ba.", true).expect("pattern should compile");
    g.apply_pattern(&p).expect("pattern should apply");
    let idx = OrderedStacks::rebuild(&g, true, SortColumn::Total);
    assert!(!idx.search_pattern_ignored_because_of_no_match);
    for e in &idx.entries {
        assert_eq!(e.visible, e.name == "bar" || e.name == "baz");
    }
}

#[test]
fn ordered_stacks_no_match_shows_all() {
    let mut g = sample_graph();
    let p = SearchPattern::compile("nosuchname", true).expect("pattern should compile");
    g.apply_pattern(&p).expect("pattern should apply");
    let idx = OrderedStacks::rebuild(&g, true, SortColumn::Total);
    assert!(idx.search_pattern_ignored_because_of_no_match);
    assert!(idx.entries.iter().all(|e| e.visible));
}

#[test]
fn parse_well_formed_line() {
    let (fr, weight) = parse_trace_line("main;foo;bar 3").expect("line should parse");
    assert_eq!(weight, 3);
    let names: Vec<&str> = fr.iter().map(|f| f.name.as_str()).collect();
    assert_eq!(names, vec!["main", "foo", "bar"]);
}

#[test]
fn parse_malformed_lines() {
    assert!(parse_trace_line("noweight").is_none());
    assert!(parse_trace_line("a;b x").is_none());
    assert!(parse_trace_line("a;b ").is_none());
    // a count too large for a machine word is malformed
    assert!(parse_trace_line("a 99999999999999999999999").is_none());
}

#[test]
fn parse_single_frame_and_empty_segments() {
    let (fr, weight) = parse_trace_line("solo 12").expect("line should parse");
    assert_eq!(weight, 12);
    assert_eq!(fr.len(), 1);
    assert_eq!(fr[0].name, "solo");
    let (fr2, _) = parse_trace_line("a;;b 1").expect("line should parse");
    let names: Vec<&str> = fr2.iter().map(|f| f.name.as_str()).collect();
    assert_eq!(names, vec!["a", "", "b"]);
}

#[test]
fn sampler_terminal_states_absorb() {
    let mut b = SamplerBridge::new(None);
    let a = b.step(&BridgeEvent::SourceFailed("lost target".to_string()));
    assert!(a.stop && !a.publish_snapshot && !a.aggregate);
    assert!(matches!(b.status, SamplerStatus::Error(_)));
    // no event moves a terminal bridge again, and nothing is published
    let a2 = b.step(&BridgeEvent::Sample {
        now_ms: 1000,
        delay_ms: None,
    });
    assert!(a2.stop && !a2.publish_snapshot && !a2.aggregate);
    assert!(matches!(b.status, SamplerStatus::Error(_)));
}

#[test]
fn sampler_done_after_max_intervals() {
    let mut b = SamplerBridge::new(Some(2));
    let a1 = b.step(&BridgeEvent::Sample {
        now_ms: 0,
        delay_ms: None,
    });
    assert!(!a1.stop && a1.aggregate);
    let a2 = b.step(&BridgeEvent::Sample {
        now_ms: 10,
        delay_ms: None,
    });
    assert!(a2.stop && !a2.aggregate && !a2.publish_snapshot);
    assert!(matches!(b.status, SamplerStatus::Done));
}

#[test]
fn sampler_publish_throttled_to_250ms() {
    let mut b = SamplerBridge::new(None);
    let a1 = b.step(&BridgeEvent::Sample {
        now_ms: 0,
        delay_ms: None,
    });
    assert!(a1.publish_snapshot); // the first snapshot always goes out
    let a2 = b.step(&BridgeEvent::Sample {
        now_ms: 100,
        delay_ms: None,
    });
    assert!(!a2.publish_snapshot);
    let a3 = b.step(&BridgeEvent::Sample {
        now_ms: 260,
        delay_ms: None,
    });
    assert!(a3.publish_snapshot);
}

#[test]
fn sampler_late_warning_debounced() {
    let mut b = SamplerBridge::new(None);
    // two late events of 1.5 s inside the same one-second window: exactly
    // one warning is published
    let a1 = b.step(&BridgeEvent::Sample {
        now_ms: 0,
        delay_ms: Some(1500),
    });
    assert_eq!(a1.set_late, Some(1500));
    let a2 = b.step(&BridgeEvent::Sample {
        now_ms: 900,
        delay_ms: Some(1500),
    });
    assert_eq!(a2.set_late, None);
    assert!(!a2.clear_late);
    // once the delay drops to the threshold, the warning is cleared
    let a3 = b.step(&BridgeEvent::Sample {
        now_ms: 950,
        delay_ms: Some(800),
    });
    assert!(a3.clear_late);
    // past the window, a new warning goes out
    let a4 = b.step(&BridgeEvent::Sample {
        now_ms: 1200,
        delay_ms: Some(2000),
    });
    assert_eq!(a4.set_late, Some(2000));
}

#[test]
fn sampler_config_filters() {
    let cfg = flamelens::sampler::SamplerConfig {
        sampling_rate: 100,
        duration_secs: Some(3),
        include_idle: false,
        gil_only: true,
        include_thread_ids: false,
        show_line_numbers: false,
    };
    assert_eq!(cfg.max_intervals(), Some(300));
    assert!(!cfg.should_include_trace(false, true)); // idle, dropped
    assert!(!cfg.should_include_trace(true, false)); // no gil, dropped
    assert!(cfg.should_include_trace(true, true));
}

#[test]
fn next_and_prev_match_wrap_around() {
    let mut g = sample_graph();
    let p = SearchPattern::compile("ba.", true).expect("pattern should compile");
    g.apply_pattern(&p).expect("pattern should apply");
    let bar = find_by_name(&g, "bar").id;
    let baz = find_by_name(&g, "baz").id;
    assert_eq!(g.next_match(0), Some(bar));
    assert_eq!(g.next_match(bar), Some(baz));
    assert_eq!(g.next_match(baz), Some(bar)); // wraps around
    assert_eq!(g.prev_match(baz), Some(bar));
    assert_eq!(g.prev_match(bar), Some(baz)); // wraps around
    g.clear_search();
    assert_eq!(g.next_match(0), None);
    assert_eq!(g.prev_match(0), None);
}

#[test]
fn thread_label_frames() {
    let f = flamelens::sampler::thread_label_frame("0x7f", Some("worker"));
    assert_eq!(f.name, "thread (0x7f): worker");
    let g = flamelens::sampler::thread_label_frame("0x7f", None);
    assert_eq!(g.name, "thread (0x7f)");
}

#[test]
fn highlight_segments_partition_text() {
    // "ba." matches "bar" and "baz" inside the text, in order
    let segs = flamelens::search::highlight_segments("ba.", "foobarbaz!").expect("valid pattern");
    assert_eq!(segs, vec![(0, 3, false), (3, 6, true), (6, 9, true), (9, 10, false)]);
    // no match: one non-match segment covering the whole text
    let none = flamelens::search::highlight_segments("zzz", "abc").expect("valid pattern");
    assert_eq!(none, vec![(0, 3, false)]);
    // invalid pattern: refused
    assert!(flamelens::search::highlight_segments("ba[", "abc").is_none());
    // empty text: no segments at all
    let empty = flamelens::search::highlight_segments("a", "").expect("valid pattern");
    assert!(empty.is_empty());
}

#[test]
fn layout_deterministic_across_recomputation() {
    let mut g = sample_graph();
    let p = SearchPattern::compile("ba.", true).expect("pattern should compile");
    g.apply_pattern(&p).expect("pattern should apply");
    let (r1, m1) = g.compute_visible(80, 10, 0, &None);
    // re-applying the same pattern changes neither hits nor the emitted rows
    g.apply_pattern(&p).expect("pattern should apply");
    let (r2, m2) = g.compute_visible(80, 10, 0, &None);
    assert_eq!(r1, r2);
    assert_eq!(m1, m2);
}
