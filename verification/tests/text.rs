use flamelens::flame::FrameKey;
use flamelens::fmt::{duration_string, pad_to_width, percent_string, u64_to_string, u64_to_string2};
use flamelens::state::ViewKind;
use flamelens::widget::{App, FlameGraphInput, FlamelensWidget, HelpTags, InputBuffer};

fn live_app() -> App {
    let mut app = App::new(FlameGraphInput::Pid(4242, Some("python worker".to_string())));
    let traces = ["main;foo;bar", "main;foo;bar", "main;foo;bar", "main;foo;baz", "main;foo;baz"];
    for t in traces {
        let frames: Vec<FrameKey> = t
            .split(';')
            .map(|name| FrameKey {
                name: name.to_string(),
                file: String::new(),
                line: 0,
            })
            .collect();
        app.flamegraph.insert_trace(&frames, 1);
    }
    app
}

#[test]
fn decimal_rendering() {
    assert_eq!(u64_to_string(0), "0");
    assert_eq!(u64_to_string(7), "7");
    assert_eq!(u64_to_string(1234), "1234");
    assert_eq!(u64_to_string(u64::MAX), "18446744073709551615");
    assert_eq!(u64_to_string2(7), "07");
    assert_eq!(u64_to_string2(42), "42");
    assert_eq!(u64_to_string2(123), "123");
}

#[test]
fn percent_rendering() {
    assert_eq!(percent_string(1, 2), "50.00");
    assert_eq!(percent_string(1, 3), "33.33");
    assert_eq!(percent_string(5, 5), "100.00");
    assert_eq!(percent_string(0, 5), "0.00");
    assert_eq!(percent_string(3, 0), "0.00");
}

#[test]
fn duration_rendering() {
    assert_eq!(duration_string(0), "00:00:00");
    assert_eq!(duration_string(3661), "01:01:01");
    assert_eq!(duration_string(86399), "23:59:59");
}

#[test]
fn padding() {
    let mut s = "abc".to_string();
    pad_to_width(&mut s, 6);
    assert_eq!(s, "abc   ");
    let mut t = "abcdef".to_string();
    pad_to_width(&mut t, 3);
    assert_eq!(t, "abcdef");
}

#[test]
fn count_stats_rendering() {
    assert_eq!(
        FlamelensWidget::get_count_stats_str(None, 5, 10, None),
        "[5 samples, 50.00% of all]"
    );
    assert_eq!(
        FlamelensWidget::get_count_stats_str(Some("hits"), 2, 4, Some(2)),
        "[hits: 2 samples, 50.00% of all, 100.00% of zoomed]"
    );
}

#[test]
fn header_text_for_file_and_process() {
    let app = App::new(FlameGraphInput::File("trace.txt".to_string()));
    let w = FlamelensWidget::new(&app);
    assert_eq!(w.get_header_text(), "trace.txt");

    let mut app2 = live_app();
    app2.sampler_state = Some(flamelens::sampler::SamplerState {
        status: flamelens::sampler::SamplerStatus::Running,
        total_sampled_duration_ms: 61_000,
        late_ms: None,
    });
    let w2 = FlamelensWidget::new(&app2);
    assert_eq!(
        w2.get_header_text(),
        "Process: 4242 [python worker] [Running] [Duration: 00:01:01]"
    );
}

#[test]
fn help_tags_line() {
    let mut tags = HelpTags::new();
    tags.add("x", "do a thing");
    assert_eq!(
        tags.line_text(),
        " [x: do a thing] [r: reset] [tab: switch view] [q: quit] "
    );
}

#[test]
fn help_tags_follow_view_and_state() {
    let mut app = live_app();
    let n_flame = FlamelensWidget::new(&app).get_help_tags().tags.len();
    assert_eq!(n_flame, 6); // five flame-graph hints plus the freeze toggle
    app.flamegraph_state.view_kind = ViewKind::Table;
    let n_table = FlamelensWidget::new(&app).get_help_tags().tags.len();
    assert_eq!(n_table, 5);
}

#[test]
fn status_text_selected_line() {
    let mut app = live_app();
    let bar = app
        .flamegraph
        .nodes
        .iter()
        .find(|n| n.key.name == "bar")
        .unwrap()
        .id;
    app.flamegraph_state.selected = bar;
    let w = FlamelensWidget::new(&app);
    let lines = w.get_status_text(60);
    assert_eq!(lines.len(), 1);
    assert_eq!(lines[0].0, "Selected");
    assert!(lines[0].1.starts_with("bar [3 samples, 60.00% of all]"));
    assert_eq!(lines[0].1.len(), 60); // padded to the viewport width
}

#[test]
fn status_text_match_line_and_prompt() {
    let mut app = live_app();
    let p = flamelens::search::SearchPattern::compile("ba.", true).unwrap();
    app.flamegraph.apply_pattern(&p).unwrap();
    app.flamegraph_state.search_pattern = Some(p);
    {
        let w = FlamelensWidget::new(&app);
        let lines = w.get_status_text(60);
        assert_eq!(lines.len(), 2);
        assert_eq!(lines[0].0, "Match");
        assert!(lines[0].1.starts_with("\"ba.\" [5 samples, 100.00% of all]"));
        assert_eq!(lines[1].0, "Selected");
    }
    app.input_buffer = Some(InputBuffer {
        buffer: "typing".to_string(),
        cursor_pos: 6,
    });
    let w = FlamelensWidget::new(&app);
    let lines = w.get_status_text(60);
    assert_eq!(lines.len(), 1);
    assert_eq!(lines[0].0, "Search");
    assert_eq!(lines[0].1, "typing");
    assert_eq!(w.get_cursor_position(10), Some((6, 9)));
}

#[test]
fn widget_view_kind() {
    let app = App::new(FlameGraphInput::File("t".to_string()));
    let w = FlamelensWidget::new(&app);
    assert_eq!(w.view_kind(), ViewKind::FlameGraph);
    assert!(w.is_flamegraph_view());
    assert!(!w.is_table_view());
}
