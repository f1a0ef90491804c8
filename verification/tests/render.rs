use super_tabs::indexes::empty_indexes;
use super_tabs::leader::WriteRole;
use super_tabs::range::calculate_visible_range;
use super_tabs::render::expand_overflow_format;
use super_tabs::state::{Desk, Effect, Event, PaneInfo, PaneManifest, RenderConfig, State, TabInfo};
use super_tabs::{parse_style_literal, Schema, StyledText, TextMap};

fn schema(entries: &[(&str, &str)]) -> Schema {
    let mut config = TextMap::new();
    for (key, value) in entries {
        config.insert(key.to_string(), value.to_string());
    }
    Schema::from_config(&config).unwrap()
}

fn state(schema: Schema, names: &[&str]) -> State {
    let mut state = State::default();
    state.permissions_granted = true;
    state.width_indexes = empty_indexes(schema.len());
    state.schema = Some(schema);
    state.tabs = names
        .iter()
        .enumerate()
        .map(|(position, name)| TabInfo::named(position, name))
        .collect();
    state.reconcile_rows_with_tabs(&mut Desk::new(), WriteRole::Follower);
    state
}

/// The tabs that are shown, found by giving places in turn.
fn range_in_turns(tab_count: usize, rows: usize, active: usize) -> (usize, usize, usize, usize) {
    if tab_count <= rows {
        return (0, tab_count, 0, 0);
    }
    if rows <= 2 {
        return (0, 0, tab_count, 0);
    }
    let (mut start, mut end, mut room, mut turn) = (active, active + 1, rows - 3, false);
    while room > 0 {
        if (!turn || end >= tab_count) && start > 0 {
            start -= 1;
        } else if end < tab_count {
            end += 1;
        } else {
            break;
        }
        room -= 1;
        turn = !turn;
    }
    (start, end, start, tab_count.saturating_sub(end))
}

#[test]
fn visible_range_gives_places_in_turn() {
    for tab_count in 0..14usize {
        for rows in 0..16usize {
            for active in 0..16usize {
                assert_eq!(
                    calculate_visible_range(tab_count, rows, active),
                    range_in_turns(tab_count, rows, active),
                    "{tab_count} {rows} {active}"
                );
            }
        }
    }
    assert_eq!(calculate_visible_range(10, 6, 5), (3, 7, 3, 3));
}

#[test]
fn overflow_formats_are_expanded() {
    assert_eq!(expand_overflow_format("  ^ +{count}", 12), "  ^ +12");
    assert_eq!(expand_overflow_format("{count}{count}{cou", 3), "33{cou");
    assert_eq!(expand_overflow_format("", 3), "");
}

#[test]
fn columns_are_aligned_across_tabs() {
    let schema = schema(&[
        ("columns", "branch,status"),
        ("column_status", "resize=trunc:end:fixed:4;style=fg=1"),
    ]);
    let mut state = state(
        schema,
        &[
            "__super_tabs_id=\"a\" | branch=\"main\" | status=\"running\"",
            "__super_tabs_id=\"b\" | branch=\"x\" | status=\"ok\"",
        ],
    );
    state.tabs[0].active = true;
    state.active_tab_idx = 1;
    let lines = state.render_vertical(3, 14);
    assert_eq!(
        lines,
        [
            "main \x1b[38;5;1mrun\x1b[0m… *   ",
            "x    \x1b[38;5;1mok\x1b[0m       ",
            "              ",
        ]
    );
    assert_eq!(
        state.render(3, 14),
        "main \x1b[38;5;1mrun\x1b[0m… *   \x1b[m\nx    \x1b[38;5;1mok\x1b[0m       \x1b[m\n              \x1b[m"
    );
    assert_eq!(state.last_rows, 3);
}

#[test]
fn narrow_lists_are_clipped() {
    let mut state = state(
        schema(&[("columns", "a")]),
        &["__super_tabs_id=\"x\" | a=\"abcdef\""],
    );
    state.render.border = "#[fg=2]|".to_string();
    assert_eq!(state.render_vertical(1, 4), ["abc\x1b[38;5;2m|\x1b[0m"]);
    assert_eq!(state.render.build_empty_line(4), "   \x1b[38;5;2m|\x1b[0m");
    assert_eq!(state.render.build_empty_line(0), "\x1b[38;5;2m|\x1b[0m");
}

#[test]
fn selected_lines_are_filled() {
    let render = RenderConfig::default();
    let mut content = StyledText::new();
    content.push("a", parse_style_literal("fg=1,fill"));
    content.push_plain("b");
    assert_eq!(
        render.build_line(&content, 4, true),
        "\x1b[7m\x1b[0m\x1b[7m\x1b[48;5;1mab  \x1b[0m"
    );
    assert_eq!(render.build_line(&content, 4, false), "\x1b[38;5;1ma\x1b[0mb  ");
}

#[test]
fn tabs_without_a_row_show_a_name() {
    let mut state = state(schema(&[("columns", "a")]), &["work", "Tab #2", "Tab #3", ""]);
    let pane = |title: &str, is_plugin: bool, is_focused: bool| PaneInfo {
        id: 1,
        is_plugin,
        is_focused,
        title: title.to_string(),
    };
    state.pane_manifest = PaneManifest {
        panes: vec![
            (1, vec![pane("plugin", true, true), pane("x", false, false), pane(" vim ", false, true)]),
            (2, vec![pane("Pane #1", false, true), pane("y", false, true)]),
        ],
    };
    state.tabs[1].is_sync_panes_active = true;
    state.tabs[1].is_fullscreen_active = true;
    let shown: Vec<String> = state
        .tabs
        .iter()
        .map(|tab| state.render_tab_content(tab, 40).plain_text())
        .collect();
    assert_eq!(shown, ["work", "vim ZS", "Tab 2", "Tab 3"]);
    let mut bare = State::default();
    bare.tabs = vec![TabInfo::named(0, "x")];
    assert_eq!(bare.render_tab_content(&bare.tabs[0], 40).plain_text(), "x");
}

#[test]
fn messages_are_shown_instead_of_tabs() {
    let mut state = State::default();
    assert_eq!(
        state.render(1, 12),
        "super-tabs: \x1b[m"
    );
    state.permissions_granted = true;
    assert_eq!(state.render(2, 3), "");
    state.load_error = Some("bad".to_string());
    assert_eq!(state.render(2, 4), "bad \x1b[m\n    \x1b[m");
}

#[test]
fn overflow_is_counted_and_clicked() {
    let mut state = state(schema(&[("columns", "a")]), &["t0", "t1", "t2", "t3", "t4", "t5"]);
    state.render.padding_top = 1;
    state.active_tab_idx = 3;
    let lines = state.render_vertical(5, 8);
    assert_eq!(lines, ["        ", "  ^ +1  ", "t1      ", "t2      ", "  v +3  "]);
    state.render(5, 8);
    let clicked: Vec<Option<usize>> = (0..7).map(|row| state.get_tab_at_row(row)).collect();
    assert_eq!(clicked, [None, Some(1), Some(2), Some(3), Some(4), Some(4), Some(4)]);
    let step = state.update(Event::LeftClick(2));
    assert!(matches!(step.effects[..], [Effect::SwitchTab(2)]));
    assert!(state.update(Event::LeftClick(0)).effects.is_empty());
    state.tabs.clear();
    assert_eq!(state.get_tab_at_row(3), None);
}

fn shown(line: &str) -> String {
    let mut rest = line;
    let mut out = String::new();
    while let Some(start) = rest.find('\x1b') {
        out.push_str(&rest[..start]);
        let end = rest[start..].find('m').unwrap();
        rest = &rest[start + end + 1..];
    }
    out.push_str(rest);
    out
}

#[test]
fn columns_start_at_the_same_place_in_every_tab() {
    let schema = schema(&[
        ("columns", "a,b,c"),
        ("column_a", "resize=trunc:end:hard:4;style=#[fg=blue]"),
        ("column_b", "resize=trunc:start:fixed:6"),
        ("column_c", "resize=trunc:end:flow:1"),
    ]);
    let mut state = state(
        schema,
        &[
            "__super_tabs_id=\"x\" | a=\"longer\" | b=\"B\" | c=\"C\"",
            "__super_tabs_id=\"y\" | b=\"much longer\" | c=\"C and more\"",
            "__super_tabs_id=\"z\" | a=\"s\" | c=\"C\"",
        ],
    );
    state.render.border = "#[fg=dim]|".to_string();
    state.tabs[1].active = true;
    for cols in 0..40usize {
        for tab in &state.tabs {
            let content = state.render_tab_content(tab, cols);
            assert!(content.display_width() <= cols.saturating_sub(1));
            let text: Vec<char> = content.plain_text().chars().collect();
            if text.len() > 12 {
                assert_eq!(text[4], ' ');
                assert_eq!(text[11], ' ');
            }
            if cols > 20 {
                assert_eq!(text[12], 'C');
            }
            let line = shown(&state.render.build_line(&content, cols, tab.active));
            if cols > 0 {
                assert_eq!(line.chars().count(), cols);
                assert!(line.ends_with('|'));
                assert_eq!(shown(&state.render.build_empty_line(cols)).chars().count(), cols);
            }
        }
    }
    let second = state.render_tab_content(&state.tabs[1], 40).plain_text();
    assert!(second.starts_with("     \u{2026}onger C and more"), "{second}");
}
