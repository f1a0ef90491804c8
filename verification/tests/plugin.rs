use super_tabs::identity::RowLoadPolicy;
use super_tabs::ids::{
    claim_key_for_panes, format_minted_id, is_default_zellij_tab_name, parse_bool_config,
    parse_minted_super_tab_id, pending_file_key, pending_file_name,
    resolve_shared_state_host_folder, sanitize_session_key, tab_file_key, tab_file_name,
    unmanaged_identity_for_name, IdentityState,
};
use super_tabs::indexes::empty_indexes;
use super_tabs::leader::{
    claim_step, leader_claim, leads_after, ClaimStep, WriteRole, WriterLeaderClaim,
    LEADER_FILE_NAME, LEADER_TTL_MS,
};
use super_tabs::map::Record;
use super_tabs::plugin::{build_terminal_pane_lookup, Task};
use super_tabs::reconcile::RowSource;
use super_tabs::row::{
    apply_updates_to_row, build_row_state_from_tab_name, persisted_row, row_state_from_persisted,
    PersistedTabState, TabRowState,
};
use super_tabs::state::{
    Desk, Effect, Event, ModeInfo, PaneInfo, PaneManifest, State, TabInfo,
};
use super_tabs::updates::MAX_DEFERRED;
use super_tabs::{CellState, NumberMap, Schema, TextMap, UpdatePayload};

fn map(entries: &[(&str, &str)]) -> TextMap<String> {
    let mut map = TextMap::new();
    for (key, value) in entries {
        map.insert(key.to_string(), value.to_string());
    }
    map
}

fn test_schema(columns: &str) -> Schema {
    let mut config = TextMap::new();
    config.insert("columns".to_string(), columns.to_string());

    for column in columns.split(',') {
        config.insert(format!("column_{column}"), "resize=resize".to_string());
    }

    Schema::from_config(&config).unwrap()
}

fn pane(id: u32, is_plugin: bool, title: &str) -> PaneInfo {
    PaneInfo {
        id,
        is_plugin,
        is_focused: false,
        title: title.to_string(),
    }
}

fn test_plugin_pane(plugin_id: u32) -> PaneInfo {
    pane(plugin_id, true, "super-tabs")
}

fn test_terminal_pane(pane_id: u32) -> PaneInfo {
    pane(pane_id, false, &format!("terminal-{pane_id}"))
}

fn test_pane_manifest(plugin_ids: &[u32]) -> PaneManifest {
    PaneManifest {
        panes: plugin_ids
            .iter()
            .enumerate()
            .map(|(position, id)| (position, vec![test_plugin_pane(*id)]))
            .collect(),
    }
}

fn test_pipe_state(plugin_id: u32, session_name: &str, running_plugin_ids: &[u32]) -> State {
    State {
        plugin_id: Some(plugin_id),
        shared_state_ready: true,
        mode_info: ModeInfo {
            session_name: Some(session_name.to_string()),
            stamp: 0,
        },
        pane_manifest: test_pane_manifest(running_plugin_ids),
        ..Default::default()
    }
}

fn with_schema(mut state: State, schema: &Schema) -> State {
    state.schema = Some(schema.clone());
    state.width_indexes = empty_indexes(schema.len());
    state
}

fn payload(pane_id: u32, entries: &[(&str, &str)]) -> UpdatePayload {
    UpdatePayload {
        version: 1,
        pane_id,
        updates: map(entries),
    }
}

fn pending(entries: &[(usize, &str)]) -> NumberMap<String> {
    let mut map = NumberMap::new();
    for (position, id) in entries {
        map.insert(*position, id.to_string());
    }
    map
}

/// Finds the role of a plugin, with the claim file of the session in memory.
fn write_role(state: &mut State, file: &mut Option<WriterLeaderClaim>, now_ms: u128) -> WriteRole {
    if let Some(role) = state.write_role(now_ms) {
        return role;
    }
    let plugin_id = state.plugin_id.unwrap_or(0);
    let step = claim_step(*file, plugin_id, now_ms);
    if step != ClaimStep::Yield {
        *file = Some(leader_claim(plugin_id, now_ms));
    }
    let leads = leads_after(step, true, *file, plugin_id);
    state.settle_write_role(leads, now_ms)
}

fn replay_pending_pipe_updates(state: &mut State, desk: &mut Desk) -> bool {
    let mut replay = state.begin_replay();
    while !replay.waiting.is_empty() {
        state.replay_pending_pipe_update(&mut replay, desk, WriteRole::Leader);
    }
    replay.changed
}

#[test]
fn pane_lookup_ignores_plugin_id_collisions() {
    let pane_manifest = PaneManifest {
        panes: vec![
            (0, vec![pane(0, false, "tab0-shell"), pane(1, true, "super-tabs")]),
            (1, vec![pane(1, false, "tab1-shell")]),
        ],
    };

    let pane_to_tab_position = build_terminal_pane_lookup(&pane_manifest);

    assert_eq!(pane_to_tab_position.get(0), Some(&0));
    assert_eq!(pane_to_tab_position.get(1), Some(&1));
}

#[test]
fn the_own_tab_is_that_of_the_plugin_pane() {
    let mut state = State {
        pane_manifest: PaneManifest {
            panes: vec![
                (0, vec![pane(7, false, "shell"), pane(3, true, "super-tabs")]),
                (2, vec![pane(9, false, "shell"), pane(7, true, "super-tabs")]),
            ],
        },
        ..Default::default()
    };
    assert_eq!(state.own_plugin_tab_position(), None);
    state.plugin_id = Some(7);
    assert_eq!(state.own_plugin_tab_position(), Some(2));
    state.plugin_id = Some(9);
    assert_eq!(state.own_plugin_tab_position(), None);
}

#[test]
fn apply_updates_to_row_skips_unchanged_values() {
    let schema = test_schema("branch,status");

    let mut row = TabRowState::empty(&schema);
    row.cells[0] = Some(CellState::from_raw(
        "main",
        &schema.columns()[0].default_style,
    ));
    row.cells[1] = Some(CellState::from_raw(
        "dirty",
        &schema.columns()[1].default_style,
    ));

    let changed = apply_updates_to_row(
        &mut row,
        &schema,
        &map(&[("branch", "main"), ("status", "dirty")]),
    );

    assert!(!changed);
    assert_eq!(row.cells[0].as_ref().unwrap().raw_input, "main");
    assert_eq!(row.cells[1].as_ref().unwrap().raw_input, "dirty");
}

#[test]
fn updates_write_what_they_name_and_nothing_else() {
    let schema = test_schema("branch,status");
    let mut row = TabRowState::empty(&schema);
    let updates = map(&[("status", "#[bold]ok"), ("unknown", "x"), ("branch", "")]);
    assert!(apply_updates_to_row(&mut row, &schema, &updates));
    assert!(row.cells[0].is_none());
    assert_eq!(row.cells[1].as_ref().unwrap().plain_text, "ok");
    assert!(!apply_updates_to_row(&mut row, &schema, &updates));
    assert!(apply_updates_to_row(&mut row, &schema, &map(&[("status", "")])));
    assert_eq!(row.cells[1].as_ref().unwrap().raw_input, "");
}

#[test]
fn resolved_tab_id_for_tab_prefers_pending_id_while_rename_is_pending() {
    let live_tab = TabInfo::named(7, "__super_tabs_id=\"st-9\" | status=\"IDLE\"");

    let state = State {
        tabs: vec![live_tab.clone()],
        pending_tab_id_by_position: pending(&[(7, "st-4")]),
        ..Default::default()
    };

    assert_eq!(
        state.resolved_tab_id_for_tab(&live_tab).as_deref(),
        Some("st-4")
    );
}

#[test]
fn resolved_tab_id_for_tab_uses_pending_id_while_rename_is_pending() {
    let pending_tab = TabInfo::named(16, "cue-ops");

    let state = State {
        tabs: vec![pending_tab.clone()],
        pending_tab_id_by_position: pending(&[(16, "st-17")]),
        ..Default::default()
    };

    assert_eq!(
        state.resolved_tab_id_for_tab(&pending_tab).as_deref(),
        Some("st-17")
    );
}

#[test]
fn row_state_for_update_discards_stale_cached_row_when_tab_name_changed() {
    let schema = test_schema("status");
    let stale_tab = TabInfo::named(14, "__super_tabs_id=\"st-14\" | status=\"IDLE\"");
    let live_tab = TabInfo::named(14, "__super_tabs_id=\"st-14\" | status=\"ACTIVE\"");

    let mut state = State {
        tabs: vec![live_tab.clone()],
        ..Default::default()
    };

    state.rows_by_tab_id.insert(
        "st-14".to_string(),
        build_row_state_from_tab_name(&stale_tab.name, &schema)
            .expect("stale tab name should decode"),
    );

    let loaded = state.row_state_for_update(
        &Desk::new(),
        &live_tab,
        "st-14",
        &schema,
        RowLoadPolicy::Stable,
    );

    assert_eq!(loaded.source, RowSource::LiveTabName);
    assert_eq!(loaded.row.cells[0].as_ref().unwrap().raw_input, "ACTIVE");
}

#[test]
fn row_state_for_update_keeps_cached_row_while_tab_rename_event_is_pending() {
    let schema = test_schema("status");
    let legacy_tab = TabInfo::named(2, "status=\"IDLE\"");
    let cached_tab = TabInfo::named(2, "__super_tabs_id=\"st-2\" | status=\"RUNNING\"");

    let mut state = State {
        tabs: vec![legacy_tab.clone()],
        pending_tab_id_by_position: pending(&[(2, "st-2")]),
        ..Default::default()
    };

    state.rows_by_tab_id.insert(
        "st-2".to_string(),
        build_row_state_from_tab_name(&cached_tab.name, &schema)
            .expect("cached tab name should decode"),
    );

    let loaded = state.row_state_for_update(
        &Desk::new(),
        &legacy_tab,
        "st-2",
        &schema,
        RowLoadPolicy::pending_rename(false),
    );

    assert_eq!(loaded.source, RowSource::Cached);
    assert_eq!(loaded.row.cells[0].as_ref().unwrap().raw_input, "RUNNING");
    assert_eq!(
        state.resolved_tab_id_for_tab(&legacy_tab).as_deref(),
        Some("st-2")
    );
}

#[test]
fn session_write_leader_claim_allows_one_writer() {
    let session_name = "super-tabs-writer-leader";
    let mut file = None;
    let mut leader = test_pipe_state(11, session_name, &[11, 22]);
    let mut follower = test_pipe_state(22, session_name, &[11, 22]);

    assert_eq!(write_role(&mut leader, &mut file, 1_000_000), WriteRole::Leader);
    assert_eq!(write_role(&mut follower, &mut file, 1_000_001), WriteRole::Follower);
}

#[test]
fn session_write_leader_reclaims_stale_claim() {
    let session_name = "super-tabs-writer-leader-stale";
    let mut file = Some(WriterLeaderClaim {
        version: 1,
        plugin_id: 11,
        observed_at_ms: 0,
    });

    let mut replacement = test_pipe_state(22, session_name, &[11, 22]);

    assert_eq!(write_role(&mut replacement, &mut file, 1_000_000), WriteRole::Leader);
    assert_eq!(file.unwrap().plugin_id, 22);
}

#[test]
fn session_write_leader_waits_for_shared_state_mount() {
    let mut state = State {
        plugin_id: Some(22),
        mode_info: ModeInfo {
            session_name: Some("main".to_string()),
            stamp: 0,
        },
        shared_state_ready: false,
        ..Default::default()
    };

    assert_eq!(write_role(&mut state, &mut None, 0), WriteRole::Unavailable);
}

#[test]
fn roles_are_remembered_for_a_while() {
    let mut state = test_pipe_state(22, "main", &[22]);
    let mut file = Some(leader_claim(11, 500));
    assert_eq!(write_role(&mut state, &mut file, 1_000), WriteRole::Follower);
    file = None;
    assert_eq!(write_role(&mut state, &mut file, 2_000), WriteRole::Follower);
    assert_eq!(write_role(&mut state, &mut file, 2_001), WriteRole::Leader);
    let mut nameless = test_pipe_state(22, "", &[22]);
    assert_eq!(nameless.write_role(5), Some(WriteRole::Unavailable));
    let mut anonymous = test_pipe_state(22, "main", &[22]);
    anonymous.plugin_id = None;
    assert_eq!(anonymous.write_role(5), Some(WriteRole::Leader));
}

#[test]
fn claims_to_lead_hold_for_their_time() {
    let claim = leader_claim(11, 100);
    assert_eq!(claim_step(Some(claim), 11, 1_000_000), ClaimStep::Renew);
    assert_eq!(claim_step(Some(claim), 22, 100 + LEADER_TTL_MS), ClaimStep::Yield);
    assert_eq!(claim_step(Some(claim), 22, 101 + LEADER_TTL_MS), ClaimStep::Seize);
    assert_eq!(claim_step(Some(claim), 22, 0), ClaimStep::Yield);
    assert_eq!(claim_step(None, 22, 0), ClaimStep::Seize);
    let other = WriterLeaderClaim { version: 2, ..claim };
    assert_eq!(claim_step(Some(other), 11, 100), ClaimStep::Seize);
    assert!(!leads_after(ClaimStep::Renew, false, Some(claim), 11));
    assert!(leads_after(ClaimStep::Renew, true, None, 11));
    assert!(!leads_after(ClaimStep::Seize, true, Some(claim), 22));
    assert!(!leads_after(ClaimStep::Seize, true, None, 22));
    assert!(!leads_after(ClaimStep::Yield, true, Some(claim), 11));
    assert_eq!(LEADER_FILE_NAME, "writer-leader.json");
}

#[test]
fn pending_tab_claim_key_tracks_terminal_panes_across_position_shift() {
    let state_before_close = State {
        pane_manifest: PaneManifest {
            panes: vec![(7, vec![test_terminal_pane(19), test_terminal_pane(20)])],
        },
        ..Default::default()
    };
    let tab_before_close = TabInfo::named(7, "status=\"IDLE\"");
    let state_after_close = State {
        pane_manifest: PaneManifest {
            panes: vec![(6, vec![test_terminal_pane(20), test_terminal_pane(19)])],
        },
        ..Default::default()
    };
    let tab_after_close = TabInfo::named(6, &tab_before_close.name);

    assert_eq!(
        state_before_close.pending_tab_claim_key_for_tab(&tab_before_close),
        "panes-19_20"
    );
    assert_eq!(
        state_after_close.pending_tab_claim_key_for_tab(&tab_after_close),
        "panes-19_20"
    );
    assert_eq!(claim_key_for_panes(&vec![], 5), "position-5");
    assert_eq!(claim_key_for_panes(&vec![10, 9, 100], 5), "panes-9_10_100");
}

#[test]
fn default_zellij_tab_gets_pending_claim_after_panes_are_known() {
    let session_name = "super-tabs-default-tab-claim";
    let schema = test_schema("status");
    let mut state = with_schema(test_pipe_state(11, session_name, &[11]), &schema);
    state.tabs = vec![TabInfo::named(16, "Tab #18")];
    let mut desk = Desk::new();

    assert!(!state.reconcile_rows_with_tabs(&mut desk, WriteRole::Leader));
    assert!(state.pending_tab_id_by_position.is_empty());

    state.pane_manifest = PaneManifest {
        panes: vec![(16, vec![test_terminal_pane(33), test_terminal_pane(34)])],
    };

    assert!(state.reconcile_rows_with_tabs(&mut desk, WriteRole::Leader));
    let tab_id = state.pending_tab_id_by_position.get(16).unwrap();
    assert!(state.rows_by_tab_id.is_empty());
    assert_eq!(
        state.pending_tab_claim_key_for_tab(&state.tabs[0]),
        "panes-33_34"
    );
    assert_eq!(
        desk.claims
            .get(&state.pending_tab_claim_key_for_tab(&state.tabs[0]))
            .unwrap()
            .tab_id,
        *tab_id
    );
    assert_eq!(tab_id, "st-11-1");
    assert!(matches!(
        desk.effects.last(),
        Some(Effect::WriteClaim { position: 16, .. })
    ));
}

#[test]
fn pipe_update_waits_for_pane_manifest() {
    let session_name = "super-tabs-deferred-pipe";
    let schema = test_schema("status");
    let mut state = with_schema(test_pipe_state(11, session_name, &[11]), &schema);
    state.tabs = vec![TabInfo::named(0, "Tab #1")];
    let mut desk = Desk::new();

    let payload = payload(33, &[("status", "READY")]);

    assert!(!state.handle_update_payload(&mut desk, payload, WriteRole::Leader));
    assert_eq!(state.pending_pipe_updates.len(), 1);

    state.pane_manifest = PaneManifest {
        panes: vec![(0, vec![test_terminal_pane(33)])],
    };
    state.rebuild_pane_lookup();

    assert!(replay_pending_pipe_updates(&mut state, &mut desk));
    assert!(state.pending_pipe_updates.is_empty());
    let tab_id = state.pending_tab_id_by_position.get(0).unwrap();
    let row = state.rows_by_tab_id.get(tab_id).unwrap();
    assert_eq!(row.cells[0].as_ref().unwrap().raw_input, "READY");
}

#[test]
fn metadata_pipe_update_preserves_persisted_styled_status() {
    let session_name = "super-tabs-styled-status-preserve";
    let schema = test_schema("status,directory,branch");
    let mut state = with_schema(test_pipe_state(11, session_name, &[11]), &schema);
    state.tabs = vec![TabInfo::named(0, "Tab #1")];
    state.pane_manifest = PaneManifest {
        panes: vec![(0, vec![test_plugin_pane(11), test_terminal_pane(33)])],
    };
    state.rebuild_pane_lookup();
    let mut desk = Desk::new();

    let styled_status = "#[fg=#ebdbb2,bg=#504945,bold]IDLE".to_string();
    assert!(state.handle_update_payload(
        &mut desk,
        payload(33, &[("status", &styled_status)]),
        WriteRole::Leader,
    ));

    let tab_id = state.pending_tab_id_by_position.get(0).unwrap().clone();
    let mirrored_name = state
        .rows_by_tab_id
        .get(&tab_id)
        .unwrap()
        .last_mirrored_tab_name
        .clone()
        .unwrap();
    state.tabs[0].name = mirrored_name;

    assert!(state.handle_update_payload(
        &mut desk,
        payload(33, &[("directory", "infrastructure"), ("branch", "main")]),
        WriteRole::Leader,
    ));

    let row = state.rows_by_tab_id.get(&tab_id).unwrap();
    assert_eq!(row.cells[0].as_ref().unwrap().raw_input, styled_status);

    let persisted = desk.rows.get(&tab_id).unwrap();
    assert_eq!(persisted.cells.get("status").unwrap(), &styled_status);
    assert_eq!(persisted.cells.get("directory").unwrap(), "infrastructure");
    assert_eq!(persisted.cells.get("branch").unwrap(), "main");
    match desk.effects.last() {
        Some(Effect::RenameTab { position, name }) => {
            assert_eq!(*position, 0);
            assert_eq!(
                name,
                "__super_tabs_id=\"st-11-1\" | status=\"IDLE\" | directory=\"infrastructure\" | branch=\"main\""
            );
        }
        other => panic!("{other:?}"),
    }
}

#[test]
fn follower_reconcile_skips_legacy_migration() {
    let schema = test_schema("status");
    let mut follower = with_schema(test_pipe_state(22, "main", &[11, 22]), &schema);
    follower.tabs = vec![TabInfo::named(2, "status=\"IDLE\"")];
    let mut desk = Desk::new();

    assert!(!follower.reconcile_rows_with_tabs(&mut desk, WriteRole::Follower));
    assert!(follower.rows_by_tab_id.is_empty());
    assert!(follower.pending_tab_id_by_position.is_empty());
    assert!(desk.effects.is_empty());
}

#[test]
fn leader_reconcile_migrates_legacy_names() {
    let schema = test_schema("status");
    let mut leader = with_schema(test_pipe_state(11, "main", &[11]), &schema);
    leader.tabs = vec![TabInfo::named(2, "status=\"IDLE\"")];
    let mut desk = Desk::new();

    assert!(leader.reconcile_rows_with_tabs(&mut desk, WriteRole::Leader));
    let row = leader.rows_by_tab_id.get("st-11-1").unwrap();
    assert_eq!(row.cells[0].as_ref().unwrap().plain_text, "IDLE");
    assert_eq!(leader.width_indexes[0].max(), 4);
    assert_eq!(
        desk.rows.get("st-11-1").unwrap().cells.get("status").unwrap(),
        "IDLE"
    );
    assert!(matches!(
        desk.effects.last(),
        Some(Effect::RenameTab { position: 2, .. })
    ));
    assert!(!leader.reconcile_rows_with_tabs(&mut desk, WriteRole::Leader));
}

#[test]
fn tabs_with_the_same_id_are_told_apart() {
    let schema = test_schema("status");
    let name = "__super_tabs_id=\"st-3\" | status=\"IDLE\"";
    let mut state = with_schema(test_pipe_state(11, "main", &[11]), &schema);
    state.tabs = vec![TabInfo::named(0, name), TabInfo::named(1, name)];
    let mut follower = with_schema(test_pipe_state(22, "main", &[11]), &schema);
    follower.tabs = state.tabs.clone();

    let mut desk = Desk::new();
    assert!(follower.reconcile_rows_with_tabs(&mut desk, WriteRole::Follower));
    assert_eq!(follower.rows_by_tab_id.len(), 1);
    assert!(desk.effects.is_empty());

    assert!(state.reconcile_rows_with_tabs(&mut desk, WriteRole::Leader));
    assert_eq!(state.rows_by_tab_id.len(), 2);
    assert_eq!(state.pending_tab_id_by_position.get(1).unwrap(), "st-11-1");
    assert!(state.rows_by_tab_id.get("st-11-1").unwrap().cells[0].is_none());
}

#[test]
fn manual_names_stay_until_the_first_write() {
    let schema = test_schema("status");
    let mut state = with_schema(test_pipe_state(11, "main", &[11]), &schema);
    state.tabs = vec![TabInfo::named(0, "my tab")];
    state.pane_manifest = PaneManifest {
        panes: vec![(0, vec![test_terminal_pane(33)])],
    };
    state.rebuild_pane_lookup();
    let mut desk = Desk::new();

    assert!(!state.reconcile_rows_with_tabs(&mut desk, WriteRole::Leader));
    assert!(desk.effects.is_empty());
    assert!(state.handle_update_payload(&mut desk, payload(33, &[("status", "ok")]), WriteRole::Leader));
    assert!(matches!(
        desk.effects.last(),
        Some(Effect::RenameTab { position: 0, .. })
    ));
}

#[test]
fn names_bring_rows_back_without_files() {
    let schema = test_schema("branch,status");
    let mut state = with_schema(test_pipe_state(22, "main", &[]), &schema);
    state.shared_state_ready = false;
    state.tabs = vec![TabInfo::named(0, "__super_tabs_id=\"st-11-4\" | branch=\"a \\\"b\\\"\"")];
    let mut desk = Desk::new();
    assert!(state.reconcile_rows_with_tabs(&mut desk, WriteRole::Unavailable));
    let row = state.rows_by_tab_id.get("st-11-4").unwrap();
    assert_eq!(row.cells[0].as_ref().unwrap().plain_text, "a \"b\"");
    assert!(row.cells[1].is_none());
}

#[test]
fn followers_show_updates_and_write_nothing() {
    let schema = test_schema("status");
    let mut state = with_schema(test_pipe_state(22, "main", &[]), &schema);
    state.tabs = vec![TabInfo::named(0, "__super_tabs_id=\"st-1\" | status=\"a\""), TabInfo::named(1, "x")];
    state.pane_manifest = PaneManifest {
        panes: vec![(0, vec![test_terminal_pane(1)]), (1, vec![test_terminal_pane(2)])],
    };
    state.rebuild_pane_lookup();
    let mut desk = Desk::new();
    assert!(state.handle_update_payload(&mut desk, payload(1, &[("status", "bc")]), WriteRole::Follower));
    assert_eq!(state.width_indexes[0].max(), 2);
    assert!(!state.handle_update_payload(&mut desk, payload(2, &[("status", "bc")]), WriteRole::Follower));
    assert!(state.pending_pipe_updates.is_empty());
    assert!(!state.handle_update_payload(&mut desk, payload(2, &[("status", "bc")]), WriteRole::Unavailable));
    assert_eq!(state.pending_pipe_updates.len(), 1);
    assert!(desk.effects.is_empty());
    assert!(desk.rows.is_empty());
}

#[test]
fn waiting_updates_are_few_and_different() {
    let schema = test_schema("status");
    let mut state = with_schema(State::default(), &schema);
    let mut desk = Desk::new();
    for pane in 0..70u32 {
        for _ in 0..2 {
            state.handle_update_payload(&mut desk, payload(pane, &[("status", "x")]), WriteRole::Leader);
        }
    }
    assert_eq!(state.pending_pipe_updates.len(), MAX_DEFERRED);
    assert_eq!(state.pending_pipe_updates[0].pane_id, 6);
    assert_eq!(state.pending_pipe_updates[63].pane_id, 69);
    let mut without = State::default();
    assert!(!without.handle_update_payload(&mut desk, payload(1, &[("a", "b")]), WriteRole::Leader));
    assert!(without.pending_pipe_updates.is_empty());
}

#[test]
fn session_key_waits_for_shared_state_mount() {
    let state = State {
        mode_info: ModeInfo {
            session_name: Some("main".to_string()),
            stamp: 0,
        },
        shared_state_ready: false,
        ..Default::default()
    };

    assert_eq!(state.session_key(), None);
}

#[test]
fn session_keys_are_plain() {
    let mut state = test_pipe_state(1, "a b/ü.-_9", &[]);
    assert_eq!(state.session_key().as_deref(), Some("a_b__.-_9"));
    state.mode_info.session_name = Some(String::new());
    assert_eq!(state.session_key(), None);
    state.mode_info.session_name = None;
    assert_eq!(state.session_key(), None);
    assert_eq!(sanitize_session_key("ok"), "ok");
}

#[test]
fn resolves_configured_shared_state_host_folder() {
    let configured = "/tmp/super-tabs-state".to_string();
    let path = resolve_shared_state_host_folder(Some(&configured), &None, &None).unwrap();

    assert_eq!(path, "/tmp/super-tabs-state");
}

#[test]
fn shared_folders_are_found_like_paths() {
    let home = Some("/home/me".to_string());
    let xdg = Some("/data".to_string());
    let empty = Some(String::new());
    let find = |text: &str, xdg: &Option<String>, home: &Option<String>| {
        resolve_shared_state_host_folder(Some(&text.to_string()), xdg, home)
    };
    assert_eq!(find("~", &None, &home).unwrap(), "/home/me");
    assert_eq!(find("~/a/b", &None, &home).unwrap(), "/home/me/a/b");
    assert_eq!(find("~//etc", &None, &home).unwrap(), "/etc");
    assert_eq!(find(" ", &xdg, &home).unwrap(), "/data");
    assert_eq!(find("", &empty, &home).unwrap(), "/home/me/.local/share");
    assert_eq!(
        resolve_shared_state_host_folder(None, &None, &Some("/h/".to_string())).unwrap(),
        "/h/.local/share"
    );
    assert_eq!(
        find("~", &None, &None).unwrap_err(),
        "cannot expand ~ because HOME is unavailable"
    );
    assert_eq!(
        find("~/x", &None, &empty).unwrap_err(),
        "cannot expand ~/ because HOME is unavailable"
    );
    assert_eq!(
        find("rel/x", &None, &None).unwrap_err(),
        "state_host_folder must be an absolute path, got rel/x"
    );
    assert_eq!(
        resolve_shared_state_host_folder(None, &None, &None).unwrap_err(),
        "state_host_folder is required when HOME is unavailable"
    );
}

#[test]
fn minted_ids_are_new_and_read_back() {
    assert_eq!(format_minted_id(11, 7), "st-11-7");
    assert_eq!(parse_minted_super_tab_id("st-11-7"), Some((11, 7)));
    for text in ["st-11", "st-11-7-1", "st-x-1", "st-4294967296-1", "11-7", "st--1"] {
        assert_eq!(parse_minted_super_tab_id(text), None, "{text}");
    }
    let mut state = test_pipe_state(11, "main", &[]);
    state.tabs = vec![TabInfo::named(0, "__super_tabs_id=\"st-11-1\"")];
    state.rows_by_tab_id.insert("st-11-2".to_string(), TabRowState::empty(&test_schema("a")));
    state.pending_tab_id_by_position = pending(&[(4, "st-11-3")]);
    assert_eq!(state.mint_super_tab_id().as_deref(), Some("st-11-4"));
    assert_eq!(state.next_tab_id, 5);
    state.observe_tab_id("st-11-9");
    state.observe_tab_id("st-12-90");
    state.observe_tab_id("other");
    assert_eq!(state.mint_super_tab_id().as_deref(), Some("st-11-10"));
    state.observe_tab_id("st-11-18446744073709551615");
    assert_eq!(state.mint_super_tab_id().as_deref(), Some("st-11-18446744073709551615"));
    state.pending_tab_id_by_position = pending(&[(0, "st-11-18446744073709551615")]);
    assert_eq!(state.mint_super_tab_id(), None);
}

#[test]
fn names_without_an_id_are_told_apart() {
    for name in ["", "  ", "Tab #1", " Tab #23 ", "__super_tabs_id=\"x\"", "__super_tabs_id=\"x\" | a=\"\""] {
        assert_eq!(unmanaged_identity_for_name(name), IdentityState::UnmanagedDefault, "{name}");
    }
    for name in ["work", "Tab #", "Tab #1a", "a=\"b\"", "__super_tabs_id=\"x\" | a=\"b\""] {
        assert_eq!(unmanaged_identity_for_name(name), IdentityState::UnmanagedManual, "{name}");
    }
    assert!(is_default_zellij_tab_name("Tab #0"));
    assert!(!is_default_zellij_tab_name("tab #0"));
}

#[test]
fn settings_say_yes() {
    for value in ["1", "true", " YES ", "On"] {
        assert!(parse_bool_config(value), "{value}");
    }
    for value in ["0", "false", "", "yess", "o\u{212a}"] {
        assert!(!parse_bool_config(value), "{value}");
    }
}

#[test]
fn file_names_carry_their_keys() {
    assert_eq!(tab_file_name("st-1-2"), "tab-st-1-2.json");
    assert_eq!(pending_file_name("panes-1"), "pending-panes-1.json");
    assert_eq!(tab_file_key("tab-st-1-2.json").as_deref(), Some("st-1-2"));
    assert_eq!(pending_file_key("pending-panes-1.json").as_deref(), Some("panes-1"));
    assert_eq!(tab_file_key("pending-panes-1.json"), None);
    assert_eq!(tab_file_key("tab-x"), None);
    assert_eq!(tab_file_key("tab-.json").as_deref(), Some(""));
    assert_eq!(tab_file_key("tab-json"), None);
}

#[test]
fn kept_rows_are_read_back() {
    let schema = test_schema("branch,status");
    let mut row = TabRowState::empty(&schema);
    apply_updates_to_row(&mut row, &schema, &map(&[("status", "#[bold]ok"), ("branch", "x")]));
    apply_updates_to_row(&mut row, &schema, &map(&[("branch", "")]));
    let kept = persisted_row(&row, "name", &schema);
    assert!(!kept.cells.contains_key("branch"));
    let back = row_state_from_persisted(&kept, &schema).unwrap();
    assert!(back.cells[0].is_none());
    assert_eq!(back.cells[1], row.cells[1]);
    assert_eq!(back.last_mirrored_tab_name.as_deref(), Some("name"));
    let old = PersistedTabState { version: 2, ..kept.duplicate() };
    assert!(row_state_from_persisted(&old, &schema).is_none());
}

#[test]
fn loading_reads_the_configuration() {
    let config = map(&[
        ("columns", "a,b"),
        ("debug", "on"),
        ("overflow_above", "up {count}"),
        ("indicator_active", ">"),
        ("padding_top", "2"),
        ("border_char", "|"),
        ("state_host_folder", "/srv"),
    ]);
    let mut state = State::default();
    state.load(&config, 9, &None, &None);
    assert_eq!(state.plugin_id, Some(9));
    assert!(state.debug_enabled);
    assert_eq!(state.render.overflow_above, "up {count}");
    assert_eq!(state.render.overflow_below, "  v +{count}");
    assert_eq!(state.render.indicator_active, ">");
    assert_eq!(state.render.padding_top, 2);
    assert_eq!(state.render.border, "|");
    assert_eq!(state.shared_state_host_folder.as_deref(), Some("/srv"));
    assert_eq!(state.schema.as_ref().unwrap().len(), 2);
    assert_eq!(state.width_indexes.len(), 2);
    assert_eq!(state.load_error, None);

    let mut state = State::default();
    state.load(&map(&[("columns", "a"), ("padding_top", " 2"), ("border", "#")]), 9, &None, &None);
    assert_eq!(state.render.padding_top, 0);
    assert_eq!(state.render.border, "#");
    assert_eq!(
        state.load_error.as_deref(),
        Some("super-tabs config error: state_host_folder is required when HOME is unavailable")
    );

    state.load(&config, 10, &None, &None);
    assert_eq!(state.plugin_id, Some(10));
    assert_eq!(state.width_indexes.len(), 2);
    state.load(&map(&[]), 9, &None, &None);
    assert_eq!(state.schema.as_ref().unwrap().len(), 2);

    let mut state = State::default();
    state.load(&map(&[]), 9, &None, &None);
    assert_eq!(
        state.load_error.as_deref(),
        Some("super-tabs config error: missing `columns` plugin config")
    );
}

#[test]
fn events_wait_for_permission() {
    let mut state = State::default();
    state.shared_state_host_folder = Some("/srv".to_string());
    assert!(!state.update(Event::Visible(true)).should_render);
    assert!(!state.update(Event::ScrollDown).should_render);
    assert!(!state.update(Event::PermissionRequestResult(false)).should_render);
    assert_eq!(state.pending_events.len(), 2);
    let step = state.update(Event::PermissionRequestResult(true));
    assert!(step.should_render);
    assert!(state.permissions_granted && state.shared_state_mount_requested);
    assert!(state.pending_events.is_empty());
    assert_eq!(step.tasks.len(), 2);
    assert!(matches!(step.tasks[0], Task::Deliver(Event::Visible(true))));
    assert!(matches!(step.tasks[1], Task::Deliver(Event::ScrollDown)));
    assert!(matches!(step.effects[0], Effect::SetSelectable(false)));
    assert!(matches!(&step.effects[1], Effect::ChangeHostFolder(path) if path == "/srv"));

    let mut bare = State::default();
    let step = bare.update(Event::PermissionRequestResult(true));
    assert_eq!(step.effects.len(), 1);
    assert_eq!(
        bare.load_error.as_deref(),
        Some("super-tabs: no shared state folder configured and HOME/XDG_DATA_HOME unavailable")
    );
}

#[test]
fn events_leave_work_in_order() {
    let mut state = State::default();
    state.permissions_granted = true;
    let mode = ModeInfo { session_name: Some("s".to_string()), stamp: 1 };
    let step = state.update(Event::ModeUpdate(mode.clone()));
    assert!(step.should_render);
    assert!(matches!(step.tasks[..], [Task::Replay { affects_render: true }]));
    assert!(!state.update(Event::ModeUpdate(mode)).should_render);

    let mut second = TabInfo::named(1, "b");
    second.active = true;
    let tabs = vec![TabInfo::named(0, "a"), second];
    let step = state.update(Event::TabUpdate(tabs.clone()));
    assert!(step.should_render);
    assert_eq!(state.active_tab_idx, 2);
    assert!(matches!(step.tasks[..], [Task::Reconcile { affects_render: true }]));
    assert!(!state.update(Event::TabUpdate(tabs.clone())).should_render);
    let mut stamped = tabs;
    stamped[0].stamp = 7;
    assert!(state.update(Event::TabUpdate(stamped)).should_render);

    let manifest = PaneManifest { panes: vec![(1, vec![test_terminal_pane(5)])] };
    let step = state.update(Event::PaneUpdate(manifest));
    assert!(step.should_render);
    assert_eq!(state.pane_to_tab_position.get(5), Some(&1));
    assert!(matches!(
        step.tasks[..],
        [Task::Reconcile { affects_render: false }, Task::Replay { affects_render: false }]
    ));

    state.shared_state_mount_requested = true;
    assert!(state.update(Event::HostFolderChanged(false)).tasks.is_empty());
    assert!(!state.shared_state_ready && !state.shared_state_mount_requested);
    let step = state.update(Event::HostFolderChanged(true));
    assert!(state.shared_state_ready);
    assert!(matches!(
        step.tasks[..],
        [Task::Reconcile { affects_render: true }, Task::Replay { affects_render: true }]
    ));
    let step = state.update(Event::FailedToChangeHostFolder(None));
    assert!(step.should_render && !state.shared_state_ready);
    assert_eq!(
        state.load_error.as_deref(),
        Some("super-tabs failed to mount shared state folder: unknown error")
    );
    assert!(state.update(Event::Visible(false)).tasks.is_empty());
    assert!(matches!(
        state.update(Event::Visible(true)).tasks[..],
        [Task::Reconcile { affects_render: true }]
    ));
    assert!(state.update(Event::Other).effects.is_empty());
}

#[test]
fn scrolling_stays_among_the_tabs() {
    let mut state = State::default();
    state.permissions_granted = true;
    state.tabs = vec![TabInfo::named(0, "a"), TabInfo::named(1, "b")];
    for (active, up, down) in [(0usize, 1usize, 1usize), (1, 1, 2), (2, 1, 2)] {
        state.active_tab_idx = active;
        let step = state.update(Event::ScrollUp);
        assert!(matches!(step.effects[..], [Effect::SwitchTab(index)] if index == up));
        let step = state.update(Event::ScrollDown);
        assert!(matches!(step.effects[..], [Effect::SwitchTab(index)] if index == down));
    }
}

#[test]
fn messages_select_and_update() {
    let mut state = State::default();
    assert!(state.pipe("super-tabs:update", Some("{}")).is_update);
    assert!(!state.pipe("super-tabs:update", None).is_update);
    let step = state.pipe("set_selectable", Some("true"));
    assert!(state.is_selectable && !step.is_update);
    assert!(matches!(step.effects[..], [Effect::SetSelectable(true)]));
    assert!(state.pipe("set_selectable", Some("maybe")).effects.is_empty());
    assert!(state.pipe("set_selectable", None).effects.is_empty());
    let step = state.pipe("toggle_selectable", None);
    assert!(!state.is_selectable);
    assert!(matches!(step.effects[..], [Effect::SetSelectable(false)]));
    state.pipe("toggle_selectable", None);
    let step = state.pipe("set_selectable", Some("false"));
    assert!(!state.is_selectable);
    assert!(matches!(step.effects[..], [Effect::SetSelectable(false)]));
    assert!(state.pipe("other", Some("x")).effects.is_empty());
}

#[test]
fn replayed_updates_see_what_the_store_took() {
    let replayed = |store_takes: bool| {
        let schema = test_schema("status");
        let mut state = with_schema(test_pipe_state(11, "session", &[]), &schema);
        state.tabs = vec![TabInfo::named(0, "Tab #1")];
        let mut desk = Desk::new();
        for status in ["A", "B"] {
            let waiting = payload(33, &[("status", status)]);
            assert!(!state.handle_update_payload(&mut desk, waiting, WriteRole::Leader));
        }
        state.pane_manifest = PaneManifest {
            panes: vec![(0, vec![test_terminal_pane(33)])],
        };
        state.rebuild_pane_lookup();
        let mut replay = state.begin_replay();
        assert_eq!(replay.waiting.len(), 2);
        assert!(state.pending_pipe_updates.is_empty());
        while !replay.waiting.is_empty() {
            if !store_takes {
                desk = Desk::new();
            }
            state.replay_pending_pipe_update(&mut replay, &mut desk, WriteRole::Leader);
        }
        assert!(replay.changed);
        state.pending_tab_id_by_position.get(0).unwrap().clone()
    };
    assert_eq!(replayed(true), "st-11-1");
    assert_eq!(replayed(false), "st-11-2");
}

#[test]
fn followers_take_rows_from_names_alone() {
    let schema = test_schema("status");
    let mut state = with_schema(test_pipe_state(11, "session", &[]), &schema);
    state.tabs = vec![
        TabInfo::named(0, "__super_tabs_id=\"x\" | status=\"ok\""),
        TabInfo::named(1, "Tab #2"),
        TabInfo::named(2, "notes"),
    ];
    state.pending_tab_id_by_position = pending(&[(1, "st-11-4")]);
    let mut desk = Desk::new();
    assert!(state.reconcile_rows_with_tabs(&mut desk, WriteRole::Follower));
    assert!(desk.effects.is_empty());
    assert!(state.pending_tab_id_by_position.is_empty());
    assert_eq!(state.rows_by_tab_id.len(), 1);
    assert!(state.rows_by_tab_id.contains_key("x"));
    assert_eq!(state.width_indexes[0].max(), 2);
}

#[test]
fn number_maps_hold_one_value_for_each_key() {
    let mut map = pending(&[(7, "b"), (3, "a")]);
    assert_eq!(map.keys(), [3, 7]);
    assert!(map.holds(&"b".to_string()));
    assert!(!map.holds(&"c".to_string()));
    map.insert(7, "c".to_string());
    assert!(map == pending(&[(3, "a"), (7, "c")]));
    assert!(map.duplicate() == map);
    assert!(map != pending(&[(3, "a")]));
    assert_eq!(map.remove(7).as_deref(), Some("c"));
    assert_eq!(map.remove(7), None);
    assert!(!map.contains_key(7) && map.contains_key(3));
    map.remove(3);
    assert!(map.is_empty() && map.keys().is_empty());
}
